use sundial::matching::{candidates, read_assignment, uncross, Mcmf};

#[test]
fn candidates_merge_support_and_nearest_in_order() {
    assert_eq!(candidates(10, &vec![7, 2, 7], &vec![5, 2, 9, 0], 2), vec![2, 5, 7]);
    assert_eq!(candidates(10, &vec![], &vec![5, 2, 9, 0], 8), vec![0, 2, 5, 9]);
    assert_eq!(candidates(10, &vec![3], &vec![5, 2, 9, 0], 0), vec![3]);
    assert_eq!(candidates(0, &vec![], &vec![], 8), Vec::<usize>::new());
}

#[test]
fn residual_graph_pairs_edges() {
    let mut g: Mcmf<f64> = Mcmf::new(3);
    assert_eq!(g.adj.len(), 3);
    let e = g.add(0, 1, 1, 2.5, -2.5);
    assert_eq!(e, 0);
    let f = g.add(1, 2, 1, 0.0, -0.0);
    assert_eq!(f, 2);
    assert_eq!(g.to, vec![1, 0, 2, 1]);
    assert_eq!(g.cap, vec![1, 0, 1, 0]);
    assert_eq!(g.cost, vec![2.5, -2.5, 0.0, -0.0]);
    assert_eq!(g.adj, vec![vec![0], vec![1, 2], vec![3]]);
}

#[test]
fn pushing_flow_moves_capacity_to_the_reverse_edge() {
    let mut g: Mcmf<i32> = Mcmf::new(2);
    let e = g.add(0, 1, 3, 7, -7);
    assert_eq!(g.push_unit(e), 0);
    assert_eq!(g.cap, vec![2, 1]);
    assert_eq!(g.push_unit(e + 1), 1);
    assert_eq!(g.cap, vec![3, 0]);
}

#[test]
fn self_loop_lists_both_directions() {
    let mut g: Mcmf<u8> = Mcmf::new(1);
    let e = g.add(0, 0, 1, 1, 0);
    assert_eq!(g.adj, vec![vec![e, e + 1]]);
    assert_eq!(g.to, vec![0, 0]);
}

#[test]
fn uncross_swaps_until_nothing_crosses() {
    // Riders 0..4 on a line, cabs listed in reverse: "crossing" means the
    // lower rider has the higher cab.
    let mut a: Vec<u32> = vec![3, 2, 1, 0];
    let crosses = |_: usize, _: usize, x: u32, y: u32| x > y;
    assert!(uncross(&mut a, &crosses, 10));
    assert_eq!(a, vec![0, 1, 2, 3]);
}

#[test]
fn uncross_gives_up_after_the_pass_limit() {
    let mut a: Vec<u32> = vec![5, 9];
    let always = |_: usize, _: usize, _: u32, _: u32| true;
    assert!(!uncross(&mut a, &always, 3));
    assert_eq!(a, vec![9, 5]); // three swaps
    let mut b: Vec<u32> = vec![1, 2];
    assert!(!uncross(&mut b, &always, 0));
    assert_eq!(b, vec![1, 2]);
}

#[test]
fn uncross_without_crossings_is_one_pass() {
    let mut a: Vec<u32> = vec![4, 1, 7];
    let never = |_: usize, _: usize, _: u32, _: u32| false;
    assert!(uncross(&mut a, &never, 1));
    assert_eq!(a, vec![4, 1, 7]);
}

#[test]
fn assignment_reads_the_first_saturated_edge() {
    let mut g: Mcmf<f64> = Mcmf::new(4);
    let e0 = g.add(0, 2, 1, 1.0, -1.0);
    let e1 = g.add(0, 3, 1, 2.0, -2.0);
    let e2 = g.add(1, 2, 1, 3.0, -3.0);
    g.push_unit(e1);
    let a = read_assignment(&g, &vec![vec![(5, e0), (6, e1)], vec![(7, e2)], vec![]]);
    assert_eq!(a, vec![6, u32::MAX, u32::MAX]);
    g.push_unit(e2);
    g.push_unit(e0);
    let a = read_assignment(&g, &vec![vec![(5, e0), (6, e1)], vec![(7, e2)]]);
    assert_eq!(a, vec![5, 7]);
}
