//! The integer side of rounding a transport plan to a rider→cab matching:
//! each rider's candidate cabs, and the residual graph of the min-cost flow
//! that picks among them.
use vstd::prelude::*;

verus! {

/// `s` lists its items in strictly increasing order.
pub open spec fn strictly_increasing(s: Seq<usize>) -> bool {
    forall|i: int, j: int| 0 <= i < j < s.len() ==> #[trigger] s[i] < #[trigger] s[j]
}

/// A rider's candidate cabs: those of the plan's support, and the first `k`
/// of `nearest` (cabs by increasing distance).
pub open spec fn is_candidate(support: Seq<usize>, nearest: Seq<usize>, k: int, j: usize) -> bool {
    support.contains(j) || exists|i: int| 0 <= i < k && i < nearest.len() && nearest[i] == j
}

/// The candidate cabs among `0..nt`, each once, in increasing order.
pub fn candidates(nt: usize, support: &Vec<usize>, nearest: &Vec<usize>, k: usize) -> (r: Vec<usize>)
    requires
        forall|i: int| 0 <= i < support@.len() ==> #[trigger] support@[i] < nt,
        forall|i: int| 0 <= i < nearest@.len() ==> #[trigger] nearest@[i] < nt,
    ensures
        strictly_increasing(r@),
        forall|j: usize| r@.contains(j) <==> j < nt && is_candidate(support@, nearest@, k as int, j),
{
    let mut marked: Vec<bool> = Vec::new();
    let mut j: usize = 0;
    while j < nt
        invariant
            j <= nt,
            marked@.len() == j,
            forall|q: int| 0 <= q < j ==> !marked@[q],
        decreases nt - j,
    {
        marked.push(false);
        j = j + 1;
    }
    let mut i: usize = 0;
    while i < support.len()
        invariant
            i <= support@.len(),
            marked@.len() == nt,
            forall|q: int| 0 <= q < support@.len() ==> #[trigger] support@[q] < nt,
            forall|c: usize| c < nt ==> (#[trigger] marked@[c as int] <==> exists|q: int| 0 <= q < i && support@[q] == c),
        decreases support@.len() - i,
    {
        let c = support[i];
        marked.set(c, true);
        i = i + 1;
    }
    proof {
        assert forall|c: usize| c < nt implies (#[trigger] marked@[c as int] <==> support@.contains(c)) by {
            if marked@[c as int] {
                let q = choose|q: int| 0 <= q < support@.len() && support@[q] == c;
                assert(support@[q] == c);
            }
        }
    }
    let lim = if k < nearest.len() { k } else { nearest.len() };
    let mut i: usize = 0;
    while i < lim
        invariant
            i <= lim,
            lim <= nearest@.len(),
            lim == k || lim == nearest@.len(),
            lim <= k,
            marked@.len() == nt,
            forall|q: int| 0 <= q < nearest@.len() ==> #[trigger] nearest@[q] < nt,
            forall|c: usize| c < nt ==> (#[trigger] marked@[c as int] <==> (support@.contains(c)
                || exists|q: int| 0 <= q < i && nearest@[q] == c)),
        decreases lim - i,
    {
        let c = nearest[i];
        marked.set(c, true);
        i = i + 1;
    }
    proof {
        assert forall|c: usize| c < nt implies (#[trigger] marked@[c as int] <==> is_candidate(support@, nearest@, k as int, c)) by {
            if exists|q: int| 0 <= q < k && q < nearest@.len() && nearest@[q] == c {
                let q = choose|q: int| 0 <= q < k && q < nearest@.len() && nearest@[q] == c;
                assert(0 <= q < lim && nearest@[q] == c);
            }
            if exists|q: int| 0 <= q < lim && nearest@[q] == c {
                let q = choose|q: int| 0 <= q < lim && nearest@[q] == c;
                assert(0 <= q < k && q < nearest@.len() && nearest@[q] == c);
            }
        }
    }
    let mut out: Vec<usize> = Vec::new();
    let mut j: usize = 0;
    while j < nt
        invariant
            j <= nt,
            marked@.len() == nt,
            strictly_increasing(out@),
            forall|q: int| 0 <= q < out@.len() ==> #[trigger] out@[q] < j,
            forall|c: usize| c < j ==> (out@.contains(c) <==> #[trigger] marked@[c as int]),
            forall|c: usize| c < nt ==> (#[trigger] marked@[c as int] <==> is_candidate(support@, nearest@, k as int, c)),
        decreases nt - j,
    {
        if marked[j] {
            let ghost before = out@;
            out.push(j);
            proof {
                assert forall|c: usize| c < j + 1 implies (out@.contains(c) <==> #[trigger] marked@[c as int]) by {
                    if c < j {
                        if out@.contains(c) {
                            let q = choose|q: int| 0 <= q < out@.len() && out@[q] == c;
                            if q == out@.len() - 1 {
                                assert(out@[q] == j);
                            }
                            assert(before.contains(c)) by {
                                assert(before[q] == c);
                            }
                        } else {
                            if marked@[c as int] {
                                let q = choose|q: int| 0 <= q < before.len() && before[q] == c;
                                assert(out@[q] == c);
                            }
                        }
                    } else {
                        assert(out@[out@.len() - 1] == j);
                    }
                }
            }
        } else {
            proof {
                assert forall|c: usize| c < j + 1 implies (out@.contains(c) <==> #[trigger] marked@[c as int]) by {
                    if c == j && out@.contains(c) {
                        let q = choose|q: int| 0 <= q < out@.len() && out@[q] == c;
                        assert(out@[q] < j);
                    }
                }
            }
        }
        j = j + 1;
    }
    proof {
        assert forall|c: usize| out@.contains(c) <==> c < nt && is_candidate(support@, nearest@, k as int, c) by {
            if out@.contains(c) {
                let q = choose|q: int| 0 <= q < out@.len() && out@[q] == c;
                assert(out@[q] < nt);
            }
            if c < nt {
                assert(out@.contains(c) <==> marked@[c as int]);
            }
        }
    }
    out
}

/// `s` holds no value twice.
pub open spec fn no_repeats(s: Seq<u32>) -> bool {
    forall|i: int, j: int| 0 <= i < j < s.len() ==> #[trigger] s[i] != #[trigger] s[j]
}

/// `t` holds the values of `s`, as many: the same length and the same
/// values, and no repeats when `s` has none.
pub open spec fn rearranges(t: Seq<u32>, s: Seq<u32>) -> bool {
    &&& t.len() == s.len()
    &&& forall|v: u32| t.contains(v) <==> s.contains(v)
    &&& no_repeats(s) ==> no_repeats(t)
}

proof fn lemma_swap_rearranges(s: Seq<u32>, a: int, b: int)
    requires
        0 <= a < b < s.len(),
    ensures
        rearranges(s.update(a, s[b]).update(b, s[a]), s),
{
    let t = s.update(a, s[b]).update(b, s[a]);
    assert forall|v: u32| t.contains(v) <==> s.contains(v) by {
        if t.contains(v) {
            let i = choose|i: int| 0 <= i < t.len() && t[i] == v;
            if i == a {
                assert(s[b] == v);
            } else if i == b {
                assert(s[a] == v);
            } else {
                assert(s[i] == v);
            }
        }
        if s.contains(v) {
            let i = choose|i: int| 0 <= i < s.len() && s[i] == v;
            if i == a {
                assert(t[b] == v);
            } else if i == b {
                assert(t[a] == v);
            } else {
                assert(t[i] == v);
            }
        }
    }
    if no_repeats(s) {
        let swap_of = |i: int| if i == a { b } else if i == b { a } else { i };
        assert forall|i: int, j: int| 0 <= i < j < t.len() implies #[trigger] t[i] != #[trigger] t[j] by {
            assert(t[i] == s[swap_of(i)] && t[j] == s[swap_of(j)]);
            if swap_of(i) < swap_of(j) {
                assert(s[swap_of(i)] != s[swap_of(j)]);
            } else {
                assert(s[swap_of(j)] != s[swap_of(i)]);
            }
        }
    }
}

/// Pair `(a, b)` of a pass after the answer `yes`: the two cabs trade
/// places when `yes` holds.
pub open spec fn swap_if(s: Seq<u32>, a: int, b: int, yes: bool) -> Seq<u32> {
    if yes {
        Seq::new(s.len(), |i: int| if i == a { s[b] } else if i == b { s[a] } else { s[i] })
    } else {
        s
    }
}

/// The rest of an uncrossing pass over `s`, from pair `(a, b)` on, turns
/// `s` into `t` when `crosses` gives the answers `ans`: the pairs are
/// visited in the order `(0, 1), (0, 2), .., (0, n - 1), (1, 2), ..`, each
/// asked `crosses(a, b, cab of a, cab of b)` on the current cabs, and the
/// cabs are swapped exactly when the answer is `true`.
pub open spec fn pass_runs<F: Fn(usize, usize, u32, u32) -> bool>(
    crosses: F,
    s: Seq<u32>,
    a: int,
    b: int,
    ans: Seq<bool>,
    t: Seq<u32>,
) -> bool
    decreases s.len() - a, s.len() - b,
{
    if a >= s.len() {
        ans.len() == 0 && t == s
    } else if b >= s.len() {
        pass_runs(crosses, s, a + 1, a + 2, ans, t)
    } else {
        &&& ans.len() > 0
        &&& crosses.ensures((a as usize, b as usize, s[a], s[b]), ans[0])
        &&& pass_runs(crosses, swap_if(s, a, b, ans[0]), a, b + 1, ans.drop_first(), t)
    }
}

/// A run of whole passes: pass `k` takes `states[k]` to `states[k + 1]`
/// with the answers `answers[k]`.
pub open spec fn sweep_runs<F: Fn(usize, usize, u32, u32) -> bool>(
    crosses: F,
    states: Seq<Seq<u32>>,
    answers: Seq<Seq<bool>>,
) -> bool {
    &&& states.len() == answers.len() + 1
    &&& forall|k: int| 0 <= k < answers.len() ==> pass_runs(crosses, states[k], 0, 1, #[trigger] answers[k], states[k + 1])
}

/// The uncrossing sweep over an assignment (`assignment[i]` is the cab of
/// rider `i`): each pass visits every pair `a < b` in order and swaps their
/// cabs when `crosses(a, b, cab of a, cab of b)` says the two segments
/// cross. The sweep stops after a pass without a swap, returning `true`, or
/// after `max_passes` passes that each swapped, returning `false`. Swapping
/// only rearranges the cabs, so an injective assignment stays injective.
pub fn uncross<F: Fn(usize, usize, u32, u32) -> bool>(assignment: &mut Vec<u32>, crosses: &F, max_passes: usize) -> (converged: bool)
    requires
        forall|a: usize, b: usize, x: u32, y: u32| crosses.requires((a, b, x, y)),
    ensures
        exists|states: Seq<Seq<u32>>, answers: Seq<Seq<bool>>|
            {
                &&& #[trigger] sweep_runs(*crosses, states, answers)
                &&& states[0] == old(assignment)@
                &&& states[answers.len() as int] == final(assignment)@
                &&& answers.len() <= max_passes
                &&& forall|k: int| 0 <= k < answers.len() - 1 ==> (#[trigger] answers[k]).contains(true)
                &&& converged <==> (answers.len() > 0 && !answers[answers.len() - 1].contains(true))
                &&& !converged ==> answers.len() == max_passes
            },
        rearranges(final(assignment)@, old(assignment)@),
        converged ==> forall|p: usize, q: usize|
            p < q < final(assignment)@.len() ==> crosses.ensures(
                (p, q, final(assignment)@[p as int], final(assignment)@[q as int]),
                false,
            ),
{
    let n = assignment.len();
    let ghost start = assignment@;
    let ghost mut states: Seq<Seq<u32>> = seq![assignment@];
    let ghost mut answers: Seq<Seq<bool>> = seq![];
    let mut pass: usize = 0;
    let mut converged = false;
    while pass < max_passes && !converged
        invariant
            forall|a: usize, b: usize, x: u32, y: u32| crosses.requires((a, b, x, y)),
            n == assignment@.len(),
            pass <= max_passes,
            rearranges(assignment@, start),
            converged ==> forall|p: usize, q: usize|
                p < q < n ==> crosses.ensures((p, q, assignment@[p as int], assignment@[q as int]), false),
            sweep_runs(*crosses, states, answers),
            answers.len() == pass,
            states[0] == start,
            states[pass as int] == assignment@,
            forall|k: int| 0 <= k < answers.len() - 1 ==> (#[trigger] answers[k]).contains(true),
            converged <==> (answers.len() > 0 && !answers[answers.len() - 1].contains(true)),
        decreases max_passes - pass,
    {
        let ghost s0 = assignment@;
        let ghost mut ans: Seq<bool> = seq![];
        let mut swapped = false;
        let mut a: usize = 0;
        proof {
            assert forall|rest: Seq<bool>, t: Seq<u32>|
                #[trigger] pass_runs(*crosses, assignment@, 0, 1, rest, t) implies pass_runs(*crosses, s0, 0, 1, ans + rest, t) by {
                assert(ans + rest =~= rest);
            }
        }
        while a < n
            invariant
                forall|a: usize, b: usize, x: u32, y: u32| crosses.requires((a, b, x, y)),
                n == assignment@.len(),
                a <= n,
                rearranges(assignment@, start),
                !swapped ==> forall|p: usize, q: usize|
                    p < a && p < q < n ==> crosses.ensures((p, q, assignment@[p as int], assignment@[q as int]), false),
                swapped == ans.contains(true),
                forall|rest: Seq<bool>, t: Seq<u32>|
                    #[trigger] pass_runs(*crosses, assignment@, a as int, a + 1, rest, t) ==> pass_runs(*crosses, s0, 0, 1, ans + rest, t),
            decreases n - a,
        {
            let mut b: usize = a + 1;
            while b < n
                invariant
                    forall|a: usize, b: usize, x: u32, y: u32| crosses.requires((a, b, x, y)),
                    n == assignment@.len(),
                    a < b,
                    a < n,
                    b <= n,
                    rearranges(assignment@, start),
                    !swapped ==> forall|p: usize, q: usize|
                        p < a && p < q < n ==> crosses.ensures((p, q, assignment@[p as int], assignment@[q as int]), false),
                    !swapped ==> forall|q: usize|
                        a < q < b ==> crosses.ensures((a, q, assignment@[a as int], assignment@[q as int]), false),
                    swapped == ans.contains(true),
                    forall|rest: Seq<bool>, t: Seq<u32>|
                        #[trigger] pass_runs(*crosses, assignment@, a as int, b as int, rest, t) ==> pass_runs(*crosses, s0, 0, 1, ans + rest, t),
                decreases n - b,
            {
                let x = assignment[a];
                let y = assignment[b];
                let ghost cur = assignment@;
                let ghost prev_ans = ans;
                let answer = crosses(a, b, x, y);
                if answer {
                    assignment.set(a, y);
                    assignment.set(b, x);
                    proof {
                        lemma_swap_rearranges(cur, a as int, b as int);
                        assert(assignment@ =~= cur.update(a as int, cur[b as int]).update(b as int, cur[a as int]));
                    }
                    swapped = true;
                }
                proof {
                    ans = ans.push(answer);
                    assert(assignment@ =~= swap_if(cur, a as int, b as int, answer));
                    assert(ans.contains(true) == (prev_ans.contains(true) || answer)) by {
                        if answer {
                            assert(ans[ans.len() - 1] == true);
                        }
                        if ans.contains(true) && !answer {
                            let i = choose|i: int| 0 <= i < ans.len() && ans[i] == true;
                            assert(prev_ans[i] == true);
                        }
                        if prev_ans.contains(true) {
                            let i = choose|i: int| 0 <= i < prev_ans.len() && prev_ans[i] == true;
                            assert(ans[i] == true);
                        }
                    }
                    assert forall|rest: Seq<bool>, t: Seq<u32>|
                        #[trigger] pass_runs(*crosses, assignment@, a as int, b + 1, rest, t) implies pass_runs(*crosses, s0, 0, 1, ans + rest, t) by {
                        let r2 = seq![answer] + rest;
                        assert(r2[0] == answer);
                        assert(r2.drop_first() =~= rest);
                        assert(pass_runs(*crosses, cur, a as int, b as int, r2, t));
                        assert(prev_ans + r2 =~= ans + rest);
                    }
                }
                b = b + 1;
            }
            let ghost last = a as int;
            a = a + 1;
            proof {
                assert forall|rest: Seq<bool>, t: Seq<u32>|
                    #[trigger] pass_runs(*crosses, assignment@, a as int, a + 1, rest, t) implies pass_runs(*crosses, s0, 0, 1, ans + rest, t) by {
                    assert(pass_runs(*crosses, assignment@, last, b as int, rest, t));
                }
            }
        }
        proof {
            assert(pass_runs(*crosses, assignment@, n as int, n + 1, seq![], assignment@));
            assert(ans + seq![] =~= ans);
            assert(pass_runs(*crosses, s0, 0, 1, ans, assignment@));
            let ghost old_answers = answers;
            let ghost old_states = states;
            answers = answers.push(ans);
            states = states.push(assignment@);
            assert forall|k: int| 0 <= k < answers.len() implies pass_runs(*crosses, states[k], 0, 1, #[trigger] answers[k], states[k + 1]) by {
                if k < old_answers.len() {
                    assert(answers[k] == old_answers[k]);
                    assert(states[k] == old_states[k] && states[k + 1] == old_states[k + 1]);
                }
            }
            assert forall|k: int| 0 <= k < answers.len() - 1 implies (#[trigger] answers[k]).contains(true) by {
                assert(answers[k] == old_answers[k]);
                if k == old_answers.len() - 1 {
                    assert(!converged);
                }
            }
        }
        converged = !swapped;
        pass = pass + 1;
    }
    proof {
        assert(states[answers.len() as int] == assignment@);
    }
    converged
}

/// The cab of the first of a rider's edges `(cab, edge)` that carries flow
/// (its capacity is used up), if any.
pub open spec fn flow_cab(cap: Seq<i64>, edges: Seq<(usize, usize)>) -> Option<usize>
    decreases edges.len(),
{
    if edges.len() == 0 {
        None
    } else if 0 <= edges[0].1 < cap.len() && cap[edges[0].1 as int] == 0 {
        Some(edges[0].0)
    } else {
        flow_cab(cap, edges.drop_first())
    }
}

/// Reads the matching off a settled flow: rider `i` gets the cab of its
/// first edge that carries flow (`u32::MAX` when none does), with the cab
/// number narrowed to `u32`.
pub fn read_assignment<C>(g: &Mcmf<C>, rider_edges: &Vec<Vec<(usize, usize)>>) -> (r: Vec<u32>)
    ensures
        r@.len() == rider_edges@.len(),
        forall|i: int| 0 <= i < r@.len() ==> #[trigger] r@[i] == match flow_cab(g.cap@, rider_edges@[i]@) {
            Some(j) => j as u32,
            None => u32::MAX,
        },
{
    let mut out: Vec<u32> = Vec::new();
    let mut i: usize = 0;
    while i < rider_edges.len()
        invariant
            i <= rider_edges@.len(),
            out@.len() == i,
            forall|q: int| 0 <= q < i ==> #[trigger] out@[q] == match flow_cab(g.cap@, rider_edges@[q]@) {
                Some(j) => j as u32,
                None => u32::MAX,
            },
        decreases rider_edges@.len() - i,
    {
        let edges = &rider_edges[i];
        let ghost want = match flow_cab(g.cap@, edges@) {
            Some(j) => j as u32,
            None => u32::MAX,
        };
        let mut cab: u32 = u32::MAX;
        let mut found = false;
        let mut k: usize = 0;
        assert(edges@.subrange(0, edges@.len() as int) == edges@);
        while k < edges.len() && !found
            invariant
                k <= edges@.len(),
                want == match flow_cab(g.cap@, edges@) {
                    Some(j) => j as u32,
                    None => u32::MAX,
                },
                found ==> cab == want,
                !found ==> cab == u32::MAX && flow_cab(g.cap@, edges@) == flow_cab(g.cap@, edges@.subrange(k as int, edges@.len() as int)),
            decreases edges@.len() - k,
        {
            let (j, e) = edges[k];
            let ghost rest = edges@.subrange(k as int, edges@.len() as int);
            assert(rest[0] == (j, e));
            assert(rest.drop_first() == edges@.subrange(k + 1, edges@.len() as int));
            if e < g.cap.len() && g.cap[e] == 0 {
                assert(flow_cab(g.cap@, rest) == Some(j));
                cab = #[verifier::truncate] (j as u32);
                found = true;
            }
            k = k + 1;
        }
        proof {
            if !found {
                assert(edges@.subrange(k as int, edges@.len() as int).len() == 0);
            }
        }
        out.push(cab);
        i = i + 1;
    }
    out
}

/// The reverse of edge `e`: edges come in pairs, the forward edge at an
/// even id and its reverse at the next one.
pub open spec fn mate(e: int) -> int {
    if e % 2 == 0 {
        e + 1
    } else {
        e - 1
    }
}

/// A residual graph for min-cost flow: edge `e` runs to `to[e]` with
/// capacity `cap[e]` and cost `cost[e]`; `adj[u]` lists the edges leaving
/// node `u`.
#[derive(Clone, Debug)]
pub struct Mcmf<C> {
    pub to: Vec<usize>,
    pub cap: Vec<i64>,
    pub cost: Vec<C>,
    pub adj: Vec<Vec<usize>>,
}

impl<C> Mcmf<C> {
    /// Edges come in pairs; every edge ends at a node, and the edges listed
    /// at node `u` leave `u` (their reverse ends at `u`).
    pub open spec fn wf(&self) -> bool {
        &&& self.cap@.len() == self.to@.len()
        &&& self.cost@.len() == self.to@.len()
        &&& self.to@.len() % 2 == 0
        &&& forall|e: int| 0 <= e < self.to@.len() ==> #[trigger] self.to@[e] < self.adj@.len()
        &&& forall|u: int, i: int|
            0 <= u < self.adj@.len() && 0 <= i < self.adj@[u]@.len() ==> {
                let e = #[trigger] self.adj@[u]@[i];
                &&& e < self.to@.len()
                &&& self.to@[mate(e as int)] == u
            }
    }

    /// A graph of `nodes` nodes and no edges.
    pub fn new(nodes: usize) -> (g: Self)
        ensures
            g.wf(),
            g.adj@.len() == nodes,
            forall|u: int| 0 <= u < nodes ==> (#[trigger] g.adj@[u])@.len() == 0,
            g.to@.len() == 0,
    {
        let mut adj: Vec<Vec<usize>> = Vec::new();
        let mut u: usize = 0;
        while u < nodes
            invariant
                u <= nodes,
                adj@.len() == u,
                forall|q: int| 0 <= q < u ==> (#[trigger] adj@[q])@.len() == 0,
            decreases nodes - u,
        {
            adj.push(Vec::new());
            u = u + 1;
        }
        Mcmf { to: Vec::new(), cap: Vec::new(), cost: Vec::new(), adj }
    }

    /// Adds the edge `u → v` with capacity `cap` and cost `cost`, and its
    /// reverse `v → u` with capacity 0 and cost `reverse_cost` (the negated
    /// cost); returns the forward edge's id.
    pub fn add(&mut self, u: usize, v: usize, cap: i64, cost: C, reverse_cost: C) -> (e: usize)
        requires
            old(self).wf(),
            u < old(self).adj@.len(),
            v < old(self).adj@.len(),
            old(self).to@.len() + 2 <= usize::MAX,
        ensures
            final(self).wf(),
            e == old(self).to@.len(),
            final(self).to@ == old(self).to@.push(v).push(u),
            final(self).cap@ == old(self).cap@.push(cap).push(0),
            final(self).cost@ == old(self).cost@.push(cost).push(reverse_cost),
            final(self).adj@.len() == old(self).adj@.len(),
            forall|w: int| 0 <= w < final(self).adj@.len() ==> (#[trigger] final(self).adj@[w])@ == if w == u && w == v {
                old(self).adj@[w]@.push(e).push((e + 1) as usize)
            } else if w == u {
                old(self).adj@[w]@.push(e)
            } else if w == v {
                old(self).adj@[w]@.push((e + 1) as usize)
            } else {
                old(self).adj@[w]@
            },
    {
        let e = self.to.len();
        assert(e % 2 == 0);
        assert(mate(e as int) == e + 1 && mate(e + 1) == e as int);
        self.to.push(v);
        self.cap.push(cap);
        self.cost.push(cost);
        self.adj[u].push(e);
        self.to.push(u);
        self.cap.push(0);
        self.cost.push(reverse_cost);
        self.adj[v].push(e + 1);
        e
    }

    /// Sends one unit of flow along edge `e`: its capacity drops by one and
    /// its reverse's grows by one. Returns the node `e` leaves.
    pub fn push_unit(&mut self, e: usize) -> (tail: usize)
        requires
            old(self).wf(),
            e < old(self).to@.len(),
            old(self).cap@[e as int] > i64::MIN,
            old(self).cap@[mate(e as int)] < i64::MAX,
        ensures
            final(self).wf(),
            tail == old(self).to@[mate(e as int)],
            tail < final(self).adj@.len(),
            final(self).cap@ == old(self).cap@.update(e as int, (old(self).cap@[e as int] - 1) as i64).update(
                mate(e as int),
                (old(self).cap@[mate(e as int)] + 1) as i64,
            ),
            final(self).to@ == old(self).to@,
            final(self).cost@ == old(self).cost@,
            final(self).adj@ == old(self).adj@,
    {
        let r = if e % 2 == 0 { e + 1 } else { e - 1 };
        let c = self.cap[e] - 1;
        self.cap.set(e, c);
        let d = self.cap[r] + 1;
        self.cap.set(r, d);
        self.to[r]
    }
}

} // verus!
