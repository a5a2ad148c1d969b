use sundial::csr::CsrMatrix;

fn sample() -> CsrMatrix<f64> {
    // 3×4: row 0 has (0,1)=1 and (0,3)=2, row 1 is empty, row 2 has
    // (2,0)=3, (2,1)=4, (2,3)=5.
    CsrMatrix {
        n_rows: 3,
        n_cols: 4,
        indptr: vec![0, 2, 2, 5],
        indices: vec![1, 3, 0, 1, 3],
        values: vec![1.0, 2.0, 3.0, 4.0, 5.0],
    }
}

fn mul(a: &CsrMatrix<f64>, x: &[f64]) -> Vec<f64> {
    (0..a.n_rows)
        .map(|r| {
            (a.indptr[r] as usize..a.indptr[r + 1] as usize)
                .map(|k| a.values[k] * x[a.indices[k] as usize])
                .sum()
        })
        .collect()
}

#[test]
fn transpose_lists_each_column_in_row_order() {
    let t = sample().transpose();
    assert_eq!(t.n_rows, 4);
    assert_eq!(t.n_cols, 3);
    assert_eq!(t.indptr, vec![0, 1, 3, 3, 5]);
    assert_eq!(t.indices, vec![2, 0, 2, 0, 2]);
    assert_eq!(t.values, vec![3.0, 1.0, 4.0, 2.0, 5.0]);
}

#[test]
fn transpose_twice_restores_a_sorted_matrix() {
    let a = sample();
    let tt = a.transpose().transpose();
    assert_eq!(tt.n_rows, a.n_rows);
    assert_eq!(tt.n_cols, a.n_cols);
    assert_eq!(tt.indptr, a.indptr);
    assert_eq!(tt.indices, a.indices);
    assert_eq!(tt.values, a.values);
}

#[test]
fn transpose_twice_sorts_each_row_by_column() {
    // Row 0 lists columns 3, 1, 3; row 1 lists 2, 0.
    let a = CsrMatrix {
        n_rows: 2,
        n_cols: 4,
        indptr: vec![0, 3, 5],
        indices: vec![3, 1, 3, 2, 0],
        values: vec!['a', 'b', 'c', 'd', 'e'],
    };
    let tt = a.transpose().transpose();
    assert_eq!(tt.indptr, a.indptr);
    assert_eq!(tt.indices, vec![1, 3, 3, 0, 2]);
    assert_eq!(tt.values, vec!['b', 'a', 'c', 'e', 'd']);
}

#[test]
fn transpose_of_empty_matrices() {
    let a: CsrMatrix<f64> = CsrMatrix { n_rows: 0, n_cols: 3, indptr: vec![0], indices: vec![], values: vec![] };
    let t = a.transpose();
    assert_eq!(t.n_rows, 3);
    assert_eq!(t.n_cols, 0);
    assert_eq!(t.indptr, vec![0, 0, 0, 0]);
    assert!(t.indices.is_empty() && t.values.is_empty());
    assert_eq!(t.nnz(), 0);
}

#[test]
fn double_transpose_multiplies_like_the_matrix() {
    // (Aᵀ)ᵀ x == A x on random sparse matrices, rows in any column order.
    let mut rng = fastrand::Rng::with_seed(3);
    for _ in 0..20 {
        let (m, n) = (rng.usize(1..30), rng.usize(1..20));
        let mut indptr = vec![0u32];
        let mut indices = Vec::new();
        let mut values = Vec::new();
        for _ in 0..m {
            for _ in 0..rng.usize(0..6) {
                indices.push(rng.u32(0..n as u32));
                values.push(rng.f64() - 0.5);
            }
            indptr.push(indices.len() as u32);
        }
        let a = CsrMatrix { n_rows: m, n_cols: n, indptr, indices, values };
        let att = a.transpose().transpose();
        let x: Vec<f64> = (0..n).map(|_| rng.f64() - 0.5).collect();
        for (u, v) in mul(&a, &x).iter().zip(mul(&att, &x)) {
            assert!((u - v).abs() < 1e-12);
        }
    }
}
