use sundial::csr::CsrMatrix;
use sundial::problem::{dimension_error, SolveStatus};
use sundial::transport::{cell, explicit_csr, problem, Preset, TransportOp};

#[test]
fn problem_dimensions_and_name() {
    let p = problem(Preset::Blobs, 4);
    assert_eq!(p.op.n_cols(), 256); // (4²)²
    assert_eq!(p.op.n_rows(), 32); // 2·4²
    assert_eq!(p.name, "transport-blobs-4x4");
    assert_eq!(p.grid, 4);
    assert_eq!(p.preset, Preset::Blobs);
    assert_eq!(p.op, TransportOp { ns: 16, nt: 16 });
}

#[test]
fn problem_names_follow_the_preset() {
    assert_eq!(problem(Preset::Ring, 32).name, "transport-ring-32x32");
    assert_eq!(problem(Preset::Corners, 1).name, "transport-corners-1x1");
    assert_eq!(problem(Preset::Checker, 0).op, TransportOp { ns: 0, nt: 0 });
}

#[test]
fn presets_parse_by_lowercase_name() {
    for p in [Preset::Blobs, Preset::Ring, Preset::Spiral, Preset::Checker, Preset::Corners] {
        assert_eq!(Preset::parse(&p.name()), Ok(p));
        assert_eq!(p.name().parse::<Preset>(), Ok(p));
    }
    assert_eq!(Preset::parse("spiral"), Ok(Preset::Spiral));
}

#[test]
fn unknown_preset_is_rejected_with_the_choices() {
    assert_eq!(
        Preset::parse("Blobs"),
        Err("unknown preset 'Blobs' (blobs|ring|spiral|checker|corners)".to_string())
    );
    assert_eq!(
        "".parse::<Preset>(),
        Err("unknown preset '' (blobs|ring|spiral|checker|corners)".to_string())
    );
}

#[test]
fn cells_are_row_major() {
    assert_eq!(cell(4, 13), (1, 3));
    assert_eq!(cell(4, 0), (0, 0));
    assert_eq!(cell(5, 24), (4, 4));
    assert_eq!(cell(1, 7), (0, 7));
}

#[test]
fn explicit_csr_layout() {
    let a = explicit_csr(2, 3, 1.0f64);
    assert_eq!(a.n_rows, 5);
    assert_eq!(a.n_cols, 6);
    assert_eq!(a.indptr, vec![0, 3, 6, 8, 10, 12]);
    assert_eq!(a.indices, vec![0, 1, 2, 3, 4, 5, 0, 3, 1, 4, 2, 5]);
    assert_eq!(a.values, vec![1.0; 12]);
    assert_eq!(a.nnz(), 12);
}

#[test]
fn explicit_csr_columns_meet_their_source_and_target() {
    let (ns, nt) = (3, 4);
    let a: CsrMatrix<u8> = explicit_csr(ns, nt, 1u8);
    let t = a.transpose();
    assert_eq!(t.n_rows, ns * nt);
    assert_eq!(t.n_cols, ns + nt);
    for i in 0..ns {
        for j in 0..nt {
            let c = i * nt + j;
            let lo = t.indptr[c] as usize;
            assert_eq!(t.indptr[c + 1] as usize - lo, 2);
            assert_eq!(&t.indices[lo..lo + 2], &[i as u32, (ns + j) as u32]);
        }
    }
}

#[test]
fn transport_op_counts() {
    let op = TransportOp { ns: 36, nt: 25 };
    assert_eq!(op.n_rows(), 61);
    assert_eq!(op.n_cols(), 900);
}

#[test]
fn solve_status_compares_by_variant() {
    assert_eq!(SolveStatus::Optimal, SolveStatus::Optimal);
    assert_ne!(SolveStatus::Infeasible, SolveStatus::Unbounded);
}

#[test]
fn dimension_messages_name_the_mismatch() {
    assert_eq!(dimension_error(1, 1, 0, 1, 1, 1, 1).as_deref(), Some("n=1 but c/col bounds differ"));
    assert_eq!(dimension_error(2, 1, 1, 1, 1, 2, 3).as_deref(), Some("m=2 but row bounds differ"));
    assert_eq!(dimension_error(3, 4, 4, 4, 5, 0, 0).as_deref(), Some("n=4 but c/col bounds differ"));
    assert_eq!(dimension_error(2, 3, 3, 3, 3, 2, 2), None);
}
