use std::io::Write;
use sundial::mps::{parse_str, parse_bytes, ColBound, MpsError, MpsModel, RowBound, RowKind};

fn num(s: &str) -> f64 {
    s.parse::<f64>().unwrap()
}

fn col_value(b: ColBound) -> f64 {
    match b {
        ColBound::NegInf => f64::NEG_INFINITY,
        ColBound::PosInf => f64::INFINITY,
        ColBound::Zero => 0.0,
        ColBound::Literal(s) => num(&s),
    }
}

fn col_bounds(m: &MpsModel, j: usize) -> (f64, f64) {
    let c = &m.cols[j];
    let neg = c.last_up.as_deref().map(|s| num(s) < 0.0).unwrap_or(false);
    (col_value(c.lower_bound(neg)), col_value(c.upper_bound()))
}

fn row_value(m: &MpsModel, i: usize, b: RowBound) -> f64 {
    let row = &m.rows[i];
    let rhs = row.rhs.as_deref().map(num).unwrap_or(0.0);
    let rg = row.range.as_deref().map(num).unwrap_or(0.0);
    match b {
        RowBound::NegInf => f64::NEG_INFINITY,
        RowBound::PosInf => f64::INFINITY,
        RowBound::Rhs => rhs,
        RowBound::RhsMinusAbsRange => rhs - rg.abs(),
        RowBound::RhsPlusAbsRange => rhs + rg.abs(),
        RowBound::RhsPlusRange => rhs + rg,
    }
}

fn row_bounds(m: &MpsModel, i: usize) -> (f64, f64) {
    let row = &m.rows[i];
    let nonneg = row.range.as_deref().map(|s| num(s) >= 0.0).unwrap_or(true);
    let (lo, up) = row.bounds(nonneg);
    (row_value(m, i, lo), row_value(m, i, up))
}

fn parse_err(text: &str) -> String {
    parse_str(text).unwrap_err().message()
}

#[test]
fn rejects_integer_markers() {
    let text =
        "NAME T\nROWS\n N COST\n L R1\nCOLUMNS\n M 'MARKER' 'INTORG'\n X1 COST 1.0\nENDATA\n";
    assert!(parse_str(text).is_err());
}

#[test]
fn error_carries_line_number() {
    let text = "NAME T\nROWS\n N COST\n Z BADTYPE\nENDATA\n";
    let err = parse_str(text).unwrap_err();
    assert!(err.message().contains("line 4"), "got: {}", err.message());
}

#[test]
fn missing_endata_is_an_error() {
    let e = parse_err("NAME t\nROWS\n N obj\n L r1\nCOLUMNS\n x obj 1.0 r1 1.0\nRHS\n");
    assert!(e.contains("missing ENDATA"), "{e}");
}

#[test]
fn missing_objective_row_is_an_error() {
    let e = parse_err("NAME t\nROWS\n L r1\nCOLUMNS\n x r1 1.0\nRHS\nENDATA\n");
    assert!(e.contains("no objective"), "{e}");
}

#[test]
fn duplicate_constraint_row_is_an_error() {
    let e =
        parse_err("NAME t\nROWS\n N obj\n L r1\n G r1\nCOLUMNS\n x obj 1.0 r1 1.0\nRHS\nENDATA\n");
    assert!(e.contains("duplicate row 'r1'"), "{e}");
}

#[test]
fn data_line_outside_section_is_an_error() {
    let e = parse_err(" x obj 1.0\nROWS\n N obj\nENDATA\n");
    assert!(e.contains("outside any section"), "{e}");
}

#[test]
fn negative_up_without_lo_opens_lower_bound() {
    let p = parse_str(
        "NAME t\nROWS\n N obj\n L r1\nCOLUMNS\n x obj 1.0 r1 1.0\nRHS\n rhs r1 5.0\nBOUNDS\n UP bnd x -2.0\nENDATA\n",
    ).unwrap();
    assert_eq!(col_bounds(&p, 0).1, -2.0);
    assert_eq!(col_bounds(&p, 0).0, f64::NEG_INFINITY);
}

#[test]
fn negative_up_with_explicit_lo_keeps_lo() {
    let p = parse_str(
        "NAME t\nROWS\n N obj\n L r1\nCOLUMNS\n x obj 1.0 r1 1.0\nRHS\n rhs r1 5.0\nBOUNDS\n LO bnd x -9.0\n UP bnd x -2.0\nENDATA\n",
    ).unwrap();
    assert_eq!(col_bounds(&p, 0).0, -9.0);
    let p2 = parse_str(
        "NAME t\nROWS\n N obj\n L r1\nCOLUMNS\n x obj 1.0 r1 1.0\nRHS\n rhs r1 5.0\nBOUNDS\n UP bnd x -2.0\n LO bnd x -9.0\nENDATA\n",
    ).unwrap();
    assert_eq!(col_bounds(&p2, 0).0, -9.0);
}

#[test]
fn rhs_without_set_name_parses() {
    let p = parse_str(
        "NAME t\nROWS\n N obj\n L r1\n G r2\nCOLUMNS\n x obj 1.0 r1 1.0\n x r2 1.0\nRHS\n r1 5.0 r2 1.0\nENDATA\n",
    )
    .unwrap();
    assert_eq!(row_bounds(&p, 0).1, 5.0);
    assert_eq!(row_bounds(&p, 1).0, 1.0);
}

#[test]
fn rhs_with_set_name_still_parses() {
    let p = parse_str(
        "NAME t\nROWS\n N obj\n L r1\nCOLUMNS\n x obj 1.0 r1 1.0\nRHS\n rhs r1 5.0\nENDATA\n",
    )
    .unwrap();
    assert_eq!(row_bounds(&p, 0).1, 5.0);
}

#[test]
fn rhs_set_name_less_unknown_row_is_an_error() {
    let e = parse_str(
        "NAME t\nROWS\n N obj\n L r1\nCOLUMNS\n x obj 1.0 r1 1.0\nRHS\n nope 5.0\nENDATA\n",
    )
    .unwrap_err()
    .message();
    assert!(e.contains("unknown row 'nope'"), "{e}");
}

#[test]
fn repeated_up_lines_reset_negativity() {
    let p = parse_str(
        "NAME t\nROWS\n N obj\n L r1\nCOLUMNS\n x obj 1.0 r1 1.0\nRHS\n rhs r1 5.0\nBOUNDS\n UP bnd x -2.0\n UP bnd x 5.0\nENDATA\n",
    )
    .unwrap();
    assert_eq!(col_bounds(&p, 0).1, 5.0);
    assert_eq!(col_bounds(&p, 0).0, 0.0, "negativity flag must reset on the later positive UP");
}

#[test]
fn readme_example_dimensions() {
    let mps = "NAME example\nROWS\n N obj\n L cap\nCOLUMNS\n x obj -1.0 cap 1.0\nRHS\n r cap 4.0\nENDATA\n";
    let lp = parse_str(mps).unwrap();
    assert_eq!((lp.cols.len(), lp.rows.len()), (1, 1));
    assert_eq!(lp.name, "example");
    assert_eq!(lp.a.indptr, vec![0, 1]);
    assert_eq!(lp.a.indices, vec![0]);
    assert_eq!(lp.a.values, vec![vec!["1.0".to_string()]]);
    assert_eq!(lp.cols[0].cost, vec!["-1.0".to_string()]);
}

#[test]
fn duplicate_entries_sum_and_rows_sort_by_column() {
    let mps = "ROWS\n N obj\n E a\n G b\nCOLUMNS\n y a 2 b 3\n x b 1 a 4\n y a 5\nRHS\n a 7\nRANGES\n s b 2\nENDATA\n";
    let lp = parse_str(mps).unwrap();
    assert_eq!(lp.name, "unnamed");
    assert_eq!(lp.rows[0].kind, RowKind::E);
    assert_eq!(lp.a.indptr, vec![0, 2, 4]);
    assert_eq!(lp.a.indices, vec![0, 1, 0, 1]);
    assert_eq!(
        lp.a.values,
        vec![
            vec!["2".to_string(), "5".to_string()],
            vec!["4".to_string()],
            vec!["3".to_string()],
            vec!["1".to_string()],
        ]
    );
    assert_eq!(row_bounds(&lp, 0), (7.0, 7.0));
    assert_eq!(row_bounds(&lp, 1), (0.0, 2.0));
}

#[test]
fn ranges_on_equality_rows_follow_the_sign() {
    let mps = "ROWS\n N obj\n E p\n E q\n L l\nCOLUMNS\n x p 1 q 1\n x l 1\nRHS\n rhs p 5 q 5\nRHS\n l 10\nRANGES\n rng p 2 q -2\nRANGES\n rng l -4\nENDATA\n";
    let lp = parse_str(mps).unwrap();
    assert_eq!(row_bounds(&lp, 0), (5.0, 7.0));
    assert_eq!(row_bounds(&lp, 1), (3.0, 5.0));
    assert_eq!(row_bounds(&lp, 2), (6.0, 10.0));
}

#[test]
fn bounds_of_every_kind() {
    let mps = "ROWS\n N obj\nCOLUMNS\n a obj 1\n b obj 1\n c obj 1\n d obj 1\n e obj 1\n f obj 1\nRHS\n rhs obj -7.5\nBOUNDS\n UP bnd a 4\n LO bnd b -3\n FX bnd c 2\n FR bnd d\n MI bnd e\n PL bnd f\nENDATA\n";
    let lp = parse_str(mps).unwrap();
    let inf = f64::INFINITY;
    assert_eq!(col_bounds(&lp, 0), (0.0, 4.0));
    assert_eq!(col_bounds(&lp, 1), (-3.0, inf));
    assert_eq!(col_bounds(&lp, 2), (2.0, 2.0));
    assert_eq!(col_bounds(&lp, 3), (-inf, inf));
    assert_eq!(col_bounds(&lp, 4), (-inf, inf));
    assert_eq!(col_bounds(&lp, 5), (0.0, inf));
    assert_eq!(lp.obj_constant.as_deref(), Some("-7.5"));
}

#[test]
fn each_error_message() {
    let cases: Vec<(&str, &str)> = vec![
        ("OBJSENSE\n", "line 1: OBJSENSE unsupported in M0 (MIN only)"),
        ("FOO\n", "line 1: unknown section 'FOO'"),
        ("ROWS\n N\n", "line 2: ROWS line needs 'type name'"),
        ("ROWS\n N o\nCOLUMNS\n x o\n", "line 4: COLUMNS line needs 'col row val [row val]'"),
        ("ROWS\n N o\nCOLUMNS\n x o 1x\n", "line 4: bad number '1x'"),
        ("ROWS\n N o\nCOLUMNS\n x r 1\n", "line 4: unknown row 'r'"),
        ("ROWS\n N o\nRHS\n r\n", "line 4: RHS line needs 'set row val [row val]'"),
        ("ROWS\n N o\nRANGES\n s o 1 o\n", "line 4: RANGES line needs 'set row val [row val]'"),
        ("ROWS\n N o\nRANGES\n s o 1\n", "line 4: unknown row 'o'"),
        ("ROWS\n N o\nBOUNDS\n UP b x\n", "line 4: BOUNDS 'UP' needs 4 fields"),
        ("ROWS\n N o\nBOUNDS\n FR b x\n", "line 4: unknown column 'x'"),
        ("ROWS\n N o\nCOLUMNS\n x o 1\nBOUNDS\n BV b x\n", "line 6: integer bounds unsupported"),
        ("ROWS\n N o\nCOLUMNS\n x o 1\nBOUNDS\n ZZ b x\n", "line 6: bad bound type 'ZZ'"),
        ("ROWS\n N o\nCOLUMNS\n x o 1\nBOUNDS\n UP b x nan1\n", "line 6: bad number 'nan1'"),
        ("ROWS\n N o\n", "line 2: missing ENDATA"),
        ("ROWS\nENDATA\n", "line 0: no objective (N) row"),
    ];
    for (text, want) in cases {
        assert_eq!(parse_err(text), want, "{text:?}");
    }
}

#[test]
fn numeric_literals_follow_the_float_grammar() {
    for ok in ["1", "-1.5", "+.5", "5.", "1e10", "1E-3", "inf", "-Infinity", "NaN", "2.5e+7"] {
        let text = format!("ROWS\n N o\nCOLUMNS\n x o {ok}\nENDATA\n");
        let m = parse_str(&text).unwrap();
        assert!(m.cols[0].cost[0].parse::<f64>().is_ok(), "{ok}");
    }
    for bad in [".", "e5", "1e", "1.5.2", "0x10", "1_000", "--1", "infinit"] {
        let text = format!("ROWS\n N o\nCOLUMNS\n x o {bad}\nENDATA\n");
        assert!(parse_str(&text).is_err(), "{bad}");
        assert!(bad.parse::<f64>().is_err(), "{bad}");
    }
}

#[test]
fn comments_blank_lines_and_crlf() {
    let text = "* a comment\r\n\r\nNAME   crlf\r\nROWS\r\n N obj\r\n\t L c\r\nCOLUMNS\r\n x obj 2 c 1\r\nENDATA";
    let m = parse_str(text).unwrap();
    assert_eq!(m.name, "crlf");
    assert_eq!(m.rows.len(), 1);
    assert_eq!(m.cols[0].cost, vec!["2".to_string()]);
}

#[test]
fn lines_after_endata_are_ignored() {
    let m = parse_str("ROWS\n N o\nENDATA\ngarbage here\n").unwrap();
    assert_eq!(m.rows.len(), 0);
}

#[test]
fn gzip_and_utf8_inputs() {
    let plain = b"ROWS\n N o\nCOLUMNS\n x o 3\nENDATA\n";
    let m = parse_bytes(plain).unwrap();
    assert_eq!(m.cols.len(), 1);
    match parse_bytes(&[0x66, 0xff, 0x0a]) {
        Err(MpsError::Gzip(_)) => {}
        other => panic!("expected a UTF-8 error, got {other:?}"),
    }
    let mut gz = Vec::new();
    {
        let mut enc = flate2::write::GzEncoder::new(&mut gz, flate2::Compression::default());
        enc.write_all(plain).unwrap();
        enc.finish().unwrap();
    }
    let m2 = parse_bytes(&gz).unwrap();
    assert_eq!(m2.cols[0].cost, vec!["3".to_string()]);
    match parse_bytes(&[0x1f, 0x8b, 0, 1, 2]) {
        Err(MpsError::Gzip(_)) => {}
        other => panic!("expected a gzip error, got {other:?}"),
    }
}
