use sundial::report::{csv_quote, parse_optima, render, scrub_cell, split_csv_line, table_rows, Optima};

const CSV: &str = "name,status,objective,iterations,solve_ms,rel_primal,rel_dual,rel_gap\n\
    \"afiro\",Optimal,-464.7530946,4352,89.2,4.1e-5,3.2e-5,9.8e-5\n\
    \"kb2\",IterationLimit,-1749.9,500000,60000.0,2.1e-3,8.0e-4,4.0e-3\n\
    \"broken\",Error: parsing bench/netlib/broken.mps: bad number 'x',,,,,,\n";

fn optima() -> Optima {
    parse_optima("name,objective,note\nafiro,-464.75314286,\n")
}

/// The floating-point figures of each table row (known optimum and
/// relative error, or dashes), and the worst optimal row, computed the
/// way the command-line tool computes them.
fn figures(csv: &str, o: &Optima) -> (Vec<(String, String)>, Option<(String, String)>) {
    let mut figs = Vec::new();
    let mut worst: Option<(String, f64)> = None;
    for f in table_rows(csv) {
        let obj: Option<f64> = f.get(2).and_then(|s| s.parse().ok());
        let known: Option<f64> = o.value(&f[0]).map(|v| v.parse().unwrap());
        match (known, obj) {
            (Some(k), Some(x)) => {
                let r = (x - k).abs() / (1.0 + k.abs());
                figs.push((format!("{k}"), format!("{r:.1e}")));
                if f[1] == "Optimal" {
                    let better = match &worst {
                        None => true,
                        Some((_, w)) => r > *w,
                    };
                    if better {
                        worst = Some((f[0].clone(), r));
                    }
                }
            }
            _ => figs.push(("\u{2014}".to_string(), "\u{2014}".to_string())),
        }
    }
    (figs, worst.map(|(n, w)| (n, format!("{w:.1e}"))))
}

fn report(csv: &str, o: &Optima) -> String {
    let (figs, worst) = figures(csv, o);
    render(csv, o, &figs, worst)
}

#[test]
fn renders_status_and_rel_err() {
    let md = report(CSV, &optima());
    assert!(md.contains("| afiro | Optimal |"), "afiro row:\n{md}");
    // |−464.7530946 − (−464.75314286)| / (1 + 464.75314286) = 1.036e-7 → "{:.1e}" = "1.0e-7"
    assert!(md.contains("1.0e-7"), "rel err vs known optimum:\n{md}");
    assert!(
        md.contains("| kb2 | IterationLimit |"),
        "non-optimal rows stay in the table:\n{md}"
    );
    assert!(md.contains("1/3 Optimal"), "summary line:\n{md}");
}

#[test]
fn unknown_instances_get_dash() {
    let md = report(CSV, &optima());
    // kb2 absent from optima → em-dash in known/rel-err columns
    assert!(
        md.lines()
            .any(|l| l.starts_with("| kb2 |") && l.contains("| — |")),
        "{md}"
    );
}

#[test]
fn quoted_names_unescape() {
    let o = parse_optima("name,objective,note\nwe\"ird,1.0,\n");
    let csv = "name,status,objective,iterations,solve_ms,rel_primal,rel_dual,rel_gap\n\
               \"we\"\"ird\",Optimal,1.0,1,1.0,1e-5,1e-5,1e-5\n";
    let md = report(csv, &o);
    assert!(md.contains("| we\"ird | Optimal |"), "{md}");
}

#[test]
fn parse_optima_reads_csv() {
    let o = parse_optima("name,objective\nafiro,-464.75314286\n");
    assert_eq!(o.value("afiro").unwrap().parse::<f64>().unwrap(), -464.75314286);
}

#[test]
fn note_column_renders_footnote() {
    let o = parse_optima(
        "name,objective,note\ne226,-18.751929,readme value uses the opposite objective-constant sign convention (delta = 2x the RHS constant); our verified optimum is -11.635074\n",
    );
    assert_eq!(o.value("e226").unwrap().parse::<f64>().unwrap(), -18.751929);
    let csv = "name,status,objective,iterations,solve_ms,rel_primal,rel_dual,rel_gap\n\
               \"e226\",Optimal,-11.635074,52000,12586.0,4.1e-5,3.2e-5,9.8e-5\n";
    let md = report(csv, &o);
    assert!(
        md.contains("e226\u{00b9}") || md.contains("e226 ¹") || md.contains("| e226¹ |"),
        "noted instance gets a superscript marker:\n{md}"
    );
    assert!(
        md.contains("opposite objective-constant sign convention"),
        "footnote text rendered:\n{md}"
    );
}

#[test]
fn two_column_optima_still_parse() {
    let o = parse_optima("name,objective\nafiro,-464.75314286\n");
    assert_eq!(o.value("afiro").unwrap().parse::<f64>().unwrap(), -464.75314286);
    assert!(o.notes.is_empty());
}

#[test]
fn pipes_scrubbed_from_table_cells() {
    let o = optima();
    let csv = "name,status,objective,iterations,solve_ms,rel_primal,rel_dual,rel_gap\n\
               \"bad\",Error: weird | pipe; more,,,,,,\n";
    let md = report(csv, &o);
    let table_lines: Vec<&str> = md.lines().filter(|l| l.starts_with("| bad")).collect();
    assert_eq!(table_lines.len(), 1);
    assert!(
        !table_lines[0].contains("weird | pipe"),
        "raw pipe must not split the cell:\n{md}"
    );
    assert!(
        table_lines[0].contains("weird / pipe"),
        "pipe replaced with '/':\n{md}"
    );
}

#[test]
fn full_report_text_for_one_row() {
    let o = parse_optima("name,objective,note\nafiro,-464.75314286,checked by hand\n");
    let csv = "name,status,objective,iterations,solve_ms,rel_primal,rel_dual,rel_gap\n\
               \"afiro\",Optimal,-464.7530946,4352,89.2,4.1e-5,3.2e-5,9.8e-5\n";
    let figs = vec![("-464.75314286".to_string(), "1.0e-7".to_string())];
    let md = render(csv, &o, &figs, Some(("afiro".to_string(), "1.0e-7".to_string())));
    let expected = "# Sundial benchmark report\n\n\
        GPU results at relative KKT ≤ 1e-4, CPU-f64-verified. Known optima from the \
        Netlib readme; published solver times for the same instances: \
        <https://plato.asu.edu/bench.html>.\n\n\
        | instance | status | objective | known | rel err | iters | ms | primal | dual | gap |\n\
        |---|---|---|---|---|---|---|---|---|---|\n\
        | afiro¹ | Optimal | -464.7530946 | -464.75314286 | 1.0e-7 | 4352 | 89.2 | 4.1e-5 | 3.2e-5 | 9.8e-5 |\n\
        \n**1/1 Optimal** (CPU-f64-verified). Worst relative objective error among Optimal: 1.0e-7 (afiro).\n\
        \n¹ checked by hand\n";
    assert_eq!(md, expected);
}

#[test]
fn worst_error_names_the_largest_optimal_miss() {
    let o = parse_optima("name,objective\na,1.0\nb,1.0\nc,1.0\n");
    let csv = "name,status,objective\n\"a\",Optimal,1.5\n\"b\",Optimal,3.0\n\"c\",IterationLimit,9.0\n";
    let md = report(csv, &o);
    assert!(md.contains("**2/3 Optimal**"), "{md}");
    assert!(md.contains("Worst relative objective error among Optimal: 1.0e0 (b)."), "{md}");
}

#[test]
fn no_worst_sentence_without_known_optima() {
    let o = parse_optima("name,objective\n");
    let md = report("name,status,objective\n\"a\",Optimal,1.5\n", &o);
    assert!(md.contains("**1/1 Optimal** (CPU-f64-verified).\n"), "{md}");
    assert!(!md.contains("Worst"), "{md}");
}

#[test]
fn sixth_footnote_gets_bracketed_number() {
    let mut opt = String::from("name,objective,note\n");
    let mut csv = String::from("name,status,objective\n");
    for i in 1..=7 {
        opt.push_str(&format!("p{i},1.0,note {i}\n"));
        csv.push_str(&format!("\"p{i}\",Optimal,1.0\n"));
    }
    let md = report(&csv, &parse_optima(&opt));
    for (i, m) in ["¹", "²", "³", "⁴", "⁵", "[6]", "[7]"].iter().enumerate() {
        let n = i + 1;
        assert!(md.contains(&format!("| p{n}{m} |")), "{md}");
        assert!(md.contains(&format!("\n{m} note {n}\n")), "{md}");
    }
}

#[test]
fn blank_and_short_lines_are_not_rows() {
    let csv = "name,status\n\n   \t\nlonely\n\"x\",Optimal\ny,Error\n";
    let rows = table_rows(csv);
    assert_eq!(rows, vec![vec!["x".to_string(), "Optimal".to_string()], vec!["y".to_string(), "Error".to_string()]]);
    let md = report(csv, &parse_optima("name,objective\n"));
    assert!(md.contains("| x | Optimal |  | — | — |  |  |  |  |  |\n"), "{md}");
    assert!(md.contains("**1/2 Optimal**"), "{md}");
}

#[test]
fn objective_that_is_not_a_number_gets_dashes() {
    let o = parse_optima("name,objective\nafiro,-464.75314286\n");
    let csv = "name,status,objective\n\"afiro\",Error,n/a\n";
    let (figs, worst) = figures(csv, &o);
    assert!(worst.is_none());
    // The rendering decides on its own that the figures do not apply.
    let md = render(csv, &o, &vec![("X".to_string(), "Y".to_string())], worst);
    assert!(md.contains("| afiro | Error | n/a | — | — |"), "{md}");
    assert_eq!(figs.len(), 1);
}

#[test]
fn parse_optima_trims_skips_and_keeps_the_last() {
    let o = parse_optima(
        "name,objective,note\n  a , 2.5 ,  first  \nb,not-a-number,x\na,3e2,\n\nc,inf\nd\n",
    );
    assert_eq!(o.value("a").as_deref(), Some("3e2"));
    assert_eq!(o.note("a").as_deref(), Some("first"));
    assert_eq!(o.value("b"), None);
    assert_eq!(o.note("b"), None);
    assert_eq!(o.value("c").as_deref(), Some("inf"));
    assert_eq!(o.value("d"), None);
    assert_eq!(o.values.len(), 3);
    assert_eq!(o.notes.len(), 1);
}

#[test]
fn parse_optima_keeps_commas_in_notes() {
    let o = parse_optima("name,objective,note\nx,1,a, b, c\n");
    assert_eq!(o.note("x").as_deref(), Some("a, b, c"));
}

#[test]
fn header_only_optima_is_empty() {
    let o = parse_optima("name,objective,note");
    assert!(o.values.is_empty() && o.notes.is_empty());
    let o = parse_optima("");
    assert!(o.values.is_empty() && o.notes.is_empty());
}

#[test]
fn scrub_cell_replaces_pipes() {
    assert_eq!(scrub_cell("a|b||c"), "a/b//c");
    assert_eq!(scrub_cell("plain"), "plain");
}

#[test]
fn csv_quote_doubles_quotes() {
    assert_eq!(csv_quote("afiro"), "\"afiro\"");
    assert_eq!(csv_quote("we\"ird"), "\"we\"\"ird\"");
    assert_eq!(csv_quote(""), "\"\"");
}

#[test]
fn quoted_name_reads_back() {
    for name in ["afiro", "we\"ird", "a,b", "\"\"", "", "x|y"] {
        let line = format!("{},Optimal,1.0,,2", csv_quote(name));
        let f = split_csv_line(&line);
        assert_eq!(f, vec![name.to_string(), "Optimal".into(), "1.0".into(), "".into(), "2".into()]);
    }
}

#[test]
fn split_csv_line_plain_and_malformed() {
    assert_eq!(split_csv_line("a,b,,c"), vec!["a", "b", "", "c"]);
    assert_eq!(split_csv_line("solo"), vec!["solo"]);
    assert_eq!(split_csv_line("a,"), vec!["a"]);
    assert_eq!(split_csv_line("\"open,quote"), vec!["open,quote"]);
    assert_eq!(split_csv_line("\"q\"x,y"), vec!["q", "x", "y"]);
    assert_eq!(split_csv_line(""), vec![""]);
}
