//! The markdown report: one table row per benchmark CSV line, then the
//! count of optimal instances and the footnotes.
use vstd::prelude::*;
use crate::text::{chars_of, string_of, push_all, push_decimal, decimal};
use crate::mps::literal::{float_literal, is_float_literal};
use crate::report::{scrubbed, strings_view, split_csv_line, csv_fields};
use crate::report::optima::{Optima, pairs_view, data_lines, data_line_chars, trim_range, trim_span};

verus! {

/// A line that holds nothing but white space.
pub open spec fn is_blank(l: Seq<char>) -> bool {
    trim_range(l, 0, l.len() as int).len() == 0
}

/// The fields of each line that makes a table row: not blank, and with a
/// name and a status.
pub open spec fn rows_of(ls: Seq<Seq<char>>) -> Seq<Seq<Seq<char>>>
    decreases ls.len(),
{
    if ls.len() == 0 {
        seq![]
    } else {
        let prev = rows_of(ls.drop_last());
        if !is_blank(ls.last()) && csv_fields(ls.last()).len() >= 2 {
            prev.push(csv_fields(ls.last()))
        } else {
            prev
        }
    }
}

/// The table rows of a benchmark CSV (its header line excluded).
pub open spec fn bench_rows(csv: Seq<char>) -> Seq<Seq<Seq<char>>> {
    rows_of(data_lines(csv))
}

pub open spec fn rows_view(v: Seq<Vec<String>>) -> Seq<Seq<Seq<char>>> {
    v.map_values(|r: Vec<String>| strings_view(r@))
}

/// The fields of each table row of a benchmark CSV.
pub fn table_rows(csv: &str) -> (r: Vec<Vec<String>>)
    ensures
        rows_view(r@) == bench_rows(csv@),
{
    let ls = data_line_chars(csv);
    let ghost dl = data_lines(csv@);
    let mut rows: Vec<Vec<String>> = Vec::new();
    let mut i: usize = 0;
    while i < ls.len()
        invariant
            ls@.len() == dl.len(),
            forall|k: int| 0 <= k < ls@.len() ==> #[trigger] ls@[k]@ == dl[k],
            i <= ls@.len(),
            rows_view(rows@) == rows_of(dl.subrange(0, i as int)),
        decreases ls@.len() - i,
    {
        let l = &ls[i];
        assert(dl.subrange(0, i + 1).drop_last() == dl.subrange(0, i as int));
        assert(dl.subrange(0, i + 1).last() == l@);
        let ts = trim_span(l, 0, l.len());
        if ts.0 < ts.1 {
            let line = string_of(l.as_slice());
            let fields = split_csv_line(line.as_str());
            if fields.len() >= 2 {
                let ghost before = rows@;
                rows.push(fields);
                assert(rows_view(rows@) =~= rows_view(before).push(csv_fields(l@)));
            }
        }
        i = i + 1;
    }
    assert(dl.subrange(0, ls@.len() as int) == dl);
    rows
}

/// The marker of the footnote numbered `i` from zero: a superscript digit
/// for the first five, then `[i + 1]`.
pub open spec fn marker(i: nat) -> Seq<char> {
    if i == 0 {
        seq!['\u{b9}']
    } else if i == 1 {
        seq!['\u{b2}']
    } else if i == 2 {
        seq!['\u{b3}']
    } else if i == 3 {
        seq!['\u{2074}']
    } else if i == 4 {
        seq!['\u{2075}']
    } else {
        seq!['['] + decimal(i + 1) + seq![']']
    }
}

/// The footnotes of `rows`, in order: one `(marker, note)` per row whose
/// name has a note.
pub open spec fn footnotes(rows: Seq<Seq<Seq<char>>>, o: Optima) -> Seq<(Seq<char>, Seq<char>)>
    decreases rows.len(),
{
    if rows.len() == 0 {
        seq![]
    } else {
        let prev = footnotes(rows.drop_last(), o);
        match o.note_of(rows.last()[0]) {
            Some(n) => prev.push((marker(prev.len()), n)),
            None => prev,
        }
    }
}

/// The known optimum and relative error are shown when the name has a known
/// optimum and the objective reads as a number.
pub open spec fn figures_apply(o: Optima, row: Seq<Seq<char>>) -> bool {
    o.value_of(row[0]) is Some && row.len() > 2 && float_literal(row[2])
}

/// Field `i` of a row as a table cell (empty when the row is shorter).
pub open spec fn cell(row: Seq<Seq<char>>, i: int) -> Seq<char> {
    if i < row.len() {
        scrubbed(row[i])
    } else {
        seq![]
    }
}

pub open spec fn dash() -> Seq<char> {
    seq!['\u{2014}']
}

/// The start of a row's table line: name (with its footnote marker,
/// numbered `mark` from zero, when it has a note), status and objective.
pub open spec fn row_lead(o: Optima, row: Seq<Seq<char>>, mark: nat) -> Seq<char> {
    let name_cell = if o.note_of(row[0]) is Some {
        scrubbed(row[0]) + marker(mark)
    } else {
        scrubbed(row[0])
    };
    "| "@ + name_cell + " | "@ + scrubbed(row[1]) + " | "@ + cell(row, 2) + " | "@
}

/// The known optimum and relative error of a row's table line.
pub open spec fn row_figures(o: Optima, row: Seq<Seq<char>>, fig: (Seq<char>, Seq<char>)) -> Seq<char> {
    if figures_apply(o, row) {
        fig.0 + " | "@ + fig.1
    } else {
        dash() + " | "@ + dash()
    }
}

/// Whatever a row's status, its known-optimum and relative-error cells show
/// the given figures exactly when the row's name has a known optimum and
/// its objective field reads as a number, and a dash each otherwise; so
/// changing the status never changes them.
pub proof fn lemma_figures_ignore_status(o: Optima, row: Seq<Seq<char>>, fig: (Seq<char>, Seq<char>), status: Seq<char>)
    requires
        row.len() >= 2,
    ensures
        row_figures(o, row, fig) == (if o.value_of(row[0]) is Some && row.len() > 2 && float_literal(row[2]) {
            fig.0 + " | "@ + fig.1
        } else {
            seq!['\u{2014}'] + " | "@ + seq!['\u{2014}']
        }),
        row_figures(o, row.update(1, status), fig) == row_figures(o, row, fig),
{
    let row2 = row.update(1, status);
    assert(row2[0] == row[0] && row2.len() == row.len());
    if row.len() > 2 {
        assert(row2[2] == row[2]);
    }
}

/// The end of a row's table line: iterations, time and the three
/// residuals.
pub open spec fn row_tail(row: Seq<Seq<char>>) -> Seq<char> {
    " | "@ + cell(row, 3) + " | "@ + cell(row, 4) + " | "@ + cell(row, 5) + " | "@ + cell(row, 6)
        + " | "@ + cell(row, 7) + " |\n"@
}

/// The table line of a row.
pub open spec fn row_line(o: Optima, row: Seq<Seq<char>>, fig: (Seq<char>, Seq<char>), mark: nat) -> Seq<char> {
    row_lead(o, row, mark) + row_figures(o, row, fig) + row_tail(row)
}

/// The table lines of `rows`; `figs[i]` holds the known optimum and the
/// relative error shown for row `i`.
pub open spec fn table_body(rows: Seq<Seq<Seq<char>>>, o: Optima, figs: Seq<(Seq<char>, Seq<char>)>) -> Seq<char>
    decreases rows.len(),
{
    if rows.len() == 0 {
        seq![]
    } else {
        table_body(rows.drop_last(), o, figs)
            + row_line(o, rows.last(), figs[rows.len() - 1], footnotes(rows.drop_last(), o).len())
    }
}

/// How many rows have the status `Optimal`.
pub open spec fn optimal_count(rows: Seq<Seq<Seq<char>>>) -> nat
    decreases rows.len(),
{
    if rows.len() == 0 {
        0
    } else {
        optimal_count(rows.drop_last()) + if rows.last()[1] == "Optimal"@ { 1nat } else { 0nat }
    }
}

/// The report's title, preamble and table head.
pub const HEADER: &'static str = "# Sundial benchmark report\n\nGPU results at relative KKT \u{2264} 1e-4, CPU-f64-verified. Known optima from the Netlib readme; published solver times for the same instances: <https://plato.asu.edu/bench.html>.\n\n| instance | status | objective | known | rel err | iters | ms | primal | dual | gap |\n|---|---|---|---|---|---|---|---|---|---|\n";

/// The line after the table: the count of optimal rows out of all rows,
/// and the worst relative error among them when one is given.
pub open spec fn summary(optimal: nat, total: nat, worst: Option<(Seq<char>, Seq<char>)>) -> Seq<char> {
    "\n**"@ + decimal(optimal) + "/"@ + decimal(total) + " Optimal** (CPU-f64-verified)."@ + match worst {
        Some((name, w)) => " Worst relative objective error among Optimal: "@ + w + " ("@ + name + ")."@,
        None => seq![],
    } + "\n"@
}

/// The footnote paragraphs, each `marker note` after an empty line.
pub open spec fn footnote_text(fs: Seq<(Seq<char>, Seq<char>)>) -> Seq<char>
    decreases fs.len(),
{
    if fs.len() == 0 {
        seq![]
    } else {
        footnote_text(fs.drop_last()) + "\n"@ + fs.last().0 + " "@ + fs.last().1 + "\n"@
    }
}

/// The whole report.
pub open spec fn report_text(
    csv: Seq<char>,
    o: Optima,
    figs: Seq<(Seq<char>, Seq<char>)>,
    worst: Option<(Seq<char>, Seq<char>)>,
) -> Seq<char> {
    let rows = bench_rows(csv);
    HEADER@ + table_body(rows, o, figs) + summary(optimal_count(rows), rows.len(), worst)
        + footnote_text(footnotes(rows, o))
}

pub open spec fn worst_view(w: Option<(String, String)>) -> Option<(Seq<char>, Seq<char>)> {
    match w {
        Some((name, r)) => Some((name@, r@)),
        None => None,
    }
}

fn push_str(out: &mut Vec<char>, s: &str)
    ensures
        final(out)@ == old(out)@ + s@,
{
    let cs = chars_of(s);
    push_all(out, cs.as_slice());
}

fn push_scrubbed(out: &mut Vec<char>, s: &String)
    ensures
        final(out)@ == old(out)@ + scrubbed(s@),
{
    let cs = chars_of(s.as_str());
    let ghost start = out@;
    let mut i: usize = 0;
    while i < cs.len()
        invariant
            i <= cs@.len(),
            cs@ == s@,
            out@ =~= start + scrubbed(cs@.subrange(0, i as int)),
        decreases cs@.len() - i,
    {
        let c = cs[i];
        out.push(if c == '|' { '/' } else { c });
        i = i + 1;
    }
    assert(cs@.subrange(0, cs@.len() as int) == cs@);
}

fn push_marker(out: &mut Vec<char>, i: usize)
    requires
        i < u64::MAX,
    ensures
        final(out)@ == old(out)@ + marker(i as nat),
{
    if i == 0 {
        out.push('\u{b9}');
    } else if i == 1 {
        out.push('\u{b2}');
    } else if i == 2 {
        out.push('\u{b3}');
    } else if i == 3 {
        out.push('\u{2074}');
    } else if i == 4 {
        out.push('\u{2075}');
    } else {
        let ghost start = out@;
        out.push('[');
        push_decimal(out, (i as u64) + 1);
        out.push(']');
        assert(out@ =~= start + marker(i as nat));
    }
}

fn push_cell(out: &mut Vec<char>, row: &Vec<String>, i: usize)
    ensures
        final(out)@ == old(out)@ + cell(strings_view(row@), i as int),
{
    if i < row.len() {
        push_scrubbed(out, &row[i]);
    }
}


/// Appends the table line of `row`; `noted` tells whether its name has a
/// note, `mark` is the number of footnotes before it.
fn push_row(out: &mut Vec<char>, o: &Optima, row: &Vec<String>, fig: &(String, String), noted: bool, mark: usize)
    requires
        row@.len() >= 2,
        noted == (o.note_of(row@[0]@) is Some),
        mark < u64::MAX,
    ensures
        final(out)@ == old(out)@ + row_line(*o, strings_view(row@), (fig.0@, fig.1@), mark as nat),
{
    let ghost start = out@;
    push_lead(out, o, row, noted, mark);
    push_figures(out, o, row, fig);
    push_tail(out, row);
    assert(out@ =~= start + row_line(*o, strings_view(row@), (fig.0@, fig.1@), mark as nat));
}

fn push_lead(out: &mut Vec<char>, o: &Optima, row: &Vec<String>, noted: bool, mark: usize)
    requires
        row@.len() >= 2,
        noted == (o.note_of(row@[0]@) is Some),
        mark < u64::MAX,
    ensures
        final(out)@ == old(out)@ + row_lead(*o, strings_view(row@), mark as nat),
{
    let ghost start = out@;
    let ghost rv = strings_view(row@);
    assert(rv[0] == row@[0]@ && rv[1] == row@[1]@);
    let ghost name_cell = if noted { scrubbed(rv[0]) + marker(mark as nat) } else { scrubbed(rv[0]) };
    push_str(out, "| ");
    push_scrubbed(out, &row[0]);
    if noted {
        push_marker(out, mark);
    }
    assert(out@ =~= start + ("| "@ + name_cell));
    push_str(out, " | ");
    push_scrubbed(out, &row[1]);
    push_str(out, " | ");
    push_cell(out, row, 2);
    push_str(out, " | ");
    assert(out@ =~= start + row_lead(*o, rv, mark as nat));
}

fn push_figures(out: &mut Vec<char>, o: &Optima, row: &Vec<String>, fig: &(String, String))
    requires
        row@.len() >= 2,
    ensures
        final(out)@ == old(out)@ + row_figures(*o, strings_view(row@), (fig.0@, fig.1@)),
{
    let ghost start = out@;
    let ghost rv = strings_view(row@);
    assert(rv[0] == row@[0]@);
    let known = o.value(row[0].as_str());
    let mut apply = false;
    if known.is_some() && row.len() > 2 {
        let c = chars_of(row[2].as_str());
        apply = is_float_literal(&c, (0, c.len()));
        assert(c@.subrange(0, c@.len() as int) == c@);
        assert(rv[2] == row@[2]@);
    }
    assert(apply == figures_apply(*o, rv));
    if apply {
        push_str(out, fig.0.as_str());
        push_str(out, " | ");
        push_str(out, fig.1.as_str());
    } else {
        out.push('\u{2014}');
        push_str(out, " | ");
        out.push('\u{2014}');
    }
    assert(out@ =~= start + row_figures(*o, rv, (fig.0@, fig.1@)));
}

fn push_tail(out: &mut Vec<char>, row: &Vec<String>)
    ensures
        final(out)@ == old(out)@ + row_tail(strings_view(row@)),
{
    let ghost start = out@;
    push_str(out, " | ");
    push_cell(out, row, 3);
    push_str(out, " | ");
    push_cell(out, row, 4);
    push_str(out, " | ");
    push_cell(out, row, 5);
    push_str(out, " | ");
    push_cell(out, row, 6);
    push_str(out, " | ");
    push_cell(out, row, 7);
    push_str(out, " |\n");
    assert(out@ =~= start + row_tail(strings_view(row@)));
}


proof fn lemma_rows_have_status(ls: Seq<Seq<char>>)
    ensures
        forall|k: int| 0 <= k < rows_of(ls).len() ==> #[trigger] rows_of(ls)[k].len() >= 2,
    decreases ls.len(),
{
    if ls.len() > 0 {
        lemma_rows_have_status(ls.drop_last());
        let prev = rows_of(ls.drop_last());
        assert forall|k: int| 0 <= k < rows_of(ls).len() implies #[trigger] rows_of(ls)[k].len() >= 2 by {
            if k < prev.len() {
                assert(rows_of(ls)[k] == prev[k]);
            }
        }
    }
}

/// Renders the benchmark CSV and the known optima as a markdown report.
/// Every row stays in the table, optimal or not. `figures[i]` holds the
/// known optimum and the relative objective error, formatted, for table
/// row `i`; they are shown when that row's name has a known optimum and its
/// objective reads as a number, and a dash is shown otherwise. `worst`
/// names the optimal instance with the largest relative error, and that
/// error.
pub fn render(csv: &str, optima: &Optima, figures: &Vec<(String, String)>, worst: Option<(String, String)>) -> (r: String)
    requires
        figures@.len() == bench_rows(csv@).len(),
    ensures
        r@ == report_text(csv@, *optima, pairs_view(figures@), worst_view(worst)),
{
    let rows = table_rows(csv);
    let ghost rv = rows_view(rows@);
    let ghost figs = pairs_view(figures@);
    let ghost o = *optima;
    proof {
        lemma_rows_have_status(data_lines(csv@));
    }
    let mut out = chars_of(HEADER);
    let mut marks: Vec<Vec<char>> = Vec::new();
    let mut notes: Vec<String> = Vec::new();
    let optimal_word = "Optimal".to_owned();
    let mut optimal: usize = 0;
    let mut i: usize = 0;
    while i < rows.len()
        invariant
            rv == rows_view(rows@),
            rv == bench_rows(csv@),
            forall|k: int| 0 <= k < rv.len() ==> #[trigger] rv[k].len() >= 2,
            figs == pairs_view(figures@),
            figs.len() == rv.len(),
            o == *optima,
            optimal_word@ == "Optimal"@,
            i <= rv.len(),
            out@ == HEADER@ + table_body(rv.subrange(0, i as int), o, figs),
            marks@.len() == notes@.len(),
            notes@.len() <= i,
            notes@.len() == footnotes(rv.subrange(0, i as int), o).len(),
            forall|k: int| 0 <= k < notes@.len() ==> (#[trigger] marks@[k])@ == footnotes(rv.subrange(0, i as int), o)[k].0
                && notes@[k]@ == footnotes(rv.subrange(0, i as int), o)[k].1,
            optimal <= i,
            optimal == optimal_count(rv.subrange(0, i as int)),
        decreases rv.len() - i,
    {
        let row = &rows[i];
        let ghost pre = rv.subrange(0, i as int);
        assert(rv.subrange(0, i + 1).drop_last() == pre);
        assert(rv.subrange(0, i + 1).last() == rv[i as int]);
        assert(rv[i as int] == strings_view(row@));
        assert(strings_view(row@)[0] == row@[0]@);
        assert(strings_view(row@)[1] == row@[1]@);
        let note = optima.note(row[0].as_str());
        let mark = notes.len();
        push_row(&mut out, optima, row, &figures[i], note.is_some(), mark);
        assert(figs[i as int] == (figures@[i as int].0@, figures@[i as int].1@));
        match note {
            Some(n) => {
                let mut m: Vec<char> = Vec::new();
                push_marker(&mut m, mark);
                assert(m@ =~= marker(mark as nat));
                marks.push(m);
                notes.push(n);
            },
            None => {},
        }
        if row[1] == optimal_word {
            optimal = optimal + 1;
        }
        i = i + 1;
    }
    assert(rv.subrange(0, rv.len() as int) == rv);
    let ghost fs = footnotes(rv, o);
    push_str(&mut out, "\n**");
    push_decimal(&mut out, optimal as u64);
    push_str(&mut out, "/");
    push_decimal(&mut out, rows.len() as u64);
    push_str(&mut out, " Optimal** (CPU-f64-verified).");
    match &worst {
        Some((name, w)) => {
            push_str(&mut out, " Worst relative objective error among Optimal: ");
            push_str(&mut out, w.as_str());
            push_str(&mut out, " (");
            push_str(&mut out, name.as_str());
            push_str(&mut out, ").");
        },
        None => {},
    }
    push_str(&mut out, "\n");
    let ghost body = out@;
    assert(body =~= HEADER@ + table_body(rv, o, figs) + summary(optimal_count(rv), rv.len(), worst_view(worst)));
    let mut k: usize = 0;
    while k < notes.len()
        invariant
            marks@.len() == notes@.len(),
            notes@.len() == fs.len(),
            forall|q: int| 0 <= q < notes@.len() ==> (#[trigger] marks@[q])@ == fs[q].0 && notes@[q]@ == fs[q].1,
            k <= notes@.len(),
            out@ == body + footnote_text(fs.subrange(0, k as int)),
        decreases notes@.len() - k,
    {
        assert(fs.subrange(0, k + 1).drop_last() == fs.subrange(0, k as int));
        assert(fs.subrange(0, k + 1).last() == fs[k as int]);
        let ghost before = out@;
        push_str(&mut out, "\n");
        push_all(&mut out, marks[k].as_slice());
        push_str(&mut out, " ");
        push_str(&mut out, notes[k].as_str());
        push_str(&mut out, "\n");
        assert(out@ =~= before + ("\n"@ + fs[k as int].0 + " "@ + fs[k as int].1 + "\n"@));
        k = k + 1;
    }
    assert(fs.subrange(0, fs.len() as int) == fs);
    string_of(out.as_slice())
}

} // verus!
