//! The MPS grammar as a specification: what each line of the text does to
//! the parse state, and which error it raises.
use vstd::prelude::*;
use crate::text::decimal;
use crate::mps::lexer::{Span, slice, tokens, lines};
use crate::mps::literal::{contains, float_literal};

verus! {

/// The section that data lines currently belong to.
#[derive(Clone, Copy, PartialEq, Eq, Structural, Debug)]
pub enum Section {
    Start,
    Rows,
    Columns,
    Rhs,
    Ranges,
    Bounds,
    Done,
}

/// The sense of a constraint row: `L` (≤ rhs), `G` (≥ rhs), `E` (= rhs).
#[derive(Clone, Copy, PartialEq, Eq, Structural, Debug)]
pub enum RowKind {
    L,
    G,
    E,
}

/// One side of a column bound as a BOUNDS line sets it.
#[derive(Clone, Copy, Debug)]
pub enum Limit {
    NegInf,
    PosInf,
    /// The literal at this span.
    Value(Span),
}

/// The state after a prefix of the lines.
pub struct Parsed {
    /// The problem name given by a NAME line.
    pub name: Option<Span>,
    pub section: Section,
    /// The first `N` row: the objective.
    pub obj_row: Option<Span>,
    /// Constraint rows, in ROWS order: name, sense, RHS literal, RANGES literal.
    pub rows: Seq<Span>,
    pub kinds: Seq<RowKind>,
    pub rhs: Seq<Option<Span>>,
    pub ranges: Seq<Option<Span>>,
    /// Columns, in order of first appearance.
    pub cols: Seq<Span>,
    /// Objective coefficient literals of each column, summed in this order.
    pub cost: Seq<Seq<Span>>,
    pub lower: Seq<Option<Limit>>,
    pub upper: Seq<Option<Limit>>,
    /// The literal of the last UP bound of each column.
    pub last_up: Seq<Option<Span>>,
    /// The RHS literal given on the objective row.
    pub obj_const: Option<Span>,
    /// For each constraint row, the literals of each column's coefficient.
    pub terms: Seq<Map<usize, Seq<Span>>>,
}

pub type Failure = (usize, Seq<char>);

pub open spec fn initial() -> Parsed {
    Parsed {
        name: None,
        section: Section::Start,
        obj_row: None,
        rows: seq![],
        kinds: seq![],
        rhs: seq![],
        ranges: seq![],
        cols: seq![],
        cost: seq![],
        lower: seq![],
        upper: seq![],
        last_up: seq![],
        obj_const: None,
        terms: seq![],
    }
}

// ---- words and messages ----

pub open spec fn w_name() -> Seq<char> { seq!['N', 'A', 'M', 'E'] }
pub open spec fn w_objsense() -> Seq<char> { seq!['O', 'B', 'J', 'S', 'E', 'N', 'S', 'E'] }
pub open spec fn w_rows() -> Seq<char> { seq!['R', 'O', 'W', 'S'] }
pub open spec fn w_columns() -> Seq<char> { seq!['C', 'O', 'L', 'U', 'M', 'N', 'S'] }
pub open spec fn w_rhs() -> Seq<char> { seq!['R', 'H', 'S'] }
pub open spec fn w_ranges() -> Seq<char> { seq!['R', 'A', 'N', 'G', 'E', 'S'] }
pub open spec fn w_bounds() -> Seq<char> { seq!['B', 'O', 'U', 'N', 'D', 'S'] }
pub open spec fn w_endata() -> Seq<char> { seq!['E', 'N', 'D', 'A', 'T', 'A'] }
pub open spec fn w_marker() -> Seq<char> { seq!['M', 'A', 'R', 'K', 'E', 'R'] }
pub open spec fn w_n() -> Seq<char> { seq!['N'] }
pub open spec fn w_l() -> Seq<char> { seq!['L'] }
pub open spec fn w_g() -> Seq<char> { seq!['G'] }
pub open spec fn w_e() -> Seq<char> { seq!['E'] }
pub open spec fn w_up() -> Seq<char> { seq!['U', 'P'] }
pub open spec fn w_lo() -> Seq<char> { seq!['L', 'O'] }
pub open spec fn w_fx() -> Seq<char> { seq!['F', 'X'] }
pub open spec fn w_fr() -> Seq<char> { seq!['F', 'R'] }
pub open spec fn w_mi() -> Seq<char> { seq!['M', 'I'] }
pub open spec fn w_pl() -> Seq<char> { seq!['P', 'L'] }
pub open spec fn w_bv() -> Seq<char> { seq!['B', 'V'] }
pub open spec fn w_ui() -> Seq<char> { seq!['U', 'I'] }
pub open spec fn w_li() -> Seq<char> { seq!['L', 'I'] }

/// `prefix` + `word` + `'` — the shape of most messages that quote a token.
pub open spec fn quoted(prefix: Seq<char>, word: Seq<char>) -> Seq<char> {
    prefix + word + seq!['\'']
}

pub open spec fn m_objsense() -> Seq<char> {
    "OBJSENSE unsupported in M0 (MIN only)"@
}
pub open spec fn m_unknown_section() -> Seq<char> { "unknown section '"@ }
pub open spec fn m_rows_line() -> Seq<char> { "ROWS line needs 'type name'"@ }
pub open spec fn m_bad_row_type() -> Seq<char> { "bad row type '"@ }
pub open spec fn m_duplicate_row() -> Seq<char> { "duplicate row '"@ }
pub open spec fn m_integer_vars() -> Seq<char> { "integer variables unsupported"@ }
pub open spec fn m_columns_line() -> Seq<char> { "COLUMNS line needs 'col row val [row val]'"@ }
pub open spec fn m_bad_number() -> Seq<char> { "bad number '"@ }
pub open spec fn m_unknown_row() -> Seq<char> { "unknown row '"@ }
pub open spec fn m_rhs_line() -> Seq<char> { "RHS line needs 'set row val [row val]'"@ }
pub open spec fn m_ranges_line() -> Seq<char> { "RANGES line needs 'set row val [row val]'"@ }
pub open spec fn m_bounds_prefix() -> Seq<char> { "BOUNDS '"@ }
pub open spec fn m_needs() -> Seq<char> { "' needs "@ }
pub open spec fn m_fields() -> Seq<char> { " fields"@ }
pub open spec fn m_unknown_column() -> Seq<char> { "unknown column '"@ }
pub open spec fn m_integer_bounds() -> Seq<char> { "integer bounds unsupported"@ }
pub open spec fn m_bad_bound_type() -> Seq<char> { "bad bound type '"@ }
pub open spec fn m_outside() -> Seq<char> { "data line outside any section"@ }
pub open spec fn m_missing_endata() -> Seq<char> { "missing ENDATA"@ }
pub open spec fn m_no_objective() -> Seq<char> { "no objective (N) row"@ }

// ---- lookups ----

/// Index of the first span in `names` that spells the same as `w`.
pub open spec fn find(t: Seq<char>, names: Seq<Span>, w: Span) -> Option<int>
    decreases names.len(),
{
    if names.len() == 0 {
        None
    } else {
        match find(t, names.drop_last(), w) {
            Some(i) => Some(i),
            None => if slice(t, names.last()) == slice(t, w) {
                Some(names.len() - 1)
            } else {
                None
            },
        }
    }
}

pub open spec fn is_obj(t: Seq<char>, st: Parsed, w: Span) -> bool {
    match st.obj_row {
        Some(o) => slice(t, o) == slice(t, w),
        None => false,
    }
}

// ---- per-section steps ----

pub open spec fn header_step(t: Seq<char>, st: Parsed, line: usize, toks: Seq<Span>) -> Result<Parsed, Failure> {
    let w = slice(t, toks[0]);
    if w == w_name() {
        if toks.len() > 1 {
            Ok(Parsed { name: Some(toks[1]), ..st })
        } else {
            Ok(st)
        }
    } else if w == w_objsense() {
        Err((line, m_objsense()))
    } else if w == w_rows() {
        Ok(Parsed { section: Section::Rows, ..st })
    } else if w == w_columns() {
        Ok(Parsed { section: Section::Columns, ..st })
    } else if w == w_rhs() {
        Ok(Parsed { section: Section::Rhs, ..st })
    } else if w == w_ranges() {
        Ok(Parsed { section: Section::Ranges, ..st })
    } else if w == w_bounds() {
        Ok(Parsed { section: Section::Bounds, ..st })
    } else if w == w_endata() {
        Ok(Parsed { section: Section::Done, ..st })
    } else {
        Err((line, quoted(m_unknown_section(), w)))
    }
}

pub open spec fn rows_step(t: Seq<char>, st: Parsed, line: usize, toks: Seq<Span>) -> Result<Parsed, Failure> {
    if toks.len() < 2 {
        Err((line, m_rows_line()))
    } else {
        let ty = slice(t, toks[0]);
        let name = toks[1];
        if ty == w_n() {
            if st.obj_row is None {
                Ok(Parsed { obj_row: Some(name), ..st })
            } else {
                Ok(st)
            }
        } else if ty == w_l() || ty == w_g() || ty == w_e() {
            let kind = if ty == w_l() { RowKind::L } else if ty == w_g() { RowKind::G } else { RowKind::E };
            if find(t, st.rows, name) is Some {
                Err((line, quoted(m_duplicate_row(), slice(t, name))))
            } else {
                Ok(Parsed {
                    rows: st.rows.push(name),
                    kinds: st.kinds.push(kind),
                    rhs: st.rhs.push(None),
                    ranges: st.ranges.push(None),
                    terms: st.terms.push(Map::empty()),
                    ..st
                })
            }
        } else {
            Err((line, quoted(m_bad_row_type(), ty)))
        }
    }
}

/// The column `name`, added at the end if it is new.
pub open spec fn with_column(t: Seq<char>, st: Parsed, name: Span) -> Parsed {
    if find(t, st.cols, name) is Some {
        st
    } else {
        Parsed {
            cols: st.cols.push(name),
            cost: st.cost.push(seq![]),
            lower: st.lower.push(None),
            upper: st.upper.push(None),
            last_up: st.last_up.push(None),
            ..st
        }
    }
}

/// Adds literal `v` to the coefficient of column `j` in row `r`.
pub open spec fn add_term(terms: Seq<Map<usize, Seq<Span>>>, r: int, j: usize, v: Span) -> Seq<Map<usize, Seq<Span>>> {
    let m = terms[r];
    let prev = if m.contains_key(j) { m[j] } else { seq![] };
    terms.update(r, m.insert(j, prev.push(v)))
}

/// COLUMNS pairs `toks[k], toks[k+1], ...` for column `j`.
pub open spec fn column_pairs(t: Seq<char>, st: Parsed, line: usize, toks: Seq<Span>, j: int, k: int) -> Result<Parsed, Failure>
    decreases toks.len() - k,
{
    if k < 0 || k + 1 >= toks.len() {
        Ok(st)
    } else {
        let row = toks[k];
        let val = toks[k + 1];
        if !float_literal(slice(t, val)) {
            Err((line, quoted(m_bad_number(), slice(t, val))))
        } else if is_obj(t, st, row) {
            column_pairs(t, Parsed { cost: st.cost.update(j, st.cost[j].push(val)), ..st }, line, toks, j, k + 2)
        } else {
            match find(t, st.rows, row) {
                Some(r) => column_pairs(t, Parsed { terms: add_term(st.terms, r, j as usize, val), ..st }, line, toks, j, k + 2),
                None => Err((line, quoted(m_unknown_row(), slice(t, row)))),
            }
        }
    }
}

pub open spec fn columns_step(t: Seq<char>, st: Parsed, line: usize, toks: Seq<Span>) -> Result<Parsed, Failure> {
    if toks.len() >= 3 && contains(slice(t, toks[1]), w_marker()) {
        Err((line, m_integer_vars()))
    } else if toks.len() < 3 || toks.len() % 2 == 0 {
        Err((line, m_columns_line()))
    } else {
        let st1 = with_column(t, st, toks[0]);
        let j = find(t, st1.cols, toks[0]).unwrap();
        column_pairs(t, st1, line, toks, j, 1)
    }
}

/// The values of the pairs `toks[k], toks[k + 1]`, `toks[k + 2], toks[k + 3]`,
/// ... whose row token spells `name`, in order.
pub open spec fn values_named(t: Seq<char>, name: Seq<char>, toks: Seq<Span>, k: int) -> Seq<Span>
    decreases toks.len() - k,
{
    if k < 0 || k + 1 >= toks.len() {
        seq![]
    } else if slice(t, toks[k]) == name {
        seq![toks[k + 1]] + values_named(t, name, toks, k + 2)
    } else {
        values_named(t, name, toks, k + 2)
    }
}

/// Every pair from `toks[k]` on has a numeric value and names either the
/// objective row or a known constraint row.
pub open spec fn pairs_acceptable(t: Seq<char>, st: Parsed, toks: Seq<Span>, k: int) -> bool {
    forall|q: int|
        #![trigger toks[q]]
        k <= q && q + 1 < toks.len() && (q - k) % 2 == 0 ==> {
            &&& float_literal(slice(t, toks[q + 1]))
            &&& (st.obj_row matches Some(o) && slice(t, toks[q]) == slice(t, o)) || find(t, st.rows, toks[q]) is Some
        }
}

proof fn lemma_find_bound(t: Seq<char>, names: Seq<Span>, w: Span)
    ensures
        find(t, names, w) matches Some(i) ==> 0 <= i < names.len(),
    decreases names.len(),
{
    if names.len() > 0 {
        lemma_find_bound(t, names.drop_last(), w);
    }
}

proof fn lemma_pairs_cost(t: Seq<char>, st: Parsed, line: usize, toks: Seq<Span>, j: int, k: int)
    requires
        0 <= j < st.cost.len(),
        0 <= k,
    ensures
        column_pairs(t, st, line, toks, j, k) matches Ok(st2) ==> {
            &&& st2.rows == st.rows
            &&& st2.obj_row == st.obj_row
            &&& st2.cols == st.cols
            &&& st2.cost == match st.obj_row {
                Some(o) => st.cost.update(j, st.cost[j] + values_named(t, slice(t, o), toks, k)),
                None => st.cost,
            }
        },
    decreases toks.len() - k,
{
    if k + 1 < toks.len() {
        let row = toks[k];
        let val = toks[k + 1];
        if float_literal(slice(t, val)) {
            if is_obj(t, st, row) {
                let st1 = Parsed { cost: st.cost.update(j, st.cost[j].push(val)), ..st };
                lemma_pairs_cost(t, st1, line, toks, j, k + 2);
                let o = st.obj_row->Some_0;
                assert(st.cost[j].push(val) + values_named(t, slice(t, o), toks, k + 2)
                    =~= st.cost[j] + values_named(t, slice(t, o), toks, k));
                assert(st1.cost.update(j, st1.cost[j] + values_named(t, slice(t, o), toks, k + 2))
                    =~= st.cost.update(j, st.cost[j] + values_named(t, slice(t, o), toks, k)));
            } else {
                match find(t, st.rows, row) {
                    Some(r) => {
                        let st1 = Parsed { terms: add_term(st.terms, r, j as usize, val), ..st };
                        lemma_pairs_cost(t, st1, line, toks, j, k + 2);
                    },
                    None => {},
                }
            }
        }
    } else {
        if let Some(o) = st.obj_row {
            assert(st.cost.update(j, st.cost[j] + values_named(t, slice(t, o), toks, k)) =~= st.cost);
        }
    }
}

proof fn lemma_pairs_ok(t: Seq<char>, st: Parsed, line: usize, toks: Seq<Span>, j: int, k: int)
    requires
        0 <= k,
        pairs_acceptable(t, st, toks, k),
    ensures
        column_pairs(t, st, line, toks, j, k) is Ok,
    decreases toks.len() - k,
{
    if k + 1 < toks.len() {
        let row = toks[k];
        let val = toks[k + 1];
        assert(toks[k] == row);
        assert((k - k) % 2 == 0);
        let st1 = if is_obj(t, st, row) {
            Parsed { cost: st.cost.update(j, st.cost[j].push(val)), ..st }
        } else {
            Parsed { terms: add_term(st.terms, find(t, st.rows, row)->Some_0, j as usize, val), ..st }
        };
        assert forall|q: int|
            #![trigger toks[q]]
            k + 2 <= q && q + 1 < toks.len() && (q - (k + 2)) % 2 == 0 implies {
                &&& float_literal(slice(t, toks[q + 1]))
                &&& (st1.obj_row matches Some(o) && slice(t, toks[q]) == slice(t, o)) || find(t, st1.rows, toks[q]) is Some
            } by {
            assert((q - k) % 2 == 0);
        }
        lemma_pairs_ok(t, st1, line, toks, j, k + 2);
    }
}

/// A COLUMNS line `col row val [row val ...]` appends to `col`'s objective
/// coefficients the values of all its pairs that name the objective row,
/// in whatever position, in order, and leaves every other column's alone;
/// and a well-shaped line whose values are all numbers and whose rows are
/// each the objective row or a known constraint row is always accepted.
pub proof fn lemma_columns_line(t: Seq<char>, st: Parsed, line: usize, toks: Seq<Span>)
    requires
        st.cost.len() == st.cols.len(),
        toks.len() >= 1,
    ensures
        ({
            let st1 = with_column(t, st, toks[0]);
            let j = find(t, st1.cols, toks[0])->Some_0;
            &&& find(t, st1.cols, toks[0]) is Some
            &&& 0 <= j < st1.cost.len()
            &&& st1.cost == (if j < st.cost.len() { st.cost } else { st.cost.push(seq![]) })
            &&& columns_step(t, st, line, toks) matches Ok(st2) ==> st2.cost == match st.obj_row {
                Some(o) => st1.cost.update(j, st1.cost[j] + values_named(t, slice(t, o), toks, 1)),
                None => st1.cost,
            }
        }),
        toks.len() >= 3 && toks.len() % 2 == 1 && !contains(slice(t, toks[1]), w_marker())
            && pairs_acceptable(t, st, toks, 1) ==> columns_step(t, st, line, toks) is Ok,
{
    let st1 = with_column(t, st, toks[0]);
    lemma_find_bound(t, st.cols, toks[0]);
    if find(t, st.cols, toks[0]) is None {
        assert(st1.cols.drop_last() == st.cols);
        assert(find(t, st1.cols, toks[0]) == Some(st.cols.len() as int));
    }
    lemma_find_bound(t, st1.cols, toks[0]);
    let j = find(t, st1.cols, toks[0])->Some_0;
    lemma_pairs_cost(t, st1, line, toks, j, 1);
    if toks.len() >= 3 && toks.len() % 2 == 1 && !contains(slice(t, toks[1]), w_marker())
        && pairs_acceptable(t, st, toks, 1) {
        assert(st1.rows == st.rows && st1.obj_row == st.obj_row);
        assert(pairs_acceptable(t, st1, toks, 1));
        lemma_pairs_ok(t, st1, line, toks, j, 1);
    }
}

/// RHS pairs from `toks[k]` on.
pub open spec fn rhs_pairs(t: Seq<char>, st: Parsed, line: usize, toks: Seq<Span>, k: int) -> Result<Parsed, Failure>
    decreases toks.len() - k,
{
    if k < 0 || k + 1 >= toks.len() {
        Ok(st)
    } else {
        let row = toks[k];
        let val = toks[k + 1];
        if !float_literal(slice(t, val)) {
            Err((line, quoted(m_bad_number(), slice(t, val))))
        } else if is_obj(t, st, row) {
            rhs_pairs(t, Parsed { obj_const: Some(val), ..st }, line, toks, k + 2)
        } else {
            match find(t, st.rows, row) {
                Some(r) => rhs_pairs(t, Parsed { rhs: st.rhs.update(r, Some(val)), ..st }, line, toks, k + 2),
                None => Err((line, quoted(m_unknown_row(), slice(t, row)))),
            }
        }
    }
}

/// An RHS line is `set row val [row val]`, or without the set name when it
/// has an even number of fields.
pub open spec fn rhs_step(t: Seq<char>, st: Parsed, line: usize, toks: Seq<Span>) -> Result<Parsed, Failure> {
    if toks.len() < 2 {
        Err((line, m_rhs_line()))
    } else {
        rhs_pairs(t, st, line, toks, if toks.len() % 2 == 0 { 0 } else { 1 })
    }
}

pub open spec fn range_pairs(t: Seq<char>, st: Parsed, line: usize, toks: Seq<Span>, k: int) -> Result<Parsed, Failure>
    decreases toks.len() - k,
{
    if k < 0 || k + 1 >= toks.len() {
        Ok(st)
    } else {
        let row = toks[k];
        let val = toks[k + 1];
        if !float_literal(slice(t, val)) {
            Err((line, quoted(m_bad_number(), slice(t, val))))
        } else {
            match find(t, st.rows, row) {
                Some(r) => range_pairs(t, Parsed { ranges: st.ranges.update(r, Some(val)), ..st }, line, toks, k + 2),
                None => Err((line, quoted(m_unknown_row(), slice(t, row)))),
            }
        }
    }
}

pub open spec fn ranges_step(t: Seq<char>, st: Parsed, line: usize, toks: Seq<Span>) -> Result<Parsed, Failure> {
    if toks.len() < 3 || toks.len() % 2 == 0 {
        Err((line, m_ranges_line()))
    } else {
        range_pairs(t, st, line, toks, 1)
    }
}

pub open spec fn bounds_step(t: Seq<char>, st: Parsed, line: usize, toks: Seq<Span>) -> Result<Parsed, Failure> {
    let bt = slice(t, toks[0]);
    let needs_val = bt == w_up() || bt == w_lo() || bt == w_fx();
    let min: nat = if needs_val { 4 } else { 3 };
    if toks.len() < min {
        Err((line, m_bounds_prefix() + bt + m_needs() + decimal(min) + m_fields()))
    } else {
        match find(t, st.cols, toks[2]) {
            None => Err((line, quoted(m_unknown_column(), slice(t, toks[2])))),
            Some(j) => if needs_val && !float_literal(slice(t, toks[3])) {
                Err((line, quoted(m_bad_number(), slice(t, toks[3]))))
            } else if bt == w_up() {
                Ok(Parsed {
                    upper: st.upper.update(j, Some(Limit::Value(toks[3]))),
                    last_up: st.last_up.update(j, Some(toks[3])),
                    ..st
                })
            } else if bt == w_lo() {
                Ok(Parsed { lower: st.lower.update(j, Some(Limit::Value(toks[3]))), ..st })
            } else if bt == w_fx() {
                Ok(Parsed {
                    lower: st.lower.update(j, Some(Limit::Value(toks[3]))),
                    upper: st.upper.update(j, Some(Limit::Value(toks[3]))),
                    ..st
                })
            } else if bt == w_fr() {
                Ok(Parsed {
                    lower: st.lower.update(j, Some(Limit::NegInf)),
                    upper: st.upper.update(j, Some(Limit::PosInf)),
                    ..st
                })
            } else if bt == w_mi() {
                Ok(Parsed { lower: st.lower.update(j, Some(Limit::NegInf)), ..st })
            } else if bt == w_pl() {
                Ok(Parsed { upper: st.upper.update(j, Some(Limit::PosInf)), ..st })
            } else if bt == w_bv() || bt == w_ui() || bt == w_li() {
                Err((line, m_integer_bounds()))
            } else {
                Err((line, quoted(m_bad_bound_type(), bt)))
            },
        }
    }
}

/// What the line `sp` (numbered `line`) does to the state.
pub open spec fn line_step(t: Seq<char>, st: Parsed, line: usize, sp: Span) -> Result<Parsed, Failure> {
    let toks = tokens(t, sp);
    if sp.0 < sp.1 && t[sp.0 as int] == '*' {
        Ok(st)
    } else if toks.len() == 0 {
        Ok(st)
    } else if t[sp.0 as int] != ' ' && t[sp.0 as int] != '\t' {
        header_step(t, st, line, toks)
    } else {
        match st.section {
            Section::Rows => rows_step(t, st, line, toks),
            Section::Columns => columns_step(t, st, line, toks),
            Section::Rhs => rhs_step(t, st, line, toks),
            Section::Ranges => ranges_step(t, st, line, toks),
            Section::Bounds => bounds_step(t, st, line, toks),
            _ => Err((line, m_outside())),
        }
    }
}

/// Runs the lines `ls[k..]`, stopping after ENDATA.
pub open spec fn run(t: Seq<char>, ls: Seq<Span>, k: int, st: Parsed) -> Result<Parsed, Failure>
    decreases ls.len() - k,
{
    if k < 0 || k >= ls.len() || st.section == Section::Done {
        Ok(st)
    } else {
        match line_step(t, st, (k + 1) as usize, ls[k]) {
            Err(e) => Err(e),
            Ok(st2) => run(t, ls, k + 1, st2),
        }
    }
}

/// The parse state of the whole text, or the first error it raises.
pub open spec fn parse_state(t: Seq<char>) -> Result<Parsed, Failure> {
    let ls = lines(t);
    match run(t, ls, 0, initial()) {
        Err(e) => Err(e),
        Ok(st) => if st.section != Section::Done {
            Err((ls.len() as usize, m_missing_endata()))
        } else if st.obj_row is None {
            Err((0, m_no_objective()))
        } else {
            Ok(st)
        },
    }
}

} // verus!
