//! The float-free model an MPS text describes, and its construction from the
//! parse state.
use vstd::prelude::*;
use crate::text::{chars_of, string_of};
use crate::csr::CsrMatrix;
use crate::mps::lexer::{Span, slice};
use crate::mps::literal::span_chars;
use crate::mps::grammar::{RowKind, Limit, Parsed};
use crate::mps::parser::{State, Bucket, bucket_rep, parsed_wf, spans_in, opt_span_in, limit_in};

verus! {

/// One side of a column bound.
#[derive(Clone, Debug)]
pub enum Bound {
    NegInf,
    PosInf,
    /// A numeric literal, as written.
    Value(String),
}

/// A row bound in terms of the row's own literals, `b` (its RHS, 0 when
/// absent) and `r` (its RANGES literal).
#[derive(Clone, Copy, Debug, PartialEq, Eq, Structural)]
pub enum RowBound {
    NegInf,
    PosInf,
    /// `b`
    Rhs,
    /// `b - |r|`
    RhsMinusAbsRange,
    /// `b + |r|`
    RhsPlusAbsRange,
    /// `b + r`
    RhsPlusRange,
}

/// A column bound as a number: infinite, zero, or a literal.
#[derive(Clone, Debug)]
pub enum ColBound {
    NegInf,
    PosInf,
    Zero,
    Literal(String),
}

/// A constraint row: its sense, its RHS literal (absent means 0) and its
/// RANGES literal.
#[derive(Clone, Debug)]
pub struct RowSpec {
    pub kind: RowKind,
    pub rhs: Option<String>,
    pub range: Option<String>,
}

/// A column: its objective coefficient literals (to be summed, in order),
/// the bounds its BOUNDS lines set, and the literal of its last UP bound
/// (when no lower bound is set, a negative last UP bound opens the lower
/// bound to -inf, otherwise it is 0; an unset upper bound is +inf).
#[derive(Clone, Debug)]
pub struct ColumnSpec {
    pub cost: Vec<String>,
    pub lower: Option<Bound>,
    pub upper: Option<Bound>,
    pub last_up: Option<String>,
}

/// A linear program as an MPS text states it, with every number kept as the
/// literal that spells it.
#[derive(Clone, Debug)]
pub struct MpsModel {
    pub name: String,
    pub rows: Vec<RowSpec>,
    pub cols: Vec<ColumnSpec>,
    /// The RHS literal given on the objective row (the objective offset is
    /// its negation).
    pub obj_constant: Option<String>,
    /// The constraint matrix: for each entry, the literals that sum to it.
    pub a: CsrMatrix<Vec<String>>,
}

pub open spec fn opt_str_is(o: Option<String>, t: Seq<char>, sp: Option<Span>) -> bool {
    match (o, sp) {
        (Some(s), Some(x)) => s@ == slice(t, x),
        (None, None) => true,
        _ => false,
    }
}

pub open spec fn bound_is(o: Option<Bound>, t: Seq<char>, l: Option<Limit>) -> bool {
    match (o, l) {
        (None, None) => true,
        (Some(Bound::NegInf), Some(Limit::NegInf)) => true,
        (Some(Bound::PosInf), Some(Limit::PosInf)) => true,
        (Some(Bound::Value(s)), Some(Limit::Value(x))) => s@ == slice(t, x),
        _ => false,
    }
}

/// The strings `v` spell the spans `sps`, in order.
pub open spec fn strings_are(v: Seq<String>, t: Seq<char>, sps: Seq<Span>) -> bool {
    v.len() == sps.len() && forall|i: int| 0 <= i < v.len() ==> (#[trigger] v[i])@ == slice(t, sps[i])
}

pub open spec fn strictly_increasing(s: Seq<usize>) -> bool {
    forall|i: int, j: int| 0 <= i < j < s.len() ==> #[trigger] s[i] < #[trigger] s[j]
}

/// Where row `r` starts when row `q` has `rc[q].len()` entries.
pub open spec fn offset(rc: Seq<Seq<usize>>, r: int) -> int
    decreases r,
{
    if r <= 0 {
        0
    } else {
        offset(rc, r - 1) + rc[r - 1].len()
    }
}

/// `a` stores the coefficient literals `terms` by rows, each row's columns
/// listed in increasing order as `rc`; counts and columns are stored as
/// `u32` (higher bits dropped).
pub open spec fn csr_with(a: CsrMatrix<Vec<String>>, t: Seq<char>, terms: Seq<Map<usize, Seq<Span>>>, rc: Seq<Seq<usize>>) -> bool {
    let m = terms.len() as int;
    &&& rc.len() == m
    &&& forall|r: int| 0 <= r < m ==> strictly_increasing(#[trigger] rc[r])
    &&& forall|r: int, j: usize| 0 <= r < m ==> (#[trigger] terms[r].contains_key(j) <==> rc[r].contains(j))
    &&& a.indptr@.len() == m + 1
    &&& forall|r: int| 0 <= r <= m ==> #[trigger] a.indptr@[r] == (offset(rc, r) as u32)
    &&& a.indices@.len() == offset(rc, m)
    &&& a.values@.len() == offset(rc, m)
    &&& forall|r: int, q: int| 0 <= r < m && 0 <= q < rc[r].len() ==> {
        &&& a.indices@[offset(rc, r) + q] == (#[trigger] rc[r][q] as u32)
        &&& strings_are(a.values@[offset(rc, r) + q]@, t, terms[r][rc[r][q]])
    }
}

/// `m` is the model of the final parse state `p` of the text `t`.
pub open spec fn model_of(m: MpsModel, t: Seq<char>, p: Parsed) -> bool {
    &&& m.name@ == (match p.name {
        Some(sp) => slice(t, sp),
        None => "unnamed"@,
    })
    &&& m.rows@.len() == p.rows.len()
    &&& forall|r: int| 0 <= r < p.rows.len() ==> {
        let row = #[trigger] m.rows@[r];
        &&& row.kind == p.kinds[r]
        &&& opt_str_is(row.rhs, t, p.rhs[r])
        &&& opt_str_is(row.range, t, p.ranges[r])
    }
    &&& m.cols@.len() == p.cols.len()
    &&& forall|j: int| 0 <= j < p.cols.len() ==> {
        let col = #[trigger] m.cols@[j];
        &&& strings_are(col.cost@, t, p.cost[j])
        &&& bound_is(col.lower, t, p.lower[j])
        &&& bound_is(col.upper, t, p.upper[j])
        &&& opt_str_is(col.last_up, t, p.last_up[j])
    }
    &&& opt_str_is(m.obj_constant, t, p.obj_const)
    &&& m.a.n_rows == p.rows.len()
    &&& m.a.n_cols == p.cols.len()
    &&& exists|rc: Seq<Seq<usize>>| csr_with(m.a, t, p.terms, rc)
}

fn span_string(t: &Vec<char>, sp: Span) -> (r: String)
    requires
        sp.0 <= sp.1 <= t@.len(),
    ensures
        r@ == slice(t@, sp),
{
    let cs = span_chars(t, sp);
    string_of(cs.as_slice())
}

fn opt_string(t: &Vec<char>, o: Option<Span>) -> (r: Option<String>)
    requires
        opt_span_in(o, t@.len() as int),
    ensures
        opt_str_is(r, t@, o),
{
    match o {
        Some(sp) => Some(span_string(t, sp)),
        None => None,
    }
}

fn bound_of(t: &Vec<char>, o: Option<Limit>) -> (r: Option<Bound>)
    requires
        limit_in(o, t@.len() as int),
    ensures
        bound_is(r, t@, o),
{
    match o {
        None => None,
        Some(Limit::NegInf) => Some(Bound::NegInf),
        Some(Limit::PosInf) => Some(Bound::PosInf),
        Some(Limit::Value(sp)) => Some(Bound::Value(span_string(t, sp))),
    }
}

fn strings_of(t: &Vec<char>, sps: &Vec<Span>) -> (r: Vec<String>)
    requires
        spans_in(sps@, t@.len() as int),
    ensures
        strings_are(r@, t@, sps@),
{
    let mut r: Vec<String> = Vec::new();
    let mut i: usize = 0;
    while i < sps.len()
        invariant
            i <= sps@.len(),
            spans_in(sps@, t@.len() as int),
            r@.len() == i,
            forall|k: int| 0 <= k < i ==> (#[trigger] r@[k])@ == slice(t@, sps@[k]),
        decreases sps@.len() - i,
    {
        r.push(span_string(t, sps[i]));
        i = i + 1;
    }
    r
}


proof fn lemma_offset_mono(rc: Seq<Seq<usize>>, a: int, b: int)
    requires
        0 <= a <= b,
    ensures
        offset(rc, a) <= offset(rc, b),
    decreases b - a,
{
    if a < b {
        lemma_offset_mono(rc, a, b - 1);
    }
}

/// Offsets up to row `r` depend only on the first `r` rows.
proof fn lemma_offset_prefix(rc: Seq<Seq<usize>>, rc2: Seq<Seq<usize>>, r: int)
    requires
        0 <= r <= rc.len(),
        r < rc2.len(),
        forall|k: int| 0 <= k < r ==> rc[k] == rc2[k],
    ensures
        forall|k: int| 0 <= k <= r ==> #[trigger] offset(rc, k) == offset(rc2, k),
    decreases r,
{
    if r > 0 {
        lemma_offset_prefix(rc, rc2, r - 1);
        assert(offset(rc, r) == offset(rc, r - 1) + rc[r - 1].len());
    }
}

pub open spec fn bucket_cols(b: Seq<(usize, Vec<Span>)>) -> Seq<usize> {
    b.map_values(|e: (usize, Vec<Span>)| e.0)
}

/// The constraint matrix of the row buckets `terms`.
fn build_matrix(t: &Vec<char>, terms: &Vec<Bucket>, n_cols: usize, Ghost(tm): Ghost<Seq<Map<usize, Seq<Span>>>>) -> (a: CsrMatrix<Vec<String>>)
    requires
        terms@.len() == tm.len(),
        forall|r: int| 0 <= r < tm.len() ==> bucket_rep((#[trigger] terms@[r])@, tm[r]),
        forall|r: int, j: usize| 0 <= r < tm.len() && #[trigger] tm[r].contains_key(j) ==> spans_in(tm[r][j], t@.len() as int),
    ensures
        a.n_rows == tm.len(),
        a.n_cols == n_cols,
        exists|rc: Seq<Seq<usize>>| csr_with(a, t@, tm, rc),
{
    let m = terms.len();
    let mut indptr: Vec<u32> = Vec::new();
    indptr.push(0);
    let mut indices: Vec<u32> = Vec::new();
    let mut values: Vec<Vec<String>> = Vec::new();
    let ghost mut rc: Seq<Seq<usize>> = seq![];
    let mut r: usize = 0;
    while r < m
        invariant
            m == terms@.len(),
            m == tm.len(),
            r <= m,
            forall|r2: int| 0 <= r2 < tm.len() ==> bucket_rep((#[trigger] terms@[r2])@, tm[r2]),
            forall|r2: int, j: usize| 0 <= r2 < tm.len() && #[trigger] tm[r2].contains_key(j) ==> spans_in(tm[r2][j], t@.len() as int),
            rc.len() == r,
            forall|r2: int| 0 <= r2 < r ==> #[trigger] rc[r2] == bucket_cols(terms@[r2]@),
            indptr@.len() == r + 1,
            forall|r2: int| 0 <= r2 <= r ==> #[trigger] indptr@[r2] == (offset(rc, r2) as u32),
            indices@.len() == offset(rc, r as int),
            values@.len() == offset(rc, r as int),
            forall|r2: int, q: int| 0 <= r2 < r && 0 <= q < rc[r2].len() ==> {
                &&& indices@[offset(rc, r2) + q] == (#[trigger] rc[r2][q] as u32)
                &&& strings_are(values@[offset(rc, r2) + q]@, t@, tm[r2][rc[r2][q]])
            },
        decreases m - r,
    {
        let b = &terms[r];
        let nb = b.len();
        let base = indices.len();
        let ghost row = tm[r as int];
        let ghost ind0 = indices@;
        let ghost val0 = values@;
        let mut q: usize = 0;
        while q < nb
            invariant
                nb == b@.len(),
                b@ == terms@[r as int]@,
                bucket_rep(b@, row),
                row == tm[r as int],
                forall|j: usize| #[trigger] row.contains_key(j) ==> spans_in(row[j], t@.len() as int),
                q <= nb,
                base == offset(rc, r as int),
                indices@.len() == base + q,
                values@.len() == base + q,
                forall|k: int| 0 <= k < base ==> indices@[k] == ind0[k],
                forall|k: int| 0 <= k < base ==> values@[k] == val0[k],
                forall|q2: int| 0 <= q2 < q ==> {
                    &&& indices@[base + q2] == ((#[trigger] b@[q2]).0 as u32)
                    &&& strings_are(values@[base + q2]@, t@, row[b@[q2].0])
                },
            decreases nb - q,
        {
            let (j, ref sps) = b[q];
            assert(row.contains_key(b@[q as int].0));
            indices.push(j as u32);
            values.push(strings_of(t, sps));
            q = q + 1;
        }
        let ghost prev_rc = rc;
        proof {
            rc = rc.push(bucket_cols(b@));
            lemma_offset_prefix(prev_rc, rc, r as int);
        }
        indptr.push(indices.len() as u32);
        assert forall|r2: int, q2: int| 0 <= r2 < r + 1 && 0 <= q2 < rc[r2].len() implies {
            &&& indices@[offset(rc, r2) + q2] == (#[trigger] rc[r2][q2] as u32)
            &&& strings_are(values@[offset(rc, r2) + q2]@, t@, tm[r2][rc[r2][q2]])
        } by {
            if r2 < r {
                lemma_offset_mono(prev_rc, r2 + 1, r as int);
                lemma_offset_mono(prev_rc, 0, r2);
                assert(rc[r2] == prev_rc[r2]);
                assert(rc[r2][q2] == prev_rc[r2][q2]);
                assert(offset(prev_rc, r2 + 1) == offset(prev_rc, r2) + prev_rc[r2].len());
                assert(offset(rc, r2) == offset(prev_rc, r2));
                let k = offset(rc, r2) + q2;
                assert(k < base);
                assert(indices@[k] == ind0[k]);
                assert(values@[k] == val0[k]);
                assert(ind0[k] == (prev_rc[r2][q2] as u32));
            } else {
                assert(rc[r2][q2] == b@[q2].0);
                assert(offset(rc, r2) == base);
                assert(indices@[base + q2] == (b@[q2].0 as u32));
            }
        }
        r = r + 1;
    }
    let a = CsrMatrix { n_rows: m, n_cols, indptr, indices, values };
    assert forall|r2: int| 0 <= r2 < m implies strictly_increasing(#[trigger] rc[r2]) by {
        let bb = terms@[r2]@;
        assert(bucket_rep(bb, tm[r2]));
        assert forall|i: int, j: int| 0 <= i < j < rc[r2].len() implies #[trigger] rc[r2][i] < #[trigger] rc[r2][j] by {
            assert(bb[i].0 < bb[j].0);
        }
    }
    assert forall|r2: int, j: usize| 0 <= r2 < m implies (#[trigger] tm[r2].contains_key(j) <==> rc[r2].contains(j)) by {
        let bb = terms@[r2]@;
        assert(bucket_rep(bb, tm[r2]));
        if tm[r2].contains_key(j) {
            let q = choose|q: int| 0 <= q < bb.len() && (#[trigger] bb[q]).0 == j;
            assert(rc[r2][q] == j);
        }
        if rc[r2].contains(j) {
            let q = choose|q: int| 0 <= q < rc[r2].len() && rc[r2][q] == j;
            assert(bb[q].0 == j);
        }
    }
    assert(csr_with(a, t@, tm, rc));
    a
}


/// The model of a final parse state.
pub fn build_model(t: &Vec<char>, st: &State, Ghost(p): Ghost<Parsed>) -> (m: MpsModel)
    requires
        st.rep(p),
        parsed_wf(p, t@.len() as int),
    ensures
        model_of(m, t@, p),
{
    let name = match st.name {
        Some(sp) => span_string(t, sp),
        None => {
            let cs = chars_of("unnamed");
            string_of(cs.as_slice())
        },
    };
    let nr = st.rows.len();
    let mut rows: Vec<RowSpec> = Vec::new();
    let mut r: usize = 0;
    while r < nr
        invariant
            nr == p.rows.len(),
            st.rep(p),
            parsed_wf(p, t@.len() as int),
            r <= nr,
            rows@.len() == r,
            forall|r2: int| 0 <= r2 < r ==> {
                let row = #[trigger] rows@[r2];
                &&& row.kind == p.kinds[r2]
                &&& opt_str_is(row.rhs, t@, p.rhs[r2])
                &&& opt_str_is(row.range, t@, p.ranges[r2])
            },
        decreases nr - r,
    {
        assert(opt_span_in(p.rhs[r as int], t@.len() as int));
        assert(opt_span_in(p.ranges[r as int], t@.len() as int));
        rows.push(RowSpec { kind: st.kinds[r], rhs: opt_string(t, st.rhs[r]), range: opt_string(t, st.ranges[r]) });
        r = r + 1;
    }
    let nc = st.cols.len();
    let mut cols: Vec<ColumnSpec> = Vec::new();
    let mut j: usize = 0;
    while j < nc
        invariant
            nc == p.cols.len(),
            st.rep(p),
            parsed_wf(p, t@.len() as int),
            j <= nc,
            cols@.len() == j,
            forall|j2: int| 0 <= j2 < j ==> {
                let col = #[trigger] cols@[j2];
                &&& strings_are(col.cost@, t@, p.cost[j2])
                &&& bound_is(col.lower, t@, p.lower[j2])
                &&& bound_is(col.upper, t@, p.upper[j2])
                &&& opt_str_is(col.last_up, t@, p.last_up[j2])
            },
        decreases nc - j,
    {
        assert(spans_in(p.cost[j as int], t@.len() as int));
        assert(st.cost@[j as int]@ == p.cost[j as int]);
        assert(limit_in(p.lower[j as int], t@.len() as int));
        assert(limit_in(p.upper[j as int], t@.len() as int));
        assert(opt_span_in(p.last_up[j as int], t@.len() as int));
        cols.push(ColumnSpec {
            cost: strings_of(t, &st.cost[j]),
            lower: bound_of(t, st.lower[j]),
            upper: bound_of(t, st.upper[j]),
            last_up: opt_string(t, st.last_up[j]),
        });
        j = j + 1;
    }
    let obj_constant = opt_string(t, st.obj_const);
    let a = build_matrix(t, &st.terms, nc, Ghost(p.terms));
    MpsModel { name, rows, cols, obj_constant, a }
}


/// The bounds `(lower, upper)` of a constraint row: `L` is `[-inf, b]`, `G`
/// is `[b, +inf]`, `E` is `[b, b]`; a RANGES value `r` turns `L` into
/// `[b - |r|, b]`, `G` into `[b, b + |r|]`, and `E` into `[b, b + r]` when
/// `r >= 0`, else `[b + r, b]`.
pub open spec fn row_bounds_spec(kind: RowKind, has_range: bool, range_nonneg: bool) -> (RowBound, RowBound) {
    match kind {
        RowKind::L => (if has_range { RowBound::RhsMinusAbsRange } else { RowBound::NegInf }, RowBound::Rhs),
        RowKind::G => (RowBound::Rhs, if has_range { RowBound::RhsPlusAbsRange } else { RowBound::PosInf }),
        RowKind::E => if !has_range {
            (RowBound::Rhs, RowBound::Rhs)
        } else if range_nonneg {
            (RowBound::Rhs, RowBound::RhsPlusRange)
        } else {
            (RowBound::RhsPlusRange, RowBound::Rhs)
        },
    }
}

/// The MPS row-bound rule, for every sense and range: an `L` row is
/// `[-inf, b]` (`[b - |r|, b]` with a range `r`), a `G` row is `[b, +inf]`
/// (`[b, b + |r|]`), an `E` row is `[b, b]` (`[b, b + r]` when `r >= 0`,
/// `[b + r, b]` otherwise). Only an `L` row without a range is open below,
/// only a `G` row without a range is open above, and only an `E` row
/// without a range is an equality on `b`.
pub proof fn lemma_row_bounds_rule(kind: RowKind, has_range: bool, range_nonneg: bool)
    ensures
        ({
            let r = row_bounds_spec(kind, has_range, range_nonneg);
            &&& kind == RowKind::L ==> r == (if has_range { RowBound::RhsMinusAbsRange } else { RowBound::NegInf }, RowBound::Rhs)
            &&& kind == RowKind::G ==> r == (RowBound::Rhs, if has_range { RowBound::RhsPlusAbsRange } else { RowBound::PosInf })
            &&& kind == RowKind::E ==> r == (if !has_range {
                (RowBound::Rhs, RowBound::Rhs)
            } else if range_nonneg {
                (RowBound::Rhs, RowBound::RhsPlusRange)
            } else {
                (RowBound::RhsPlusRange, RowBound::Rhs)
            })
            &&& (r.0 == RowBound::NegInf <==> kind == RowKind::L && !has_range)
            &&& (r.1 == RowBound::PosInf <==> kind == RowKind::G && !has_range)
            &&& (r == (RowBound::Rhs, RowBound::Rhs) <==> kind == RowKind::E && !has_range)
        }),
{
}

impl RowSpec {
    /// The row's bounds; `range_nonneg` tells whether its RANGES value is
    /// `>= 0` (it matters only for `E` rows with a range).
    pub fn bounds(&self, range_nonneg: bool) -> (r: (RowBound, RowBound))
        ensures
            r == row_bounds_spec(self.kind, self.range is Some, range_nonneg),
            self.kind == RowKind::L ==> r.1 == RowBound::Rhs
                && r.0 == (if self.range is Some { RowBound::RhsMinusAbsRange } else { RowBound::NegInf }),
            self.kind == RowKind::G ==> r.0 == RowBound::Rhs
                && r.1 == (if self.range is Some { RowBound::RhsPlusAbsRange } else { RowBound::PosInf }),
            self.kind == RowKind::E && self.range is None ==> r == (RowBound::Rhs, RowBound::Rhs),
            self.kind == RowKind::E && self.range is Some && range_nonneg ==> r == (RowBound::Rhs, RowBound::RhsPlusRange),
            self.kind == RowKind::E && self.range is Some && !range_nonneg ==> r == (RowBound::RhsPlusRange, RowBound::Rhs),
    {
        let has_range = self.range.is_some();
        match self.kind {
            RowKind::L => (if has_range { RowBound::RhsMinusAbsRange } else { RowBound::NegInf }, RowBound::Rhs),
            RowKind::G => (RowBound::Rhs, if has_range { RowBound::RhsPlusAbsRange } else { RowBound::PosInf }),
            RowKind::E => if !has_range {
                (RowBound::Rhs, RowBound::Rhs)
            } else if range_nonneg {
                (RowBound::Rhs, RowBound::RhsPlusRange)
            } else {
                (RowBound::RhsPlusRange, RowBound::Rhs)
            },
        }
    }
}

pub open spec fn col_bound_of(b: Bound) -> ColBound {
    match b {
        Bound::NegInf => ColBound::NegInf,
        Bound::PosInf => ColBound::PosInf,
        Bound::Value(s) => ColBound::Literal(s),
    }
}

fn to_col_bound(b: &Bound) -> (r: ColBound)
    ensures
        r == col_bound_of(*b),
{
    match b {
        Bound::NegInf => ColBound::NegInf,
        Bound::PosInf => ColBound::PosInf,
        Bound::Value(s) => ColBound::Literal(s.clone()),
    }
}

impl ColumnSpec {
    /// The column's lower bound: the one a BOUNDS line set, whatever the
    /// order of the lines; otherwise -inf when its last UP bound is negative
    /// (`last_up_negative`), else 0.
    pub fn lower_bound(&self, last_up_negative: bool) -> (r: ColBound)
        ensures
            r == (match self.lower {
                Some(b) => col_bound_of(b),
                None => if self.last_up is Some && last_up_negative { ColBound::NegInf } else { ColBound::Zero },
            }),
    {
        match &self.lower {
            Some(b) => to_col_bound(b),
            None => if self.last_up.is_some() && last_up_negative {
                ColBound::NegInf
            } else {
                ColBound::Zero
            },
        }
    }

    /// The column's upper bound: the one a BOUNDS line set, else +inf.
    pub fn upper_bound(&self) -> (r: ColBound)
        ensures
            r == (match self.upper {
                Some(b) => col_bound_of(b),
                None => ColBound::PosInf,
            }),
    {
        match &self.upper {
            Some(b) => to_col_bound(b),
            None => ColBound::PosInf,
        }
    }
}

} // verus!
