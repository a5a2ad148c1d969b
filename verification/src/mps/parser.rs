//! The executable MPS parser, proved to follow `grammar`.
use vstd::prelude::*;
use crate::text::{chars_of, push_all, push_decimal, decimal};
use crate::mps::lexer::{Span, slice, tokens, lines, line_spans, token_spans, lemma_lines_in};
use crate::mps::literal::{span_eq, span_is, span_chars, span_contains, is_float_literal, contains, float_literal};
use crate::mps::grammar::{
    Section, RowKind, Limit, Parsed, Failure, initial, find, is_obj, quoted, header_step,
    rows_step, with_column, add_term, column_pairs, columns_step, rhs_pairs, rhs_step,
    range_pairs, ranges_step, bounds_step, line_step, run, parse_state, w_name, w_objsense,
    w_rows, w_columns, w_rhs, w_ranges, w_bounds, w_endata, w_marker, w_n, w_l, w_g, w_e,
    w_up, w_lo, w_fx, w_fr, w_mi, w_pl, w_bv, w_ui, w_li, m_objsense, m_unknown_section,
    m_rows_line, m_bad_row_type, m_duplicate_row, m_integer_vars, m_columns_line,
    m_bad_number, m_unknown_row, m_rhs_line, m_ranges_line, m_bounds_prefix, m_needs,
    m_fields, m_unknown_column, m_integer_bounds, m_bad_bound_type, m_outside,
    m_missing_endata, m_no_objective,
};

verus! {

/// Coefficient literals of one constraint row, by column, kept sorted by
/// column.
pub type Bucket = Vec<(usize, Vec<Span>)>;

/// The parse state being built.
pub struct State {
    pub name: Option<Span>,
    pub section: Section,
    pub obj_row: Option<Span>,
    pub rows: Vec<Span>,
    pub kinds: Vec<RowKind>,
    pub rhs: Vec<Option<Span>>,
    pub ranges: Vec<Option<Span>>,
    pub cols: Vec<Span>,
    pub cost: Vec<Vec<Span>>,
    pub lower: Vec<Option<Limit>>,
    pub upper: Vec<Option<Limit>>,
    pub last_up: Vec<Option<Span>>,
    pub obj_const: Option<Span>,
    pub terms: Vec<Bucket>,
}

/// `b` lists the entries of `m` by increasing column.
pub open spec fn bucket_rep(b: Seq<(usize, Vec<Span>)>, m: Map<usize, Seq<Span>>) -> bool {
    &&& forall|q1: int, q2: int| 0 <= q1 < q2 < b.len() ==> (#[trigger] b[q1]).0 < (#[trigger] b[q2]).0
    &&& forall|q: int| 0 <= q < b.len() ==> m.contains_key((#[trigger] b[q]).0) && m[b[q].0] == b[q].1@
    &&& forall|j: usize| #[trigger] m.contains_key(j) ==> exists|q: int| 0 <= q < b.len() && (#[trigger] b[q]).0 == j
}

pub open spec fn opt_span_in(o: Option<Span>, n: int) -> bool {
    match o {
        Some(sp) => sp.0 <= sp.1 <= n,
        None => true,
    }
}

pub open spec fn limit_in(o: Option<Limit>, n: int) -> bool {
    match o {
        Some(Limit::Value(sp)) => sp.0 <= sp.1 <= n,
        _ => true,
    }
}

pub open spec fn spans_in(s: Seq<Span>, n: int) -> bool {
    forall|k: int| 0 <= k < s.len() ==> (#[trigger] s[k]).0 <= s[k].1 <= n
}

/// The shape every reachable parse state has over a text of `n` characters.
pub open spec fn parsed_wf(p: Parsed, n: int) -> bool {
    &&& p.kinds.len() == p.rows.len()
    &&& p.rhs.len() == p.rows.len()
    &&& p.ranges.len() == p.rows.len()
    &&& p.terms.len() == p.rows.len()
    &&& p.cost.len() == p.cols.len()
    &&& p.lower.len() == p.cols.len()
    &&& p.upper.len() == p.cols.len()
    &&& p.last_up.len() == p.cols.len()
    &&& opt_span_in(p.name, n)
    &&& opt_span_in(p.obj_row, n)
    &&& opt_span_in(p.obj_const, n)
    &&& spans_in(p.rows, n)
    &&& spans_in(p.cols, n)
    &&& forall|r: int| 0 <= r < p.rhs.len() ==> opt_span_in(#[trigger] p.rhs[r], n)
    &&& forall|r: int| 0 <= r < p.ranges.len() ==> opt_span_in(#[trigger] p.ranges[r], n)
    &&& forall|j: int| 0 <= j < p.cost.len() ==> spans_in(#[trigger] p.cost[j], n)
    &&& forall|j: int| 0 <= j < p.lower.len() ==> limit_in(#[trigger] p.lower[j], n)
    &&& forall|j: int| 0 <= j < p.upper.len() ==> limit_in(#[trigger] p.upper[j], n)
    &&& forall|j: int| 0 <= j < p.last_up.len() ==> opt_span_in(#[trigger] p.last_up[j], n)
    &&& forall|r: int, j: usize| 0 <= r < p.terms.len() && #[trigger] p.terms[r].contains_key(j) ==> j < p.cols.len() && spans_in(p.terms[r][j], n)
}

impl State {
    pub open spec fn rep(&self, p: Parsed) -> bool {
        &&& self.name == p.name
        &&& self.section == p.section
        &&& self.obj_row == p.obj_row
        &&& self.rows@ == p.rows
        &&& self.kinds@ == p.kinds
        &&& self.rhs@ == p.rhs
        &&& self.ranges@ == p.ranges
        &&& self.cols@ == p.cols
        &&& self.cost@.len() == p.cost.len()
        &&& forall|j: int| 0 <= j < p.cost.len() ==> (#[trigger] self.cost@[j])@ == p.cost[j]
        &&& self.lower@ == p.lower
        &&& self.upper@ == p.upper
        &&& self.last_up@ == p.last_up
        &&& self.obj_const == p.obj_const
        &&& self.terms@.len() == p.terms.len()
        &&& forall|r: int| 0 <= r < p.terms.len() ==> bucket_rep((#[trigger] self.terms@[r])@, p.terms[r])
    }
}

proof fn lemma_find(t: Seq<char>, names: Seq<Span>, w: Span, i: int)
    requires
        0 <= i <= names.len(),
        forall|k: int| 0 <= k < i ==> slice(t, #[trigger] names[k]) != slice(t, w),
    ensures
        i < names.len() && slice(t, names[i]) == slice(t, w) ==> find(t, names, w) == Some(i),
        i == names.len() ==> find(t, names, w) is None,
    decreases names.len(),
{
    if names.len() > 0 {
        if i < names.len() {
            if i < names.len() - 1 {
                lemma_find(t, names.drop_last(), w, i);
            } else {
                lemma_find(t, names.drop_last(), w, i);
            }
        } else {
            lemma_find(t, names.drop_last(), w, i - 1);
        }
    }
}

proof fn lemma_find_some(t: Seq<char>, names: Seq<Span>, w: Span)
    ensures
        find(t, names, w) matches Some(i) ==> 0 <= i < names.len() && slice(t, names[i]) == slice(t, w),
        find(t, names, w) is None ==> forall|k: int| 0 <= k < names.len() ==> slice(t, #[trigger] names[k]) != slice(t, w),
    decreases names.len(),
{
    if names.len() > 0 {
        lemma_find_some(t, names.drop_last(), w);
        assert forall|k: int| 0 <= k < names.len() - 1 implies names.drop_last()[k] == names[k] by {}
    }
}

/// Index of the first name in `names` that spells the same as `w`.
pub fn find_exec(t: &Vec<char>, names: &Vec<Span>, w: Span) -> (r: Option<usize>)
    requires
        spans_in(names@, t@.len() as int),
        w.0 <= w.1 <= t@.len(),
    ensures
        match r {
            Some(i) => find(t@, names@, w) == Some(i as int),
            None => find(t@, names@, w) is None,
        },
{
    let n = names.len();
    let mut k: usize = 0;
    while k < n
        invariant
            n == names@.len(),
            k <= n,
            spans_in(names@, t@.len() as int),
            w.0 <= w.1 <= t@.len(),
            forall|q: int| 0 <= q < k ==> slice(t@, #[trigger] names@[q]) != slice(t@, w),
        decreases n - k,
    {
        if span_eq(t, names[k], w) {
            proof {
                lemma_find(t@, names@, w, k as int);
            }
            return Some(k);
        }
        k = k + 1;
    }
    proof {
        lemma_find(t@, names@, w, k as int);
    }
    None
}


/// An error as the executable parser reports it: line number and message.
pub type Fail = (usize, Vec<char>);

/// `r` and the final state are what the grammar says a step yields.
pub open spec fn follows(n: int, r: Result<(), Fail>, st: State, s: Result<Parsed, Failure>) -> bool {
    match s {
        Ok(p2) => r is Ok && st.rep(p2) && parsed_wf(p2, n),
        Err(e) => r matches Err(x) && x.0 == e.0 && x.1@ == e.1,
    }
}

/// `prefix`, then the token `sp`, then a closing quote.
fn quote_msg(prefix: &str, t: &Vec<char>, sp: Span) -> (r: Vec<char>)
    requires
        sp.0 <= sp.1 <= t@.len(),
    ensures
        r@ == quoted(prefix@, slice(t@, sp)),
{
    let mut m = chars_of(prefix);
    let w = span_chars(t, sp);
    push_all(&mut m, w.as_slice());
    m.push('\'');
    m
}

fn plain_msg(s: &str) -> (r: Vec<char>)
    ensures
        r@ == s@,
{
    chars_of(s)
}

fn header_exec(t: &Vec<char>, st: &mut State, Ghost(p): Ghost<Parsed>, line: usize, toks: &Vec<Span>) -> (r: Result<(), Fail>)
    requires
        old(st).rep(p),
        parsed_wf(p, t@.len() as int),
        toks@.len() > 0,
        spans_in(toks@, t@.len() as int),
    ensures
        follows(t@.len() as int, r, *final(st), header_step(t@, p, line, toks@)),
{
    let w = toks[0];
    assert(['N', 'A', 'M', 'E']@ == w_name());
    assert(['O', 'B', 'J', 'S', 'E', 'N', 'S', 'E']@ == w_objsense());
    assert(['R', 'O', 'W', 'S']@ == w_rows());
    assert(['C', 'O', 'L', 'U', 'M', 'N', 'S']@ == w_columns());
    assert(['R', 'H', 'S']@ == w_rhs());
    assert(['R', 'A', 'N', 'G', 'E', 'S']@ == w_ranges());
    assert(['B', 'O', 'U', 'N', 'D', 'S']@ == w_bounds());
    assert(['E', 'N', 'D', 'A', 'T', 'A']@ == w_endata());
    if span_is(t, w, &['N', 'A', 'M', 'E']) {
        if toks.len() > 1 {
            st.name = Some(toks[1]);
        }
        Ok(())
    } else if span_is(t, w, &['O', 'B', 'J', 'S', 'E', 'N', 'S', 'E']) {
        Err((line, plain_msg("OBJSENSE unsupported in M0 (MIN only)")))
    } else if span_is(t, w, &['R', 'O', 'W', 'S']) {
        st.section = Section::Rows;
        Ok(())
    } else if span_is(t, w, &['C', 'O', 'L', 'U', 'M', 'N', 'S']) {
        st.section = Section::Columns;
        Ok(())
    } else if span_is(t, w, &['R', 'H', 'S']) {
        st.section = Section::Rhs;
        Ok(())
    } else if span_is(t, w, &['R', 'A', 'N', 'G', 'E', 'S']) {
        st.section = Section::Ranges;
        Ok(())
    } else if span_is(t, w, &['B', 'O', 'U', 'N', 'D', 'S']) {
        st.section = Section::Bounds;
        Ok(())
    } else if span_is(t, w, &['E', 'N', 'D', 'A', 'T', 'A']) {
        st.section = Section::Done;
        Ok(())
    } else {
        Err((line, quote_msg("unknown section '", t, w)))
    }
}


fn rows_exec(t: &Vec<char>, st: &mut State, Ghost(p): Ghost<Parsed>, line: usize, toks: &Vec<Span>) -> (r: Result<(), Fail>)
    requires
        old(st).rep(p),
        parsed_wf(p, t@.len() as int),
        spans_in(toks@, t@.len() as int),
    ensures
        follows(t@.len() as int, r, *final(st), rows_step(t@, p, line, toks@)),
{
    if toks.len() < 2 {
        return Err((line, plain_msg("ROWS line needs 'type name'")));
    }
    let ty = toks[0];
    let name = toks[1];
    assert(['N']@ == w_n());
    assert(['L']@ == w_l());
    assert(['G']@ == w_g());
    assert(['E']@ == w_e());
    if span_is(t, ty, &['N']) {
        if st.obj_row.is_none() {
            st.obj_row = Some(name);
        }
        return Ok(());
    }
    let is_l = span_is(t, ty, &['L']);
    let is_g = span_is(t, ty, &['G']);
    let is_e = span_is(t, ty, &['E']);
    if !(is_l || is_g || is_e) {
        return Err((line, quote_msg("bad row type '", t, ty)));
    }
    let kind = if is_l {
        RowKind::L
    } else if is_g {
        RowKind::G
    } else {
        RowKind::E
    };
    match find_exec(t, &st.rows, name) {
        Some(_) => Err((line, quote_msg("duplicate row '", t, name))),
        None => {
            let ghost p2 = Parsed {
                rows: p.rows.push(name),
                kinds: p.kinds.push(kind),
                rhs: p.rhs.push(None),
                ranges: p.ranges.push(None),
                terms: p.terms.push(Map::empty()),
                ..p
            };
            st.rows.push(name);
            st.kinds.push(kind);
            st.rhs.push(None);
            st.ranges.push(None);
            st.terms.push(Vec::new());
            assert(bucket_rep(st.terms@[st.terms@.len() - 1]@, Map::empty()));
            assert forall|r: int| 0 <= r < p2.terms.len() implies bucket_rep((#[trigger] st.terms@[r])@, p2.terms[r]) by {
                if r < p.terms.len() {
                    assert(st.terms@[r] == old(st).terms@[r]);
                }
            }
            assert(st.rep(p2));
            assert(parsed_wf(p2, t@.len() as int));
            Ok(())
        },
    }
}


/// The coefficient literals of column `j` in a row with entries `m`, after
/// literal `v` is added to them.
pub open spec fn added(m: Map<usize, Seq<Span>>, j: usize, v: Span) -> Map<usize, Seq<Span>> {
    m.insert(j, (if m.contains_key(j) { m[j] } else { seq![] }).push(v))
}

fn bucket_add(b: &mut Bucket, Ghost(m): Ghost<Map<usize, Seq<Span>>>, j: usize, v: Span)
    requires
        bucket_rep(old(b)@, m),
    ensures
        bucket_rep(final(b)@, added(m, j, v)),
{
    let n = b.len();
    let mut q: usize = 0;
    while q < n && b[q].0 < j
        invariant
            n == b@.len(),
            q <= n,
            bucket_rep(b@, m),
            forall|k: int| 0 <= k < q ==> (#[trigger] b@[k]).0 < j,
        decreases n - q,
    {
        q = q + 1;
    }
    let ghost m2 = added(m, j, v);
    if q < n && b[q].0 == j {
        let ghost old_b = b@;
        assert(m.contains_key(j));
        b[q].1.push(v);
        assert(b@.len() == old_b.len());
        assert forall|k: int| 0 <= k < b@.len() && k != q implies #[trigger] b@[k] == old_b[k] by {}
        assert forall|q1: int, q2: int| 0 <= q1 < q2 < b@.len() implies (#[trigger] b@[q1]).0 < (#[trigger] b@[q2]).0 by {
            assert(old_b[q1].0 < old_b[q2].0);
        }
        assert forall|k: int| 0 <= k < b@.len() implies m2.contains_key((#[trigger] b@[k]).0) && m2[b@[k].0] == b@[k].1@ by {
            if k != q {
                assert(old_b[k].0 != j) by {
                    if k < q {
                        assert(old_b[k].0 < old_b[q as int].0);
                    } else {
                        assert(old_b[q as int].0 < old_b[k].0);
                    }
                }
            }
        }
        assert forall|jj: usize| #[trigger] m2.contains_key(jj) implies exists|k: int| 0 <= k < b@.len() && (#[trigger] b@[k]).0 == jj by {
            if jj != j {
                let k = choose|k: int| 0 <= k < old_b.len() && (#[trigger] old_b[k]).0 == jj;
                assert(b@[k].0 == jj);
            } else {
                assert(b@[q as int].0 == jj);
            }
        }
    } else {
        let ghost old_b = b@;
        assert forall|k: int| q <= k < n implies (#[trigger] old_b[k]).0 > j by {
            if k > q {
                assert(old_b[q as int].0 < old_b[k].0);
            }
        }
        assert(!m.contains_key(j)) by {
            if m.contains_key(j) {
                let k = choose|k: int| 0 <= k < old_b.len() && (#[trigger] old_b[k]).0 == j;
                if k < q {
                } else {
                }
            }
        }
        let mut l: Vec<Span> = Vec::new();
        l.push(v);
        b.insert(q, (j, l));
        assert(b@ == old_b.insert(q as int, (j, l)));
        assert forall|q1: int, q2: int| 0 <= q1 < q2 < b@.len() implies (#[trigger] b@[q1]).0 < (#[trigger] b@[q2]).0 by {
            if q2 < q {
                assert(old_b[q1].0 < old_b[q2].0);
            } else if q1 > q {
                assert(old_b[q1 - 1].0 < old_b[q2 - 1].0);
            } else if q1 == q {
                assert(old_b[q2 - 1].0 > j);
            } else if q2 == q {
                assert(old_b[q1].0 < j);
            } else {
                assert(old_b[q1].0 < j);
                assert(old_b[q2 - 1].0 > j);
            }
        }
        assert forall|k: int| 0 <= k < b@.len() implies m2.contains_key((#[trigger] b@[k]).0) && m2[b@[k].0] == b@[k].1@ by {
            if k < q {
                assert(b@[k] == old_b[k]);
                assert(old_b[k].0 != j);
            } else if k > q {
                assert(b@[k] == old_b[k - 1]);
                assert(old_b[k - 1].0 != j);
            } else {
                assert(l@ == seq![v]);
            }
        }
        assert forall|jj: usize| #[trigger] m2.contains_key(jj) implies exists|k: int| 0 <= k < b@.len() && (#[trigger] b@[k]).0 == jj by {
            if jj != j {
                let k = choose|k: int| 0 <= k < old_b.len() && (#[trigger] old_b[k]).0 == jj;
                if k < q {
                    assert(b@[k].0 == jj);
                } else {
                    assert(b@[k + 1].0 == jj);
                }
            } else {
                assert(b@[q as int].0 == jj);
            }
        }
    }
}


fn is_obj_exec(t: &Vec<char>, st: &State, Ghost(p): Ghost<Parsed>, w: Span) -> (r: bool)
    requires
        st.rep(p),
        parsed_wf(p, t@.len() as int),
        w.0 <= w.1 <= t@.len(),
    ensures
        r == is_obj(t@, p, w),
{
    match st.obj_row {
        Some(o) => span_eq(t, o, w),
        None => false,
    }
}

/// Index of the column `name`, adding it at the end if it is new.
fn column_exec(t: &Vec<char>, st: &mut State, Ghost(p): Ghost<Parsed>, name: Span) -> (j: usize)
    requires
        old(st).rep(p),
        parsed_wf(p, t@.len() as int),
        name.0 <= name.1 <= t@.len(),
    ensures
        final(st).rep(with_column(t@, p, name)),
        parsed_wf(with_column(t@, p, name), t@.len() as int),
        find(t@, with_column(t@, p, name).cols, name) == Some(j as int),
{
    match find_exec(t, &st.cols, name) {
        Some(j) => j,
        None => {
            let ghost p2 = with_column(t@, p, name);
            proof {
                lemma_find_some(t@, p.cols, name);
            }
            st.cols.push(name);
            st.cost.push(Vec::new());
            st.lower.push(None);
            st.upper.push(None);
            st.last_up.push(None);
            let j = st.cols.len() - 1;
            assert forall|jj: int| 0 <= jj < p2.cost.len() implies (#[trigger] st.cost@[jj])@ == p2.cost[jj] by {
                if jj < p.cost.len() {
                    assert(st.cost@[jj] == old(st).cost@[jj]);
                }
            }
            proof {
                lemma_find(t@, p2.cols, name, j as int);
            }
            assert(st.rep(p2));
            assert(parsed_wf(p2, t@.len() as int));
            j
        },
    }
}

fn columns_exec(t: &Vec<char>, st: &mut State, Ghost(p): Ghost<Parsed>, line: usize, toks: &Vec<Span>) -> (r: Result<(), Fail>)
    requires
        old(st).rep(p),
        parsed_wf(p, t@.len() as int),
        spans_in(toks@, t@.len() as int),
    ensures
        follows(t@.len() as int, r, *final(st), columns_step(t@, p, line, toks@)),
{
    let n = toks.len();
    assert(['M', 'A', 'R', 'K', 'E', 'R']@ == w_marker());
    if n >= 3 && span_contains(t, toks[1], &['M', 'A', 'R', 'K', 'E', 'R']) {
        return Err((line, plain_msg("integer variables unsupported")));
    }
    if n < 3 || n % 2 == 0 {
        return Err((line, plain_msg("COLUMNS line needs 'col row val [row val]'")));
    }
    let j = column_exec(t, st, Ghost(p), toks[0]);
    let ghost p1 = with_column(t@, p, toks[0]);
    proof {
        lemma_find_some(t@, p1.cols, toks@[0]);
    }
    assert(columns_step(t@, p, line, toks@) == column_pairs(t@, p1, line, toks@, j as int, 1));
    let ghost mut pk = p1;
    let mut k: usize = 1;
    while k < n - 1
        invariant
            n == toks@.len(),
            1 <= k <= n,
            spans_in(toks@, t@.len() as int),
            st.rep(pk),
            parsed_wf(pk, t@.len() as int),
            pk.cols == p1.cols,
            (j as int) < pk.cols.len(),
            columns_step(t@, p, line, toks@) == column_pairs(t@, p1, line, toks@, j as int, 1),
            column_pairs(t@, p1, line, toks@, j as int, 1) == column_pairs(t@, pk, line, toks@, j as int, k as int),
        decreases n - k,
    {
        let row = toks[k];
        let val = toks[k + 1];
        if !is_float_literal(t, val) {
            let m = quote_msg("bad number '", t, val);
            return Err((line, m));
        }
        if is_obj_exec(t, st, Ghost(pk), row) {
            let ghost pn = Parsed { cost: pk.cost.update(j as int, pk.cost[j as int].push(val)), ..pk };
            st.cost[j].push(val);
            assert forall|jj: int| 0 <= jj < pn.cost.len() implies (#[trigger] st.cost@[jj])@ == pn.cost[jj] by {}
            assert(st.rep(pn));
            assert(parsed_wf(pn, t@.len() as int)) by {
                assert forall|jj: int| 0 <= jj < pn.cost.len() implies spans_in(#[trigger] pn.cost[jj], t@.len() as int) by {
                    if jj == j {
                        assert(spans_in(pk.cost[jj], t@.len() as int));
                    }
                }
            }
            proof {
                pk = pn;
            }
        } else {
            let fr = find_exec(t, &st.rows, row);
            proof {
                lemma_find_some(t@, pk.rows, row);
            }
            match fr {
                Some(r) => {
                    let ghost pn = Parsed { terms: add_term(pk.terms, r as int, j, val), ..pk };
                    let ghost old_terms = st.terms@;
                    bucket_add(&mut st.terms[r], Ghost(pk.terms[r as int]), j, val);
                    assert forall|rr: int| 0 <= rr < pn.terms.len() implies bucket_rep((#[trigger] st.terms@[rr])@, pn.terms[rr]) by {
                        if rr != r {
                            assert(st.terms@[rr] == old_terms[rr]);
                        }
                    }
                    assert(st.rep(pn));
                    assert(parsed_wf(pn, t@.len() as int)) by {
                        assert forall|rr: int, jj: usize| 0 <= rr < pn.terms.len() && #[trigger] pn.terms[rr].contains_key(jj) implies jj < pn.cols.len() && spans_in(pn.terms[rr][jj], t@.len() as int) by {
                            if rr == r && jj == j {
                                if pk.terms[rr].contains_key(jj) {
                                    assert(spans_in(pk.terms[rr][jj], t@.len() as int));
                                }
                            } else {
                                assert(pk.terms[rr].contains_key(jj));
                            }
                        }
                    }
                    proof {
                        pk = pn;
                    }
                },
                None => {
                    assert(column_pairs(t@, pk, line, toks@, j as int, k as int) == Err::<Parsed, Failure>((line, quoted(m_unknown_row(), slice(t@, row)))));
                    return Err((line, quote_msg("unknown row '", t, row)));
                },
            }
        }
        k = k + 2;
    }
    Ok(())
}


fn rhs_exec(t: &Vec<char>, st: &mut State, Ghost(p): Ghost<Parsed>, line: usize, toks: &Vec<Span>) -> (r: Result<(), Fail>)
    requires
        old(st).rep(p),
        parsed_wf(p, t@.len() as int),
        spans_in(toks@, t@.len() as int),
    ensures
        follows(t@.len() as int, r, *final(st), rhs_step(t@, p, line, toks@)),
{
    let n = toks.len();
    if n < 2 {
        return Err((line, plain_msg("RHS line needs 'set row val [row val]'")));
    }
    let mut k: usize = if n % 2 == 0 { 0 } else { 1 };
    let ghost mut pk = p;
    while k < n - 1
        invariant
            n == toks@.len(),
            n >= 2,
            k <= n,
            spans_in(toks@, t@.len() as int),
            st.rep(pk),
            parsed_wf(pk, t@.len() as int),
            rhs_step(t@, p, line, toks@) == rhs_pairs(t@, pk, line, toks@, k as int),
        decreases n - k,
    {
        let row = toks[k];
        let val = toks[k + 1];
        if !is_float_literal(t, val) {
            return Err((line, quote_msg("bad number '", t, val)));
        }
        if is_obj_exec(t, st, Ghost(pk), row) {
            let ghost pn = Parsed { obj_const: Some(val), ..pk };
            st.obj_const = Some(val);
            assert(st.rep(pn));
            proof {
                pk = pn;
            }
        } else {
            let fr = find_exec(t, &st.rows, row);
            proof {
                lemma_find_some(t@, pk.rows, row);
            }
            match fr {
                Some(r) => {
                    let ghost pn = Parsed { rhs: pk.rhs.update(r as int, Some(val)), ..pk };
                    st.rhs.set(r, Some(val));
                    assert(st.rep(pn));
                    assert(parsed_wf(pn, t@.len() as int));
                    proof {
                        pk = pn;
                    }
                },
                None => {
                    return Err((line, quote_msg("unknown row '", t, row)));
                },
            }
        }
        k = k + 2;
    }
    Ok(())
}

fn ranges_exec(t: &Vec<char>, st: &mut State, Ghost(p): Ghost<Parsed>, line: usize, toks: &Vec<Span>) -> (r: Result<(), Fail>)
    requires
        old(st).rep(p),
        parsed_wf(p, t@.len() as int),
        spans_in(toks@, t@.len() as int),
    ensures
        follows(t@.len() as int, r, *final(st), ranges_step(t@, p, line, toks@)),
{
    let n = toks.len();
    if n < 3 || n % 2 == 0 {
        return Err((line, plain_msg("RANGES line needs 'set row val [row val]'")));
    }
    let mut k: usize = 1;
    let ghost mut pk = p;
    while k < n - 1
        invariant
            n == toks@.len(),
            n >= 3,
            k <= n,
            spans_in(toks@, t@.len() as int),
            st.rep(pk),
            parsed_wf(pk, t@.len() as int),
            ranges_step(t@, p, line, toks@) == range_pairs(t@, pk, line, toks@, k as int),
        decreases n - k,
    {
        let row = toks[k];
        let val = toks[k + 1];
        if !is_float_literal(t, val) {
            return Err((line, quote_msg("bad number '", t, val)));
        }
        let fr = find_exec(t, &st.rows, row);
        proof {
            lemma_find_some(t@, pk.rows, row);
        }
        match fr {
            Some(r) => {
                let ghost pn = Parsed { ranges: pk.ranges.update(r as int, Some(val)), ..pk };
                st.ranges.set(r, Some(val));
                assert(st.rep(pn));
                assert(parsed_wf(pn, t@.len() as int));
                proof {
                    pk = pn;
                }
            },
            None => {
                return Err((line, quote_msg("unknown row '", t, row)));
            },
        }
        k = k + 2;
    }
    Ok(())
}


fn bounds_exec(t: &Vec<char>, st: &mut State, Ghost(p): Ghost<Parsed>, line: usize, toks: &Vec<Span>) -> (r: Result<(), Fail>)
    requires
        old(st).rep(p),
        parsed_wf(p, t@.len() as int),
        toks@.len() > 0,
        spans_in(toks@, t@.len() as int),
    ensures
        follows(t@.len() as int, r, *final(st), bounds_step(t@, p, line, toks@)),
{
    let n = toks.len();
    let bt = toks[0];
    assert(['U', 'P']@ == w_up());
    assert(['L', 'O']@ == w_lo());
    assert(['F', 'X']@ == w_fx());
    assert(['F', 'R']@ == w_fr());
    assert(['M', 'I']@ == w_mi());
    assert(['P', 'L']@ == w_pl());
    assert(['B', 'V']@ == w_bv());
    assert(['U', 'I']@ == w_ui());
    assert(['L', 'I']@ == w_li());
    let is_up = span_is(t, bt, &['U', 'P']);
    let is_lo = span_is(t, bt, &['L', 'O']);
    let is_fx = span_is(t, bt, &['F', 'X']);
    let needs_val = is_up || is_lo || is_fx;
    let min: usize = if needs_val { 4 } else { 3 };
    if n < min {
        let mut m = chars_of("BOUNDS '");
        let w = span_chars(t, bt);
        push_all(&mut m, w.as_slice());
        let needs = chars_of("' needs ");
        push_all(&mut m, needs.as_slice());
        push_decimal(&mut m, min as u64);
        let fields = chars_of(" fields");
        push_all(&mut m, fields.as_slice());
        return Err((line, m));
    }
    let fc = find_exec(t, &st.cols, toks[2]);
    proof {
        lemma_find_some(t@, p.cols, toks@[2]);
    }
    let j = match fc {
        None => {
            return Err((line, quote_msg("unknown column '", t, toks[2])));
        },
        Some(j) => j,
    };
    if needs_val && !is_float_literal(t, toks[3]) {
        return Err((line, quote_msg("bad number '", t, toks[3])));
    }
    if is_up {
        let v = toks[3];
        let ghost pn = Parsed {
            upper: p.upper.update(j as int, Some(Limit::Value(v))),
            last_up: p.last_up.update(j as int, Some(v)),
            ..p
        };
        st.upper.set(j, Some(Limit::Value(v)));
        st.last_up.set(j, Some(v));
        assert(st.rep(pn));
        assert(parsed_wf(pn, t@.len() as int));
        Ok(())
    } else if is_lo {
        let v = toks[3];
        let ghost pn = Parsed { lower: p.lower.update(j as int, Some(Limit::Value(v))), ..p };
        st.lower.set(j, Some(Limit::Value(v)));
        assert(st.rep(pn));
        assert(parsed_wf(pn, t@.len() as int));
        Ok(())
    } else if is_fx {
        let v = toks[3];
        let ghost pn = Parsed {
            lower: p.lower.update(j as int, Some(Limit::Value(v))),
            upper: p.upper.update(j as int, Some(Limit::Value(v))),
            ..p
        };
        st.lower.set(j, Some(Limit::Value(v)));
        st.upper.set(j, Some(Limit::Value(v)));
        assert(st.rep(pn));
        assert(parsed_wf(pn, t@.len() as int));
        Ok(())
    } else if span_is(t, bt, &['F', 'R']) {
        let ghost pn = Parsed {
            lower: p.lower.update(j as int, Some(Limit::NegInf)),
            upper: p.upper.update(j as int, Some(Limit::PosInf)),
            ..p
        };
        st.lower.set(j, Some(Limit::NegInf));
        st.upper.set(j, Some(Limit::PosInf));
        assert(st.rep(pn));
        assert(parsed_wf(pn, t@.len() as int));
        Ok(())
    } else if span_is(t, bt, &['M', 'I']) {
        let ghost pn = Parsed { lower: p.lower.update(j as int, Some(Limit::NegInf)), ..p };
        st.lower.set(j, Some(Limit::NegInf));
        assert(st.rep(pn));
        assert(parsed_wf(pn, t@.len() as int));
        Ok(())
    } else if span_is(t, bt, &['P', 'L']) {
        let ghost pn = Parsed { upper: p.upper.update(j as int, Some(Limit::PosInf)), ..p };
        st.upper.set(j, Some(Limit::PosInf));
        assert(st.rep(pn));
        assert(parsed_wf(pn, t@.len() as int));
        Ok(())
    } else if span_is(t, bt, &['B', 'V']) || span_is(t, bt, &['U', 'I']) || span_is(t, bt, &['L', 'I']) {
        Err((line, plain_msg("integer bounds unsupported")))
    } else {
        Err((line, quote_msg("bad bound type '", t, bt)))
    }
}


fn line_exec(t: &Vec<char>, st: &mut State, Ghost(p): Ghost<Parsed>, line: usize, sp: Span) -> (r: Result<(), Fail>)
    requires
        old(st).rep(p),
        parsed_wf(p, t@.len() as int),
        sp.0 <= sp.1 <= t@.len(),
    ensures
        follows(t@.len() as int, r, *final(st), line_step(t@, p, line, sp)),
{
    if sp.0 < sp.1 && t[sp.0] == '*' {
        return Ok(());
    }
    let toks = token_spans(t, sp);
    if toks.len() == 0 {
        return Ok(());
    }
    assert(sp.0 <= toks@[0].0 < toks@[0].1 <= sp.1);
    assert(spans_in(toks@, t@.len() as int));
    let c = t[sp.0];
    if c != ' ' && c != '\t' {
        return header_exec(t, st, Ghost(p), line, &toks);
    }
    match st.section {
        Section::Rows => rows_exec(t, st, Ghost(p), line, &toks),
        Section::Columns => columns_exec(t, st, Ghost(p), line, &toks),
        Section::Rhs => rhs_exec(t, st, Ghost(p), line, &toks),
        Section::Ranges => ranges_exec(t, st, Ghost(p), line, &toks),
        Section::Bounds => bounds_exec(t, st, Ghost(p), line, &toks),
        _ => Err((line, plain_msg("data line outside any section"))),
    }
}

fn is_done(s: Section) -> (r: bool)
    ensures
        r == (s == Section::Done),
{
    match s {
        Section::Done => true,
        _ => false,
    }
}

/// Runs the grammar over the whole text: the final state, or the first error.
pub fn parse_text(t: &Vec<char>) -> (r: Result<State, Fail>)
    ensures
        match parse_state(t@) {
            Ok(p) => r matches Ok(st) && st.rep(p) && parsed_wf(p, t@.len() as int),
            Err(e) => r matches Err(x) && x.0 == e.0 && x.1@ == e.1,
        },
{
    let ls = line_spans(t);
    let tn = t.len();
    proof {
        lemma_lines_in(t@, 0);
    }
    let mut st = State {
        name: None,
        section: Section::Start,
        obj_row: None,
        rows: Vec::new(),
        kinds: Vec::new(),
        rhs: Vec::new(),
        ranges: Vec::new(),
        cols: Vec::new(),
        cost: Vec::new(),
        lower: Vec::new(),
        upper: Vec::new(),
        last_up: Vec::new(),
        obj_const: None,
        terms: Vec::new(),
    };
    let ghost mut pk = initial();
    assert(st.rep(pk));
    let nl = ls.len();
    let mut k: usize = 0;
    while k < nl && !is_done(st.section)
        invariant
            nl == ls@.len(),
            ls@ == lines(t@),
            k <= nl,
            forall|q: int| 0 <= q < ls@.len() ==> (#[trigger] ls@[q]).0 <= ls@[q].1 <= t@.len(),
            st.rep(pk),
            parsed_wf(pk, t@.len() as int),
            run(t@, ls@, 0, initial()) == run(t@, ls@, k as int, pk),
        decreases nl - k,
    {
        let ghost prev = pk;
        match line_exec(t, &mut st, Ghost(pk), k + 1, ls[k]) {
            Ok(()) => {
                proof {
                    pk = line_step(t@, prev, (k + 1) as usize, ls@[k as int])->Ok_0;
                }
            },
            Err(e) => {
                return Err(e);
            },
        }
        k = k + 1;
    }
    if !is_done(st.section) {
        return Err((nl, plain_msg("missing ENDATA")));
    }
    if st.obj_row.is_none() {
        return Err((0, plain_msg("no objective (N) row")));
    }
    Ok(st)
}

} // verus!
