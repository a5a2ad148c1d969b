//! Known optima: the `name,objective[,note]` CSV that the report compares
//! against.
use vstd::prelude::*;
use crate::text::{chars_of, string_of};
use crate::mps::lexer::{Span, slice, lines, is_ws, is_whitespace, line_spans, lemma_lines_in};
use crate::mps::literal::{float_literal, is_float_literal, span_chars};
use crate::report::first_comma;

verus! {

/// The first position in `i..e` that is not white space (`e` if none).
pub open spec fn trim_start(l: Seq<char>, i: int, e: int) -> int
    decreases e - i,
{
    if i < e && is_ws(l[i]) {
        trim_start(l, i + 1, e)
    } else {
        i
    }
}

/// The end of `i..e` once trailing white space is dropped.
pub open spec fn trim_end(l: Seq<char>, i: int, e: int) -> int
    decreases e - i,
{
    if i < e && is_ws(l[e - 1]) {
        trim_end(l, i, e - 1)
    } else {
        e
    }
}

/// `l[i..e]` without leading or trailing white space (as `str::trim`).
pub open spec fn trim_range(l: Seq<char>, i: int, e: int) -> Seq<char> {
    let a = trim_start(l, i, e);
    l.subrange(a, trim_end(l, a, e))
}

/// The lines after the header line.
pub open spec fn data_lines(t: Seq<char>) -> Seq<Seq<char>> {
    let ls = lines(t);
    if ls.len() == 0 {
        seq![]
    } else {
        Seq::new((ls.len() - 1) as nat, |i: int| slice(t, ls[i + 1]))
    }
}

/// The `(name, objective)` a line of the optima file gives, if its second
/// field reads as a floating-point number: both trimmed, the objective kept
/// as written.
pub open spec fn value_entry(l: Seq<char>) -> Option<(Seq<char>, Seq<char>)> {
    let c1 = first_comma(l, 0);
    if c1 >= l.len() {
        None
    } else {
        let v = trim_range(l, c1 + 1, first_comma(l, c1 + 1));
        if float_literal(v) {
            Some((trim_range(l, 0, c1), v))
        } else {
            None
        }
    }
}

/// The `(name, note)` a line gives: it must give an objective, and its
/// third field, trimmed, must not be empty.
pub open spec fn note_entry(l: Seq<char>) -> Option<(Seq<char>, Seq<char>)> {
    let c1 = first_comma(l, 0);
    let c2 = first_comma(l, c1 + 1);
    if value_entry(l) is Some && c2 < l.len() && trim_range(l, c2 + 1, l.len() as int).len() > 0 {
        Some((trim_range(l, 0, c1), trim_range(l, c2 + 1, l.len() as int)))
    } else {
        None
    }
}

/// The value entries of the lines `ls` (their note entries when `notes`
/// holds), in order.
pub open spec fn entries_of(ls: Seq<Seq<char>>, notes: bool) -> Seq<(Seq<char>, Seq<char>)>
    decreases ls.len(),
{
    if ls.len() == 0 {
        seq![]
    } else {
        let prev = entries_of(ls.drop_last(), notes);
        let e = if notes { note_entry(ls.last()) } else { value_entry(ls.last()) };
        match e {
            Some(p) => prev.push(p),
            None => prev,
        }
    }
}

/// `v` has no white space at either end.
pub open spec fn unpadded(v: Seq<char>) -> bool {
    v.len() == 0 || (!is_ws(v[0]) && !is_ws(v[v.len() - 1]))
}

/// `v` is the field `l[i..e]` with the white space at its two ends cut off.
pub open spec fn is_trimmed_field(l: Seq<char>, i: int, e: int, v: Seq<char>) -> bool {
    exists|a: int, b: int|
        {
            &&& i <= a <= b <= e
            &&& #[trigger] l.subrange(a, b) == v
            &&& unpadded(v)
            &&& forall|k: int| i <= k < a ==> is_ws(#[trigger] l[k])
            &&& forall|k: int| b <= k < e ==> is_ws(#[trigger] l[k])
        }
}

proof fn lemma_trim_start(l: Seq<char>, i: int, e: int)
    requires
        0 <= i <= e <= l.len(),
    ensures
        i <= trim_start(l, i, e) <= e,
        forall|k: int| i <= k < trim_start(l, i, e) ==> is_ws(#[trigger] l[k]),
        trim_start(l, i, e) < e ==> !is_ws(l[trim_start(l, i, e)]),
    decreases e - i,
{
    if i < e && is_ws(l[i]) {
        lemma_trim_start(l, i + 1, e);
    }
}

proof fn lemma_trim_end(l: Seq<char>, i: int, e: int)
    requires
        0 <= i <= e <= l.len(),
    ensures
        i <= trim_end(l, i, e) <= e,
        forall|k: int| trim_end(l, i, e) <= k < e ==> is_ws(#[trigger] l[k]),
        trim_end(l, i, e) > i ==> !is_ws(l[trim_end(l, i, e) - 1]),
    decreases e - i,
{
    if i < e && is_ws(l[e - 1]) {
        lemma_trim_end(l, i, e - 1);
    }
}

/// Trimming cuts off exactly the white space at the two ends of a field.
pub proof fn lemma_trim_range(l: Seq<char>, i: int, e: int)
    requires
        0 <= i <= e <= l.len(),
    ensures
        is_trimmed_field(l, i, e, trim_range(l, i, e)),
{
    lemma_trim_start(l, i, e);
    let a = trim_start(l, i, e);
    lemma_trim_end(l, a, e);
    let b = trim_end(l, a, e);
    let v = l.subrange(a, b);
    if v.len() > 0 {
        assert(v[0] == l[a]);
        assert(v[v.len() - 1] == l[b - 1]);
    }
    assert(l.subrange(a, b) == trim_range(l, i, e));
}

proof fn lemma_first_comma(s: Seq<char>, i: int)
    requires
        0 <= i <= s.len(),
    ensures
        i <= first_comma(s, i) <= s.len(),
        first_comma(s, i) < s.len() ==> s[first_comma(s, i)] == ',',
        forall|k: int| i <= k < first_comma(s, i) ==> #[trigger] s[k] != ',',
    decreases s.len() - i,
{
    if i < s.len() && s[i] != ',' {
        lemma_first_comma(s, i + 1);
    }
}

/// What a line of the optima file records: its first field, trimmed, as
/// the name, and its second field (up to the next comma), trimmed, as the
/// objective, which reads as a floating-point number; a note is the rest
/// of the line after the second comma, trimmed and not empty.
pub proof fn lemma_entry_fields(l: Seq<char>)
    ensures
        value_entry(l) matches Some((n, v)) ==> exists|c1: int, c2: int|
            {
                &&& 0 <= c1 < c2 <= l.len()
                &&& l[c1] == ','
                &&& (c2 < l.len() ==> l[c2] == ',')
                &&& forall|k: int| 0 <= k < c2 && k != c1 ==> #[trigger] l[k] != ','
                &&& is_trimmed_field(l, 0, c1, n)
                &&& is_trimmed_field(l, c1 + 1, c2, v)
                &&& float_literal(v)
            },
        note_entry(l) matches Some((n, m)) ==> exists|c1: int, c2: int|
            {
                &&& 0 <= c1 < c2 < l.len()
                &&& l[c1] == ','
                &&& l[c2] == ','
                &&& forall|k: int| 0 <= k < c2 && k != c1 ==> #[trigger] l[k] != ','
                &&& is_trimmed_field(l, 0, c1, n)
                &&& is_trimmed_field(l, c2 + 1, l.len() as int, m)
                &&& m.len() > 0
            },
{
    lemma_first_comma(l, 0);
    let c1 = first_comma(l, 0);
    if c1 < l.len() {
        lemma_first_comma(l, c1 + 1);
        let c2 = first_comma(l, c1 + 1);
        lemma_trim_range(l, 0, c1);
        lemma_trim_range(l, c1 + 1, c2);
        if c2 < l.len() {
            lemma_trim_range(l, c2 + 1, l.len() as int);
        }
        assert forall|k: int| 0 <= k < c2 && k != c1 implies #[trigger] l[k] != ',' by {
            if k < c1 {
            } else {
            }
        }
    }
}

/// Every objective the optima file records reads as a floating-point
/// number and has no white space at its ends, nor has its name; every
/// note is non-empty and unpadded.
pub proof fn lemma_entries_unpadded(ls: Seq<Seq<char>>)
    ensures
        forall|i: int| 0 <= i < entries_of(ls, false).len() ==> {
            let e = #[trigger] entries_of(ls, false)[i];
            float_literal(e.1) && unpadded(e.1) && unpadded(e.0)
        },
        forall|i: int| 0 <= i < entries_of(ls, true).len() ==> {
            let e = #[trigger] entries_of(ls, true)[i];
            e.1.len() > 0 && unpadded(e.1) && unpadded(e.0)
        },
    decreases ls.len(),
{
    if ls.len() > 0 {
        lemma_entries_unpadded(ls.drop_last());
        let l = ls.last();
        lemma_entry_fields(l);
        let pv = entries_of(ls.drop_last(), false);
        let pn = entries_of(ls.drop_last(), true);
        assert forall|i: int| 0 <= i < entries_of(ls, false).len() implies {
            let e = #[trigger] entries_of(ls, false)[i];
            float_literal(e.1) && unpadded(e.1) && unpadded(e.0)
        } by {
            if i < pv.len() {
                assert(entries_of(ls, false)[i] == pv[i]);
            }
        }
        assert forall|i: int| 0 <= i < entries_of(ls, true).len() implies {
            let e = #[trigger] entries_of(ls, true)[i];
            e.1.len() > 0 && unpadded(e.1) && unpadded(e.0)
        } by {
            if i < pn.len() {
                assert(entries_of(ls, true)[i] == pn[i]);
            }
        }
    }
}

/// What the last entry for `key` says (a later entry replaces an earlier
/// one).
pub open spec fn lookup(es: Seq<(Seq<char>, Seq<char>)>, key: Seq<char>) -> Option<Seq<char>>
    decreases es.len(),
{
    if es.len() == 0 {
        None
    } else if es.last().0 == key {
        Some(es.last().1)
    } else {
        lookup(es.drop_last(), key)
    }
}

pub open spec fn pairs_view(v: Seq<(String, String)>) -> Seq<(Seq<char>, Seq<char>)> {
    v.map_values(|e: (String, String)| (e.0@, e.1@))
}

/// Known optima by instance name: each objective as written in the file
/// (it reads as a floating-point number), and the optional notes.
#[derive(Clone, Debug)]
pub struct Optima {
    pub values: Vec<(String, String)>,
    pub notes: Vec<(String, String)>,
}

impl Optima {
    /// The objective recorded for `name`.
    pub open spec fn value_of(&self, name: Seq<char>) -> Option<Seq<char>> {
        lookup(pairs_view(self.values@), name)
    }

    /// The note recorded for `name`.
    pub open spec fn note_of(&self, name: Seq<char>) -> Option<Seq<char>> {
        lookup(pairs_view(self.notes@), name)
    }

    /// The objective recorded for `name`, as written in the file.
    pub fn value(&self, name: &str) -> (r: Option<String>)
        ensures
            r matches Some(s) ==> self.value_of(name@) == Some(s@),
            r is None ==> self.value_of(name@) is None,
    {
        find_last(&self.values, name)
    }

    /// The note recorded for `name`.
    pub fn note(&self, name: &str) -> (r: Option<String>)
        ensures
            r matches Some(s) ==> self.note_of(name@) == Some(s@),
            r is None ==> self.note_of(name@) is None,
    {
        find_last(&self.notes, name)
    }
}

fn find_last(es: &Vec<(String, String)>, name: &str) -> (r: Option<String>)
    ensures
        r matches Some(s) ==> lookup(pairs_view(es@), name@) == Some(s@),
        r is None ==> lookup(pairs_view(es@), name@) is None,
{
    let key = name.to_owned();
    let ghost v = pairs_view(es@);
    let mut i = es.len();
    assert(v.subrange(0, i as int) =~= v);
    while i > 0
        invariant
            i <= es@.len(),
            v == pairs_view(es@),
            key@ == name@,
            lookup(v, name@) == lookup(v.subrange(0, i as int), name@),
        decreases i,
    {
        assert(v.subrange(0, i as int).drop_last() == v.subrange(0, i - 1));
        if es[i - 1].0 == key {
            return Some(es[i - 1].1.clone());
        }
        i = i - 1;
    }
    None
}

fn trim_start_at(l: &Vec<char>, i: usize, e: usize) -> (r: usize)
    requires
        i <= e <= l@.len(),
    ensures
        r == trim_start(l@, i as int, e as int),
        i <= r <= e,
{
    let mut a = i;
    while a < e && is_whitespace(l[a])
        invariant
            i <= a <= e <= l@.len(),
            trim_start(l@, i as int, e as int) == trim_start(l@, a as int, e as int),
        decreases e - a,
    {
        a = a + 1;
    }
    a
}

fn trim_end_at(l: &Vec<char>, i: usize, e: usize) -> (r: usize)
    requires
        i <= e <= l@.len(),
    ensures
        r == trim_end(l@, i as int, e as int),
        i <= r <= e,
{
    let mut b = e;
    while b > i && is_whitespace(l[b - 1])
        invariant
            i <= b <= e <= l@.len(),
            trim_end(l@, i as int, e as int) == trim_end(l@, i as int, b as int),
        decreases b - i,
    {
        b = b - 1;
    }
    b
}

/// The span of `l[i..e]` without surrounding white space.
pub fn trim_span(l: &Vec<char>, i: usize, e: usize) -> (r: Span)
    requires
        i <= e <= l@.len(),
    ensures
        i <= r.0 <= r.1 <= e,
        slice(l@, r) == trim_range(l@, i as int, e as int),
{
    let a = trim_start_at(l, i, e);
    let b = trim_end_at(l, a, e);
    (a, b)
}

/// Position of the first comma at or after `i` (the length if none).
pub fn comma_from(l: &Vec<char>, i: usize) -> (r: usize)
    requires
        i <= l@.len(),
    ensures
        r == first_comma(l@, i as int),
        i <= r <= l@.len(),
{
    let mut c = i;
    while c < l.len() && l[c] != ','
        invariant
            i <= c <= l@.len(),
            first_comma(l@, i as int) == first_comma(l@, c as int),
        decreases l@.len() - c,
    {
        c = c + 1;
    }
    c
}

/// The lines of `text` after the header, as character vectors.
pub fn data_line_chars(text: &str) -> (r: Vec<Vec<char>>)
    ensures
        r@.len() == data_lines(text@).len(),
        forall|i: int| 0 <= i < r@.len() ==> #[trigger] r@[i]@ == data_lines(text@)[i],
{
    let t = chars_of(text);
    let spans = line_spans(&t);
    proof {
        assert(t@.len() == t.len());
        lemma_lines_in(t@, 0);
    }
    let mut out: Vec<Vec<char>> = Vec::new();
    if spans.len() == 0 {
        return out;
    }
    let mut i: usize = 1;
    while i < spans.len()
        invariant
            t@ == text@,
            spans@ == lines(t@),
            1 <= i <= spans@.len(),
            out@.len() == i - 1,
            forall|k: int| 0 <= k < out@.len() ==> #[trigger] out@[k]@ == data_lines(text@)[k],
            forall|k: int| 0 <= k < spans@.len() ==> {
                let sp = #[trigger] spans@[k];
                &&& 0 <= sp.0 <= sp.1 <= t@.len()
            },
        decreases spans@.len() - i,
    {
        let sp = spans[i];
        let l = span_chars(&t, sp);
        out.push(l);
        i = i + 1;
    }
    out
}

/// Reads the known optima: after a header line, each line is
/// `name,objective[,note]`. A line whose objective does not read as a
/// floating-point number is skipped; names, objectives and notes are
/// trimmed, and an empty note is no note.
pub fn parse_optima(text: &str) -> (r: Optima)
    ensures
        pairs_view(r.values@) == entries_of(data_lines(text@), false),
        pairs_view(r.notes@) == entries_of(data_lines(text@), true),
{
    let ls = data_line_chars(text);
    let ghost dl = data_lines(text@);
    let mut values: Vec<(String, String)> = Vec::new();
    let mut notes: Vec<(String, String)> = Vec::new();
    let mut i: usize = 0;
    while i < ls.len()
        invariant
            ls@.len() == dl.len(),
            forall|k: int| 0 <= k < ls@.len() ==> #[trigger] ls@[k]@ == dl[k],
            i <= ls@.len(),
            pairs_view(values@) == entries_of(dl.subrange(0, i as int), false),
            pairs_view(notes@) == entries_of(dl.subrange(0, i as int), true),
        decreases ls@.len() - i,
    {
        let l = &ls[i];
        let ghost lv = l@;
        assert(dl.subrange(0, i + 1).drop_last() == dl.subrange(0, i as int));
        assert(dl.subrange(0, i + 1).last() == lv);
        let n = l.len();
        let c1 = comma_from(l, 0);
        if c1 < n {
            let c2 = comma_from(l, c1 + 1);
            let vs = trim_span(l, c1 + 1, c2);
            if is_float_literal(l, vs) {
                let ns = trim_span(l, 0, c1);
                let name = string_of(span_chars(l, ns).as_slice());
                let value = string_of(span_chars(l, vs).as_slice());
                let ghost before = values@;
                values.push((name.clone(), value));
                assert(pairs_view(values@) =~= pairs_view(before).push((slice(lv, ns), slice(lv, vs))));
                if c2 < n {
                    let ts = trim_span(l, c2 + 1, n);
                    if ts.0 < ts.1 {
                        let note = string_of(span_chars(l, ts).as_slice());
                        let ghost before_notes = notes@;
                        notes.push((name, note));
                        assert(pairs_view(notes@) =~= pairs_view(before_notes).push((slice(lv, ns), slice(lv, ts))));
                    }
                }
            }
        }
        i = i + 1;
    }
    assert(dl.subrange(0, ls@.len() as int) == dl);
    Optima { values, notes }
}

} // verus!
