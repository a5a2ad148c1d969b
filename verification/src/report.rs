//! The benchmark report: CSV fields in and out, known optima, and the
//! markdown table.
use vstd::prelude::*;
use crate::text::{chars_of, string_of, push_all};

pub mod optima;
pub mod table;

pub use optima::{Optima, parse_optima};
pub use table::{render, table_rows};

verus! {

/// `s` with every `|` replaced by `/` (a literal `|` would split a markdown
/// table cell).
pub open spec fn scrubbed(s: Seq<char>) -> Seq<char> {
    s.map_values(|c: char| if c == '|' { '/' } else { c })
}

/// Markdown-table cell hygiene: replaces `|` with `/`.
pub fn scrub_cell(s: &str) -> (r: String)
    ensures
        r@ == scrubbed(s@),
{
    let cs = chars_of(s);
    let mut out: Vec<char> = Vec::new();
    let mut i: usize = 0;
    while i < cs.len()
        invariant
            i <= cs@.len(),
            cs@ == s@,
            out@ =~= scrubbed(cs@.subrange(0, i as int)),
        decreases cs@.len() - i,
    {
        let c = cs[i];
        out.push(if c == '|' { '/' } else { c });
        i = i + 1;
    }
    assert(cs@.subrange(0, cs@.len() as int) == cs@);
    string_of(out.as_slice())
}

/// A scrubbed cell holds no `|`, so it can never split a table row.
pub proof fn lemma_scrubbed_has_no_pipe(s: Seq<char>)
    ensures
        scrubbed(s).len() == s.len(),
        forall|i: int| 0 <= i < s.len() ==> #[trigger] scrubbed(s)[i] != '|',
{
}

/// `s` with every `"` doubled.
pub open spec fn escaped(s: Seq<char>) -> Seq<char>
    decreases s.len(),
{
    if s.len() == 0 {
        seq![]
    } else {
        (if s[0] == '"' { seq!['"', '"'] } else { seq![s[0]] }) + escaped(s.drop_first())
    }
}

proof fn lemma_escaped_push(s: Seq<char>, c: char)
    ensures
        escaped(s.push(c)) == escaped(s) + (if c == '"' { seq!['"', '"'] } else { seq![c] }),
    decreases s.len(),
{
    let tail = if c == '"' { seq!['"', '"'] } else { seq![c] };
    if s.len() > 0 {
        lemma_escaped_push(s.drop_first(), c);
        assert(s.push(c).drop_first() == s.drop_first().push(c));
        assert(s.push(c)[0] == s[0]);
        let head = if s[0] == '"' { seq!['"', '"'] } else { seq![s[0]] };
        assert(escaped(s.push(c)) == head + escaped(s.drop_first().push(c)));
        assert(head + (escaped(s.drop_first()) + tail) == (head + escaped(s.drop_first())) + tail);
    } else {
        assert(s.push(c).drop_first() == Seq::<char>::empty());
        assert(s.push(c)[0] == c);
        assert(escaped(s.push(c)) == tail + escaped(Seq::<char>::empty()));
        assert(escaped(s) == Seq::<char>::empty());
        assert(tail + Seq::<char>::empty() == tail);
        assert(Seq::<char>::empty() + tail == tail);
    }
}

/// The CSV field for `s`: double-quoted, inner quotes doubled.
pub open spec fn quoted_field(s: Seq<char>) -> Seq<char> {
    seq!['"'] + escaped(s) + seq!['"']
}

/// Quotes a CSV field, doubling inner quotes.
pub fn csv_quote(s: &str) -> (r: String)
    ensures
        r@ == quoted_field(s@),
{
    let cs = chars_of(s);
    let mut out: Vec<char> = Vec::new();
    out.push('"');
    let mut i: usize = 0;
    while i < cs.len()
        invariant
            i <= cs@.len(),
            cs@ == s@,
            out@ == seq!['"'] + escaped(cs@.subrange(0, i as int)),
        decreases cs@.len() - i,
    {
        let c = cs[i];
        proof {
            lemma_escaped_push(cs@.subrange(0, i as int), c);
            assert(cs@.subrange(0, i + 1) == cs@.subrange(0, i as int).push(c));
        }
        if c == '"' {
            out.push('"');
            out.push('"');
        } else {
            out.push(c);
        }
        i = i + 1;
    }
    out.push('"');
    assert(cs@.subrange(0, cs@.len() as int) == cs@);
    string_of(out.as_slice())
}

/// The pieces of `s[start..]` between commas, given that the current piece
/// began at `start` and the scan is at `i`.
pub open spec fn comma_split(s: Seq<char>, i: int, start: int) -> Seq<Seq<char>>
    decreases s.len() - i,
{
    if i >= s.len() {
        seq![s.subrange(start, s.len() as int)]
    } else if s[i] == ',' {
        seq![s.subrange(start, i)] + comma_split(s, i + 1, i + 1)
    } else {
        comma_split(s, i + 1, start)
    }
}

/// The fields after the first: none for an empty rest, else its pieces
/// between commas.
pub open spec fn rest_fields(rest: Seq<char>) -> Seq<Seq<char>> {
    if rest.len() == 0 {
        seq![]
    } else {
        comma_split(rest, 0, 0)
    }
}

/// Reads a quoted name from `s[i..]` (just after the opening quote): `""`
/// stands for `"`, and a lone `"` closes it. Returns the name and the
/// position after the closing quote (the length if it never closes).
pub open spec fn unquote(s: Seq<char>, i: int) -> (Seq<char>, int)
    decreases s.len() - i,
{
    if i < 0 || i >= s.len() {
        (seq![], s.len() as int)
    } else if s[i] == '"' {
        if i + 1 < s.len() && s[i + 1] == '"' {
            let (n, a) = unquote(s, i + 2);
            (seq!['"'] + n, a)
        } else {
            (seq![], i + 1)
        }
    } else {
        let (n, a) = unquote(s, i + 1);
        (seq![s[i]] + n, a)
    }
}

/// Position of the first comma at or after `i` (the length if none).
pub open spec fn first_comma(s: Seq<char>, i: int) -> int
    decreases s.len() - i,
{
    if i < 0 || i >= s.len() {
        s.len() as int
    } else if s[i] == ',' {
        i
    } else {
        first_comma(s, i + 1)
    }
}

/// The fields of a benchmark CSV line: the first may be double-quoted with
/// `""` escapes (an unterminated quote takes the rest of the line); the
/// others are split at commas.
pub open spec fn csv_fields(line: Seq<char>) -> Seq<Seq<char>> {
    if line.len() > 0 && line[0] == '"' {
        let (name, a) = unquote(line, 1);
        let after = line.subrange(a, line.len() as int);
        let rest = if after.len() > 0 && after[0] == ',' { after.drop_first() } else { after };
        seq![name] + rest_fields(rest)
    } else {
        let c = first_comma(line, 0);
        if c < line.len() {
            seq![line.subrange(0, c)] + rest_fields(line.subrange(c + 1, line.len() as int))
        } else {
            seq![line]
        }
    }
}

pub open spec fn strings_view(v: Seq<String>) -> Seq<Seq<char>> {
    v.map_values(|s: String| s@)
}

fn push_string(out: &mut Vec<String>, cs: &Vec<char>, from: usize, to: usize)
    requires
        from <= to <= cs@.len(),
    ensures
        strings_view(final(out)@) == strings_view(old(out)@).push(cs@.subrange(from as int, to as int)),
{
    let mut piece: Vec<char> = Vec::new();
    let mut k = from;
    while k < to
        invariant
            from <= k <= to <= cs@.len(),
            piece@ =~= cs@.subrange(from as int, k as int),
        decreases to - k,
    {
        piece.push(cs[k]);
        k = k + 1;
    }
    out.push(string_of(piece.as_slice()));
    assert(strings_view(out@) =~= strings_view(old(out)@).push(cs@.subrange(from as int, to as int)));
}

/// Appends the pieces of `cs[from..]` between commas.
fn push_comma_split(out: &mut Vec<String>, cs: &Vec<char>, from: usize)
    requires
        from <= cs@.len(),
    ensures
        strings_view(final(out)@) == strings_view(old(out)@) + comma_split(cs@.subrange(from as int, cs@.len() as int), 0, 0),
{
    let n = cs.len();
    let ghost s = cs@.subrange(from as int, n as int);
    let mut i = from;
    let mut start = from;
    while i < n
        invariant
            n == cs@.len(),
            from <= start <= i <= n,
            s == cs@.subrange(from as int, n as int),
            strings_view(out@) + comma_split(s, i - from, start - from) == strings_view(old(out)@) + comma_split(s, 0, 0),
        decreases n - i,
    {
        assert(s[i - from] == cs@[i as int]);
        if cs[i] == ',' {
            let ghost prev = strings_view(out@);
            push_string(out, cs, start, i);
            assert(s.subrange(start - from, i - from) == cs@.subrange(start as int, i as int));
            assert(comma_split(s, i - from, start - from) == seq![s.subrange(start - from, i - from)] + comma_split(s, i + 1 - from, i + 1 - from));
            assert(strings_view(out@) + comma_split(s, i + 1 - from, i + 1 - from) == prev + comma_split(s, i - from, start - from));
            start = i + 1;
        }
        i = i + 1;
    }
    push_string(out, cs, start, n);
    assert(s.subrange(start - from, n - from) == cs@.subrange(start as int, n as int));
}

/// Splits a benchmark CSV line into fields. Malformed input (an
/// unterminated quote) degrades to "the rest of the line is the name".
pub fn split_csv_line(line: &str) -> (r: Vec<String>)
    ensures
        strings_view(r@) == csv_fields(line@),
{
    let cs = chars_of(line);
    let n = cs.len();
    let mut fields: Vec<String> = Vec::new();
    if n > 0 && cs[0] == '"' {
        let mut name: Vec<char> = Vec::new();
        let mut i: usize = 1;
        let mut a: usize = n;
        let mut closed = false;
        while i < n && !closed
            invariant
                n == cs@.len(),
                1 <= i <= n,
                a <= n,
                !closed ==> a == n,
                closed ==> unquote(cs@, 1) == (name@, a as int),
                !closed ==> unquote(cs@, 1) == (name@ + unquote(cs@, i as int).0, unquote(cs@, i as int).1),
            decreases n - i, if closed { 0int } else { 1int },
        {
            if cs[i] == '"' {
                if i + 1 < n && cs[i + 1] == '"' {
                    assert(name@.push('"') + unquote(cs@, i + 2).0 == name@ + unquote(cs@, i as int).0);
                    name.push('"');
                    i = i + 2;
                } else {
                    assert(unquote(cs@, i as int) == (Seq::<char>::empty(), i + 1));
                    assert(name@ + Seq::<char>::empty() == name@);
                    a = i + 1;
                    closed = true;
                }
            } else {
                assert(name@.push(cs@[i as int]) + unquote(cs@, i + 1).0 == name@ + unquote(cs@, i as int).0);
                name.push(cs[i]);
                i = i + 1;
            }
        }
        if !closed {
            assert(unquote(cs@, i as int) == (Seq::<char>::empty(), n as int));
            assert(name@ + Seq::<char>::empty() == name@);
        }
        fields.push(string_of(name.as_slice()));
        assert(strings_view(fields@) =~= seq![name@]);
        let ghost after = cs@.subrange(a as int, n as int);
        let rest_from = if a < n && cs[a] == ',' { a + 1 } else { a };
        let ghost rest = cs@.subrange(rest_from as int, n as int);
        assert(rest =~= (if after.len() > 0 && after[0] == ',' { after.drop_first() } else { after }));
        assert(csv_fields(cs@) == seq![name@] + rest_fields(rest));
        if rest_from < n {
            push_comma_split(&mut fields, &cs, rest_from);
        } else {
            assert(rest_fields(rest) == Seq::<Seq<char>>::empty());
            assert(seq![name@] + Seq::<Seq<char>>::empty() == seq![name@]);
        }
    } else {
        let mut c: usize = 0;
        while c < n && cs[c] != ','
            invariant
                n == cs@.len(),
                c <= n,
                first_comma(cs@, 0) == first_comma(cs@, c as int),
            decreases n - c,
        {
            c = c + 1;
        }
        if c < n {
            push_string(&mut fields, &cs, 0, c);
            assert(strings_view(fields@) =~= seq![cs@.subrange(0, c as int)]);
            if c + 1 < n {
                push_comma_split(&mut fields, &cs, c + 1);
            } else {
                assert(cs@.subrange(c + 1, n as int) =~= Seq::<char>::empty());
                assert(seq![cs@.subrange(0, c as int)] + Seq::<Seq<char>>::empty() == seq![cs@.subrange(0, c as int)]);
            }
        } else {
            push_string(&mut fields, &cs, 0, n);
            assert(cs@.subrange(0, n as int) == cs@);
            assert(strings_view(fields@) =~= seq![cs@]);
        }
    }
    fields
}


proof fn lemma_unquote_escaped(l: Seq<char>, i: int, s: Seq<char>)
    requires
        1 <= i,
        i + escaped(s).len() + 2 <= l.len(),
        l.subrange(i, i + escaped(s).len()) == escaped(s),
        l[i + escaped(s).len()] == '"',
        l[i + escaped(s).len() + 1] == ',',
    ensures
        unquote(l, i) == (s, i + escaped(s).len() + 1),
    decreases s.len(),
{
    let e = escaped(s);
    if s.len() == 0 {
        assert(e.len() == 0);
    } else {
        let rest = escaped(s.drop_first());
        if s[0] == '"' {
            assert(e == seq!['"', '"'] + rest);
            assert(l[i] == e[0]);
            assert(l[i + 1] == e[1]);
            assert(l.subrange(i + 2, i + 2 + rest.len()) =~= rest) by {
                assert forall|k: int| 0 <= k < rest.len() implies l.subrange(i + 2, i + 2 + rest.len())[k] == rest[k] by {
                    assert(l[i + 2 + k] == l.subrange(i, i + e.len())[2 + k]);
                }
            }
            lemma_unquote_escaped(l, i + 2, s.drop_first());
            assert(seq!['"'] + s.drop_first() =~= s);
        } else {
            assert(e == seq![s[0]] + rest);
            assert(l[i] == e[0]);
            assert(l.subrange(i + 1, i + 1 + rest.len()) =~= rest) by {
                assert forall|k: int| 0 <= k < rest.len() implies l.subrange(i + 1, i + 1 + rest.len())[k] == rest[k] by {
                    assert(l[i + 1 + k] == l.subrange(i, i + e.len())[1 + k]);
                }
            }
            lemma_unquote_escaped(l, i + 1, s.drop_first());
            assert(seq![s[0]] + s.drop_first() =~= s);
        }
    }
}

/// What the benchmark writes, the report reads back: a line that starts
/// with the quoted field of any name `s`, then a comma and `rest`, splits
/// into `s` followed by the fields of `rest`.
pub proof fn lemma_quoted_name_roundtrip(s: Seq<char>, rest: Seq<char>)
    ensures
        csv_fields(quoted_field(s) + seq![','] + rest) == seq![s] + rest_fields(rest),
{
    let l = quoted_field(s) + seq![','] + rest;
    let e = escaped(s);
    let el = e.len() as int;
    assert(l[0] == '"');
    assert(l.subrange(1, 1 + el) =~= e);
    assert(l[1 + el] == '"');
    assert(l[2 + el] == ',');
    lemma_unquote_escaped(l, 1, s);
    let after = l.subrange(2 + el, l.len() as int);
    assert(after =~= seq![','] + rest);
    assert(after.drop_first() =~= rest);
}

} // verus!
