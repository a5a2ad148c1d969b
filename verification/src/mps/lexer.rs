//! Lines, whitespace-separated tokens and numeric literals of MPS text.
//!
//! Positions are indices into the character sequence of the whole text; a
//! span `(s, e)` names the characters `s..e`.
use vstd::prelude::*;

verus! {

/// A half-open range of character positions.
pub type Span = (usize, usize);

/// The characters a span names.
pub open spec fn slice(t: Seq<char>, sp: Span) -> Seq<char> {
    t.subrange(sp.0 as int, sp.1 as int)
}

/// Unicode `White_Space` (the property `char::is_whitespace` tests).
pub open spec fn is_ws(c: char) -> bool {
    let u = c as u32;
    (9 <= u <= 13) || u == 32 || u == 0x85 || u == 0xA0 || u == 0x1680 || (0x2000 <= u
        <= 0x200A) || u == 0x2028 || u == 0x2029 || u == 0x202F || u == 0x205F || u == 0x3000
}

pub fn is_whitespace(c: char) -> (r: bool)
    ensures
        r == is_ws(c),
{
    let u = c as u32;
    (9 <= u && u <= 13) || u == 32 || u == 0x85 || u == 0xA0 || u == 0x1680 || (0x2000 <= u
        && u <= 0x200A) || u == 0x2028 || u == 0x2029 || u == 0x202F || u == 0x205F || u == 0x3000
}

/// Position of the first `'\n'` at or after `i` (the length if there is none).
pub open spec fn next_nl(t: Seq<char>, i: int) -> int
    decreases t.len() - i,
{
    if i >= t.len() {
        t.len() as int
    } else if t[i] == '\n' {
        i
    } else {
        next_nl(t, i + 1)
    }
}

/// The lines of `t[i..]`, as `str::lines` yields them: split after each
/// `'\n'`, drop that `'\n'` and a `'\r'` just before it; a final line ending
/// adds no empty line.
pub open spec fn lines_from(t: Seq<char>, i: int) -> Seq<Span>
    decreases t.len() + 1 - i,
{
    if i < 0 || i >= t.len() {
        seq![]
    } else {
        proof {
            lemma_next_nl_bounds(t, i);
        }
        let nl = next_nl(t, i);
        let end = if nl < t.len() && nl > i && t[nl - 1] == '\r' {
            nl - 1
        } else {
            nl
        };
        seq![(i as usize, end as usize)] + lines_from(t, nl + 1)
    }
}

pub open spec fn lines(t: Seq<char>) -> Seq<Span> {
    lines_from(t, 0)
}

pub proof fn lemma_next_nl_skip(t: Seq<char>, i: int, j: int)
    requires
        0 <= i <= j <= t.len(),
        forall|k: int| i <= k < j ==> t[k] != '\n',
    ensures
        next_nl(t, i) == next_nl(t, j),
    decreases j - i,
{
    if i < j {
        lemma_next_nl_skip(t, i + 1, j);
    }
}

pub proof fn lemma_next_nl_bounds(t: Seq<char>, i: int)
    requires
        0 <= i <= t.len(),
    ensures
        i <= next_nl(t, i) <= t.len(),
    decreases t.len() - i,
{
    if i < t.len() && t[i] != '\n' {
        lemma_next_nl_bounds(t, i + 1);
    }
}

/// Every span of `lines_from(t, i)` lies in `i..t.len()` and avoids `'\n'`.
pub proof fn lemma_lines_in(t: Seq<char>, i: int)
    requires
        0 <= i,
        t.len() <= usize::MAX,
    ensures
        forall|k: int|
            0 <= k < lines_from(t, i).len() ==> {
                let sp = #[trigger] lines_from(t, i)[k];
                &&& i <= sp.0 <= sp.1 <= t.len()
            },
    decreases t.len() + 1 - i,
{
    if i < t.len() {
        lemma_next_nl_bounds(t, i);
        lemma_lines_in(t, next_nl(t, i) + 1);
        let nl = next_nl(t, i);
        let head = seq![(i as usize, (if nl < t.len() && nl > i && t[nl - 1] == '\r' {
            nl - 1
        } else {
            nl
        }) as usize)];
        assert(lines_from(t, i) == head + lines_from(t, nl + 1));
        assert forall|k: int| 0 <= k < lines_from(t, i).len() implies {
            let sp = #[trigger] lines_from(t, i)[k];
            &&& i <= sp.0 <= sp.1 <= t.len()
        } by {
            if k > 0 {
                assert(lines_from(t, i)[k] == lines_from(t, nl + 1)[k - 1]);
            }
        }
    }
}

/// The line spans of `t`.
pub fn line_spans(t: &Vec<char>) -> (r: Vec<Span>)
    ensures
        r@ == lines(t@),
{
    let n = t.len();
    let mut r: Vec<Span> = Vec::new();
    let mut i: usize = 0;
    while i < n
        invariant
            n == t@.len(),
            i <= n,
            r@ + lines_from(t@, i as int) == lines(t@),
        decreases n - i,
    {
        let mut j: usize = i;
        while j < n && t[j] != '\n'
            invariant
                i <= j <= n,
                n == t@.len(),
                forall|k: int| i <= k < j ==> t@[k] != '\n',
            decreases n - j,
        {
            j = j + 1;
        }
        proof {
            lemma_next_nl_skip(t@, i as int, j as int);
        }
        assert(next_nl(t@, i as int) == j);
        let end = if j < n && j > i && t[j - 1] == '\r' {
            j - 1
        } else {
            j
        };
        let ghost old_r = r@;
        r.push((i, end));
        assert(lines_from(t@, i as int) == seq![(i, end)] + lines_from(t@, j + 1));
        assert(r@ + lines_from(t@, j + 1) == old_r + lines_from(t@, i as int));
        if j < n {
            i = j + 1;
        } else {
            assert(lines_from(t@, j + 1) == Seq::<Span>::empty());
            i = n;
        }
    }
    assert(lines_from(t@, i as int) == Seq::<Span>::empty());
    r
}

/// The whitespace-separated tokens of `t[i..e]`, given that the token being
/// read (if any) started at `cur` (`-1` for none).
pub open spec fn tokens_from(t: Seq<char>, i: int, e: int, cur: int) -> Seq<Span>
    decreases e - i,
{
    if i >= e {
        if cur >= 0 {
            seq![(cur as usize, e as usize)]
        } else {
            seq![]
        }
    } else if is_ws(t[i]) {
        if cur >= 0 {
            seq![(cur as usize, i as usize)] + tokens_from(t, i + 1, e, -1)
        } else {
            tokens_from(t, i + 1, e, -1)
        }
    } else {
        tokens_from(t, i + 1, e, if cur >= 0 { cur } else { i })
    }
}

/// The tokens of a line, as `str::split_whitespace` yields them.
pub open spec fn tokens(t: Seq<char>, line: Span) -> Seq<Span> {
    tokens_from(t, line.0 as int, line.1 as int, -1)
}

pub proof fn lemma_tokens_in(t: Seq<char>, i: int, e: int, cur: int)
    requires
        0 <= i <= e,
        e <= usize::MAX,
        -1 <= cur < i || cur == -1,
    ensures
        forall|k: int|
            0 <= k < tokens_from(t, i, e, cur).len() ==> {
                let sp = #[trigger] tokens_from(t, i, e, cur)[k];
                &&& (if cur >= 0 { cur } else { i }) <= sp.0 < sp.1 <= e
            },
    decreases e - i,
{
    if i < e {
        if is_ws(t[i]) {
            lemma_tokens_in(t, i + 1, e, -1);
            if cur < 0 {
                assert(tokens_from(t, i, e, cur) == tokens_from(t, i + 1, e, -1));
            }
            if cur >= 0 {
                let rest = tokens_from(t, i + 1, e, -1);
                assert forall|k: int| 0 <= k < tokens_from(t, i, e, cur).len() implies {
                    let sp = #[trigger] tokens_from(t, i, e, cur)[k];
                    &&& cur <= sp.0 < sp.1 <= e
                } by {
                    if k > 0 {
                        assert(tokens_from(t, i, e, cur)[k] == rest[k - 1]);
                    }
                }
            }
        } else {
            let nc = if cur >= 0 { cur } else { i };
            lemma_tokens_in(t, i + 1, e, nc);
            assert(tokens_from(t, i, e, cur) == tokens_from(t, i + 1, e, nc));
        }
    }
}

/// The token spans of the line `line` of `t`.
pub fn token_spans(t: &Vec<char>, line: Span) -> (r: Vec<Span>)
    requires
        line.0 <= line.1 <= t@.len(),
    ensures
        r@ == tokens(t@, line),
        forall|k: int| 0 <= k < r@.len() ==> line.0 <= (#[trigger] r@[k]).0 < r@[k].1 <= line.1,
{
    let (s, e) = line;
    let mut r: Vec<Span> = Vec::new();
    let mut i: usize = s;
    let mut in_tok = false;
    let mut cur: usize = s;
    while i < e
        invariant
            s <= i <= e,
            e <= t@.len(),
            in_tok ==> s <= cur < i,
            r@ + tokens_from(t@, i as int, e as int, if in_tok { cur as int } else { -1 })
                == tokens(t@, line),
        decreases e - i,
    {
        if is_whitespace(t[i]) {
            if in_tok {
                let ghost old_r = r@;
                r.push((cur, i));
                assert(r@ + tokens_from(t@, i + 1, e as int, -1) == old_r + tokens_from(
                    t@,
                    i as int,
                    e as int,
                    cur as int,
                ));
            }
            in_tok = false;
        } else {
            if !in_tok {
                cur = i;
                in_tok = true;
            }
        }
        i = i + 1;
    }
    if in_tok {
        let ghost old_r = r@;
        r.push((cur, e));
        assert(r@ == old_r + tokens_from(t@, e as int, e as int, cur as int));
    } else {
        assert(r@ == r@ + tokens_from(t@, e as int, e as int, -1));
    }
    proof {
        lemma_tokens_in(t@, s as int, e as int, -1);
    }
    r
}

} // verus!
