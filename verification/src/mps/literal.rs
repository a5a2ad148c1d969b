//! Recognizers for token contents: exact spellings and decimal floating-point
//! literals.
use vstd::prelude::*;
use crate::mps::lexer::{Span, slice};

verus! {

/// Whether the tokens `a` and `b` of `t` spell the same characters.
pub fn span_eq(t: &Vec<char>, a: Span, b: Span) -> (r: bool)
    requires
        a.0 <= a.1 <= t@.len(),
        b.0 <= b.1 <= t@.len(),
    ensures
        r == (slice(t@, a) == slice(t@, b)),
{
    if a.1 - a.0 != b.1 - b.0 {
        assert(slice(t@, a).len() != slice(t@, b).len());
        return false;
    }
    let n = a.1 - a.0;
    let ghost sa = slice(t@, a);
    let ghost sb = slice(t@, b);
    let mut k: usize = 0;
    while k < n
        invariant
            a.0 <= a.1 <= t@.len(),
            b.0 <= b.1 <= t@.len(),
            n == a.1 - a.0,
            n == b.1 - b.0,
            sa == slice(t@, a),
            sb == slice(t@, b),
            k <= n,
            forall|q: int| 0 <= q < k ==> #[trigger] sa[q] == sb[q],
        decreases n - k,
    {
        assert(sa[k as int] == t@[a.0 + k]);
        assert(sb[k as int] == t@[b.0 + k]);
        if t[a.0 + k] != t[b.0 + k] {
            assert(slice(t@, a)[k as int] != slice(t@, b)[k as int]);
            return false;
        }
        k = k + 1;
    }
    assert(slice(t@, a) =~= slice(t@, b));
    true
}

/// Whether the token `a` of `t` spells exactly `w`.
pub fn span_is(t: &Vec<char>, a: Span, w: &[char]) -> (r: bool)
    requires
        a.0 <= a.1 <= t@.len(),
    ensures
        r == (slice(t@, a) == w@),
{
    if a.1 - a.0 != w.len() {
        assert(slice(t@, a).len() != w@.len());
        return false;
    }
    let n = w.len();
    let ghost sa = slice(t@, a);
    let mut k: usize = 0;
    while k < n
        invariant
            a.0 <= a.1 <= t@.len(),
            n == a.1 - a.0,
            n == w@.len(),
            sa == slice(t@, a),
            k <= n,
            forall|q: int| 0 <= q < k ==> #[trigger] sa[q] == w@[q],
        decreases n - k,
    {
        assert(sa[k as int] == t@[a.0 + k]);
        if t[a.0 + k] != w[k] {
            assert(slice(t@, a)[k as int] != w@[k as int]);
            return false;
        }
        k = k + 1;
    }
    assert(slice(t@, a) =~= w@);
    true
}

/// Whether `w` occurs somewhere inside the token `a` of `t`.
pub open spec fn contains_at(s: Seq<char>, w: Seq<char>, i: int) -> bool {
    0 <= i && i + w.len() <= s.len() && s.subrange(i, i + w.len()) == w
}

pub open spec fn contains(s: Seq<char>, w: Seq<char>) -> bool {
    exists|i: int| contains_at(s, w, i)
}

pub fn span_contains(t: &Vec<char>, a: Span, w: &[char]) -> (r: bool)
    requires
        a.0 <= a.1 <= t@.len(),
    ensures
        r == contains(slice(t@, a), w@),
{
    let ghost s = slice(t@, a);
    let n = a.1 - a.0;
    let m = w.len();
    if m > n {
        assert forall|i: int| !contains_at(s, w@, i) by {}
        return false;
    }
    let mut i: usize = 0;
    while i <= n - m
        invariant
            a.0 <= a.1 <= t@.len(),
            n == a.1 - a.0,
            m == w@.len(),
            m <= n,
            i <= n - m + 1,
            s == slice(t@, a),
            forall|q: int| 0 <= q < i ==> !contains_at(s, w@, q),
        decreases n - i,
    {
        let mut k: usize = 0;
        let mut ok = true;
        while k < m
            invariant
                a.0 <= a.1 <= t@.len(),
                n == a.1 - a.0,
                m == w@.len(),
                i + m <= n,
                k <= m,
                s == slice(t@, a),
                ok == (forall|q: int| 0 <= q < k ==> #[trigger] s[i + q] == w@[q]),
            decreases m - k,
        {
            assert(s[i + k] == t@[a.0 + i + k]);
            if t[a.0 + i + k] != w[k] {
                ok = false;
            }
            k = k + 1;
        }
        if ok {
            assert forall|q: int| 0 <= q < m implies s.subrange(i as int, i + m)[q] == w@[q] by {
                assert(s[i + q] == w@[q]);
            }
            assert(s.subrange(i as int, i + m) =~= w@);
            assert(contains_at(s, w@, i as int));
            return true;
        } else {
            assert(!contains_at(s, w@, i as int)) by {
                let q = choose|q: int| 0 <= q < m && #[trigger] s[i + q] != w@[q];
                if s.subrange(i as int, i + m) == w@ {
                    assert(s.subrange(i as int, i + m)[q] == w@[q]);
                }
            }
        }
        i = i + 1;
    }
    assert forall|q: int| !contains_at(s, w@, q) by {
        if 0 <= q && q + m <= n {
            assert(q < i);
        }
    }
    false
}

pub open spec fn is_digit(c: char) -> bool {
    48 <= (c as u32) <= 57
}

/// The code of the ASCII lowercase of `c` (other characters keep their code).
pub open spec fn lower(c: char) -> u32 {
    if 65 <= (c as u32) <= 90 {
        ((c as u32) + 32) as u32
    } else {
        c as u32
    }
}

/// `s` equals the lowercase word `w` ignoring ASCII case.
pub open spec fn eq_ignore_case(s: Seq<char>, w: Seq<char>) -> bool {
    s.len() == w.len() && forall|i: int| 0 <= i < s.len() ==> lower(#[trigger] s[i]) == (w[i] as u32)
}

/// End of the run of ASCII digits that starts at `i`.
pub open spec fn digits_end(s: Seq<char>, i: int) -> int
    decreases s.len() - i,
{
    if 0 <= i < s.len() && is_digit(s[i]) {
        digits_end(s, i + 1)
    } else {
        i
    }
}

/// `s[i..]` is empty or an exponent: `e`/`E`, an optional sign, digits.
pub open spec fn exponent_tail(s: Seq<char>, i: int) -> bool {
    i == s.len() || (i < s.len() && lower(s[i]) == 101 && {
        let j = if i + 1 < s.len() && (s[i + 1] == '+' || s[i + 1] == '-') {
            i + 2
        } else {
            i + 1
        };
        j < s.len() && digits_end(s, j) == s.len()
    })
}

/// `Digit+ | Digit+ '.' Digit* | Digit* '.' Digit+`, then an optional exponent.
pub open spec fn decimal_number(s: Seq<char>) -> bool {
    let a = digits_end(s, 0);
    if a < s.len() && s[a] == '.' {
        let b = digits_end(s, a + 1);
        (a > 0 || b > a + 1) && exponent_tail(s, b)
    } else {
        a > 0 && exponent_tail(s, a)
    }
}

/// The words accepted in place of a number (compared ignoring ASCII case).
pub open spec fn word_inf() -> Seq<char> {
    seq!['i', 'n', 'f']
}

pub open spec fn word_infinity() -> Seq<char> {
    seq!['i', 'n', 'f', 'i', 'n', 'i', 't', 'y']
}

pub open spec fn word_nan() -> Seq<char> {
    seq!['n', 'a', 'n']
}

/// The strings that `str::parse::<f64>` accepts, by the grammar that the
/// standard library documents for it: an optional sign, then `inf`,
/// `infinity`, `nan` (any ASCII case) or a decimal number.
pub open spec fn float_literal(s: Seq<char>) -> bool {
    let body = if s.len() > 0 && (s[0] == '+' || s[0] == '-') {
        s.drop_first()
    } else {
        s
    };
    eq_ignore_case(body, word_inf()) || eq_ignore_case(body, word_infinity()) || eq_ignore_case(
        body,
        word_nan(),
    ) || decimal_number(body)
}

fn is_digit_char(c: char) -> (r: bool)
    ensures
        r == is_digit(c),
{
    let u = c as u32;
    48 <= u && u <= 57
}

fn lower_code(c: char) -> (r: u32)
    ensures
        r == lower(c),
{
    let u = c as u32;
    if 65 <= u && u <= 90 {
        u + 32
    } else {
        u
    }
}

} // verus!

verus! {

/// The characters of the token `a`.
pub fn span_chars(t: &Vec<char>, a: Span) -> (r: Vec<char>)
    requires
        a.0 <= a.1 <= t@.len(),
    ensures
        r@ == slice(t@, a),
{
    let mut r: Vec<char> = Vec::new();
    let mut i: usize = a.0;
    while i < a.1
        invariant
            a.0 <= i <= a.1 <= t@.len(),
            r@ == t@.subrange(a.0 as int, i as int),
        decreases a.1 - i,
    {
        r.push(t[i]);
        i = i + 1;
        assert(r@ =~= t@.subrange(a.0 as int, i as int));
    }
    r
}

fn digits_from(s: &Vec<char>, i: usize) -> (r: usize)
    requires
        i <= s@.len(),
    ensures
        r == digits_end(s@, i as int),
        i <= r <= s@.len(),
{
    let mut j = i;
    while j < s.len() && is_digit_char(s[j])
        invariant
            i <= j <= s@.len(),
            digits_end(s@, i as int) == digits_end(s@, j as int),
        decreases s@.len() - j,
    {
        j = j + 1;
    }
    j
}

fn eq_ignore_case_exec(s: &Vec<char>, from: usize, w: &[char]) -> (r: bool)
    requires
        from <= s@.len(),
    ensures
        r == eq_ignore_case(s@.subrange(from as int, s@.len() as int), w@),
{
    let ghost b = s@.subrange(from as int, s@.len() as int);
    let n = s.len();
    if n - from != w.len() {
        return false;
    }
    let mut k: usize = 0;
    while k < w.len()
        invariant
            n == s@.len(),
            from <= s@.len(),
            s@.len() - from == w@.len(),
            b == s@.subrange(from as int, s@.len() as int),
            k <= w@.len(),
            forall|q: int| 0 <= q < k ==> lower(#[trigger] b[q]) == (w@[q] as u32),
        decreases w@.len() - k,
    {
        assert(from + k < s@.len());
        let idx: usize = from + k;
        assert(b[k as int] == s@[idx as int]);
        let c = s[idx];
        let wc: char = w[k];
        let wu: u32 = wc as u32;
        if lower_code(c) != wu {
            return false;
        }
        k = k + 1;
    }
    true
}

fn exponent_tail_exec(s: &Vec<char>, i: usize) -> (r: bool)
    requires
        i <= s@.len(),
    ensures
        r == exponent_tail(s@, i as int),
{
    if i == s.len() {
        return true;
    }
    if lower_code(s[i]) != 101 {
        return false;
    }
    let j = if i + 1 < s.len() && (s[i + 1] == '+' || s[i + 1] == '-') {
        i + 2
    } else {
        i + 1
    };
    j < s.len() && digits_from(s, j) == s.len()
}

fn decimal_number_exec(s: &Vec<char>) -> (r: bool)
    ensures
        r == decimal_number(s@),
{
    let a = digits_from(s, 0);
    if a < s.len() && s[a] == '.' {
        let b = digits_from(s, a + 1);
        (a > 0 || b > a + 1) && exponent_tail_exec(s, b)
    } else {
        a > 0 && exponent_tail_exec(s, a)
    }
}

/// Whether the token `a` of `t` is a floating-point literal that
/// `str::parse::<f64>` accepts.
pub fn is_float_literal(t: &Vec<char>, a: Span) -> (r: bool)
    requires
        a.0 <= a.1 <= t@.len(),
    ensures
        r == float_literal(slice(t@, a)),
{
    let s = span_chars(t, a);
    let signed = s.len() > 0 && (s[0] == '+' || s[0] == '-');
    let from: usize = if signed { 1 } else { 0 };
    let ghost body = s@.subrange(from as int, s@.len() as int);
    assert(body == (if signed { s@.drop_first() } else { s@ }));
    let mut b: Vec<char> = Vec::new();
    let mut k: usize = from;
    while k < s.len()
        invariant
            from <= k <= s@.len(),
            b@ == s@.subrange(from as int, k as int),
        decreases s@.len() - k,
    {
        b.push(s[k]);
        k = k + 1;
        assert(b@ =~= s@.subrange(from as int, k as int));
    }
    assert(b@ == body);
    let inf = ['i', 'n', 'f'];
    let infinity = ['i', 'n', 'f', 'i', 'n', 'i', 't', 'y'];
    let nan = ['n', 'a', 'n'];
    assert(inf@ == word_inf());
    assert(infinity@ == word_infinity());
    assert(nan@ == word_nan());
    eq_ignore_case_exec(&s, from, &inf) || eq_ignore_case_exec(&s, from, &infinity)
        || eq_ignore_case_exec(&s, from, &nan) || decimal_number_exec(&b)
}

} // verus!
