//! Discrete optimal transport between two g×g grids as an LP: the exact
//! (integer) side of the problem. Cells are numbered `idx = row * g + col`;
//! the plan variable for source cell `i` and target cell `j` is
//! `x[i * nt + j]`.
use vstd::prelude::*;
use crate::text::{chars_of, string_of, push_all, push_decimal, decimal, chars_eq};
use crate::csr::CsrMatrix;

verus! {

/// The constraint operator of a transport problem with `ns` sources and `nt`
/// targets: rows `0..ns` sum each source's outflow, rows `ns..ns + nt` each
/// target's inflow.
#[derive(Clone, Copy, Debug, PartialEq, Eq, Structural)]
pub struct TransportOp {
    pub ns: usize,
    pub nt: usize,
}

impl TransportOp {
    /// One row per source and per target.
    pub fn n_rows(&self) -> (r: usize)
        requires
            self.ns + self.nt <= usize::MAX,
        ensures
            r == self.ns + self.nt,
    {
        self.ns + self.nt
    }

    /// One column per (source, target) pair.
    pub fn n_cols(&self) -> (r: usize)
        requires
            self.ns * self.nt <= usize::MAX,
        ensures
            r == self.ns * self.nt,
    {
        self.ns * self.nt
    }
}

/// The mass distributions the demo offers.
#[derive(Clone, Copy, PartialEq, Eq, Structural, Debug)]
pub enum Preset {
    Blobs,
    Ring,
    Spiral,
    Checker,
    Corners,
}

/// The lowercase name of a preset (its `Debug` name, lowercased).
pub open spec fn preset_name(p: Preset) -> Seq<char> {
    match p {
        Preset::Blobs => "blobs"@,
        Preset::Ring => "ring"@,
        Preset::Spiral => "spiral"@,
        Preset::Checker => "checker"@,
        Preset::Corners => "corners"@,
    }
}

/// The preset named `s`, or the message that rejects it.
pub open spec fn preset_from(s: Seq<char>) -> Result<Preset, Seq<char>> {
    if s == "blobs"@ {
        Ok(Preset::Blobs)
    } else if s == "ring"@ {
        Ok(Preset::Ring)
    } else if s == "spiral"@ {
        Ok(Preset::Spiral)
    } else if s == "checker"@ {
        Ok(Preset::Checker)
    } else if s == "corners"@ {
        Ok(Preset::Corners)
    } else {
        Err("unknown preset '"@ + s + "' (blobs|ring|spiral|checker|corners)"@)
    }
}

impl Preset {
    /// Parses a preset name.
    pub fn parse(s: &str) -> (r: Result<Preset, String>)
        ensures
            match preset_from(s@) {
                Ok(p) => r == Ok::<Preset, String>(p),
                Err(m) => r matches Err(e) && e@ == m,
            },
    {
        let cs = chars_of(s);
        let blobs = chars_of("blobs");
        let ring = chars_of("ring");
        let spiral = chars_of("spiral");
        let checker = chars_of("checker");
        let corners = chars_of("corners");
        if chars_eq(cs.as_slice(), blobs.as_slice()) {
            Ok(Preset::Blobs)
        } else if chars_eq(cs.as_slice(), ring.as_slice()) {
            Ok(Preset::Ring)
        } else if chars_eq(cs.as_slice(), spiral.as_slice()) {
            Ok(Preset::Spiral)
        } else if chars_eq(cs.as_slice(), checker.as_slice()) {
            Ok(Preset::Checker)
        } else if chars_eq(cs.as_slice(), corners.as_slice()) {
            Ok(Preset::Corners)
        } else {
            let mut m = chars_of("unknown preset '");
            push_all(&mut m, cs.as_slice());
            let tail = chars_of("' (blobs|ring|spiral|checker|corners)");
            push_all(&mut m, tail.as_slice());
            Err(string_of(m.as_slice()))
        }
    }

    /// The preset's lowercase name.
    pub fn name(&self) -> (r: String)
        ensures
            r@ == preset_name(*self),
    {
        match self {
            Preset::Blobs => string_of(chars_of("blobs").as_slice()),
            Preset::Ring => string_of(chars_of("ring").as_slice()),
            Preset::Spiral => string_of(chars_of("spiral").as_slice()),
            Preset::Checker => string_of(chars_of("checker").as_slice()),
            Preset::Corners => string_of(chars_of("corners").as_slice()),
        }
    }
}

/// Parsing a preset's name gives the preset back: every name the library
/// prints is one its parser accepts.
pub proof fn lemma_preset_name_roundtrip(p: Preset)
    ensures
        preset_from(preset_name(p)) == Ok::<Preset, Seq<char>>(p),
{
    reveal_strlit("blobs");
    reveal_strlit("ring");
    reveal_strlit("spiral");
    reveal_strlit("checker");
    reveal_strlit("corners");
    let names = seq!["blobs"@, "ring"@, "spiral"@, "checker"@, "corners"@];
    assert(names[0][0] == 'b' && names[1][0] == 'r' && names[2][0] == 's');
    assert(names[3][0] == 'c' && names[4][0] == 'c');
    assert(names[3].len() == 7 && names[4].len() == 7 && names[3][1] == 'h' && names[4][1] == 'o');
    assert("ring"@ != "blobs"@);
    assert("spiral"@ != "blobs"@ && "spiral"@ != "ring"@);
    assert("checker"@ != "blobs"@ && "checker"@ != "ring"@ && "checker"@ != "spiral"@);
    assert("corners"@ != "blobs"@ && "corners"@ != "ring"@ && "corners"@ != "spiral"@ && "corners"@ != "checker"@);
}

/// Each preset's name is its variant name in lower case, spelled out here
/// letter by letter; parsing accepts exactly these five names.
pub proof fn lemma_preset_names(s: Seq<char>)
    ensures
        preset_name(Preset::Blobs) == seq!['b', 'l', 'o', 'b', 's'],
        preset_name(Preset::Ring) == seq!['r', 'i', 'n', 'g'],
        preset_name(Preset::Spiral) == seq!['s', 'p', 'i', 'r', 'a', 'l'],
        preset_name(Preset::Checker) == seq!['c', 'h', 'e', 'c', 'k', 'e', 'r'],
        preset_name(Preset::Corners) == seq!['c', 'o', 'r', 'n', 'e', 'r', 's'],
        forall|p: Preset| #[trigger] preset_from(preset_name(p)) == Ok::<Preset, Seq<char>>(p),
        preset_from(s) is Ok ==> s == preset_name(preset_from(s)->Ok_0),
{
    reveal_strlit("blobs");
    reveal_strlit("ring");
    reveal_strlit("spiral");
    reveal_strlit("checker");
    reveal_strlit("corners");
    assert forall|p: Preset| #[trigger] preset_from(preset_name(p)) == Ok::<Preset, Seq<char>>(p) by {
        lemma_preset_name_roundtrip(p);
    }
}

impl std::str::FromStr for Preset {
    type Err = String;

    fn from_str(s: &str) -> (r: Result<Preset, String>)
        ensures
            match preset_from(s@) {
                Ok(p) => r == Ok::<Preset, String>(p),
                Err(m) => r matches Err(e) && e@ == m,
            },
    {
        Preset::parse(s)
    }
}

/// The exact part of a transport instance: its name, its grid and preset,
/// and its constraint operator. Its rows are equalities (each row's lower
/// and upper bound is the source or target mass of that cell), its columns
/// are `x >= 0` with no upper bound, and its objective has no offset.
#[derive(Clone, Debug)]
pub struct TransportProblem {
    pub name: String,
    pub preset: Preset,
    pub grid: usize,
    pub op: TransportOp,
}

pub open spec fn problem_name(preset: Preset, g: nat) -> Seq<char> {
    "transport-"@ + preset_name(preset) + "-"@ + decimal(g) + "x"@ + decimal(g)
}

/// The transport problem between two `g`×`g` grids.
pub fn problem(preset: Preset, g: usize) -> (p: TransportProblem)
    requires
        (g * g) * (g * g) <= usize::MAX,
    ensures
        p.name@ == problem_name(preset, g as nat),
        p.preset == preset,
        p.grid == g,
        p.op == (TransportOp { ns: (g * g) as usize, nt: (g * g) as usize }),
        p.op.ns + p.op.nt <= usize::MAX,
        p.op.ns * p.op.nt <= usize::MAX,
{
    assert(g * g <= (g * g) * (g * g) || g == 0) by (nonlinear_arith);
    assert(g * g + g * g <= usize::MAX) by (nonlinear_arith)
        requires
            (g * g) * (g * g) <= usize::MAX;
    let ns = g * g;
    let mut name = chars_of("transport-");
    let pn = preset.name();
    let pc = chars_of(pn.as_str());
    push_all(&mut name, pc.as_slice());
    name.push('-');
    push_decimal(&mut name, g as u64);
    name.push('x');
    push_decimal(&mut name, g as u64);
    proof {
        reveal_strlit("-");
        reveal_strlit("x");
    }
    TransportProblem {
        name: string_of(name.as_slice()),
        preset,
        grid: g,
        op: TransportOp { ns, nt: ns },
    }
}

/// The cell `idx` of a `g`-wide grid as `(col, row)`.
pub fn cell(g: usize, idx: usize) -> (r: (usize, usize))
    requires
        g > 0,
    ensures
        r.0 < g,
        idx == r.1 * g + r.0,
{
    assert(idx == (idx / g) * g + idx % g) by (nonlinear_arith)
        requires
            g > 0;
    (idx % g, idx / g)
}


/// Column of entry `k` of the explicit incidence matrix: the first `ns * nt`
/// entries are rows `0..ns` in order (`x[i * nt + j]` for `j` in `0..nt`),
/// then entry `ns * nt + j * ns + i` of target row `j` is `x[i * nt + j]`.
pub open spec fn incidence_col(ns: int, nt: int, k: int) -> int {
    if k < ns * nt {
        k
    } else {
        ((k - ns * nt) % ns) * nt + (k - ns * nt) / ns
    }
}

/// Where row `r` of the explicit incidence matrix starts.
pub open spec fn incidence_ptr(ns: int, nt: int, r: int) -> int {
    if r <= ns {
        r * nt
    } else {
        ns * nt + (r - ns) * ns
    }
}

/// The constraint matrix of `TransportOp { ns, nt }` written out in CSR form,
/// every entry equal to `one`; its `u32` fields hold the counts and columns
/// with higher bits dropped.
pub fn explicit_csr<V: Copy>(ns: usize, nt: usize, one: V) -> (a: CsrMatrix<V>)
    requires
        2 * ns * nt <= usize::MAX,
        ns + nt + 1 <= usize::MAX,
    ensures
        a.n_rows == ns + nt,
        a.n_cols == ns * nt,
        a.indptr@ == Seq::new((ns + nt + 1) as nat, |r: int| incidence_ptr(ns as int, nt as int, r) as u32),
        a.indices@ == Seq::new((2 * ns * nt) as nat, |k: int| incidence_col(ns as int, nt as int, k) as u32),
        a.values@ == Seq::new((2 * ns * nt) as nat, |k: int| one),
{
    let ghost f = |k: int| incidence_col(ns as int, nt as int, k) as u32;
    let ghost g = |r: int| incidence_ptr(ns as int, nt as int, r) as u32;
    assert(ns * nt <= 2 * ns * nt) by (nonlinear_arith);
    let mut indptr: Vec<u32> = Vec::new();
    indptr.push(0);
    let mut indices: Vec<u32> = Vec::new();
    let mut i: usize = 0;
    while i < ns
        invariant
            2 * ns * nt <= usize::MAX,
            ns * nt <= 2 * ns * nt,
            i <= ns,
            indices@ =~= Seq::new((i * nt) as nat, f),
            indptr@ =~= Seq::new((i + 1) as nat, g),
            f == (|k: int| incidence_col(ns as int, nt as int, k) as u32),
            g == (|r: int| incidence_ptr(ns as int, nt as int, r) as u32),
        decreases ns - i,
    {
        assert(i * nt + nt <= ns * nt) by (nonlinear_arith)
            requires
                i < ns;
        let mut j: usize = 0;
        while j < nt
            invariant
                2 * ns * nt <= usize::MAX,
                ns * nt <= 2 * ns * nt,
                i < ns,
                j <= nt,
                i * nt + nt <= ns * nt,
                indices@ =~= Seq::new((i * nt + j) as nat, f),
                f == (|k: int| incidence_col(ns as int, nt as int, k) as u32),
            decreases nt - j,
        {
            let v = i * nt + j;
            indices.push(v as u32);
            j = j + 1;
        }
        indptr.push(indices.len() as u32);
        assert((i + 1) * nt == i * nt + nt) by (nonlinear_arith);
        i = i + 1;
    }
    assert(i * nt == ns * nt);
    let mut j: usize = 0;
    while j < nt
        invariant
            2 * ns * nt <= usize::MAX,
            ns + nt + 1 <= usize::MAX,
            j <= nt,
            indices@ =~= Seq::new((ns * nt + j * ns) as nat, f),
            indptr@ =~= Seq::new((ns + j + 1) as nat, g),
            f == (|k: int| incidence_col(ns as int, nt as int, k) as u32),
            g == (|r: int| incidence_ptr(ns as int, nt as int, r) as u32),
        decreases nt - j,
    {
        assert(ns * nt + j * ns + ns <= 2 * ns * nt) by (nonlinear_arith)
            requires
                j < nt;
        let mut i: usize = 0;
        while i < ns
            invariant
                2 * ns * nt <= usize::MAX,
                j < nt,
                i <= ns,
                ns * nt + j * ns + ns <= 2 * ns * nt,
                indices@ =~= Seq::new((ns * nt + j * ns + i) as nat, f),
                f == (|k: int| incidence_col(ns as int, nt as int, k) as u32),
            decreases ns - i,
        {
            assert(i * nt + j < ns * nt) by (nonlinear_arith)
                requires
                    i < ns,
                    j < nt;
            assert((j * ns + i) / (ns as int) == j && (j * ns + i) % (ns as int) == i) by (nonlinear_arith)
                requires
                    i < ns;
            let v = i * nt + j;
            indices.push(v as u32);
            i = i + 1;
        }
        indptr.push(indices.len() as u32);
        assert((j + 1) * ns == j * ns + ns) by (nonlinear_arith);
        j = j + 1;
    }
    assert(ns * nt + nt * ns == 2 * ns * nt) by (nonlinear_arith);
    let nnz = indices.len();
    let mut values: Vec<V> = Vec::new();
    let mut k: usize = 0;
    while k < nnz
        invariant
            k <= nnz,
            values@ =~= Seq::new(k as nat, |q: int| one),
        decreases nnz - k,
    {
        values.push(one);
        k = k + 1;
    }
    CsrMatrix { n_rows: ns + nt, n_cols: ns * nt, indptr, indices, values }
}

} // verus!

verus! {

/// The explicit matrix is the operator written out: the `q`-th entry of a
/// source row `r < ns` is the plan variable `x[r * nt + q]` (`q < nt`), and
/// the `q`-th entry of a target row `ns + j` is `x[q * nt + j]` (`q < ns`),
/// exactly the variables `TransportOp` sums into that row.
pub proof fn lemma_explicit_rows_are_operator_rows(ns: int, nt: int, r: int, q: int)
    requires
        0 <= r < ns + nt,
        0 <= q < (if r < ns { nt } else { ns }),
    ensures
        incidence_ptr(ns, nt, r) + q < incidence_ptr(ns, nt, r + 1),
        incidence_col(ns, nt, incidence_ptr(ns, nt, r) + q) == (if r < ns { r * nt + q } else { q * nt + (r - ns) }),
{
    let k = incidence_ptr(ns, nt, r) + q;
    if r < ns {
        assert(r * nt + q < (r + 1) * nt) by (nonlinear_arith)
            requires
                q < nt;
        assert((r + 1) * nt <= ns * nt) by (nonlinear_arith)
            requires
                r < ns,
                0 <= nt;
    } else {
        let j = r - ns;
        if r == ns {
            assert(j * ns == 0) by (nonlinear_arith)
                requires
                    j == 0;
        }
        assert(k == ns * nt + j * ns + q);
        assert((j * ns + q) / ns == j && (j * ns + q) % ns == q) by (nonlinear_arith)
            requires
                0 <= q < ns,
                0 <= j;
        assert((j + 1) * ns == j * ns + ns) by (nonlinear_arith);
    }
}

} // verus!
