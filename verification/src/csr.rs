//! Compressed sparse row matrices.
use vstd::prelude::*;

verus! {

/// A sparse matrix stored by rows: row `r` holds the entries
/// `indptr[r]..indptr[r + 1]` of `indices` (their columns) and `values`.
#[derive(Clone, Debug)]
pub struct CsrMatrix<V> {
    pub n_rows: usize,
    pub n_cols: usize,
    pub indptr: Vec<u32>,
    pub indices: Vec<u32>,
    pub values: Vec<V>,
}

/// How many of the first `n` column indices are below `j`.
pub open spec fn count_below(s: Seq<u32>, j: int, n: int) -> nat
    decreases n,
{
    if n <= 0 {
        0
    } else {
        count_below(s, j, n - 1) + if (s[n - 1] as int) < j { 1nat } else { 0nat }
    }
}

/// How many of the first `n` column indices equal `j`.
pub open spec fn count_in(s: Seq<u32>, j: int, n: int) -> nat
    decreases n,
{
    if n <= 0 {
        0
    } else {
        count_in(s, j, n - 1) + if (s[n - 1] as int) == j { 1nat } else { 0nat }
    }
}

/// Where the transpose stores entry `k`: after every entry of a lower column
/// and after the earlier entries of its own column.
pub open spec fn transposed_slot(s: Seq<u32>, k: int) -> int {
    (count_below(s, s[k] as int, s.len() as int) + count_in(s, s[k] as int, k)) as int
}

/// How many of the row ends `ip[1..=m]` are at or before entry `k`.
pub open spec fn rows_through(ip: Seq<u32>, k: int, m: int) -> nat
    decreases m,
{
    if m <= 0 {
        0
    } else {
        rows_through(ip, k, m - 1) + if (ip[m] as int) <= k { 1nat } else { 0nat }
    }
}

/// The row that holds entry `k`.
pub open spec fn row_of(ip: Seq<u32>, k: int) -> int {
    rows_through(ip, k, ip.len() - 1) as int
}

impl<V> CsrMatrix<V> {
    /// The row pointers are a nondecreasing walk from 0 to the entry count,
    /// and every column index is in range.
    pub open spec fn wf(&self) -> bool {
        &&& self.indptr@.len() == self.n_rows + 1
        &&& self.indptr@[0] == 0
        &&& forall|r: int, s: int| 0 <= r <= s <= self.n_rows ==> #[trigger] self.indptr@[r] <= #[trigger] self.indptr@[s]
        &&& self.indptr@[self.n_rows as int] == self.indices@.len()
        &&& self.values@.len() == self.indices@.len()
        &&& forall|k: int| 0 <= k < self.indices@.len() ==> (#[trigger] self.indices@[k]) < self.n_cols
    }

    /// `t` is the transpose of this matrix: its row `j` lists, in order, the
    /// entries of column `j`, each with its row number as column index.
    pub open spec fn is_transpose(&self, t: CsrMatrix<V>) -> bool {
        let s = self.indices@;
        let nnz = s.len() as int;
        &&& t.n_rows == self.n_cols
        &&& t.n_cols == self.n_rows
        &&& t.indptr@.len() == self.n_cols + 1
        &&& forall|j: int| 0 <= j <= self.n_cols ==> #[trigger] t.indptr@[j] == count_below(s, j, nnz)
        &&& t.indices@.len() == nnz
        &&& t.values@.len() == nnz
        &&& forall|k: int| 0 <= k < nnz ==> {
            &&& t.indices@[#[trigger] transposed_slot(s, k)] == row_of(self.indptr@, k)
            &&& t.values@[transposed_slot(s, k)] == self.values@[k]
        }
    }

    /// Position `p` of `t` holds entry `k` of this matrix: it is `k`'s slot,
    /// with `k`'s row as column index and `k`'s value.
    pub open spec fn holds_at(&self, t: CsrMatrix<V>, p: int, k: int) -> bool {
        &&& 0 <= k < self.indices@.len()
        &&& transposed_slot(self.indices@, k) == p
        &&& t.indices@[p] == row_of(self.indptr@, k)
        &&& t.values@[p] == self.values@[k]
    }

    /// Position `p` of `t` holds some entry of this matrix.
    pub open spec fn holds_some_entry(&self, t: CsrMatrix<V>, p: int) -> bool {
        exists|k: int| #[trigger] self.holds_at(t, p, k)
    }

    /// The number of stored entries.
    pub fn nnz(&self) -> (r: usize)
        ensures
            r == self.values@.len(),
    {
        self.values.len()
    }
}

proof fn lemma_count_in_le(s: Seq<u32>, j: int, n: int)
    requires
        0 <= n,
    ensures
        count_in(s, j, n) <= n,
    decreases n,
{
    if n > 0 {
        lemma_count_in_le(s, j, n - 1);
    }
}

proof fn lemma_count_below_le(s: Seq<u32>, j: int, n: int)
    requires
        0 <= n,
    ensures
        count_below(s, j, n) <= n,
    decreases n,
{
    if n > 0 {
        lemma_count_below_le(s, j, n - 1);
    }
}

proof fn lemma_count_below_step(s: Seq<u32>, j: int, n: int)
    ensures
        count_below(s, j + 1, n) == count_below(s, j, n) + count_in(s, j, n),
    decreases n,
{
    if n > 0 {
        lemma_count_below_step(s, j, n - 1);
    }
}

proof fn lemma_count_below_mono(s: Seq<u32>, j1: int, j2: int, n: int)
    requires
        j1 <= j2,
    ensures
        count_below(s, j1, n) <= count_below(s, j2, n),
    decreases n,
{
    if n > 0 {
        lemma_count_below_mono(s, j1, j2, n - 1);
    }
}

proof fn lemma_count_below_zero(s: Seq<u32>, n: int)
    ensures
        count_below(s, 0, n) == 0,
    decreases n,
{
    if n > 0 {
        lemma_count_below_zero(s, n - 1);
    }
}

proof fn lemma_count_below_all(s: Seq<u32>, j: int, n: int)
    requires
        0 <= n <= s.len(),
        forall|k: int| 0 <= k < n ==> (s[k] as int) < j,
    ensures
        count_below(s, j, n) == n,
    decreases n,
{
    if n > 0 {
        lemma_count_below_all(s, j, n - 1);
    }
}

proof fn lemma_count_in_mono(s: Seq<u32>, j: int, k1: int, k2: int)
    requires
        0 <= k1 <= k2,
    ensures
        count_in(s, j, k1) <= count_in(s, j, k2),
        k1 < k2 && s[k1] as int == j ==> count_in(s, j, k1) < count_in(s, j, k2),
    decreases k2 - k1,
{
    if k1 < k2 {
        lemma_count_in_mono(s, j, k1 + 1, k2);
    }
}

/// Entry `k` lands inside the transposed row of its column.
proof fn lemma_slot_bounds(s: Seq<u32>, k: int)
    requires
        0 <= k < s.len(),
    ensures
        count_below(s, s[k] as int, s.len() as int) <= transposed_slot(s, k),
        transposed_slot(s, k) < count_below(s, s[k] + 1, s.len() as int),
        count_below(s, s[k] + 1, s.len() as int) <= s.len(),
{
    let n = s.len() as int;
    lemma_count_below_step(s, s[k] as int, n);
    lemma_count_in_mono(s, s[k] as int, k, n);
    lemma_count_below_le(s, s[k] + 1, n);
}

/// Slots order entries by column, then by position.
proof fn lemma_slot_order(s: Seq<u32>, k1: int, k2: int)
    requires
        0 <= k1 < s.len(),
        0 <= k2 < s.len(),
    ensures
        transposed_slot(s, k1) < transposed_slot(s, k2) <==> (s[k1] < s[k2] || (s[k1] == s[k2] && k1 < k2)),
{
    let n = s.len() as int;
    lemma_slot_bounds(s, k1);
    lemma_slot_bounds(s, k2);
    if s[k1] < s[k2] {
        lemma_count_below_mono(s, s[k1] + 1, s[k2] as int, n);
    } else if s[k2] < s[k1] {
        lemma_count_below_mono(s, s[k2] + 1, s[k1] as int, n);
    } else if k1 < k2 {
        lemma_count_in_mono(s, s[k1] as int, k1, k2);
    } else {
        lemma_count_in_mono(s, s[k1] as int, k2, k1);
    }
}

/// With nondecreasing row pointers, the rows ending by `k` are a prefix.
proof fn lemma_rows_through(ip: Seq<u32>, k: int, m: int)
    requires
        0 <= m < ip.len(),
        0 <= k,
        ip[0] == 0,
        forall|r: int, q: int| 0 <= r <= q < ip.len() ==> #[trigger] ip[r] <= #[trigger] ip[q],
    ensures
        rows_through(ip, k, m) <= m,
        ip[rows_through(ip, k, m) as int] <= k,
        rows_through(ip, k, m) == m || k < ip[rows_through(ip, k, m) as int + 1],
    decreases m,
{
    if m > 0 {
        lemma_rows_through(ip, k, m - 1);
        let c = rows_through(ip, k, m - 1) as int;
        if ip[m] as int <= k {
            if c < m - 1 {
                assert(ip[c + 1] <= ip[m]);
            }
        }
    }
}

/// The row of entry `k` is the one whose pointer range holds `k`.
proof fn lemma_row_of(ip: Seq<u32>, k: int, r: int)
    requires
        1 <= ip.len(),
        0 <= r < ip.len() - 1,
        ip[r] <= k < ip[r + 1],
        ip[0] == 0,
        forall|a: int, b: int| 0 <= a <= b < ip.len() ==> #[trigger] ip[a] <= #[trigger] ip[b],
    ensures
        row_of(ip, k) == r,
{
    let m = ip.len() - 1;
    lemma_rows_through(ip, k, m);
    let c = rows_through(ip, k, m) as int;
    if c < r {
        assert(ip[c + 1] <= ip[r]);
    } else if c > r {
        assert(ip[r + 1] <= ip[c]);
    }
}

/// Every entry lies in some row.
proof fn lemma_row_of_range(ip: Seq<u32>, k: int)
    requires
        1 <= ip.len(),
        0 <= k < ip[ip.len() - 1],
        ip[0] == 0,
        forall|a: int, b: int| 0 <= a <= b < ip.len() ==> #[trigger] ip[a] <= #[trigger] ip[b],
    ensures
        0 <= row_of(ip, k) < ip.len() - 1,
        ip[row_of(ip, k)] <= k < ip[row_of(ip, k) + 1],
{
    lemma_rows_through(ip, k, ip.len() - 1);
}


/// How many of `0..n` satisfy `p`.
pub open spec fn count_where(n: int, p: spec_fn(int) -> bool) -> nat
    decreases n,
{
    if n <= 0 {
        0
    } else {
        count_where(n - 1, p) + if p(n - 1) { 1nat } else { 0nat }
    }
}

proof fn lemma_count_where_set(n: int, p: spec_fn(int) -> bool)
    requires
        0 <= n,
    ensures
        Set::new(|k: int| 0 <= k < n && p(k)).finite(),
        count_where(n, p) == Set::new(|k: int| 0 <= k < n && p(k)).len(),
    decreases n,
{
    let cur = Set::new(|k: int| 0 <= k < n && p(k));
    if n == 0 {
        assert(cur =~= Set::<int>::empty());
    } else {
        lemma_count_where_set(n - 1, p);
        let prev = Set::new(|k: int| 0 <= k < n - 1 && p(k));
        if p(n - 1) {
            assert(cur =~= prev.insert(n - 1));
        } else {
            assert(cur =~= prev);
        }
    }
}

proof fn lemma_count_where_ext(n: int, p: spec_fn(int) -> bool, q: spec_fn(int) -> bool)
    requires
        forall|k: int| 0 <= k < n ==> #[trigger] p(k) == q(k),
    ensures
        count_where(n, p) == count_where(n, q),
    decreases n,
{
    if n > 0 {
        lemma_count_where_ext(n - 1, p, q);
    }
}

proof fn lemma_count_where_range(n: int, lo: int, hi: int)
    requires
        0 <= lo <= hi,
    ensures
        count_where(n, |k: int| lo <= k < hi) == (if n <= lo { 0 } else if n <= hi { n - lo } else { hi - lo }),
    decreases n,
{
    if n > 0 {
        lemma_count_where_range(n - 1, lo, hi);
    }
}

/// Counting is unchanged by a permutation `d` of `0..n`.
proof fn lemma_count_perm(n: int, d: spec_fn(int) -> int, q: spec_fn(int) -> bool)
    requires
        0 <= n,
        forall|k: int| 0 <= k < n ==> 0 <= #[trigger] d(k) < n,
        forall|k1: int, k2: int| 0 <= k1 < n && 0 <= k2 < n && #[trigger] d(k1) == #[trigger] d(k2) ==> k1 == k2,
    ensures
        count_where(n, q) == count_where(n, |k: int| q(d(k))),
{
    let range = vstd::set_lib::set_int_range(0, n);
    vstd::set_lib::lemma_int_range(0, n);
    assert(vstd::relations::injective_on(d, range));
    vstd::set_lib::lemma_map_size(range, range.map(d), d);
    assert(range.map(d).subset_of(range));
    vstd::set_lib::lemma_subset_equality(range.map(d), range);
    let hit = Set::new(|k: int| 0 <= k < n && q(d(k)));
    let img = Set::new(|i: int| 0 <= i < n && q(i));
    assert(hit.map(d) =~= img) by {
        assert forall|i: int| img.contains(i) implies hit.map(d).contains(i) by {
            assert(range.map(d).contains(i));
            let k = choose|k: int| range.contains(k) && i == d(k);
            assert(hit.contains(k));
        }
    }
    lemma_count_where_set(n, |k: int| q(d(k)));
    lemma_count_where_set(n, q);
    assert(hit == Set::new(|k: int| 0 <= k < n && (|k: int| q(d(k)))(k)));
    assert(vstd::relations::injective_on(d, hit));
    vstd::set_lib::lemma_map_size(hit, img, d);
}

proof fn lemma_count_below_where(s: Seq<u32>, j: int, n: int)
    ensures
        count_below(s, j, n) == count_where(n, |i: int| (s[i] as int) < j),
    decreases n,
{
    if n > 0 {
        lemma_count_below_where(s, j, n - 1);
    }
}

proof fn lemma_count_in_where(s: Seq<u32>, j: int, n: int, m: int)
    requires
        0 <= n <= m,
    ensures
        count_in(s, j, n) == count_where(m, |i: int| i < n && s[i] as int == j),
    decreases m,
{
    if m > n {
        lemma_count_in_where(s, j, n, m - 1);
    } else if n > 0 {
        lemma_count_in_where(s, j, n - 1, n - 1);
        lemma_count_where_ext(n - 1, |i: int| i < n - 1 && s[i] as int == j, |i: int| i < n && s[i] as int == j);
    }
}

/// Where entry `k` sits once its row is ordered by column, ties kept in
/// their original order.
pub open spec fn row_sorted_slot(ip: Seq<u32>, s: Seq<u32>, k: int) -> int {
    let r = row_of(ip, k);
    ip[r] + count_where(
        s.len() as int,
        |q: int| row_of(ip, q) == r && (s[q] < s[k] || (s[q] == s[k] && q < k)),
    )
}

impl<V> CsrMatrix<V> {
    /// Each row lists its columns in nondecreasing order.
    pub open spec fn rows_sorted(&self) -> bool {
        forall|r: int, k1: int, k2: int|
            #![trigger self.indptr@[r], self.indices@[k1], self.indices@[k2]]
            0 <= r < self.n_rows && self.indptr@[r] <= k1 <= k2 < self.indptr@[r + 1]
                ==> self.indices@[k1] <= self.indices@[k2]
    }
}

/// Facts on slots: the transpose permutes the entries.
proof fn lemma_slot_perm(s: Seq<u32>)
    ensures
        forall|k: int| 0 <= k < s.len() ==> 0 <= #[trigger] transposed_slot(s, k) < s.len(),
        forall|k1: int, k2: int|
            0 <= k1 < s.len() && 0 <= k2 < s.len() && #[trigger] transposed_slot(s, k1) == #[trigger] transposed_slot(s, k2)
                ==> k1 == k2,
{
    assert forall|k: int| 0 <= k < s.len() implies 0 <= #[trigger] transposed_slot(s, k) < s.len() by {
        lemma_slot_bounds(s, k);
    }
    assert forall|k1: int, k2: int|
        0 <= k1 < s.len() && 0 <= k2 < s.len() && #[trigger] transposed_slot(s, k1) == #[trigger] transposed_slot(s, k2)
            implies k1 == k2 by {
        lemma_slot_order(s, k1, k2);
        lemma_slot_order(s, k2, k1);
    }
}

/// Transposing twice gives back the row pointers, and in each row the same
/// entries ordered by column (entries of one column in their original
/// order): entry `k` ends up at `row_sorted_slot(k)`.
pub proof fn lemma_transpose_twice<V>(a: CsrMatrix<V>, t: CsrMatrix<V>, t2: CsrMatrix<V>)
    requires
        a.wf(),
        t.wf(),
        a.is_transpose(t),
        t.is_transpose(t2),
    ensures
        t2.n_rows == a.n_rows,
        t2.n_cols == a.n_cols,
        t2.indptr@ == a.indptr@,
        t2.indices@.len() == a.indices@.len(),
        t2.values@.len() == a.values@.len(),
        forall|k: int| 0 <= k < a.indices@.len() ==> {
            &&& t2.indices@[#[trigger] row_sorted_slot(a.indptr@, a.indices@, k)] == a.indices@[k]
            &&& t2.values@[row_sorted_slot(a.indptr@, a.indices@, k)] == a.values@[k]
        },
{
    let s = a.indices@;
    let ip = a.indptr@;
    let n = s.len() as int;
    let tt = t.indices@;
    let tp = t.indptr@;
    let d = |k: int| transposed_slot(s, k);
    lemma_slot_perm(s);
    // Row pointers: the entries of t below row r are the entries of a above row r.
    assert forall|r: int| 0 <= r <= a.n_rows implies #[trigger] t2.indptr@[r] == ip[r] by {
        lemma_count_below_where(tt, r, n);
        lemma_count_perm(n, d, |i: int| (tt[i] as int) < r);
        assert forall|k: int| 0 <= k < n implies ((tt[#[trigger] d(k)] as int) < r) == (k < ip[r]) by {
            lemma_row_of_range(ip, k);
            let rk = row_of(ip, k);
            if rk < r {
                assert(ip[rk + 1] <= ip[r]);
            } else {
                assert(ip[r] <= ip[rk]);
            }
        }
        lemma_count_where_ext(n, |k: int| (|i: int| (tt[i] as int) < r)(d(k)), |q: int| q < ip[r]);
        lemma_count_where_range(n, 0, ip[r] as int);
        lemma_count_where_ext(n, |q: int| q < ip[r], |q: int| 0 <= q < ip[r]);
    }
    assert(t2.indptr@ =~= ip);
    // Entries: entry k sits at slot d(k) of t, in t's row s[k].
    assert forall|k: int| 0 <= k < n implies {
        &&& t2.indices@[#[trigger] row_sorted_slot(ip, s, k)] == s[k]
        &&& t2.values@[row_sorted_slot(ip, s, k)] == a.values@[k]
    } by {
        let p = d(k);
        let r = row_of(ip, k);
        let j = s[k] as int;
        lemma_row_of_range(ip, k);
        lemma_slot_bounds(s, k);
        lemma_row_of(tp, p, j);
        assert(tt[p] == r);
        // The slot of p in t2 is ip[r] plus the entries of row r placed before p.
        lemma_count_in_where(tt, r, p, n);
        lemma_count_perm(n, d, |i: int| i < p && tt[i] as int == r);
        assert forall|q: int| 0 <= q < n implies (#[trigger] d(q) < p && tt[d(q)] as int == r)
            == (row_of(ip, q) == r && (s[q] < s[k] || (s[q] == s[k] && q < k))) by {
            lemma_slot_order(s, q, k);
            lemma_row_of_range(ip, q);
        }
        lemma_count_where_ext(
            n,
            |q: int| (|i: int| i < p && tt[i] as int == r)(d(q)),
            |q: int| row_of(ip, q) == r && (s[q] < s[k] || (s[q] == s[k] && q < k)),
        );
        assert(transposed_slot(tt, p) == row_sorted_slot(ip, s, k));
    }
}

/// Every slot of `0..s.len()` holds some entry.
proof fn lemma_slot_onto(s: Seq<u32>, p: int)
    requires
        0 <= p < s.len(),
    ensures
        exists|k: int| 0 <= k < s.len() && transposed_slot(s, k) == p,
{
    let n = s.len() as int;
    let d = |k: int| transposed_slot(s, k);
    lemma_slot_perm(s);
    let range = vstd::set_lib::set_int_range(0, n);
    vstd::set_lib::lemma_int_range(0, n);
    assert(vstd::relations::injective_on(d, range));
    vstd::set_lib::lemma_map_size(range, range.map(d), d);
    assert(range.map(d).subset_of(range));
    vstd::set_lib::lemma_subset_equality(range.map(d), range);
    assert(range.map(d).contains(p));
    let k = choose|k: int| range.contains(k) && p == d(k);
    assert(0 <= k < n && transposed_slot(s, k) == p);
}

proof fn lemma_transpose_rows_sorted<V>(a: CsrMatrix<V>, t: CsrMatrix<V>)
    requires
        a.wf(),
        a.is_transpose(t),
    ensures
        t.rows_sorted(),
{
    let s = a.indices@;
    let ip = a.indptr@;
    let n = s.len() as int;
    lemma_slot_perm(s);
    assert forall|j: int, p1: int, p2: int|
        #![trigger t.indptr@[j], t.indices@[p1], t.indices@[p2]]
        0 <= j < t.n_rows && t.indptr@[j] <= p1 <= p2 < t.indptr@[j + 1] implies t.indices@[p1] <= t.indices@[p2] by {
        lemma_count_below_le(s, j + 1, n);
        lemma_slot_onto(s, p1);
        lemma_slot_onto(s, p2);
        let k1 = choose|k: int| 0 <= k < n && transposed_slot(s, k) == p1;
        let k2 = choose|k: int| 0 <= k < n && transposed_slot(s, k) == p2;
        lemma_slot_bounds(s, k1);
        lemma_slot_bounds(s, k2);
        // Both entries lie in column j.
        if (s[k1] as int) < j {
            lemma_count_below_mono(s, s[k1] + 1, j, n);
        } else if (s[k1] as int) > j {
            lemma_count_below_mono(s, j + 1, s[k1] as int, n);
        }
        if (s[k2] as int) < j {
            lemma_count_below_mono(s, s[k2] + 1, j, n);
        } else if (s[k2] as int) > j {
            lemma_count_below_mono(s, j + 1, s[k2] as int, n);
        }
        lemma_slot_order(s, k2, k1);
        lemma_row_of_range(ip, k1);
        lemma_row_of_range(ip, k2);
        if k1 != k2 {
            assert(k1 < k2);
            let r1 = row_of(ip, k1);
            let r2 = row_of(ip, k2);
            if r1 > r2 {
                assert(ip[r2 + 1] <= ip[r1]);
            }
        }
    }
}

/// The transpose holds each entry of the matrix exactly once: every stored
/// position `p` of `t` is the slot of exactly one entry `k`, with `k`'s row
/// as its column index and `k`'s value; and each row of `t` lists its
/// column indices (the original rows) in nondecreasing order.
pub proof fn lemma_transpose_entries<V>(a: CsrMatrix<V>, t: CsrMatrix<V>)
    requires
        a.wf(),
        a.is_transpose(t),
    ensures
        forall|p: int| 0 <= p < t.indices@.len() ==> #[trigger] a.holds_some_entry(t, p),
        forall|k1: int, k2: int|
            0 <= k1 < a.indices@.len() && 0 <= k2 < a.indices@.len()
                && #[trigger] transposed_slot(a.indices@, k1) == #[trigger] transposed_slot(a.indices@, k2) ==> k1 == k2,
        t.rows_sorted(),
{
    let s = a.indices@;
    let ip = a.indptr@;
    let n = s.len() as int;
    lemma_slot_perm(s);
    lemma_transpose_rows_sorted(a, t);
    assert forall|p: int| 0 <= p < t.indices@.len() implies #[trigger] a.holds_some_entry(t, p) by {
        lemma_slot_onto(s, p);
        let k = choose|k: int| 0 <= k < n && transposed_slot(s, k) == p;
        assert(t.indices@[transposed_slot(s, k)] == row_of(ip, k));
        assert(t.values@[transposed_slot(s, k)] == a.values@[k]);
        assert(a.holds_at(t, p, k));
    }

}

/// Transposing twice gives back a matrix whose rows list their columns in
/// nondecreasing order.
pub proof fn lemma_transpose_roundtrip<V>(a: CsrMatrix<V>, t: CsrMatrix<V>, t2: CsrMatrix<V>)
    requires
        a.wf(),
        a.rows_sorted(),
        t.wf(),
        a.is_transpose(t),
        t.is_transpose(t2),
    ensures
        t2.n_rows == a.n_rows,
        t2.n_cols == a.n_cols,
        t2.indptr@ == a.indptr@,
        t2.indices@ == a.indices@,
        t2.values@ == a.values@,
{
    let s = a.indices@;
    let ip = a.indptr@;
    let n = s.len() as int;
    lemma_transpose_twice(a, t, t2);
    assert forall|k: int| 0 <= k < n implies #[trigger] row_sorted_slot(ip, s, k) == k by {
        lemma_row_of_range(ip, k);
        let r = row_of(ip, k);
        assert forall|q: int| 0 <= q < n implies (#[trigger] row_of(ip, q) == r && (s[q] < s[k] || (s[q] == s[k] && q < k)))
            == (ip[r] <= q < k) by {
            lemma_row_of_range(ip, q);
            let rq = row_of(ip, q);
            if rq < r {
                assert(ip[rq + 1] <= ip[r]);
            } else if rq > r {
                assert(ip[r + 1] <= ip[rq]);
            } else if q < k {
                assert(s[q] <= s[k]);
            } else {
                assert(s[k] <= s[q]);
            }
        }
        lemma_count_where_ext(
            n,
            |q: int| row_of(ip, q) == r && (s[q] < s[k] || (s[q] == s[k] && q < k)),
            |q: int| ip[r] <= q < k,
        );
        lemma_count_where_range(n, ip[r] as int, k);
    }
    assert forall|k: int| 0 <= k < n implies #[trigger] t2.indices@[k] == s[k] by {
        assert(row_sorted_slot(ip, s, k) == k);
    }
    assert forall|k: int| 0 <= k < n implies #[trigger] t2.values@[k] == a.values@[k] by {
        assert(row_sorted_slot(ip, s, k) == k);
    }
    assert(t2.indices@ =~= s);
    assert(t2.values@ =~= a.values@);
}

impl<V: Copy> CsrMatrix<V> {
    /// The transpose, by a counting sort on the column indices: column `j`
    /// becomes row `j`, its entries kept in their original order. Row
    /// numbers become `u32` column indices, hence the bound on `n_rows`.
    pub fn transpose(&self) -> (t: CsrMatrix<V>)
        requires
            self.wf(),
            self.n_cols < usize::MAX,
            self.n_rows <= u32::MAX,
        ensures
            self.is_transpose(t),
            t.wf(),
            t.rows_sorted(),
    {
        let ghost s = self.indices@;
        let ghost ip = self.indptr@;
        let n_rows = self.n_rows;
        let n_cols = self.n_cols;
        let nnz = self.indices.len();
        let ghost n = nnz as int;
        assert(nnz <= u32::MAX) by {
            assert(ip[n_rows as int] == nnz);
        }
        // counts[j + 1] = entries in column j
        let mut counts: Vec<u32> = Vec::new();
        let mut j: usize = 0;
        while j <= n_cols
            invariant
                n_cols < usize::MAX,
                j <= n_cols + 1,
                counts@.len() == j,
                forall|i: int| 0 <= i < j ==> counts@[i] == 0,
            decreases n_cols + 1 - j,
        {
            counts.push(0);
            j = j + 1;
        }
        let mut k: usize = 0;
        while k < nnz
            invariant
                self.wf(),
                s == self.indices@,
                n_cols == self.n_cols,
                nnz == s.len(),
                nnz <= u32::MAX,
                k <= nnz,
                counts@.len() == n_cols + 1,
                counts@[0] == 0,
                forall|c: int| 0 <= c < n_cols ==> #[trigger] counts@[c + 1] == count_in(s, c, k as int),
            decreases nnz - k,
        {
            let c = self.indices[k] as usize;
            assert(c < n_cols);
            proof {
                lemma_count_in_le(s, c as int, k as int);
            }
            let bumped = counts[c + 1] + 1;
            let ghost prev = counts@;
            counts.set(c + 1, bumped);
            proof {
                assert forall|i: int| 0 <= i < n_cols implies #[trigger] counts@[i + 1] == count_in(s, i, k + 1) by {
                    if i != c {
                        assert(counts@[i + 1] == prev[i + 1]);
                    }
                }
            }
            k = k + 1;
        }
        // indptr[j] = pos[j] = entries in columns below j
        let mut indptr: Vec<u32> = Vec::new();
        let mut pos: Vec<u32> = Vec::new();
        indptr.push(0);
        pos.push(0);
        proof {
            lemma_count_below_zero(s, n);
        }
        let mut acc: u32 = 0;
        let mut j: usize = 0;
        while j < n_cols
            invariant
                s == self.indices@,
                nnz == s.len(),
                n == nnz as int,
                nnz <= u32::MAX,
                j <= n_cols,
                counts@.len() == n_cols + 1,
                forall|c: int| 0 <= c < n_cols ==> #[trigger] counts@[c + 1] == count_in(s, c, n),
                acc == count_below(s, j as int, n),
                indptr@.len() == j + 1,
                pos@ == indptr@,
                forall|i: int| 0 <= i <= j ==> #[trigger] indptr@[i] == count_below(s, i, n),
            decreases n_cols - j,
        {
            proof {
                lemma_count_below_step(s, j as int, n);
                lemma_count_below_le(s, j + 1, n);
            }
            acc = acc + counts[j + 1];
            indptr.push(acc);
            pos.push(acc);
            j = j + 1;
        }
        // Place the entries: slot_src[p] is the entry that lands at p.
        let mut rows_t: Vec<u32> = Vec::new();
        let mut slot_src: Vec<usize> = Vec::new();
        let mut p: usize = 0;
        while p < nnz
            invariant
                p <= nnz,
                rows_t@.len() == p,
                slot_src@.len() == p,
                forall|q: int| 0 <= q < p ==> rows_t@[q] == 0 && slot_src@[q] == 0,
            decreases nnz - p,
        {
            rows_t.push(0);
            slot_src.push(0);
            p = p + 1;
        }
        proof {
            if nnz > 0 {
                assert(n_rows > 0);
            }
        }
        let mut r: usize = 0;
        while r < n_rows
            invariant
                self.wf(),
                s == self.indices@,
                ip == self.indptr@,
                n_rows == self.n_rows,
                n_cols == self.n_cols,
                n_rows <= u32::MAX,
                nnz == s.len(),
                n == nnz as int,
                nnz <= u32::MAX,
                r <= n_rows,
                pos@.len() == n_cols + 1,
                forall|c: int| 0 <= c < n_cols ==> #[trigger] pos@[c] == count_below(s, c, n) + count_in(s, c, ip[r as int] as int),
                rows_t@.len() == nnz,
                slot_src@.len() == nnz,
                forall|q: int| 0 <= q < nnz ==> #[trigger] rows_t@[q] < n_rows,
                forall|q: int| 0 <= q < nnz ==> #[trigger] slot_src@[q] < nnz,
                forall|q: int| 0 <= q < ip[r as int] ==> rows_t@[#[trigger] transposed_slot(s, q)] == row_of(ip, q)
                    && slot_src@[transposed_slot(s, q)] == q,
            decreases n_rows - r,
        {
            let lo = self.indptr[r] as usize;
            let hi = self.indptr[r + 1] as usize;
            assert(ip[r as int] <= ip[r + 1]);
            let mut k: usize = lo;
            while k < hi
                invariant
                    self.wf(),
                    s == self.indices@,
                    ip == self.indptr@,
                    n_rows == self.n_rows,
                    n_cols == self.n_cols,
                    n_rows <= u32::MAX,
                    nnz == s.len(),
                    n == nnz as int,
                    r < n_rows,
                    lo == ip[r as int],
                    hi == ip[r + 1],
                    lo <= k <= hi,
                    hi <= nnz,
                    pos@.len() == n_cols + 1,
                    forall|c: int| 0 <= c < n_cols ==> #[trigger] pos@[c] == count_below(s, c, n) + count_in(s, c, k as int),
                    rows_t@.len() == nnz,
                    slot_src@.len() == nnz,
                    forall|q: int| 0 <= q < nnz ==> #[trigger] rows_t@[q] < n_rows,
                    forall|q: int| 0 <= q < nnz ==> #[trigger] slot_src@[q] < nnz,
                    forall|q: int| 0 <= q < k ==> rows_t@[#[trigger] transposed_slot(s, q)] == row_of(ip, q)
                        && slot_src@[transposed_slot(s, q)] == q,
                decreases hi - k,
            {
                let c = self.indices[k] as usize;
                assert(c < n_cols);
                proof {
                    lemma_slot_bounds(s, k as int);
                    lemma_row_of(ip, k as int, r as int);
                }
                let dst = pos[c] as usize;
                let ghost prev = pos@;
                let ghost prev_rows = rows_t@;
                let ghost prev_src = slot_src@;
                assert(dst == transposed_slot(s, k as int));
                rows_t.set(dst, r as u32);
                slot_src.set(dst, k);
                pos.set(c, pos[c] + 1);
                proof {
                    assert forall|q: int| 0 <= q < k + 1 implies rows_t@[#[trigger] transposed_slot(s, q)] == row_of(ip, q)
                        && slot_src@[transposed_slot(s, q)] == q by {
                        lemma_slot_bounds(s, q);
                        if q < k {
                            lemma_slot_order(s, q, k as int);
                            lemma_slot_order(s, k as int, q);
                            assert(rows_t@[transposed_slot(s, q)] == prev_rows[transposed_slot(s, q)]);
                            assert(slot_src@[transposed_slot(s, q)] == prev_src[transposed_slot(s, q)]);
                        }
                    }
                    assert forall|i: int| 0 <= i < n_cols implies #[trigger] pos@[i] == count_below(s, i, n) + count_in(s, i, k + 1) by {
                        if i != c {
                            assert(pos@[i] == prev[i]);
                        }
                    }
                }
                k = k + 1;
            }
            r = r + 1;
        }
        let mut values: Vec<V> = Vec::new();
        let mut p: usize = 0;
        while p < nnz
            invariant
                self.wf(),
                nnz == self.indices@.len(),
                slot_src@.len() == nnz,
                forall|q: int| 0 <= q < nnz ==> #[trigger] slot_src@[q] < nnz,
                p <= nnz,
                values@.len() == p,
                forall|q: int| 0 <= q < p ==> #[trigger] values@[q] == self.values@[slot_src@[q] as int],
            decreases nnz - p,
        {
            values.push(self.values[slot_src[p]]);
            p = p + 1;
        }
        proof {
            assert forall|q: int| 0 <= q < n implies values@[#[trigger] transposed_slot(s, q)] == self.values@[q] by {
                lemma_slot_bounds(s, q);
            }
            lemma_count_below_all(s, n_cols as int, n);
            assert forall|a: int, b: int| 0 <= a <= b <= n_cols implies #[trigger] indptr@[a] <= #[trigger] indptr@[b] by {
                lemma_count_below_mono(s, a, b, n);
            }
        }
        let t = CsrMatrix { n_rows: n_cols, n_cols: n_rows, indptr, indices: rows_t, values };
        proof {
            lemma_transpose_rows_sorted(*self, t);
        }
        t
    }
}

} // verus!
