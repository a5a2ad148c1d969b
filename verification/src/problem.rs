//! Solver outcomes, and the checks a problem's data must pass.
use vstd::prelude::*;
use crate::text::{chars_of, string_of, push_all, push_decimal, decimal};

verus! {

/// How a solve ended. `Optimal`, `Infeasible` and `Unbounded` are only ever
/// reported after a CPU f64 certificate check passes; the other statuses are
/// honest non-answers.
#[derive(Clone, Copy, PartialEq, Eq, Structural, Debug)]
pub enum SolveStatus {
    Optimal,
    IterationLimit,
    TimeLimit,
    NumericalBreakdown,
    Infeasible,
    Unbounded,
}

} // verus!

verus! {

/// Whether the lengths of a problem's data fit its `m` rows and `n`
/// columns: `c` and the column bounds have `n` entries, the row bounds `m`.
pub open spec fn dimensions_fit(m: nat, n: nat, c: nat, col_lower: nat, col_upper: nat, row_lower: nat, row_upper: nat) -> bool {
    c == n && col_lower == n && col_upper == n && row_lower == m && row_upper == m
}

/// What is wrong with the lengths of a problem's data, if anything: the
/// columns are checked first (`n=N but c/col bounds differ`), then the rows
/// (`m=M but row bounds differ`).
pub fn dimension_error(
    m: usize,
    n: usize,
    c: usize,
    col_lower: usize,
    col_upper: usize,
    row_lower: usize,
    row_upper: usize,
) -> (r: Option<String>)
    ensures
        r is None <==> dimensions_fit(m as nat, n as nat, c as nat, col_lower as nat, col_upper as nat, row_lower as nat, row_upper as nat),
        !(c == n && col_lower == n && col_upper == n) ==> (r matches Some(s) && s@ == "n="@ + decimal(n as nat) + " but c/col bounds differ"@),
        (c == n && col_lower == n && col_upper == n) && !(row_lower == m && row_upper == m)
            ==> (r matches Some(s) && s@ == "m="@ + decimal(m as nat) + " but row bounds differ"@),
{
    if c != n || col_lower != n || col_upper != n {
        let mut out = chars_of("n=");
        push_decimal(&mut out, n as u64);
        let tail = chars_of(" but c/col bounds differ");
        push_all(&mut out, tail.as_slice());
        Some(string_of(out.as_slice()))
    } else if row_lower != m || row_upper != m {
        let mut out = chars_of("m=");
        push_decimal(&mut out, m as u64);
        let tail = chars_of(" but row bounds differ");
        push_all(&mut out, tail.as_slice());
        Some(string_of(out.as_slice()))
    } else {
        None
    }
}

} // verus!
