use vstd::prelude::*;

verus! {

/// The number of items that slot `idx` receives when `total` items are divided as
/// equally as possible over `n` slots: the first `total % n` slots get one extra.
pub open spec fn share(total: int, n: int, idx: int) -> int {
    total / n + if idx < total % n { 1int } else { 0int }
}

/// The sum of the shares of the slots `0..k`.
pub open spec fn sum_of_shares(total: int, n: int, k: int) -> int
    decreases k,
{
    if k <= 0 {
        0
    } else {
        sum_of_shares(total, n, k - 1) + share(total, n, k - 1)
    }
}

/// Return the number of items to assign to slot `idx` out of `0..n`, when `a` items are
/// divided as equally as possible over `n` slots.
pub fn most_equal_divide(a: u64, n: u64, idx: u64) -> (r: u64)
    requires
        n >= 1,
    ensures
        r == share(a as int, n as int, idx as int),
        r <= a,
{
    let mut d: u64 = a / n;
    if idx < a % n {
        assert(d < a) by (nonlinear_arith)
            requires d == a / n, n >= 1, a % n > 0, idx < a % n;
        d += 1;
    }
    assert(a / n <= a) by (nonlinear_arith)
        requires n >= 1;
    d
}

proof fn lemma_sum_of_shares_closed(total: int, n: int, k: int)
    requires
        total >= 0,
        n >= 1,
        0 <= k <= n,
    ensures
        sum_of_shares(total, n, k) == k * (total / n) + if k < total % n { k } else { total % n },
    decreases k,
{
    assert(0 <= total % n < n) by (nonlinear_arith)
        requires n >= 1;
    if k > 0 {
        lemma_sum_of_shares_closed(total, n, k - 1);
        assert(sum_of_shares(total, n, k) == (k - 1) * (total / n) + total / n + if k < total % n {
            k
        } else {
            total % n
        });
        assert((k - 1) * (total / n) + total / n == k * (total / n)) by (nonlinear_arith);
    } else {
        assert(k * (total / n) == 0) by (nonlinear_arith)
            requires k == 0;
    }
}

/// Dividing `total` items over `n >= 1` slots hands out exactly `total` items, and no two
/// slots receive amounts that differ by more than one.
pub proof fn lemma_most_equal_divide(total: u64, n: u64)
    requires
        n >= 1,
    ensures
        sum_of_shares(total as int, n as int, n as int) == total,
        forall|i: int, j: int|
            0 <= i < n && 0 <= j < n ==> #[trigger] share(total as int, n as int, i) - #[trigger] share(
                total as int,
                n as int,
                j,
            ) <= 1,
{
    lemma_sum_of_shares_closed(total as int, n as int, n as int);
    assert(n * (total / n) + total % n == total) by (nonlinear_arith)
        requires n >= 1;
    assert(total % n < n) by (nonlinear_arith)
        requires n >= 1;
}

} // verus!
