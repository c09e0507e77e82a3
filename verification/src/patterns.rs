use vstd::prelude::*;
use crate::battery::tens;
use crate::repeats::{first_with, last_with, power_of_ten};

verus! {

/// Block `j` of `m` digits of a number of `n` digits, the block of the highest digits
/// being block 0.
pub open spec fn block(i: nat, n: nat, m: nat, j: nat) -> nat {
    i % tens((n - m * j) as nat) / tens((n - m * (j + 1)) as nat)
}

/// The first `upto` blocks of `m` digits of the number are equal to its block of
/// highest digits.
pub open spec fn blocks_equal(i: nat, n: nat, m: nat, upto: nat) -> bool
    decreases upto,
{
    if upto <= 1 {
        true
    } else {
        blocks_equal(i, n, m, (upto - 1) as nat) && i / tens((n - m) as nat) == block(
            i,
            n,
            m,
            (upto - 1) as nat,
        )
    }
}

/// The number of `n` digits is a block of digits written `k` times.
pub open spec fn repeats(i: nat, n: nat, k: nat) -> bool {
    k >= 2 && n % k == 0 && blocks_equal(i, n, n / k, k)
}

/// The number of `n` digits is a block of digits written `k` times for some `k` from
/// 2 to before `upto`.
pub open spec fn repeats_below(i: nat, n: nat, upto: nat) -> bool
    decreases upto,
{
    if upto <= 2 {
        false
    } else {
        repeats_below(i, n, (upto - 1) as nat) || repeats(i, n, (upto - 1) as nat)
    }
}

/// The number of `n` digits is a block of digits written twice or more often.
pub open spec fn is_repeated(i: nat, n: nat) -> bool {
    repeats_below(i, n, n + 1)
}

/// The sum of the numbers from `a` to before `b` that are a block written twice or
/// more often.
pub open spec fn repeated_sum(a: nat, b: nat, n: nat) -> nat
    decreases b - a,
{
    if b <= a {
        0
    } else {
        repeated_sum(a, (b - 1) as nat, n) + if is_repeated((b - 1) as nat, n) {
            (b - 1) as nat
        } else {
            0
        }
    }
}

/// The sum up to a number is no more than the sum up to a larger number.
pub proof fn lemma_repeated_sum_grows(a: nat, b: nat, c: nat, n: nat)
    requires
        b <= c,
    ensures
        repeated_sum(a, b, n) <= repeated_sum(a, c, n),
    decreases c - b,
{
    if b < c {
        lemma_repeated_sum_grows(a, b, (c - 1) as nat, n);
    }
}

/// Whether the number of `n` digits is a block of digits written `k` times.
pub fn is_written(i: u64, n: u32, k: u32) -> (out: bool)
    requires
        2 <= k <= n <= 19,
    ensures
        out == repeats(i as nat, n as nat, k as nat),
{
    if n % k != 0 {
        return false;
    }
    let m = n / k;
    proof {
        assert(m * k == n) by (nonlinear_arith)
            requires
                n % k == 0,
                m == n / k,
                k > 0,
        ;
        assert(1 <= m) by (nonlinear_arith)
            requires
                m * k == n,
                k <= n,
                k >= 2,
                m >= 0,
        ;
        assert(m <= n) by (nonlinear_arith)
            requires
                m * k == n,
                k >= 2,
                m >= 0,
        ;
    }
    let t = i / power_of_ten(n - m);
    let mut invalid = true;
    let mut j: u32 = 1;
    while j < k
        invariant
            1 <= j <= k,
            2 <= k <= n <= 19,
            1 <= m <= n,
            m * k == n,
            t == i as nat / tens((n - m) as nat),
            invalid == blocks_equal(i as nat, n as nat, m as nat, j as nat),
        decreases k - j,
    {
        proof {
            assert(m * j <= n && m * (j + 1) <= n && m * j >= 0) by (nonlinear_arith)
                requires
                    m * k == n,
                    1 <= j < k,
                    m >= 1,
            ;
        }
        let r = i % power_of_ten(n - m * j) / power_of_ten(n - m * (j + 1));
        if t != r {
            invalid = false;
        }
        j += 1;
    }
    invalid
}

/// Whether the number of `n` digits is a block of digits written twice or more often.
pub fn is_invalid(i: u64, n: u32) -> (out: bool)
    requires
        n <= 19,
    ensures
        out == is_repeated(i as nat, n as nat),
{
    let mut k: u32 = 2;
    while k <= n
        invariant
            2 <= k,
            k <= n + 1 || n < 2,
            n <= 19,
            !repeats_below(i as nat, n as nat, k as nat),
        decreases n + 1 - k,
    {
        if is_written(i, n, k) {
            proof {
                lemma_repeats_below(i as nat, n as nat, (k + 1) as nat, (n + 1) as nat);
            }
            return true;
        }
        k += 1;
    }
    proof {
        if n < 2 {
            lemma_repeats_none(i as nat, n as nat, (n + 1) as nat);
        }
    }
    false
}

/// A number that is a block written `k` times for some `k` below a bound is so below a larger
/// bound.
proof fn lemma_repeats_below(i: nat, n: nat, k: nat, upto: nat)
    requires
        k <= upto,
        repeats_below(i, n, k),
    ensures
        repeats_below(i, n, upto),
    decreases upto - k,
{
    if k < upto {
        lemma_repeats_below(i, n, k, (upto - 1) as nat);
    }
}

/// No number is a block written fewer than two times.
proof fn lemma_repeats_none(i: nat, n: nat, upto: nat)
    requires
        upto <= 2,
    ensures
        !repeats_below(i, n, upto),
{
}

/// The sum of the numbers from `a` to `b` that are a block of digits written twice or
/// more often, where the numbers have `n` digits; `None` if the sum does not fit.
pub fn count_invalid(a: u64, b: u64, n: u32) -> (out: Option<u64>)
    requires
        n <= 19,
    ensures
        match out {
            Some(sum) => sum == repeated_sum(a as nat, (b + 1) as nat, n as nat),
            None => repeated_sum(a as nat, (b + 1) as nat, n as nat) > u64::MAX,
        },
{
    let mut sum: u64 = 0;
    if a > b {
        return Some(0);
    }
    let mut i: u64 = a;
    loop
        invariant
            a <= i <= b,
            n <= 19,
            sum == repeated_sum(a as nat, i as nat, n as nat),
        decreases b - i,
    {
        if is_invalid(i, n) {
            match sum.checked_add(i) {
                Some(s) => {
                    sum = s;
                },
                None => {
                    proof {
                        lemma_repeated_sum_grows(a as nat, (i + 1) as nat, (b + 1) as nat, n as nat);
                    }
                    return None;
                },
            }
        }
        if i == b {
            return Some(sum);
        }
        i += 1;
    }
}

/// The sum, over the numbers of digits from `m` to before `upto`, of the numbers of
/// the range from `a` to `b` with that many digits that are a block written twice or
/// more often.
pub open spec fn range_sum(a: nat, m: nat, b: nat, n: nat, upto: nat) -> nat
    decreases upto,
{
    if upto <= m {
        0
    } else {
        let i = (upto - 1) as nat;
        range_sum(a, m, b, n, i) + repeated_sum(first_with(a, m, i), last_with(b, n, i) + 1, i)
    }
}

/// The sum over the first numbers of digits is no more than the sum over more.
pub proof fn lemma_range_sum_grows(a: nat, m: nat, b: nat, n: nat, k: nat, upto: nat)
    requires
        k <= upto,
    ensures
        range_sum(a, m, b, n, k) <= range_sum(a, m, b, n, upto),
    decreases upto - k,
{
    if k < upto {
        lemma_range_sum_grows(a, m, b, n, k, (upto - 1) as nat);
    }
}

/// The sum of the numbers of a range that are a block of digits written twice or more
/// often: the range runs from `a`, written with `m` digits, to `b`, written with `n`
/// digits. `None` if the sum does not fit.
pub fn sum_of_range(a: u64, m: u32, b: u64, n: u32) -> (out: Option<u64>)
    requires
        1 <= m,
        n <= 19,
    ensures
        match out {
            Some(sum) => sum == range_sum(a as nat, m as nat, b as nat, n as nat, (n + 1) as nat),
            None => range_sum(a as nat, m as nat, b as nat, n as nat, (n + 1) as nat) > u64::MAX,
        },
{
    let mut sum: u64 = 0;
    let mut i: u32 = m;
    while i <= n
        invariant
            1 <= m <= i,
            i <= n + 1 || n < m,
            n < m ==> i == m,
            n <= 19,
            sum == range_sum(a as nat, m as nat, b as nat, n as nat, i as nat),
        decreases n + 1 - i,
    {
        let start = if i == m { a } else { power_of_ten(i - 1) };
        let end = if i == n { b } else { power_of_ten(i) - 1 };
        let invalid = match count_invalid(start, end, i) {
            Some(v) => v,
            None => {
                proof {
                    lemma_range_sum_grows(
                        a as nat,
                        m as nat,
                        b as nat,
                        n as nat,
                        (i + 1) as nat,
                        (n + 1) as nat,
                    );
                }
                return None;
            },
        };
        match sum.checked_add(invalid) {
            Some(s) => {
                sum = s;
            },
            None => {
                proof {
                    lemma_range_sum_grows(
                        a as nat,
                        m as nat,
                        b as nat,
                        n as nat,
                        (i + 1) as nat,
                        (n + 1) as nat,
                    );
                }
                return None;
            },
        }
        i += 1;
    }
    proof {
        if n < m {
            assert(range_sum(a as nat, m as nat, b as nat, n as nat, (n + 1) as nat) == 0);
        }
    }
    Some(sum)
}

} // verus!
