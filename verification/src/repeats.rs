use vstd::prelude::*;
use crate::battery::tens;
use crate::text::{number, parse_number, pieces, split, trim, trimmed, views};

verus! {

/// The number of `n` digits is its upper half of digits written twice.
pub open spec fn is_doubled(i: nat, n: nat) -> bool {
    i / tens(n / 2) == i % tens(n / 2)
}

/// The sum of the numbers from `a` to before `b` that are a half written twice.
pub open spec fn doubled_sum(a: nat, b: nat, n: nat) -> nat
    decreases b - a,
{
    if b <= a {
        0
    } else {
        doubled_sum(a, (b - 1) as nat, n) + if is_doubled((b - 1) as nat, n) {
            (b - 1) as nat
        } else {
            0
        }
    }
}

/// Powers of ten grow with the exponent, from one on.
pub proof fn lemma_tens_grow(e: nat, f: nat)
    requires
        e <= f,
    ensures
        1 <= tens(e) <= tens(f),
    decreases f,
{
    if e < f {
        lemma_tens_grow(e, (f - 1) as nat);
    } else if e > 0 {
        lemma_tens_grow((e - 1) as nat, (e - 1) as nat);
    }
}

/// The value of ten to the power of 19.
pub proof fn lemma_tens_19()
    ensures
        tens(19) == 10_000_000_000_000_000_000,
{
    reveal_with_fuel(tens, 20);
}

/// Ten to the power of `e`.
pub fn power_of_ten(e: u32) -> (out: u64)
    requires
        e <= 19,
    ensures
        out == tens(e as nat),
        out >= 1,
{
    let mut out: u64 = 1;
    let mut i: u32 = 0;
    while i < e
        invariant
            i <= e <= 19,
            out == tens(i as nat),
            out >= 1,
        decreases e - i,
    {
        proof {
            lemma_tens_grow((i + 1) as nat, 19);
            lemma_tens_19();
        }
        out = out * 10;
        i += 1;
    }
    out
}

/// The sum up to a number is no more than the sum up to a larger number.
pub proof fn lemma_doubled_sum_grows(a: nat, b: nat, c: nat, n: nat)
    requires
        b <= c,
    ensures
        doubled_sum(a, b, n) <= doubled_sum(a, c, n),
    decreases c - b,
{
    if b < c {
        lemma_doubled_sum_grows(a, b, (c - 1) as nat, n);
    }
}

/// The sum of the numbers from `a` to `b` that are a half written twice, where the
/// numbers have `n` digits; `None` if the sum does not fit.
pub fn count_invalid(a: u64, b: u64, n: u32) -> (out: Option<u64>)
    requires
        n <= 39,
    ensures
        match out {
            Some(sum) => sum == doubled_sum(a as nat, (b + 1) as nat, n as nat),
            None => doubled_sum(a as nat, (b + 1) as nat, n as nat) > u64::MAX,
        },
{
    let m = n / 2;
    let unit = power_of_ten(m);
    let mut sum: u64 = 0;
    if a > b {
        return Some(0);
    }
    let mut i: u64 = a;
    loop
        invariant
            a <= i <= b,
            unit == tens((n / 2) as nat),
            unit >= 1,
            sum == doubled_sum(a as nat, i as nat, n as nat),
        decreases b - i,
    {
        let d = i / unit;
        let e = i % unit;
        if d == e {
            match sum.checked_add(i) {
                Some(s) => {
                    sum = s;
                },
                None => {
                    proof {
                        lemma_doubled_sum_grows(a as nat, (i + 1) as nat, (b + 1) as nat, n as nat);
                    }
                    return None;
                },
            }
        }
        if i == b {
            return Some(sum);
        }
        i += 1;
    }
}

/// The first number of `i` digits of the range that starts at `a`, a number of `m`
/// digits.
pub open spec fn first_with(a: nat, m: nat, i: nat) -> nat {
    if i == m {
        a
    } else {
        tens((i - 1) as nat)
    }
}

/// The last number of `i` digits of the range that ends at `b`, a number of `n`
/// digits.
pub open spec fn last_with(b: nat, n: nat, i: nat) -> nat {
    if i == n {
        b
    } else {
        (tens(i) - 1) as nat
    }
}

/// The sum, over the even numbers of digits from `m` to before `upto`, of the numbers
/// of the range from `a` to `b` with that many digits that are a half written twice.
pub open spec fn range_sum(a: nat, m: nat, b: nat, n: nat, upto: nat) -> nat
    decreases upto,
{
    if upto <= m {
        0
    } else {
        let i = (upto - 1) as nat;
        range_sum(a, m, b, n, i) + if i % 2 == 0 {
            doubled_sum(first_with(a, m, i), last_with(b, n, i) + 1, i)
        } else {
            0
        }
    }
}

/// The sum over the first numbers of digits is no more than the sum over more.
pub proof fn lemma_range_sum_grows(a: nat, m: nat, b: nat, n: nat, k: nat, upto: nat)
    requires
        k <= upto,
    ensures
        range_sum(a, m, b, n, k) <= range_sum(a, m, b, n, upto),
    decreases upto - k,
{
    if k < upto {
        lemma_range_sum_grows(a, m, b, n, k, (upto - 1) as nat);
    }
}

/// The sum of the numbers of a range that are a half written twice: the range runs
/// from `a`, written with `m` digits, to `b`, written with `n` digits. `None` if the
/// sum does not fit.
pub fn sum_of_range(a: u64, m: u32, b: u64, n: u32) -> (out: Option<u64>)
    requires
        1 <= m,
        n <= 19,
    ensures
        match out {
            Some(sum) => sum == range_sum(a as nat, m as nat, b as nat, n as nat, (n + 1) as nat),
            None => range_sum(a as nat, m as nat, b as nat, n as nat, (n + 1) as nat) > u64::MAX,
        },
{
    let mut sum: u64 = 0;
    let mut i: u32 = m;
    while i <= n
        invariant
            1 <= m <= i,
            i <= n + 1 || n < m,
            n < m ==> i == m,
            n <= 19,
            sum == range_sum(a as nat, m as nat, b as nat, n as nat, i as nat),
        decreases n + 1 - i,
    {
        if i % 2 == 0 {
            let start = if i == m { a } else { power_of_ten(i - 1) };
            let end = if i == n { b } else { power_of_ten(i) - 1 };
            let invalid = match count_invalid(start, end, i) {
                Some(v) => v,
                None => {
                    proof {
                        lemma_range_sum_grows(
                            a as nat,
                            m as nat,
                            b as nat,
                            n as nat,
                            (i + 1) as nat,
                            (n + 1) as nat,
                        );
                    }
                    return None;
                },
            };
            match sum.checked_add(invalid) {
                Some(s) => {
                    sum = s;
                },
                None => {
                    proof {
                        lemma_range_sum_grows(
                            a as nat,
                            m as nat,
                            b as nat,
                            n as nat,
                            (i + 1) as nat,
                            (n + 1) as nat,
                        );
                    }
                    return None;
                },
            }
        }
        i += 1;
    }
    proof {
        if n < m {
            assert(range_sum(a as nat, m as nat, b as nat, n as nat, (n + 1) as nat) == 0);
        }
    }
    Some(sum)
}


/// Why a text gives no ranges.
#[derive(Debug, PartialEq, Eq, Structural)]
pub enum ParseRangesError {
    /// A range holds no hyphen.
    Format,
    /// What stands before the first hyphen of a range is no number.
    Start,
    /// What stands behind the first hyphen of a range, up to the next, is no number.
    End,
    /// A number of a range has more than 19 digits.
    Length,
}

/// A range of numbers: its first number and the digits it is written with, and its
/// last number and the digits it is written with.
#[derive(Clone, Copy, Debug, PartialEq, Eq, Structural)]
pub struct Range {
    pub first: u64,
    pub first_digits: u32,
    pub last: u64,
    pub last_digits: u32,
}

/// The range that a text writes: two numbers with a hyphen between them.
pub open spec fn range_of(part: Seq<u8>) -> Result<Range, ParseRangesError> {
    let parts = pieces(part, 45);
    if parts.len() < 2 {
        Err(ParseRangesError::Format)
    } else {
        match number(parts[0], u64::MAX as nat) {
            None => Err(ParseRangesError::Start),
            Some(a) => match number(parts[1], u64::MAX as nat) {
                None => Err(ParseRangesError::End),
                Some(b) => if parts[0].len() > 19 || parts[1].len() > 19 {
                    Err(ParseRangesError::Length)
                } else {
                    Ok(
                        Range {
                            first: a as u64,
                            first_digits: parts[0].len() as u32,
                            last: b as u64,
                            last_digits: parts[1].len() as u32,
                        },
                    )
                },
            },
        }
    }
}

/// Reads a range: two numbers with a hyphen between them.
pub fn parse_range(part: &Vec<u8>) -> (out: Result<Range, ParseRangesError>)
    ensures
        out == range_of(part@),
        out is Ok ==> 1 <= out->Ok_0.first_digits && out->Ok_0.last_digits <= 19,
{
    let parts = split(part, 45);
    if parts.len() < 2 {
        return Err(ParseRangesError::Format);
    }
    proof {
        assert(views(parts@)[0] == parts@[0]@);
        assert(views(parts@)[1] == parts@[1]@);
    }
    let first = match parse_number(&parts[0], u64::MAX) {
        None => {
            return Err(ParseRangesError::Start);
        },
        Some(a) => a,
    };
    let last = match parse_number(&parts[1], u64::MAX) {
        None => {
            return Err(ParseRangesError::End);
        },
        Some(b) => b,
    };
    if parts[0].len() > 19 || parts[1].len() > 19 {
        return Err(ParseRangesError::Length);
    }
    proof {
        assert(crate::text::unsigned(parts@[0]@).len() > 0);
    }
    Ok(
        Range {
            first,
            first_digits: parts[0].len() as u32,
            last,
            last_digits: parts[1].len() as u32,
        },
    )
}

/// The ranges that the parts write, if each writes one.
pub open spec fn ranges_of(parts: Seq<Seq<u8>>, n: nat) -> Result<Seq<Range>, ParseRangesError>
    decreases n,
{
    if n == 0 {
        Ok(Seq::empty())
    } else {
        match ranges_of(parts, (n - 1) as nat) {
            Err(e) => Err(e),
            Ok(ranges) => match range_of(parts[n - 1]) {
                Err(e) => Err(e),
                Ok(range) => Ok(ranges.push(range)),
            },
        }
    }
}

proof fn lemma_ranges_err(parts: Seq<Seq<u8>>, n: nat, m: nat)
    requires
        n <= m,
        ranges_of(parts, n) is Err,
    ensures
        ranges_of(parts, m) == ranges_of(parts, n),
    decreases m - n,
{
    if n < m {
        lemma_ranges_err(parts, n, (m - 1) as nat);
    }
}

/// Reads the ranges of a text: ranges with commas between them, and white space
/// around them all.
pub fn parse_ranges(text: &Vec<u8>) -> (out: Result<Vec<Range>, ParseRangesError>)
    ensures
        match out {
            Ok(ranges) => ranges_of(pieces(trimmed(text@), 44), pieces(trimmed(text@), 44).len())
                == Ok::<Seq<Range>, ParseRangesError>(ranges@) && forall|i: int|
                0 <= i < ranges@.len() ==> 1 <= (#[trigger] ranges@[i]).first_digits
                    && ranges@[i].last_digits <= 19,
            Err(e) => ranges_of(pieces(trimmed(text@), 44), pieces(trimmed(text@), 44).len())
                == Err::<Seq<Range>, ParseRangesError>(e),
        },
{
    let inner = trim(text);
    let parts = split(&inner, 44);
    let ghost all = views(parts@);
    let mut ranges: Vec<Range> = Vec::new();
    let mut i: usize = 0;
    while i < parts.len()
        invariant
            i <= parts@.len(),
            all == views(parts@),
            all == pieces(trimmed(text@), 44),
            ranges_of(all, i as nat) == Ok::<Seq<Range>, ParseRangesError>(ranges@),
            forall|k: int|
                0 <= k < ranges@.len() ==> 1 <= (#[trigger] ranges@[k]).first_digits
                    && ranges@[k].last_digits <= 19,
        decreases parts@.len() - i,
    {
        proof {
            assert(all[i as int] == parts@[i as int]@);
        }
        match parse_range(&parts[i]) {
            Err(e) => {
                proof {
                    lemma_ranges_err(all, (i + 1) as nat, parts@.len());
                }
                return Err(e);
            },
            Ok(range) => {
                ranges.push(range);
            },
        }
        i += 1;
    }
    Ok(ranges)
}

} // verus!
