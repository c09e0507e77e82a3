use vstd::prelude::*;
use crate::text::{number, parse_number};

verus! {

/// Every range starts no later than it ends, and each range ends before the next
/// starts.
pub open spec fn ordered(s: Seq<(u64, u64)>) -> bool {
    &&& forall|k: int| 0 <= k < s.len() ==> (#[trigger] s[k]).0 <= s[k].1
    &&& forall|i: int, j: int| 0 <= i < j < s.len() ==> (#[trigger] s[i]).1 < (#[trigger] s[j]).0
}

/// Some range holds the value.
pub open spec fn covers(s: Seq<(u64, u64)>, value: u64) -> bool {
    exists|k: int| 0 <= k < s.len() && (#[trigger] s[k]).0 <= value <= s[k].1
}

/// The number of ranges that end before `x`.
pub open spec fn ending_before(s: Seq<(u64, u64)>, x: u64) -> int
    decreases s.len(),
{
    if s.len() == 0 {
        0
    } else if s.last().1 < x {
        s.len() as int
    } else {
        ending_before(s.drop_last(), x)
    }
}

/// The number of ranges that start at or before `x`.
pub open spec fn starting_by(s: Seq<(u64, u64)>, x: u64) -> int
    decreases s.len(),
{
    if s.len() == 0 {
        0
    } else if s.last().0 <= x {
        s.len() as int
    } else {
        starting_by(s.drop_last(), x)
    }
}

/// The larger of two numbers.
pub open spec fn larger(a: u64, b: u64) -> u64 {
    if a >= b {
        a
    } else {
        b
    }
}

/// The lesser of two numbers.
pub open spec fn lesser(a: u64, b: u64) -> u64 {
    if a <= b {
        a
    } else {
        b
    }
}

/// The ranges after a range has been added: the ranges that it touches are replaced
/// by one range that holds them and it.
pub open spec fn with_range(s: Seq<(u64, u64)>, range: (u64, u64)) -> Seq<(u64, u64)> {
    let i = ending_before(s, range.0);
    let j = starting_by(s, range.1);
    if i >= j {
        s.take(i) + seq![range] + s.skip(i)
    } else {
        s.take(i) + seq![(lesser(range.0, s[i].0), larger(range.1, s[j - 1].1))] + s.skip(j)
    }
}

/// The ranges that end before a value are the first so many of the ranges.
pub proof fn lemma_ending_before(s: Seq<(u64, u64)>, x: u64)
    requires
        ordered(s),
    ensures
        0 <= ending_before(s, x) <= s.len(),
        forall|k: int| 0 <= k < ending_before(s, x) ==> (#[trigger] s[k]).1 < x,
        forall|k: int| ending_before(s, x) <= k < s.len() ==> (#[trigger] s[k]).1 >= x,
    decreases s.len(),
{
    if s.len() > 0 {
        if s.last().1 < x {
            assert forall|k: int| 0 <= k < s.len() implies (#[trigger] s[k]).1 < x by {
                if k < s.len() - 1 {
                    assert(s[k].1 < s[s.len() - 1].0);
                }
            }
        } else {
            let front = s.drop_last();
            assert(ordered(front)) by {
                assert forall|i: int, j: int| 0 <= i < j < front.len() implies (#[trigger] front[i]).1 < (
                #[trigger] front[j]).0 by {
                    assert(s[i].1 < s[j].0);
                }
                assert forall|k: int| 0 <= k < front.len() implies (#[trigger] front[k]).0
                    <= front[k].1 by {
                    assert(s[k].0 <= s[k].1);
                }
            }
            lemma_ending_before(front, x);
            assert forall|k: int| ending_before(s, x) <= k < s.len() implies (#[trigger] s[k]).1
                >= x by {
                if k < front.len() {
                    assert(front[k].1 >= x);
                }
            }
            assert forall|k: int| 0 <= k < ending_before(s, x) implies (#[trigger] s[k]).1 < x by {
                assert(front[k].1 < x);
            }
        }
    }
}

/// The ranges that start at or before a value are the first so many of the ranges.
pub proof fn lemma_starting_by(s: Seq<(u64, u64)>, x: u64)
    requires
        ordered(s),
    ensures
        0 <= starting_by(s, x) <= s.len(),
        forall|k: int| 0 <= k < starting_by(s, x) ==> (#[trigger] s[k]).0 <= x,
        forall|k: int| starting_by(s, x) <= k < s.len() ==> (#[trigger] s[k]).0 > x,
    decreases s.len(),
{
    if s.len() > 0 {
        if s.last().0 <= x {
            assert forall|k: int| 0 <= k < s.len() implies (#[trigger] s[k]).0 <= x by {
                if k < s.len() - 1 {
                    assert(s[k].1 < s[s.len() - 1].0);
                    assert(s[k].0 <= s[k].1);
                }
            }
        } else {
            let front = s.drop_last();
            assert(ordered(front)) by {
                assert forall|i: int, j: int| 0 <= i < j < front.len() implies (#[trigger] front[i]).1 < (
                #[trigger] front[j]).0 by {
                    assert(s[i].1 < s[j].0);
                }
                assert forall|k: int| 0 <= k < front.len() implies (#[trigger] front[k]).0
                    <= front[k].1 by {
                    assert(s[k].0 <= s[k].1);
                }
            }
            lemma_starting_by(front, x);
            assert forall|k: int| starting_by(s, x) <= k < s.len() implies (#[trigger] s[k]).0 > x by {
                if k < front.len() {
                    assert(front[k].0 > x);
                }
            }
            assert forall|k: int| 0 <= k < starting_by(s, x) implies (#[trigger] s[k]).0 <= x by {
                assert(front[k].0 <= x);
            }
        }
    }
}

/// The number of ranges that end before `x`, found by halving.
pub fn count_ending_before(intervals: &Vec<(u64, u64)>, x: u64) -> (out: usize)
    requires
        ordered(intervals@),
    ensures
        out == ending_before(intervals@, x),
{
    proof {
        lemma_ending_before(intervals@, x);
    }
    let mut left: usize = 0;
    let mut right: usize = intervals.len();
    while left < right
        invariant
            left <= right <= intervals@.len(),
            left <= ending_before(intervals@, x) <= right,
            forall|k: int| 0 <= k < ending_before(intervals@, x) ==> (#[trigger] intervals@[k]).1 < x,
            forall|k: int|
                ending_before(intervals@, x) <= k < intervals@.len() ==> (#[trigger] intervals@[k]).1
                    >= x,
        decreases right - left,
    {
        let mid = left + (right - left) / 2;
        if intervals[mid].1 < x {
            left = mid + 1;
        } else {
            right = mid;
        }
    }
    left
}

/// The number of ranges that start at or before `x`, found by halving.
pub fn count_starting_by(intervals: &Vec<(u64, u64)>, x: u64) -> (out: usize)
    requires
        ordered(intervals@),
    ensures
        out == starting_by(intervals@, x),
{
    proof {
        lemma_starting_by(intervals@, x);
    }
    let mut left: usize = 0;
    let mut right: usize = intervals.len();
    while left < right
        invariant
            left <= right <= intervals@.len(),
            left <= starting_by(intervals@, x) <= right,
            forall|k: int| 0 <= k < starting_by(intervals@, x) ==> (#[trigger] intervals@[k]).0 <= x,
            forall|k: int|
                starting_by(intervals@, x) <= k < intervals@.len() ==> (#[trigger] intervals@[k]).0
                    > x,
        decreases right - left,
    {
        let mid = left + (right - left) / 2;
        if intervals[mid].0 <= x {
            left = mid + 1;
        } else {
            right = mid;
        }
    }
    left
}

/// A range that is added touches the ranges from the first that does not end before
/// it to the last that does not start after it.
pub proof fn lemma_touched(s: Seq<(u64, u64)>, range: (u64, u64))
    requires
        ordered(s),
        range.0 <= range.1,
    ensures
        0 <= ending_before(s, range.0) <= starting_by(s, range.1) <= s.len(),
{
    let i = ending_before(s, range.0);
    let j = starting_by(s, range.1);
    lemma_ending_before(s, range.0);
    lemma_starting_by(s, range.1);
    if i > j {
        assert(s[j].0 > range.1);
        assert(s[j].1 < range.0);
        assert(s[j].0 <= s[j].1);
    }
}

/// The ranges are still in order after a range has been added.
pub proof fn lemma_with_range_ordered(s: Seq<(u64, u64)>, range: (u64, u64))
    requires
        ordered(s),
        range.0 <= range.1,
    ensures
        ordered(with_range(s, range)),
{
    let i = ending_before(s, range.0);
    let j = starting_by(s, range.1);
    let t = with_range(s, range);
    lemma_touched(s, range);
    lemma_ending_before(s, range.0);
    lemma_starting_by(s, range.1);
    assert(t.len() == i + 1 + (s.len() - j));
    assert forall|q: int| 0 <= q < t.len() implies (#[trigger] t[q]).0 <= t[q].1 by {
        if q < i {
            assert(t[q] == s[q]);
        } else if q > i {
            assert(t[q] == s[q - i - 1 + j]);
        } else if i < j {
            assert(s[i].0 <= s[i].1);
            assert(s[j - 1].0 <= s[j - 1].1);
            assert(i == j - 1 || s[i].1 < s[j - 1].0);
        }
    }
    assert forall|p: int, q: int| 0 <= p < q < t.len() implies (#[trigger] t[p]).1 < (
    #[trigger] t[q]).0 by {
        if p < i {
            assert(t[p] == s[p]);
            assert(s[p].1 < range.0);
        }
        if q > i {
            assert(t[q] == s[q - i - 1 + j]);
            assert(s[q - i - 1 + j].0 > range.1);
        }
        if p < i && q == i && i < j {
            assert(s[p].1 < s[i].0);
        }
        if p == i && i < j {
            assert(s[j - 1].1 < s[q - i - 1 + j].0);
        }
        if p < i && q > i {
            assert(s[p].1 < s[q - i - 1 + j].0);
        }
        if p > i {
            assert(t[p] == s[p - i - 1 + j]);
            assert(s[p - i - 1 + j].1 < s[q - i - 1 + j].0);
        }
        if q < i {
            assert(t[q] == s[q]);
            assert(s[p].1 < s[q].0);
        }
    }
}

/// After a range has been added, the ranges hold the values that they held before
/// and those of the range, and no others.
pub proof fn lemma_with_range_covers(s: Seq<(u64, u64)>, range: (u64, u64), v: u64)
    requires
        ordered(s),
        range.0 <= range.1,
    ensures
        covers(with_range(s, range), v) <==> covers(s, v) || range.0 <= v <= range.1,
{
    let i = ending_before(s, range.0);
    let j = starting_by(s, range.1);
    let t = with_range(s, range);
    lemma_touched(s, range);
    lemma_ending_before(s, range.0);
    lemma_starting_by(s, range.1);
    assert(t.len() == i + 1 + (s.len() - j));
    if covers(t, v) {
        let q = choose|q: int| 0 <= q < t.len() && (#[trigger] t[q]).0 <= v <= t[q].1;
        if q < i {
            assert(t[q] == s[q]);
        } else if q > i {
            assert(t[q] == s[q - i - 1 + j]);
        } else if i < j && !(range.0 <= v <= range.1) {
            if v < range.0 {
                assert(s[i].0 <= v);
                assert(s[i].1 >= range.0);
                assert(s[i].0 <= v <= s[i].1);
            } else {
                assert(v <= s[j - 1].1);
                assert(s[j - 1].0 <= range.1);
                assert(s[j - 1].0 <= v <= s[j - 1].1);
            }
        }
    }
    if range.0 <= v <= range.1 {
        assert(t[i].0 <= v <= t[i].1);
    }
    if covers(s, v) {
        let q = choose|q: int| 0 <= q < s.len() && (#[trigger] s[q]).0 <= v <= s[q].1;
        if q < i {
            assert(t[q] == s[q]);
            assert(t[q].0 <= v <= t[q].1);
        } else if q >= j {
            assert(t[q - j + i + 1] == s[q]);
            assert(t[q - j + i + 1].0 <= v <= t[q - j + i + 1].1);
        } else {
            assert(s[i].0 <= s[q].0) by {
                if i < q {
                    assert(s[i].1 < s[q].0);
                    assert(s[i].0 <= s[i].1);
                }
            }
            assert(s[q].1 <= s[j - 1].1) by {
                if q < j - 1 {
                    assert(s[q].1 < s[j - 1].0);
                    assert(s[j - 1].0 <= s[j - 1].1);
                }
            }
            assert(t[i].0 <= v <= t[i].1);
        }
    }
}

/// Adds a range to the ranges: the ranges that it touches are replaced by one range
/// that holds them and it.
pub fn add_range(intervals: &mut Vec<(u64, u64)>, range: &(u64, u64))
    requires
        ordered(old(intervals)@),
        range.0 <= range.1,
    ensures
        final(intervals)@ == with_range(old(intervals)@, *range),
        ordered(final(intervals)@),
        forall|v: u64|
            #[trigger] covers(final(intervals)@, v) == (covers(old(intervals)@, v) || range.0 <= v
                <= range.1),
{
    let ghost s = intervals@;
    let i = count_ending_before(intervals, range.0);
    let j = count_starting_by(intervals, range.1);
    proof {
        lemma_touched(s, *range);
    }
    let merged = if i == j {
        *range
    } else {
        let first = intervals[i].0;
        let last = intervals[j - 1].1;
        (if range.0 <= first { range.0 } else { first }, if range.1 >= last { range.1 } else { last })
    };
    let mut out: Vec<(u64, u64)> = Vec::new();
    let mut k: usize = 0;
    while k < i
        invariant
            k <= i <= s.len(),
            intervals@ == s,
            out@ == s.take(k as int),
        decreases i - k,
    {
        out.push(intervals[k]);
        k += 1;
        proof {
            assert(out@ =~= s.take(k as int));
        }
    }
    out.push(merged);
    let mut k: usize = j;
    while k < intervals.len()
        invariant
            i <= j <= k <= s.len(),
            intervals@ == s,
            out@ == s.take(i as int) + seq![merged] + s.subrange(j as int, k as int),
        decreases s.len() - k,
    {
        out.push(intervals[k]);
        k += 1;
        proof {
            assert(out@ =~= s.take(i as int) + seq![merged] + s.subrange(j as int, k as int));
        }
    }
    proof {
        assert(s.subrange(j as int, s.len() as int) =~= s.skip(j as int));
        assert(out@ == with_range(s, *range));
        lemma_with_range_ordered(s, *range);
    }
    *intervals = out;
    proof {
        assert forall|v: u64| #[trigger]
            covers(intervals@, v) == (covers(s, v) || range.0 <= v <= range.1) by {
            lemma_with_range_covers(s, *range, v);
        }
    }
}

/// Whether some range holds the value, found by halving.
pub fn contains(intervals: &Vec<(u64, u64)>, value: u64) -> (out: bool)
    requires
        ordered(intervals@),
    ensures
        out == covers(intervals@, value),
{
    let i = count_ending_before(intervals, value);
    proof {
        lemma_ending_before(intervals@, value);
        if i < intervals@.len() && intervals@[i as int].0 <= value {
            assert(intervals@[i as int].0 <= value <= intervals@[i as int].1);
        }
        if covers(intervals@, value) {
            let k = choose|k: int|
                0 <= k < intervals@.len() && (#[trigger] intervals@[k]).0 <= value <= intervals@[k].1;
            assert(k >= i);
            if k > i {
                assert(intervals@[i as int].1 < intervals@[k].0);
            }
        }
    }
    i < intervals.len() && intervals[i].0 <= value
}

/// Why a line gives no range.
#[derive(Debug, PartialEq, Eq, Structural)]
pub enum ParseRangeError {
    /// The line holds no hyphen.
    Format,
    /// What stands before the first hyphen is no number.
    Start,
    /// What stands behind the first hyphen is no number.
    End,
}

/// The place of the first hyphen, or the length of the text if it holds none.
pub open spec fn first_hyphen(s: Seq<u8>) -> int
    decreases s.len(),
{
    if s.len() == 0 {
        0
    } else if s[0] == 45 {
        0
    } else {
        1 + first_hyphen(s.skip(1))
    }
}

/// The range that a line writes: two numbers with a hyphen between them.
pub open spec fn range_of(s: Seq<u8>) -> Result<(u64, u64), ParseRangeError> {
    let at = first_hyphen(s);
    if at >= s.len() {
        Err(ParseRangeError::Format)
    } else {
        match number(s.take(at), u64::MAX as nat) {
            None => Err(ParseRangeError::Start),
            Some(a) => match number(s.skip(at + 1), u64::MAX as nat) {
                None => Err(ParseRangeError::End),
                Some(b) => Ok((a as u64, b as u64)),
            },
        }
    }
}

/// The place of the first hyphen, or the length of the line if it holds none.
pub fn find_hyphen(line: &Vec<u8>) -> (out: usize)
    ensures
        out == first_hyphen(line@),
        out <= line@.len(),
{
    let mut i: usize = 0;
    proof {
        assert(line@.skip(0) =~= line@);
    }
    while i < line.len() && line[i] != 45
        invariant
            i <= line@.len(),
            first_hyphen(line@) == i + first_hyphen(line@.skip(i as int)),
        decreases line@.len() - i,
    {
        proof {
            assert(line@.skip(i as int).skip(1) =~= line@.skip(i + 1));
        }
        i += 1;
    }
    i
}

/// Reads a range: two numbers with a hyphen between them.
pub fn parse_range(line: &Vec<u8>) -> (out: Result<(u64, u64), ParseRangeError>)
    ensures
        out == range_of(line@),
{
    let at = find_hyphen(line);
    if at >= line.len() {
        return Err(ParseRangeError::Format);
    }
    let mut a: Vec<u8> = Vec::new();
    let mut b: Vec<u8> = Vec::new();
    let mut i: usize = 0;
    while i < at
        invariant
            i <= at < line@.len(),
            a@ == line@.take(i as int),
        decreases at - i,
    {
        a.push(line[i]);
        i += 1;
        proof {
            assert(a@ =~= line@.take(i as int));
        }
    }
    let mut i: usize = at + 1;
    while i < line.len()
        invariant
            at < i <= line@.len(),
            b@ == line@.subrange(at + 1, i as int),
        decreases line@.len() - i,
    {
        b.push(line[i]);
        i += 1;
        proof {
            assert(b@ =~= line@.subrange(at + 1, i as int));
        }
    }
    proof {
        assert(line@.subrange(at + 1, line@.len() as int) =~= line@.skip(at + 1));
    }
    match parse_number(&a, u64::MAX) {
        None => Err(ParseRangeError::Start),
        Some(start) => match parse_number(&b, u64::MAX) {
            None => Err(ParseRangeError::End),
            Some(end) => Ok((start, end)),
        },
    }
}

/// The number of values that the ranges hold.
pub open spec fn extent(s: Seq<(u64, u64)>) -> int
    decreases s.len(),
{
    if s.len() == 0 {
        0
    } else {
        extent(s.drop_last()) + (s.last().1 - s.last().0 + 1)
    }
}

/// The number of the values that some range holds.
pub open spec fn held(s: Seq<(u64, u64)>, values: Seq<u64>) -> int
    decreases values.len(),
{
    if values.len() == 0 {
        0
    } else {
        held(s, values.drop_last()) + if covers(s, values.last()) {
            1int
        } else {
            0int
        }
    }
}

/// Counts the values that some range holds.
pub fn count_fresh(intervals: &Vec<(u64, u64)>, values: &Vec<u64>) -> (out: usize)
    requires
        ordered(intervals@),
    ensures
        out == held(intervals@, values@),
{
    let mut count: usize = 0;
    let mut i: usize = 0;
    while i < values.len()
        invariant
            i <= values@.len(),
            ordered(intervals@),
            count <= i,
            count == held(intervals@, values@.take(i as int)),
        decreases values@.len() - i,
    {
        proof {
            assert(values@.take(i + 1).drop_last() =~= values@.take(i as int));
        }
        if contains(intervals, values[i]) {
            count += 1;
        }
        i += 1;
    }
    proof {
        assert(values@.take(i as int) =~= values@);
    }
    count
}

/// The number of values that the ranges hold; `None` if it does not fit.
pub fn total_extent(intervals: &Vec<(u64, u64)>) -> (out: Option<u64>)
    requires
        ordered(intervals@),
    ensures
        match out {
            Some(n) => n == extent(intervals@),
            None => extent(intervals@) > u64::MAX,
        },
{
    let mut sum: u64 = 0;
    let mut i: usize = 0;
    while i < intervals.len()
        invariant
            i <= intervals@.len(),
            ordered(intervals@),
            sum == extent(intervals@.take(i as int)),
        decreases intervals@.len() - i,
    {
        proof {
            assert(intervals@.take(i + 1).drop_last() =~= intervals@.take(i as int));
            lemma_extent_grows(intervals@, i + 1);
            assert(intervals@[i as int].0 <= intervals@[i as int].1);
        }
        let width = intervals[i].1 - intervals[i].0;
        let next = match sum.checked_add(width) {
            Some(s) => s.checked_add(1),
            None => None,
        };
        match next {
            Some(s) => {
                sum = s;
            },
            None => {
                return None;
            },
        }
        i += 1;
    }
    proof {
        assert(intervals@.take(i as int) =~= intervals@);
    }
    Some(sum)
}

/// The first ranges hold no more values than all.
pub proof fn lemma_extent_grows(s: Seq<(u64, u64)>, n: int)
    requires
        0 <= n <= s.len(),
        forall|k: int| 0 <= k < s.len() ==> (#[trigger] s[k]).0 <= s[k].1,
    ensures
        0 <= extent(s.take(n)) <= extent(s),
    decreases s.len() - n,
{
    if n < s.len() {
        assert(s.take(n + 1).drop_last() =~= s.take(n));
        assert(s[n].0 <= s[n].1);
        lemma_extent_grows(s, n + 1);
        lemma_extent_floor(s.take(n));
    } else {
        assert(s.take(n) =~= s);
        lemma_extent_floor(s);
    }
}

/// Ranges hold no negative number of values.
pub proof fn lemma_extent_floor(s: Seq<(u64, u64)>)
    requires
        forall|k: int| 0 <= k < s.len() ==> (#[trigger] s[k]).0 <= s[k].1,
    ensures
        0 <= extent(s),
    decreases s.len(),
{
    if s.len() > 0 {
        assert(s[s.len() - 1].0 <= s[s.len() - 1].1);
        assert forall|k: int| 0 <= k < s.drop_last().len() implies (#[trigger] s.drop_last()[k]).0
            <= s.drop_last()[k].1 by {
            assert(s[k].0 <= s[k].1);
        }
        lemma_extent_floor(s.drop_last());
    }
}


/// Why the lines give no ranges and numbers.
#[derive(Debug, PartialEq, Eq, Structural)]
pub enum ReadError {
    /// A line of the first part is no range.
    Range(ParseRangeError),
    /// A range starts behind its end.
    Backwards,
    /// A line of the second part is no number.
    Number,
}

/// What has been read: the ranges, the numbers, and whether ranges are still read.
pub struct Ledger {
    pub intervals: Seq<(u64, u64)>,
    pub numbers: Seq<u64>,
    pub ranges: bool,
}

/// What has been read after one more line: an empty line ends the ranges; before it
/// each line is a range, behind it each line that is not empty is a number.
pub open spec fn after_line(ledger: Ledger, line: Seq<u8>) -> Result<Ledger, ReadError> {
    if line.len() == 0 {
        Ok(Ledger { ranges: false, ..ledger })
    } else if ledger.ranges {
        match range_of(line) {
            Err(e) => Err(ReadError::Range(e)),
            Ok(range) => if range.0 <= range.1 {
                Ok(Ledger { intervals: with_range(ledger.intervals, range), ..ledger })
            } else {
                Err(ReadError::Backwards)
            },
        }
    } else {
        match number(line, u64::MAX as nat) {
            Some(n) => Ok(Ledger { numbers: ledger.numbers.push(n as u64), ..ledger }),
            None => Err(ReadError::Number),
        }
    }
}

/// What has been read after the first `n` lines, or the first failure.
pub open spec fn after_lines(lines: Seq<Seq<u8>>, n: nat) -> Result<Ledger, ReadError>
    decreases n,
{
    if n == 0 {
        Ok(Ledger { intervals: Seq::empty(), numbers: Seq::empty(), ranges: true })
    } else {
        match after_lines(lines, (n - 1) as nat) {
            Err(e) => Err(e),
            Ok(ledger) => after_line(ledger, lines[n - 1]),
        }
    }
}

/// A failure in the first lines is the failure of all lines.
pub proof fn lemma_after_lines_err(lines: Seq<Seq<u8>>, n: nat, m: nat)
    requires
        n <= m,
        after_lines(lines, n) is Err,
    ensures
        after_lines(lines, m) == after_lines(lines, n),
    decreases m - n,
{
    if n < m {
        lemma_after_lines_err(lines, n, (m - 1) as nat);
    }
}

/// Reads the ranges and the numbers of the lines: ranges up to the first empty line,
/// numbers behind it.
pub fn read_data(lines: &Vec<Vec<u8>>) -> (out: Result<(Vec<(u64, u64)>, Vec<u64>), ReadError>)
    ensures
        match out {
            Ok(data) => after_lines(crate::text::views(lines@), lines@.len()) is Ok && after_lines(
                crate::text::views(lines@),
                lines@.len(),
            )->Ok_0.intervals == data.0@ && after_lines(
                crate::text::views(lines@),
                lines@.len(),
            )->Ok_0.numbers == data.1@ && ordered(data.0@),
            Err(e) => after_lines(crate::text::views(lines@), lines@.len()) == Err::<
                Ledger,
                ReadError,
            >(e),
        },
{
    let ghost all = crate::text::views(lines@);
    let mut intervals: Vec<(u64, u64)> = Vec::new();
    let mut numbers: Vec<u64> = Vec::new();
    let mut interval_mode = true;
    let mut i: usize = 0;
    while i < lines.len()
        invariant
            i <= lines@.len(),
            all == crate::text::views(lines@),
            ordered(intervals@),
            after_lines(all, i as nat) == Ok::<Ledger, ReadError>(
                Ledger { intervals: intervals@, numbers: numbers@, ranges: interval_mode },
            ),
        decreases lines@.len() - i,
    {
        let line = &lines[i];
        proof {
            assert(all[i as int] == line@);
        }
        if line.len() == 0 {
            interval_mode = false;
        } else if interval_mode {
            match parse_range(line) {
                Err(e) => {
                    proof {
                        lemma_after_lines_err(all, (i + 1) as nat, lines@.len());
                    }
                    return Err(ReadError::Range(e));
                },
                Ok(range) => {
                    if range.0 > range.1 {
                        proof {
                            lemma_after_lines_err(all, (i + 1) as nat, lines@.len());
                        }
                        return Err(ReadError::Backwards);
                    }
                    add_range(&mut intervals, &range);
                },
            }
        } else {
            match parse_number(line, u64::MAX) {
                Some(n) => {
                    numbers.push(n);
                },
                None => {
                    proof {
                        lemma_after_lines_err(all, (i + 1) as nat, lines@.len());
                    }
                    return Err(ReadError::Number);
                },
            }
        }
        i += 1;
    }
    Ok((intervals, numbers))
}


/// The first empty line, or the number of lines if none is empty.
pub open spec fn first_empty(lines: Seq<Seq<u8>>, n: nat) -> int
    decreases n,
{
    if n == 0 {
        0
    } else if first_empty(lines, (n - 1) as nat) < n - 1 || lines[n - 1].len() == 0 {
        first_empty(lines, (n - 1) as nat)
    } else {
        n as int
    }
}

/// The lines before the first empty line.
pub fn until_empty(lines: &Vec<Vec<u8>>) -> (out: Vec<Vec<u8>>)
    ensures
        crate::text::views(out@) == crate::text::views(lines@).take(
            first_empty(crate::text::views(lines@), lines@.len()),
        ),
        0 <= first_empty(crate::text::views(lines@), lines@.len()) <= lines@.len(),
{
    let ghost all = crate::text::views(lines@);
    let mut out: Vec<Vec<u8>> = Vec::new();
    let mut i: usize = 0;
    proof {
        assert(crate::text::views(out@) =~= all.take(0));
    }
    while i < lines.len() && lines[i].len() != 0
        invariant
            i <= lines@.len(),
            all == crate::text::views(lines@),
            first_empty(all, i as nat) == i,
            crate::text::views(out@) == all.take(i as int),
        decreases lines@.len() - i,
    {
        proof {
            assert(all[i as int] == lines@[i as int]@);
        }
        let row = lines[i].clone();
        let ghost before = crate::text::views(out@);
        out.push(row);
        i += 1;
        proof {
            assert(crate::text::views(out@) =~= before.push(row@));
            assert(all.take(i as int) =~= all.take(i - 1).push(all[i - 1]));
        }
    }
    proof {
        if i < lines@.len() {
            assert(all[i as int] == lines@[i as int]@);
            lemma_first_empty(all, (i + 1) as nat, lines@.len());
        }
    }
    out
}

/// Once an empty line has been found, it stays the first.
pub proof fn lemma_first_empty(lines: Seq<Seq<u8>>, n: nat, m: nat)
    requires
        n <= m,
        first_empty(lines, n) < n,
    ensures
        first_empty(lines, m) == first_empty(lines, n),
    decreases m - n,
{
    if n < m {
        lemma_first_empty(lines, n, (m - 1) as nat);
    }
}

} // verus!
