use vstd::prelude::*;

verus! {

/// The value of a decimal digit.
pub open spec fn digit(c: char) -> nat {
    (c as nat - '0' as nat) as nat
}

/// The character is one of `0` to `9`.
pub open spec fn is_digit(c: char) -> bool {
    '0' <= c <= '9'
}

/// The value of a decimal digit.
pub fn digit_of(c: char) -> (out: u32)
    requires
        is_digit(c),
    ensures
        out == digit(c),
        out <= 9,
{
    c as u32 - '0' as u32
}

/// The first place of the largest digit among `length` characters from `offset` on,
/// and that digit.
pub fn find_max(chars: &Vec<char>, offset: usize, length: usize) -> (out: (usize, u32))
    requires
        offset < chars@.len(),
        offset + length <= chars@.len(),
        forall|i: int| offset <= i < offset + length || i == offset ==> is_digit(#[trigger] chars@[i]),
    ensures
        offset <= out.0 < chars@.len(),
        out.0 < offset + length || out.0 == offset,
        out.1 == digit(chars@[out.0 as int]),
        forall|i: int| offset <= i < offset + length ==> digit(#[trigger] chars@[i]) <= out.1,
        forall|i: int| offset <= i < out.0 ==> digit(#[trigger] chars@[i]) < out.1,
{
    let mut max = digit_of(chars[offset]);
    let mut index = offset;
    let size = chars.len();
    let end = offset + length;
    let mut i: usize = offset;
    while i < end
        invariant
            end == offset + length,
            offset <= i <= offset + length || (length == 0 && i == offset),
            offset + length <= chars@.len(),
            offset < chars@.len(),
            forall|i: int|
                offset <= i < offset + length || i == offset ==> is_digit(#[trigger] chars@[i]),
            offset <= index < chars@.len(),
            index < offset + length || index == offset,
            index <= i,
            max == digit(chars@[index as int]),
            forall|j: int| offset <= j < i ==> digit(#[trigger] chars@[j]) <= max,
            forall|j: int| offset <= j < index ==> digit(#[trigger] chars@[j]) < max,
        decreases offset + length - i,
    {
        let d = digit_of(chars[i]);
        if d > max {
            index = i;
            max = d;
        }
        i += 1;
    }
    (index, max)
}

/// The number that the largest digits make: `count` digits are picked from left to
/// right, each the first largest that leaves enough digits behind it for the rest.
pub open spec fn picked(chars: Seq<char>, offset: int, count: nat) -> nat
    decreases count,
{
    if count == 0 || offset >= chars.len() {
        0
    } else {
        let at = first_largest(chars, offset, chars.len() - (count - 1));
        digit(chars[at]) * tens((count - 1) as nat) + picked(chars, at + 1, (count - 1) as nat)
    }
}

/// Ten to the power of `e`.
pub open spec fn tens(e: nat) -> nat
    decreases e,
{
    if e == 0 {
        1
    } else {
        10 * tens((e - 1) as nat)
    }
}

/// The first place of the largest digit from `from` to before `to`.
pub open spec fn first_largest(chars: Seq<char>, from: int, to: int) -> int
    decreases to - from,
{
    if to <= from + 1 {
        from
    } else {
        let before = first_largest(chars, from, to - 1);
        if digit(chars[to - 1]) > digit(chars[before]) {
            to - 1
        } else {
            before
        }
    }
}

/// The place that `find_max` returns is the first place of the largest digit.
pub proof fn lemma_first_largest(chars: Seq<char>, from: int, to: int, at: int)
    requires
        0 <= from <= at < chars.len(),
        to <= chars.len(),
        at < to || at == from,
        forall|i: int| from <= i < to ==> digit(#[trigger] chars[i]) <= digit(chars[at]),
        forall|i: int| from <= i < at ==> digit(#[trigger] chars[i]) < digit(chars[at]),
    ensures
        first_largest(chars, from, to) == at,
    decreases to - from,
{
    if to > from + 1 {
        if at == to - 1 {
            lemma_first_largest_range(chars, from, to - 1);
        } else {
            lemma_first_largest(chars, from, to - 1, at);
        }
    }
}

/// The first place of the largest digit lies within the stretch it is sought in.
pub proof fn lemma_first_largest_range(chars: Seq<char>, from: int, to: int)
    ensures
        from <= first_largest(chars, from, to),
        first_largest(chars, from, to) < to || first_largest(chars, from, to) == from,
    decreases to - from,
{
    if to > from + 1 {
        lemma_first_largest_range(chars, from, to - 1);
    }
}

/// The largest number of two digits that a bank of digits gives: its digits are picked
/// from left to right.
pub fn largest_joltage(chars: &Vec<char>) -> (out: u64)
    requires
        chars@.len() >= 2,
        forall|i: int| 0 <= i < chars@.len() ==> is_digit(#[trigger] chars@[i]),
    ensures
        out == picked(chars@, 0, 2),
{
    let len = chars.len();
    let (first, high) = find_max(chars, 0, len - 1);
    let (second, low) = find_max(chars, first + 1, len - first - 1);
    proof {
        lemma_first_largest(chars@, 0, len - 1, first as int);
        lemma_first_largest(chars@, first + 1, len as int, second as int);
        assert(tens(0) == 1);
        assert(tens(1) == 10) by {
            reveal_with_fuel(tens, 2);
        }
        let c = chars@;
        assert(picked(c, second + 1, 0) == 0);
        assert(picked(c, first + 1, 1) == digit(c[second as int]) * tens(0) + picked(
            c,
            second + 1,
            0,
        ));
        assert(picked(c, 0, 2) == digit(c[first as int]) * tens(1) + picked(c, first + 1, 1));
    }
    high as u64 * 10 + low as u64
}

} // verus!
