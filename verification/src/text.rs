use vstd::prelude::*;

verus! {

/// The byte is one of the digits `0` to `9`.
pub open spec fn is_digit(b: u8) -> bool {
    48 <= b <= 57
}

/// The number that the digits write, the last digit counting units.
pub open spec fn value(s: Seq<u8>) -> nat
    decreases s.len(),
{
    if s.len() == 0 {
        0
    } else {
        10 * value(s.drop_last()) + (s.last() - 48) as nat
    }
}

/// All bytes are digits.
pub open spec fn all_digits(s: Seq<u8>) -> bool {
    forall|i: int| 0 <= i < s.len() ==> is_digit(#[trigger] s[i])
}

/// The text without a plus sign in front.
pub open spec fn unsigned(s: Seq<u8>) -> Seq<u8> {
    if s.len() > 0 && s[0] == 43 {
        s.skip(1)
    } else {
        s
    }
}

/// The number that the text writes, if it is one or more digits, with or without a
/// plus sign in front, that write a number of `max` at most.
pub open spec fn number(s: Seq<u8>, max: nat) -> Option<nat> {
    let body = unsigned(s);
    if body.len() > 0 && all_digits(body) && value(body) <= max {
        Some(value(body))
    } else {
        None
    }
}

/// The first digits write no more than all digits.
pub proof fn lemma_value_grows(s: Seq<u8>, n: int)
    requires
        0 <= n <= s.len(),
        all_digits(s),
    ensures
        value(s.take(n)) <= value(s),
    decreases s.len() - n,
{
    if n < s.len() {
        assert(s.take(n + 1).drop_last() =~= s.take(n));
        assert(is_digit(s[n]));
        lemma_value_grows(s, n + 1);
    } else {
        assert(s.take(n) =~= s);
    }
}

/// Reads a number of `max` at most.
pub fn parse_number(text: &Vec<u8>, max: u64) -> (out: Option<u64>)
    ensures
        match out {
            Some(n) => number(text@, max as nat) == Some(n as nat),
            None => number(text@, max as nat) is None,
        },
{
    let start: usize = if text.len() > 0 && text[0] == 43 {
        1
    } else {
        0
    };
    let ghost body = unsigned(text@);
    proof {
        if start == 0 {
            assert(text@.skip(0) =~= text@);
        }
    }
    if start == text.len() {
        return None;
    }
    let mut acc: u64 = 0;
    let mut i: usize = start;
    while i < text.len()
        invariant
            start <= i <= text@.len(),
            start < text@.len(),
            body == unsigned(text@),
            body == text@.skip(start as int),
            forall|j: int| 0 <= j < i - start ==> is_digit(#[trigger] body[j]),
            acc == value(body.take(i - start)),
            acc <= max,
        decreases text@.len() - i,
    {
        let b = text[i];
        proof {
            assert(body[i - start] == b);
            assert(body.take(i - start + 1).drop_last() =~= body.take(i - start));
        }
        if b < 48 || b > 57 {
            proof {
                assert(!is_digit(body[i - start]));
            }
            return None;
        }
        let d = (b - 48) as u64;
        if d > max || acc > (max - d) / 10 {
            proof {
                let upto = body.take(i - start + 1);
                assert(value(upto) == 10 * acc + d);
                assert(value(upto) > max);
                if all_digits(body) {
                    lemma_value_grows(body, i - start + 1);
                }
            }
            return None;
        }
        acc = acc * 10 + d;
        i += 1;
    }
    proof {
        assert(body.take(i - start) =~= body);
    }
    Some(acc)
}

/// The pieces between the separators that have ended within the first `n` bytes.
pub open spec fn closed_pieces(s: Seq<u8>, sep: u8, n: nat) -> Seq<Seq<u8>>
    decreases n,
{
    if n == 0 {
        Seq::empty()
    } else if s[n - 1] == sep {
        closed_pieces(s, sep, (n - 1) as nat).push(open_piece(s, sep, (n - 1) as nat))
    } else {
        closed_pieces(s, sep, (n - 1) as nat)
    }
}

/// The piece that a separator has not yet ended after the first `n` bytes.
pub open spec fn open_piece(s: Seq<u8>, sep: u8, n: nat) -> Seq<u8>
    decreases n,
{
    if n == 0 || s[n - 1] == sep {
        Seq::empty()
    } else {
        open_piece(s, sep, (n - 1) as nat).push(s[n - 1])
    }
}

/// The pieces of the text between its separators, empty pieces too; a text without
/// a separator is one piece.
pub open spec fn pieces(s: Seq<u8>, sep: u8) -> Seq<Seq<u8>> {
    closed_pieces(s, sep, s.len()).push(open_piece(s, sep, s.len()))
}

/// The views of the vectors.
pub open spec fn views(v: Seq<Vec<u8>>) -> Seq<Seq<u8>> {
    Seq::new(v.len(), |i: int| v[i]@)
}

/// Cuts the text at each separator.
pub fn split(text: &Vec<u8>, sep: u8) -> (out: Vec<Vec<u8>>)
    ensures
        views(out@) == pieces(text@, sep),
{
    let mut out: Vec<Vec<u8>> = Vec::new();
    let mut piece: Vec<u8> = Vec::new();
    let mut i: usize = 0;
    proof {
        assert(views(out@) =~= closed_pieces(text@, sep, 0));
        assert(piece@ =~= open_piece(text@, sep, 0));
    }
    while i < text.len()
        invariant
            i <= text@.len(),
            views(out@) == closed_pieces(text@, sep, i as nat),
            piece@ == open_piece(text@, sep, i as nat),
        decreases text@.len() - i,
    {
        let ghost before = views(out@);
        if text[i] == sep {
            out.push(piece);
            piece = Vec::new();
            proof {
                assert(views(out@) =~= before.push(open_piece(text@, sep, i as nat)));
                assert(piece@ =~= Seq::<u8>::empty());
            }
        } else {
            piece.push(text[i]);
        }
        i += 1;
    }
    let ghost before = views(out@);
    out.push(piece);
    proof {
        assert(views(out@) =~= before.push(open_piece(text@, sep, text@.len())));
    }
    out
}

/// The byte is a blank: a space, a tab, a line feed, a form feed or a carriage
/// return.
pub open spec fn is_blank(b: u8) -> bool {
    b == 32 || b == 9 || b == 10 || b == 12 || b == 13
}

/// The words that have ended within the first `n` bytes.
pub open spec fn closed_words(s: Seq<u8>, n: nat) -> Seq<Seq<u8>>
    decreases n,
{
    if n == 0 {
        Seq::empty()
    } else if is_blank(s[n - 1]) && open_word(s, (n - 1) as nat).len() > 0 {
        closed_words(s, (n - 1) as nat).push(open_word(s, (n - 1) as nat))
    } else {
        closed_words(s, (n - 1) as nat)
    }
}

/// The word that a blank has not yet ended after the first `n` bytes.
pub open spec fn open_word(s: Seq<u8>, n: nat) -> Seq<u8>
    decreases n,
{
    if n == 0 || is_blank(s[n - 1]) {
        Seq::empty()
    } else {
        open_word(s, (n - 1) as nat).push(s[n - 1])
    }
}

/// The words of the text: its longest stretches without a blank.
pub open spec fn words(s: Seq<u8>) -> Seq<Seq<u8>> {
    if open_word(s, s.len()).len() > 0 {
        closed_words(s, s.len()).push(open_word(s, s.len()))
    } else {
        closed_words(s, s.len())
    }
}

/// Cuts the text into its words.
pub fn split_words(text: &Vec<u8>) -> (out: Vec<Vec<u8>>)
    ensures
        views(out@) == words(text@),
{
    let mut out: Vec<Vec<u8>> = Vec::new();
    let mut word: Vec<u8> = Vec::new();
    let mut i: usize = 0;
    proof {
        assert(views(out@) =~= closed_words(text@, 0));
        assert(word@ =~= open_word(text@, 0));
    }
    while i < text.len()
        invariant
            i <= text@.len(),
            views(out@) == closed_words(text@, i as nat),
            word@ == open_word(text@, i as nat),
        decreases text@.len() - i,
    {
        let ghost before = views(out@);
        let b = text[i];
        if b == 32 || b == 9 || b == 10 || b == 12 || b == 13 {
            if word.len() > 0 {
                out.push(word);
                word = Vec::new();
                proof {
                    assert(views(out@) =~= before.push(open_word(text@, i as nat)));
                }
            }
            proof {
                assert(word@ =~= Seq::<u8>::empty());
            }
        } else {
            word.push(b);
        }
        i += 1;
    }
    if word.len() > 0 {
        let ghost before = views(out@);
        out.push(word);
        proof {
            assert(views(out@) =~= before.push(open_word(text@, text@.len())));
        }
    }
    out
}


/// The whole number that the text writes, if it is one or more digits, with or
/// without a sign in front, that write a number from `i64::MIN` to `i64::MAX`.
pub open spec fn signed_number(s: Seq<u8>) -> Option<int> {
    if s.len() > 0 && s[0] == 45 {
        let body = s.skip(1);
        if body.len() > 0 && all_digits(body) && value(body) <= 0x8000_0000_0000_0000 {
            Some(-(value(body) as int))
        } else {
            None
        }
    } else {
        match number(s, i64::MAX as nat) {
            Some(n) => Some(n as int),
            None => None,
        }
    }
}

/// Reads a whole number from `i64::MIN` to `i64::MAX`.
pub fn parse_signed(text: &Vec<u8>) -> (out: Option<i64>)
    ensures
        match out {
            Some(n) => signed_number(text@) == Some(n as int),
            None => signed_number(text@) is None,
        },
{
    if text.len() > 0 && text[0] == 45 {
        let mut body: Vec<u8> = Vec::new();
        let mut i: usize = 1;
        while i < text.len()
            invariant
                1 <= i <= text@.len(),
                body@ == text@.subrange(1, i as int),
            decreases text@.len() - i,
        {
            body.push(text[i]);
            i += 1;
            proof {
                assert(body@ =~= text@.subrange(1, i as int));
            }
        }
        proof {
            assert(text@.subrange(1, text@.len() as int) =~= text@.skip(1));
        }
        if body.len() > 0 && (body[0] == 43) {
            proof {
                assert(!is_digit(body@[0]));
            }
            return None;
        }
        proof {
            if body@.len() > 0 {
                assert(unsigned(body@) == body@);
            }
        }
        match parse_number(&body, 0x8000_0000_0000_0000) {
            Some(n) => {
                if n == 0x8000_0000_0000_0000 {
                    Some(i64::MIN)
                } else {
                    Some(0 - (n as i64))
                }
            },
            None => None,
        }
    } else {
        match parse_number(text, 0x7fff_ffff_ffff_ffff) {
            Some(n) => Some(n as i64),
            None => None,
        }
    }
}

/// The place of the first `sep`, or the length of the text if it holds none.
pub open spec fn first_of(s: Seq<u8>, sep: u8) -> int
    decreases s.len(),
{
    if s.len() == 0 {
        0
    } else if s[0] == sep {
        0
    } else {
        1 + first_of(s.skip(1), sep)
    }
}

/// The place of the first `sep`, or the length of the text if it holds none.
pub fn find_first(text: &Vec<u8>, sep: u8) -> (out: usize)
    ensures
        out == first_of(text@, sep),
        out <= text@.len(),
{
    let mut i: usize = 0;
    proof {
        assert(text@.skip(0) =~= text@);
    }
    while i < text.len() && text[i] != sep
        invariant
            i <= text@.len(),
            first_of(text@, sep) == i + first_of(text@.skip(i as int), sep),
        decreases text@.len() - i,
    {
        proof {
            assert(text@.skip(i as int).skip(1) =~= text@.skip(i + 1));
        }
        i += 1;
    }
    i
}

/// A copy of the bytes from `from` to before `to`.
pub fn slice_of(text: &Vec<u8>, from: usize, to: usize) -> (out: Vec<u8>)
    requires
        from <= to <= text@.len(),
    ensures
        out@ == text@.subrange(from as int, to as int),
{
    let mut out: Vec<u8> = Vec::new();
    let mut i: usize = from;
    while i < to
        invariant
            from <= i <= to <= text@.len(),
            out@ == text@.subrange(from as int, i as int),
        decreases to - i,
    {
        out.push(text[i]);
        i += 1;
        proof {
            assert(out@ =~= text@.subrange(from as int, i as int));
        }
    }
    out
}


/// The number of bytes of the white space character at the start of the text, in
/// UTF-8; zero if the text does not start with white space.
pub open spec fn space_at_start(s: Seq<u8>) -> int {
    if s.len() >= 1 && ((9 <= s[0] <= 13) || s[0] == 32) {
        1
    } else if s.len() >= 2 && s[0] == 0xc2 && (s[1] == 0x85 || s[1] == 0xa0) {
        2
    } else if s.len() >= 3 && ((s[0] == 0xe1 && s[1] == 0x9a && s[2] == 0x80) || (s[0] == 0xe2 && s[1]
        == 0x80 && (0x80 <= s[2] <= 0x8a || s[2] == 0xa8 || s[2] == 0xa9 || s[2] == 0xaf)) || (s[0]
        == 0xe2 && s[1] == 0x81 && s[2] == 0x9f) || (s[0] == 0xe3 && s[1] == 0x80 && s[2] == 0x80)) {
        3
    } else {
        0
    }
}

/// The number of bytes of the white space character at the end of the text, in
/// UTF-8; zero if the text does not end with white space.
pub open spec fn space_at_end(s: Seq<u8>) -> int {
    let n = s.len() as int;
    if n >= 1 && ((9 <= s[n - 1] <= 13) || s[n - 1] == 32) {
        1
    } else if n >= 3 && space_at_start(s.skip(n - 3)) == 3 {
        3
    } else if n >= 2 && space_at_start(s.skip(n - 2)) == 2 {
        2
    } else {
        0
    }
}

/// The text without the white space at its start.
pub open spec fn trimmed_start(s: Seq<u8>) -> Seq<u8>
    decreases s.len(),
{
    if space_at_start(s) > 0 {
        trimmed_start(s.skip(space_at_start(s)))
    } else {
        s
    }
}

/// The text without the white space at its end.
pub open spec fn trimmed_end(s: Seq<u8>) -> Seq<u8>
    decreases s.len(),
{
    if space_at_end(s) > 0 {
        trimmed_end(s.take(s.len() - space_at_end(s)))
    } else {
        s
    }
}

/// The text without the white space at its start and at its end.
pub open spec fn trimmed(s: Seq<u8>) -> Seq<u8> {
    trimmed_end(trimmed_start(s))
}

/// The number of bytes of the white space character at place `i` of the text.
pub fn space_len(text: &Vec<u8>, i: usize) -> (out: usize)
    requires
        i <= text@.len(),
    ensures
        out == space_at_start(text@.skip(i as int)),
        i + out <= text@.len(),
{
    let n = text.len();
    let ghost s = text@.skip(i as int);
    proof {
        assert(s.len() == n - i);
        if n - i >= 1 {
            assert(s[0] == text@[i as int]);
        }
        if n - i >= 2 {
            assert(s[1] == text@[i + 1]);
        }
        if n - i >= 3 {
            assert(s[2] == text@[i + 2]);
        }
    }
    if n - i >= 1 && ((9 <= text[i] && text[i] <= 13) || text[i] == 32) {
        1
    } else if n - i >= 2 && text[i] == 0xc2 && (text[i + 1] == 0x85 || text[i + 1] == 0xa0) {
        2
    } else if n - i >= 3 && ((text[i] == 0xe1 && text[i + 1] == 0x9a && text[i + 2] == 0x80) || (
    text[i] == 0xe2 && text[i + 1] == 0x80 && ((0x80 <= text[i + 2] && text[i + 2] <= 0x8a) || text[i
        + 2] == 0xa8 || text[i + 2] == 0xa9 || text[i + 2] == 0xaf)) || (text[i] == 0xe2 && text[i
        + 1] == 0x81 && text[i + 2] == 0x9f) || (text[i] == 0xe3 && text[i + 1] == 0x80 && text[i + 2]
        == 0x80)) {
        3
    } else {
        0
    }
}

/// The text without the white space at its start and at its end.
pub fn trim(text: &Vec<u8>) -> (out: Vec<u8>)
    ensures
        out@ == trimmed(text@),
{
    let n = text.len();
    let mut from: usize = 0;
    proof {
        assert(text@.skip(0) =~= text@);
    }
    loop
        invariant
            from <= n,
            n == text@.len(),
            trimmed_start(text@) == trimmed_start(text@.skip(from as int)),
        ensures
            from <= n,
            trimmed_start(text@) == text@.skip(from as int),
        decreases n - from,
    {
        let k = space_len(text, from);
        if k == 0 {
            break;
        }
        proof {
            assert(text@.skip(from as int).skip(k as int) =~= text@.skip(from + k));
        }
        from += k;
    }
    let ghost rest = text@.skip(from as int);
    let mut to: usize = n;
    proof {
        assert(text@.subrange(from as int, n as int) =~= rest);
    }
    loop
        invariant
            from <= to <= n,
            n == text@.len(),
            rest == text@.skip(from as int),
            trimmed_end(rest) == trimmed_end(text@.subrange(from as int, to as int)),
        ensures
            from <= to <= n,
            trimmed_end(rest) == text@.subrange(from as int, to as int),
        decreases to - from,
    {
        let ghost cur = text@.subrange(from as int, to as int);
        let len = to - from;
        proof {
            assert(cur.len() == len);
            if len >= 1 {
                assert(cur[len - 1] == text@[to - 1]);
            }
            if len >= 3 {
                assert(cur.skip(len - 3) =~= text@.skip(to - 3).take(3));
                assert(text@.skip(to - 3)[0] == cur.skip(len - 3)[0]);
                assert(text@.skip(to - 3)[1] == cur.skip(len - 3)[1]);
                assert(text@.skip(to - 3)[2] == cur.skip(len - 3)[2]);
            }
            if len >= 2 {
                assert(cur.skip(len - 2) =~= text@.skip(to - 2).take(2));
                assert(text@.skip(to - 2)[0] == cur.skip(len - 2)[0]);
                assert(text@.skip(to - 2)[1] == cur.skip(len - 2)[1]);
            }
        }
        let k: usize = if len >= 1 && ((9 <= text[to - 1] && text[to - 1] <= 13) || text[to - 1]
            == 32) {
            1
        } else if len >= 3 && space_len(text, to - 3) == 3 {
            3
        } else if len >= 2 && space_len(text, to - 2) == 2 {
            2
        } else {
            0
        };
        if k == 0 {
            break;
        }
        proof {
            assert(cur.take(cur.len() - k) =~= text@.subrange(from as int, to - k));
        }
        to -= k;
    }
    slice_of(text, from, to)
}

} // verus!
