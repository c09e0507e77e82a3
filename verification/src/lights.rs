use vstd::prelude::*;
use vstd::arithmetic::power2::{pow2, lemma_pow2_unfold, lemma_pow2_strictly_increases, lemma2_to64, lemma2_to64_rest};

use vstd::bits::lemma_u64_shl_is_mul;
use vstd::string::*;
use crate::machine::{
    collect_groups, index_groups, lit, read_lights, strip_braces, unbraced, ParseMachineError, button_pattern, record_pattern,
};
use crate::pattern::{all_captures, captures, captures_iter, first_captures};

use crate::text::{number, parse_number, pieces, split, views};


verus! {

/// The lowest `width` bits of a number in reverse order.
pub open spec fn reversed(number: nat, width: nat) -> nat
    decreases width,
{
    if width == 0 {
        0
    } else {
        (number % 2) * pow2((width - 1) as nat) + reversed(number / 2, (width - 1) as nat)
    }
}

/// The places of the bits of a number that are set, lowest first, where the lowest
/// bit has the place `from`.
pub open spec fn set_bits(p: nat, from: int) -> Seq<int>
    decreases p,
{
    if p == 0 {
        Seq::empty()
    } else if p % 2 == 1 {
        seq![from] + set_bits(p / 2, from + 1)
    } else {
        set_bits(p / 2, from + 1)
    }
}

/// The values of two to the powers of 63 and 64.
pub proof fn lemma_pow2_63()
    ensures
        pow2(63) == 0x8000_0000_0000_0000,
        pow2(64) == 0x1_0000_0000_0000_0000,
{
    lemma2_to64();
    lemma2_to64_rest();
}

/// Powers of two grow with the exponent.
pub proof fn lemma_pow2_grows(a: nat, b: nat)
    requires
        a <= b,
    ensures
        pow2(a) <= pow2(b),
{
    if a < b {
        lemma_pow2_strictly_increases(a, b);
    }
}

/// The lowest `width` bits of a number in reverse order.
pub fn reverse_bits(number: u64, width: usize) -> (out: u64)
    requires
        width <= 64,
    ensures
        out == reversed(number as nat, width as nat),
{
    let ghost start = number as nat;
    let mut reverse: u64 = 0;
    let mut number = number;
    let mut i: usize = 0;
    proof {
        assert(0 * pow2(width as nat) == 0) by (nonlinear_arith);
        lemma2_to64();
    }
    while i < width
        invariant
            i <= width <= 64,
            reverse < pow2(i as nat),
            reversed(start, width as nat) == reverse * pow2((width - i) as nat) + reversed(
                number as nat,
                (width - i) as nat,
            ),
        decreases width - i,
    {
        let ghost w = (width - i) as nat;
        let ghost r = reverse;
        let ghost n = number;
        proof {
            lemma_pow2_grows(i as nat, 63);
            lemma_pow2_63();
            lemma_pow2_unfold(w);
            lemma_pow2_unfold((i + 1) as nat);
            assert(((r << 1) | (n & 1)) == 2 * r + n % 2) by (bit_vector)
                requires
                    r < 0x8000_0000_0000_0000,
            ;
            assert(n >> 1 == n / 2) by (bit_vector);
            let p = pow2((w - 1) as nat);
            assert(r * (2 * p) + (n % 2) * p == (2 * r + n % 2) * p) by (nonlinear_arith);
        }
        reverse = reverse << 1;
        reverse = reverse | (number & 1);
        number = number >> 1;
        i += 1;
    }
    proof {
        assert(reverse * pow2(0) == reverse) by (nonlinear_arith)
            requires
                pow2(0) == 1,
        ;
    }
    reverse
}

/// The numbers of a list of indices.
pub open spec fn ints(s: Seq<usize>) -> Seq<int> {
    Seq::new(s.len(), |i: int| s[i] as int)
}

/// The places of the bits of a number that are set, lowest first.
pub fn permutation_to_indices(permutation: u64) -> (out: Vec<usize>)
    ensures
        ints(out@) == set_bits(permutation as nat, 0),
{
    let mut result: Vec<usize> = Vec::new();
    let mut current = permutation;
    let mut index: usize = 0;
    proof {
        assert(ints(result@) =~= Seq::<int>::empty());
        lemma_pow2_63();
    }
    while current != 0
        invariant
            index <= 64,
            current < pow2((64 - index) as nat),
            ints(result@) + set_bits(current as nat, index as int) == set_bits(permutation as nat, 0),
        decreases current,
    {
        let ghost c = current;
        let ghost before = ints(result@);
        proof {
            if index == 64 {
                lemma2_to64();
            }
            lemma_pow2_unfold((64 - index) as nat);
            assert(c >> 1 == c / 2) by (bit_vector);
            assert((c & 1 == 1) == (c % 2 == 1)) by (bit_vector);
        }
        if current & 1 == 1 {
            result.push(index);
            proof {
                assert(ints(result@) =~= before + seq![index as int]);
                assert(ints(result@) + set_bits((c / 2) as nat, index + 1) =~= before + set_bits(
                    c as nat,
                    index as int,
                ));
            }
        }
        index += 1;
        current = current >> 1;
    }
    proof {
        assert(ints(result@) + set_bits(0, index as int) =~= ints(result@));
    }
    result
}

/// The numbers with `k` more bits set among the lowest `n` bits, above which stand
/// the bits of `v`: those with the highest of the `n` bits set first.
pub open spec fn patterns(n: nat, k: nat, v: nat) -> Seq<nat>
    decreases n,
{
    if k == 0 {
        seq![v * pow2(n)]
    } else if n == 0 {
        Seq::empty()
    } else {
        patterns((n - 1) as nat, (k - 1) as nat, 2 * v + 1) + if n > k {
            patterns((n - 1) as nat, k, 2 * v)
        } else {
            Seq::empty()
        }
    }
}

/// The numbers that the entries of the stack stand for, the last entry's first.
pub open spec fn pending(stack: Seq<(usize, usize, u64)>) -> Seq<nat>
    decreases stack.len(),
{
    if stack.len() == 0 {
        Seq::empty()
    } else {
        patterns(stack.last().0 as nat, stack.last().1 as nat, stack.last().2 as nat) + pending(
            stack.drop_last(),
        )
    }
}

/// The numbers of `n` bits with more than `k` bits set: those with fewer bits set
/// first.
pub open spec fn rounds(n: nat, k: nat) -> Seq<nat>
    decreases n - k,
{
    if k >= n {
        Seq::empty()
    } else {
        patterns(n, k + 1, 0) + rounds(n, k + 1)
    }
}

/// The steps that the walk needs for a stack entry.
spec fn nodes(n: nat, k: nat) -> nat
    decreases n,
{
    if k == 0 || n == 0 {
        1
    } else {
        1 + nodes((n - 1) as nat, (k - 1) as nat) + if n > k {
            nodes((n - 1) as nat, k)
        } else {
            0
        }
    }
}

/// The steps that the walk needs for the entries of the stack.
spec fn stack_work(stack: Seq<(usize, usize, u64)>) -> nat
    decreases stack.len(),
{
    if stack.len() == 0 {
        0
    } else {
        nodes(stack.last().0 as nat, stack.last().1 as nat) + stack_work(stack.drop_last())
    }
}

/// The steps that the walk needs for the sets with more than `k` indices.
spec fn round_work(n: nat, k: nat) -> nat
    decreases n - k,
{
    if k >= n {
        0
    } else {
        1 + nodes(n, k + 1) + round_work(n, k + 1)
    }
}

/// An entry on top of the stack stands for the numbers that are yielded first.
proof fn lemma_pending_push(stack: Seq<(usize, usize, u64)>, e: (usize, usize, u64))
    ensures
        pending(stack.push(e)) == patterns(e.0 as nat, e.1 as nat, e.2 as nat) + pending(stack),
        stack_work(stack.push(e)) == nodes(e.0 as nat, e.1 as nat) + stack_work(stack),
{
    assert(stack.push(e).drop_last() =~= stack);
}

/// A lazy enumerator of the sets of button indices: the smaller sets first.
pub struct Permutations {
    n: usize,
    k: usize,
    stack: Vec<(usize, usize, u64)>,
}

impl View for Permutations {
    type V = Seq<nat>;

    /// The sets that are still to be yielded, in order, each as the number whose set
    /// bits are its indices.
    closed spec fn view(&self) -> Seq<nat> {
        pending(self.stack@) + rounds(self.n as nat, self.k as nat)
    }
}

impl Permutations {
    /// The enumerator's invariant.
    pub closed spec fn wf(&self) -> bool {
        &&& self.n < 64
        &&& self.k <= self.n
        &&& forall|i: int|
            0 <= i < self.stack@.len() ==> {
                let e = #[trigger] self.stack@[i];
                e.1 <= e.0 && e.0 <= self.n && e.2 < pow2((self.n - e.0) as nat)
            }
    }

    /// The number of indices that the sets are taken from.
    pub closed spec fn size(&self) -> nat {
        self.n as nat
    }

    /// The steps that the walk still needs: it falls with every step.
    spec fn work(&self) -> nat {
        stack_work(self.stack@) + round_work(self.n as nat, self.k as nat)
    }

    /// An enumerator of the sets of indices below `n`.
    pub fn new(n: usize) -> (out: Self)
        requires
            n < 64,
        ensures
            out.wf(),
            out.size() == n,
            out@ == rounds(n as nat, 0).insert(0, 0),
    {
        let mut stack: Vec<(usize, usize, u64)> = Vec::new();
        stack.push((n, 0, 0));
        let out = Self { n, k: 0, stack };
        proof {
            lemma2_to64();
            lemma_pending_push(Seq::empty(), (n, 0usize, 0u64));
            assert(out.stack@ =~= Seq::empty().push((n, 0usize, 0u64)));
            assert(0 * pow2(n as nat) == 0) by (nonlinear_arith);
            assert(pending(Seq::empty()) =~= Seq::<nat>::empty());
            assert(out@ =~= rounds(n as nat, 0).insert(0, 0));
            assert(pow2((n - n) as nat) == 1);
        }
        out
    }

    /// Yields the next set, its indices rising, or `None` when all have been yielded.
    pub fn next(&mut self) -> (out: Option<Vec<usize>>)
        requires
            old(self).wf(),
        ensures
            final(self).wf(),
            final(self).size() == old(self).size(),
            old(self)@.len() == 0 ==> out is None && final(self)@ == old(self)@,
            old(self)@.len() > 0 ==> out is Some && ints(out->Some_0@) == set_bits(old(self)@[0], 0)
                && final(self)@ == old(self)@.skip(1),
    {
        loop
            invariant
                self.wf(),
                self.n == old(self).n,
                self@ == old(self)@,
            decreases self.work(),
        {
            let ghost total = self.n as nat;
            if self.stack.len() == 0 {
                if self.k == self.n {
                    proof {
                        assert(pending(self.stack@) =~= Seq::<nat>::empty());
                        assert(self@ =~= Seq::<nat>::empty());
                    }
                    return None;
                }
                proof {
                    lemma_pending_push(self.stack@, (self.n, (self.k + 1) as usize, 0u64));
                    lemma2_to64();
                    assert(pow2((total - total) as nat) == 1);
                    assert(pending(self.stack@) =~= Seq::<nat>::empty());
                }
                self.k += 1;
                self.stack.push((self.n, self.k, 0));
                proof {
                    assert(self@ =~= old(self)@);
                }
            }
            let ghost before = self.stack@;
            let ghost seen = self@;
            let (n, k, v) = self.stack.pop().unwrap();
            let ghost rest = self.stack@;
            proof {
                assert(before[before.len() - 1] == (n, k, v));
                assert(before.drop_last() =~= rest);
                lemma_pow2_63();
                lemma_pow2_grows((total - n) as nat, 63);
            }
            if k == 0 {
                proof {
                    vstd::arithmetic::power2::lemma_pow2_adds((total - n) as nat, n as nat);
                    lemma_pow2_grows(total, 63);
                    assert(v * pow2(n as nat) <= pow2((total - n) as nat) * pow2(n as nat))
                        by (nonlinear_arith)
                        requires
                            v < pow2((total - n) as nat),
                    ;
                    lemma_u64_shl_is_mul(v, n as u64);
                    assert(seen[0] == v * pow2(n as nat));
                    assert(self@ =~= seen.skip(1));
                }
                return Some(permutation_to_indices(v << (n as u64)));
            }
            proof {
                assert(((v << 1) | 1) == 2 * v + 1) by (bit_vector)
                    requires
                        v < 0x8000_0000_0000_0000,
                ;
                assert((v << 1) == 2 * v) by (bit_vector)
                    requires
                        v < 0x8000_0000_0000_0000,
                ;
                lemma_pow2_unfold((total - n + 1) as nat);
            }
            if n > k {
                proof {
                    lemma_pending_push(self.stack@, ((n - 1) as usize, k, v << 1));
                }
                self.stack.push((n - 1, k, v << 1));
            }
            proof {
                lemma_pending_push(self.stack@, ((n - 1) as usize, (k - 1) as usize, (v << 1) | 1));
            }
            self.stack.push((n - 1, k - 1, (v << 1) | 1));
            proof {
                assert(self@ =~= seen);
            }
        }
    }
}

/// The sets of indices below `n`, each as the number whose set bits are its indices:
/// the smaller sets first.
pub open spec fn subsets(n: nat) -> Seq<nat> {
    rounds(n, 0).insert(0, 0)
}

/// The lights that are on after the buttons `indices` have each been pressed once.
pub open spec fn toggled(buttons: Seq<u64>, indices: Seq<int>) -> u64
    decreases indices.len(),
{
    if indices.len() == 0 {
        0
    } else {
        toggled(buttons, indices.drop_last()) ^ buttons[indices.last()]
    }
}

/// Pressing the buttons of the set `mask` once each turns on the lights of `target`
/// and no others.
pub open spec fn hits(buttons: Seq<u64>, target: u64, mask: nat) -> bool {
    toggled(buttons, set_bits(mask, 0)) == target
}

/// The lights that are on after the buttons `indices` have each been pressed once.
pub fn toggle(buttons: &Vec<u64>, indices: &Vec<usize>) -> (out: u64)
    requires
        forall|j: int| 0 <= j < indices@.len() ==> indices@[j] < buttons@.len(),
    ensures
        out == toggled(buttons@, ints(indices@)),
{
    let ghost ids = ints(indices@);
    let mut acc: u64 = 0;
    let mut j: usize = 0;
    while j < indices.len()
        invariant
            j <= indices@.len(),
            ids == ints(indices@),
            forall|j: int| 0 <= j < indices@.len() ==> indices@[j] < buttons@.len(),
            acc == toggled(buttons@, ids.take(j as int)),
        decreases indices@.len() - j,
    {
        proof {
            assert(ids.take(j + 1).drop_last() =~= ids.take(j as int));
        }
        acc = acc ^ buttons[indices[j]];
        j += 1;
    }
    proof {
        assert(ids.take(j as int) =~= ids);
    }
    acc
}

/// The places of the set bits of a number below `2^n` are below `from + n`.
pub proof fn lemma_set_bits_bound(p: nat, from: int, n: nat)
    requires
        p < pow2(n),
    ensures
        forall|j: int| 0 <= j < set_bits(p, from).len() ==> from <= #[trigger] set_bits(p, from)[j] < from + n,
    decreases p,
{
    if p > 0 {
        if n == 0 {
            lemma2_to64();
        } else {
            lemma_pow2_unfold(n);
            lemma_set_bits_bound(p / 2, from + 1, (n - 1) as nat);
            let rest = set_bits(p / 2, from + 1);
            assert forall|j: int| 0 <= j < set_bits(p, from).len() implies from <= #[trigger] set_bits(
                p,
                from,
            )[j] < from + n by {
                if p % 2 == 1 {
                    if j > 0 {
                        assert(set_bits(p, from)[j] == rest[j - 1]);
                    }
                } else {
                    assert(set_bits(p, from)[j] == rest[j]);
                }
            }
        }
    }
}

/// The numbers with `k` more bits set among the lowest `n` bits, above which stand
/// the bits of `v`, are below `(v + 1) * 2^n`.
pub proof fn lemma_patterns_bound(n: nat, k: nat, v: nat)
    ensures
        forall|j: int| 0 <= j < patterns(n, k, v).len() ==> #[trigger] patterns(n, k, v)[j] < (v + 1) * pow2(n),
    decreases n,
{
    if k == 0 {
        vstd::arithmetic::power2::lemma_pow2_pos(n);
        assert(v * pow2(n) < (v + 1) * pow2(n)) by (nonlinear_arith)
            requires
                pow2(n) > 0,
        ;
    } else if n > 0 {
        lemma_patterns_bound((n - 1) as nat, (k - 1) as nat, 2 * v + 1);
        lemma_patterns_bound((n - 1) as nat, k, 2 * v);
        lemma_pow2_unfold(n);
        let p = pow2((n - 1) as nat);
        assert((2 * v + 1 + 1) * p == (v + 1) * (2 * p)) by (nonlinear_arith);
        assert((2 * v + 1) * p <= (v + 1) * (2 * p)) by (nonlinear_arith);
        let first = patterns((n - 1) as nat, (k - 1) as nat, 2 * v + 1);
        let second = patterns((n - 1) as nat, k, 2 * v);
        assert forall|j: int| 0 <= j < patterns(n, k, v).len() implies #[trigger] patterns(n, k, v)[j]
            < (v + 1) * pow2(n) by {
            if j < first.len() {
                assert(patterns(n, k, v)[j] == first[j]);
            } else {
                assert(patterns(n, k, v)[j] == second[j - first.len()]);
            }
        }
    }
}

/// The sets of indices below `n` are numbers below `2^n`.
pub proof fn lemma_subsets_bound(n: nat)
    ensures
        forall|j: int| 0 <= j < subsets(n).len() ==> #[trigger] subsets(n)[j] < pow2(n),
{
    vstd::arithmetic::power2::lemma_pow2_pos(n);
    lemma_rounds_bound(n, 0);
}

/// The sets with more than `k` of `n` indices are numbers below `2^n`.
proof fn lemma_rounds_bound(n: nat, k: nat)
    ensures
        forall|j: int| 0 <= j < rounds(n, k).len() ==> #[trigger] rounds(n, k)[j] < pow2(n),
    decreases n - k,
{
    if k < n {
        lemma_patterns_bound(n, k + 1, 0);
        lemma_rounds_bound(n, k + 1);
        assert((0 + 1) * pow2(n) == pow2(n)) by (nonlinear_arith);
        let first = patterns(n, k + 1, 0);
        let second = rounds(n, k + 1);
        assert forall|j: int| 0 <= j < rounds(n, k).len() implies #[trigger] rounds(n, k)[j] < pow2(
            n,
        ) by {
            if j < first.len() {
                assert(rounds(n, k)[j] == first[j]);
            } else {
                assert(rounds(n, k)[j] == second[j - first.len()]);
            }
        }
    }
}

/// A machine with indicator lights: the lights wanted and, for each button, the
/// lights that it toggles, each as a number of `width` bits, the first light highest;
/// and the joltages of its record.
pub struct Machine {
    pub joltages: Vec<u64>,
    pub buttons: Vec<u64>,
    pub width: usize,
    pub target: u64,
}

/// What a machine holds, as plain values.
pub struct MachineView {
    pub joltages: Seq<nat>,
    pub buttons: Seq<u64>,
    pub width: nat,
    pub target: u64,
}

impl View for Machine {
    type V = MachineView;

    /// The value as plain values.
    open spec fn view(&self) -> MachineView {
        MachineView {
            joltages: Seq::new(self.joltages@.len(), |i: int| self.joltages@[i] as nat),
            buttons: self.buttons@,
            width: self.width as nat,
            target: self.target,
        }
    }
}

/// The number with a bit set for each light that the tokens name, if each token is
/// the number of a light below 64.
pub open spec fn mask_of_tokens(tokens: Seq<Seq<u8>>) -> Option<u64>
    decreases tokens.len(),
{
    if tokens.len() == 0 {
        Some(0)
    } else {
        match (mask_of_tokens(tokens.drop_last()), number(tokens.last(), 63)) {
            (Some(m), Some(index)) => Some(m | (1u64 << (index as u64))),
            _ => None,
        }
    }
}

/// The buttons that the groups of indices give, if each gives one: for each group,
/// the lights that it names, the first light highest of `width`.
pub open spec fn masks_of(groups: Seq<Seq<u8>>, width: nat) -> Option<Seq<u64>>
    decreases groups.len(),
{
    if groups.len() == 0 {
        Some(Seq::empty())
    } else {
        match (masks_of(groups.drop_last(), width), mask_of_tokens(pieces(groups.last(), 44))) {
            (Some(ms), Some(m)) => Some(ms.push(reversed(m as nat, width) as u64)),
            _ => None,
        }
    }
}

/// The numbers that the tokens write, if each writes one.
pub open spec fn joltages_of(tokens: Seq<Seq<u8>>) -> Option<Seq<nat>>
    decreases tokens.len(),
{
    if tokens.len() == 0 {
        Some(Seq::empty())
    } else {
        match (joltages_of(tokens.drop_last()), number(tokens.last(), u64::MAX as nat)) {
            (Some(ns), Some(n)) => Some(ns.push(n)),
            _ => None,
        }
    }
}

/// The machine that the parts of a record give: the lights, the index lists of the
/// buttons and the joltages in braces. More than 64 lights give `InvalidSyntax`; a
/// number that is none, and an index that is no light below 64, give `InvalidNumber`.
pub open spec fn assembled(lights: Seq<u8>, groups: Seq<Seq<u8>>, joltages: Seq<u8>) -> Result<
    MachineView,
    ParseMachineError,
> {
    if lights.len() > 64 {
        Err(ParseMachineError::InvalidSyntax)
    } else {
        match (masks_of(groups, lights.len()), joltages_of(pieces(unbraced(joltages), 44))) {
            (Some(buttons), Some(joltages)) => Ok(
                MachineView { joltages, buttons, width: lights.len(), target: lit(lights) },
            ),
            _ => Err(ParseMachineError::InvalidNumber),
        }
    }
}

/// The machine that a record gives, from what the patterns find in it.
pub open spec fn record_of(text: Seq<u8>) -> Result<MachineView, ParseMachineError> {
    match first_captures(record_pattern(), text) {
        None => Err(ParseMachineError::InvalidSyntax),
        Some(parts) => if parts.len() >= 4 && parts[1] is Some && parts[2] is Some
            && parts[3] is Some {
            match index_groups(all_captures(button_pattern(), parts[2]->Some_0)) {
                Some(groups) => assembled(parts[1]->Some_0, groups, parts[3]->Some_0),
                None => Err(ParseMachineError::InvalidSyntax),
            }
        } else {
            Err(ParseMachineError::InvalidSyntax)
        },
    }
}

/// Tokens give no mask if a part of them from the start gives none.
proof fn lemma_mask_none(tokens: Seq<Seq<u8>>, n: int)
    requires
        0 <= n <= tokens.len(),
        mask_of_tokens(tokens.take(n)) is None,
    ensures
        mask_of_tokens(tokens) is None,
    decreases tokens.len() - n,
{
    if n < tokens.len() {
        assert(tokens.take(n + 1).drop_last() =~= tokens.take(n));
        lemma_mask_none(tokens, n + 1);
    } else {
        assert(tokens.take(n) =~= tokens);
    }
}

/// Groups give no masks if a part of them from the start gives none.
proof fn lemma_masks_none(groups: Seq<Seq<u8>>, width: nat, n: int)
    requires
        0 <= n <= groups.len(),
        masks_of(groups.take(n), width) is None,
    ensures
        masks_of(groups, width) is None,
    decreases groups.len() - n,
{
    if n < groups.len() {
        assert(groups.take(n + 1).drop_last() =~= groups.take(n));
        lemma_masks_none(groups, width, n + 1);
    } else {
        assert(groups.take(n) =~= groups);
    }
}

/// Tokens give no joltages if a part of them from the start gives none.
proof fn lemma_joltages_none(tokens: Seq<Seq<u8>>, n: int)
    requires
        0 <= n <= tokens.len(),
        joltages_of(tokens.take(n)) is None,
    ensures
        joltages_of(tokens) is None,
    decreases tokens.len() - n,
{
    if n < tokens.len() {
        assert(tokens.take(n + 1).drop_last() =~= tokens.take(n));
        lemma_joltages_none(tokens, n + 1);
    } else {
        assert(tokens.take(n) =~= tokens);
    }
}

/// The number with a bit set for each light that the tokens name.
pub fn read_mask(tokens: &Vec<Vec<u8>>) -> (out: Option<u64>)
    ensures
        out == mask_of_tokens(views(tokens@)),
{
    let ghost all = views(tokens@);
    let mut acc: u64 = 0;
    let mut i: usize = 0;
    while i < tokens.len()
        invariant
            i <= tokens@.len(),
            all == views(tokens@),
            mask_of_tokens(all.take(i as int)) == Some(acc),
        decreases tokens@.len() - i,
    {
        proof {
            assert(all.take(i + 1).drop_last() =~= all.take(i as int));
            assert(all.take(i + 1).last() == tokens@[i as int]@);
        }
        match parse_number(&tokens[i], 63) {
            Some(index) => {
                acc = acc | (1u64 << index);
            },
            None => {
                proof {
                    lemma_mask_none(all, i + 1);
                }
                return None;
            },
        }
        i += 1;
    }
    proof {
        assert(all.take(i as int) =~= all);
    }
    Some(acc)
}

/// The numbers that the tokens write.
pub fn read_joltages(tokens: &Vec<Vec<u8>>) -> (out: Option<Vec<u64>>)
    ensures
        match out {
            Some(ns) => joltages_of(views(tokens@)) == Some(
                Seq::new(ns@.len(), |i: int| ns@[i] as nat),
            ),
            None => joltages_of(views(tokens@)) is None,
        },
{
    let ghost all = views(tokens@);
    let mut out: Vec<u64> = Vec::new();
    let mut i: usize = 0;
    proof {
        assert(Seq::new(out@.len(), |i: int| out@[i] as nat) =~= Seq::<nat>::empty());
    }
    while i < tokens.len()
        invariant
            i <= tokens@.len(),
            all == views(tokens@),
            joltages_of(all.take(i as int)) == Some(Seq::new(out@.len(), |i: int| out@[i] as nat)),
        decreases tokens@.len() - i,
    {
        proof {
            assert(all.take(i + 1).drop_last() =~= all.take(i as int));
            assert(all.take(i + 1).last() == tokens@[i as int]@);
        }
        let ghost before = Seq::new(out@.len(), |i: int| out@[i] as nat);
        match parse_number(&tokens[i], u64::MAX) {
            Some(n) => {
                out.push(n);
                proof {
                    assert(Seq::new(out@.len(), |i: int| out@[i] as nat) =~= before.push(n as nat));
                }
            },
            None => {
                proof {
                    lemma_joltages_none(all, i + 1);
                }
                return None;
            },
        }
        i += 1;
    }
    proof {
        assert(all.take(i as int) =~= all);
    }
    Some(out)
}

impl Machine {
    /// The machine that the parts of a record give: the lights, the index lists of
    /// the buttons and the joltages in braces.
    pub fn assemble(lights: &Vec<u8>, groups: &Vec<Vec<u8>>, joltages: &Vec<u8>) -> (out: Result<
        Machine,
        ParseMachineError,
    >)
        ensures
            match out {
                Ok(m) => assembled(lights@, views(groups@), joltages@) == Ok::<
                    MachineView,
                    ParseMachineError,
                >(m@),
                Err(e) => assembled(lights@, views(groups@), joltages@) == Err::<
                    MachineView,
                    ParseMachineError,
                >(e),
            },
    {
        let ghost all = views(groups@);
        let width = lights.len();
        if width > 64 {
            return Err(ParseMachineError::InvalidSyntax);
        }
        let target = read_lights(lights);
        let mut buttons: Vec<u64> = Vec::new();
        let mut failed = false;
        let mut i: usize = 0;
        while i < groups.len() && !failed
            invariant
                i <= groups@.len(),
                width <= 64,
                all == views(groups@),
                failed ==> masks_of(all, width as nat) is None,
                !failed ==> masks_of(all.take(i as int), width as nat) == Some(buttons@),
            decreases groups@.len() - i + if failed { 0int } else { 1int },
        {
            proof {
                assert(all.take(i + 1).drop_last() =~= all.take(i as int));
                assert(all.take(i + 1).last() == groups@[i as int]@);
            }
            let tokens = split(&groups[i], 44);
            match read_mask(&tokens) {
                Some(m) => {
                    buttons.push(reverse_bits(m, width));
                    i += 1;
                },
                None => {
                    proof {
                        lemma_masks_none(all, width as nat, i + 1);
                    }
                    failed = true;
                },
            }
        }
        proof {
            if !failed {
                assert(all.take(i as int) =~= all);
            }
        }
        let inner = strip_braces(joltages);
        let tokens = split(&inner, 44);
        match read_joltages(&tokens) {
            None => Err(ParseMachineError::InvalidNumber),
            Some(numbers) => {
                if failed {
                    Err(ParseMachineError::InvalidNumber)
                } else {
                    Ok(Machine { joltages: numbers, buttons, width, target })
                }
            },
        }
    }

    /// Reads a machine from its record: the lights in square brackets, the buttons as
    /// lists of light indices in round brackets, and the joltages in braces.
    pub fn from_str(s: &str) -> (out: Result<Machine, ParseMachineError>)
        ensures
            match out {
                Ok(m) => record_of(s.spec_bytes()) == Ok::<MachineView, ParseMachineError>(m@),
                Err(e) => record_of(s.spec_bytes()) == Err::<MachineView, ParseMachineError>(e),
            },
    {
        let text = s.as_bytes_vec();
        let parts = match captures(
            r"\[(?<target>[\.#]{1,64})\] (?<buttons>.+?) (?P<joltages>\{([\d,]+)\})",
            &text,
        ) {
            None => {
                return Err(ParseMachineError::InvalidSyntax);
            },
            Some(parts) => parts,
        };
        if parts.len() < 4 {
            return Err(ParseMachineError::InvalidSyntax);
        }
        match (&parts[1], &parts[2], &parts[3]) {
            (Some(lights), Some(buttons), Some(joltages)) => {
                let matches = captures_iter(r"\((?<indices>[\d,]+)\)", buttons);
                match collect_groups(&matches) {
                    Some(groups) => Machine::assemble(lights, &groups, joltages),
                    None => Err(ParseMachineError::InvalidSyntax),
                }
            },
            _ => Err(ParseMachineError::InvalidSyntax),
        }
    }

    /// The number of buttons of the first set, in the order of the enumerator, that
    /// turns on the lights wanted and no others when each of its buttons is pressed
    /// once; `None` if no set does. That is the least number of buttons of such a set.
    pub fn fewest_toggles(&self) -> (out: Option<usize>)
        requires
            self.buttons@.len() < 64,
        ensures
            match out {
                Some(count) => (exists|mask: nat|
                    mask < pow2(self.buttons@.len()) && #[trigger] hits(
                        self.buttons@,
                        self.target,
                        mask,
                    ) && bits(mask) == count) && forall|mask: nat|
                    mask < pow2(self.buttons@.len()) && #[trigger] hits(
                        self.buttons@,
                        self.target,
                        mask,
                    ) ==> count <= bits(mask),
                None => forall|mask: nat|
                    mask < pow2(self.buttons@.len()) ==> !#[trigger] hits(
                        self.buttons@,
                        self.target,
                        mask,
                    ),
            },
            match out {
                Some(count) => exists|j: int|
                    0 <= j < subsets(self.buttons@.len()).len() && hits(
                        self.buttons@,
                        self.target,
                        #[trigger] subsets(self.buttons@.len())[j],
                    ) && count == set_bits(subsets(self.buttons@.len())[j], 0).len() && forall|i: int|
                        0 <= i < j ==> !hits(
                            self.buttons@,
                            self.target,
                            #[trigger] subsets(self.buttons@.len())[i],
                        ),
                None => forall|i: int|
                    0 <= i < subsets(self.buttons@.len()).len() ==> !hits(
                        self.buttons@,
                        self.target,
                        #[trigger] subsets(self.buttons@.len())[i],
                    ),
            },
    {
        let n = self.buttons.len();
        let ghost all = subsets(n as nat);
        let mut sets = Permutations::new(n);
        let ghost mut seen: int = 0;
        proof {
            assert(all.skip(0) =~= all);
            lemma_subsets_bound(n as nat);
            lemma_subsets(n as nat);
        }
        loop
            invariant
                n == self.buttons@.len(),
                all == subsets(n as nat),
                sets.wf(),
                0 <= seen <= all.len(),
                sets@ == all.skip(seen),
                forall|j: int| 0 <= j < all.len() ==> #[trigger] all[j] < pow2(n as nat),
                forall|i: int| 0 <= i < seen ==> !hits(self.buttons@, self.target, #[trigger] all[i]),
                forall|i: int, j: int|
                    0 <= i <= j < all.len() ==> bits(#[trigger] all[i]) <= bits(#[trigger] all[j]),
                forall|t: nat| t < pow2(n as nat) ==> #[trigger] all.contains(t),
            decreases sets@.len(),
        {
            match sets.next() {
                None => {
                    proof {
                        assert forall|mask: nat| mask < pow2(n as nat) implies !#[trigger] hits(
                            self.buttons@,
                            self.target,
                            mask,
                        ) by {
                            assert(all.contains(mask));
                            let i = choose|i: int| 0 <= i < all.len() && all[i] == mask;
                            assert(!hits(self.buttons@, self.target, all[i]));
                        }
                    }
                    return None;
                },
                Some(indices) => {
                    proof {
                        assert(all.skip(seen)[0] == all[seen]);
                        assert(all.skip(seen).skip(1) =~= all.skip(seen + 1));
                        lemma_set_bits_bound(all[seen], 0, n as nat);
                        assert forall|j: int| 0 <= j < indices@.len() implies indices@[j] < n by {
                            assert(ints(indices@)[j] == set_bits(all[seen], 0)[j]);
                        }
                    }
                    let outcome = toggle(&self.buttons, &indices);
                    if outcome == self.target {
                        proof {
                            assert(ints(indices@).len() == indices@.len());
                            assert(hits(self.buttons@, self.target, all[seen]));
                            assert forall|mask: nat|
                                mask < pow2(n as nat) && #[trigger] hits(
                                    self.buttons@,
                                    self.target,
                                    mask,
                                ) implies indices@.len() <= bits(mask) by {
                                assert(all.contains(mask));
                                let i = choose|i: int| 0 <= i < all.len() && all[i] == mask;
                                if i < seen {
                                    assert(!hits(self.buttons@, self.target, all[i]));
                                }
                                assert(bits(all[seen]) <= bits(all[i]));
                            }
                        }
                        return Some(indices.len());
                    }
                    proof {
                        seen = seen + 1;
                    }
                },
            }
        }
    }
}


/// The number of bits of a number that are set.
pub open spec fn bits(p: nat) -> nat {
    set_bits(p, 0).len()
}

/// The number of set bits does not depend on the place of the lowest bit.
pub proof fn lemma_set_bits_len(p: nat, from: int, other: int)
    ensures
        set_bits(p, from).len() == set_bits(p, other).len(),
    decreases p,
{
    if p > 0 {
        lemma_set_bits_len(p / 2, from + 1, other + 1);
    }
}

/// Twice a number has its set bits, and one more has one more.
pub proof fn lemma_bits_double(v: nat)
    ensures
        bits(2 * v) == bits(v),
        bits(2 * v + 1) == bits(v) + 1,
{
    lemma_set_bits_len(v, 1, 0);
    assert((2 * v) / 2 == v && (2 * v + 1) / 2 == v);
}

/// A number with zeros below it has its set bits.
pub proof fn lemma_bits_shift(v: nat, n: nat)
    ensures
        bits(v * pow2(n)) == bits(v),
    decreases n,
{
    if n == 0 {
        lemma2_to64();
        assert(v * pow2(0) == v) by (nonlinear_arith)
            requires
                pow2(0) == 1,
        ;
    } else {
        lemma_pow2_unfold(n);
        lemma_bits_shift(v, (n - 1) as nat);
        let q = v * pow2((n - 1) as nat);
        assert(v * pow2(n) == 2 * q) by (nonlinear_arith)
            requires
                pow2(n) == 2 * pow2((n - 1) as nat),
                q == v * pow2((n - 1) as nat),
        ;
        lemma_bits_double(q);
    }
}

/// A number below `2^m` with the bit `m` set above it has one set bit more.
pub proof fn lemma_bits_top(t: nat, m: nat)
    requires
        t < pow2(m),
    ensures
        bits(pow2(m) + t) == bits(t) + 1,
    decreases m,
{
    if m == 0 {
        lemma2_to64();
        lemma_bits_double(0);
        assert(set_bits(0, 0).len() == 0);
    } else {
        lemma_pow2_unfold(m);
        let h = pow2((m - 1) as nat);
        lemma_bits_top(t / 2, (m - 1) as nat);
        let half = h + t / 2;
        assert(pow2(m) + t == 2 * half + t % 2);
        lemma_bits_double(half);
        lemma_bits_double(t / 2);
        assert(t == 2 * (t / 2) + t % 2);
    }
}

/// A number below `2^n` has `n` set bits at most.
pub proof fn lemma_bits_bound(t: nat, n: nat)
    requires
        t < pow2(n),
    ensures
        bits(t) <= n,
    decreases t,
{
    if t > 0 {
        if n == 0 {
            lemma2_to64();
        } else {
            lemma_pow2_unfold(n);
            lemma_bits_bound(t / 2, (n - 1) as nat);
            lemma_bits_double(t / 2);
            assert(t == 2 * (t / 2) + t % 2);
        }
    }
}

/// The numbers that are enumerated with `k` more bits have `k` more set bits.
pub proof fn lemma_patterns_bits(n: nat, k: nat, v: nat)
    ensures
        forall|j: int| 0 <= j < patterns(n, k, v).len() ==> bits(#[trigger] patterns(n, k, v)[j]) == bits(v) + k,
    decreases n,
{
    if k == 0 {
        lemma_bits_shift(v, n);
    } else if n > 0 {
        lemma_patterns_bits((n - 1) as nat, (k - 1) as nat, 2 * v + 1);
        lemma_patterns_bits((n - 1) as nat, k, 2 * v);
        lemma_bits_double(v);
        let first = patterns((n - 1) as nat, (k - 1) as nat, 2 * v + 1);
        let second = patterns((n - 1) as nat, k, 2 * v);
        assert forall|j: int| 0 <= j < patterns(n, k, v).len() implies bits(
            #[trigger] patterns(n, k, v)[j],
        ) == bits(v) + k by {
            if j < first.len() {
                assert(patterns(n, k, v)[j] == first[j]);
            } else {
                assert(patterns(n, k, v)[j] == second[j - first.len()]);
            }
        }
    }
}

/// Every number with `k` set bits among its lowest `n` bits is enumerated.
pub proof fn lemma_patterns_complete(n: nat, k: nat, v: nat, t: nat)
    requires
        t < pow2(n),
        bits(t) == k,
    ensures
        patterns(n, k, v).contains(v * pow2(n) + t),
    decreases n,
{
    if n == 0 {
        lemma2_to64();
        assert(set_bits(0, 0).len() == 0);
        assert(patterns(n, k, v)[0] == v * pow2(n) + t);
    } else {
        lemma_pow2_unfold(n);
        let h = pow2((n - 1) as nat);
        let first = patterns((n - 1) as nat, (k - 1) as nat, 2 * v + 1);
        let second = patterns((n - 1) as nat, k, 2 * v);
        if t >= h {
            let rest = (t - h) as nat;
            lemma_bits_top(rest, (n - 1) as nat);
            lemma_patterns_complete((n - 1) as nat, (k - 1) as nat, 2 * v + 1, rest);
            assert((2 * v + 1) * h + rest == v * pow2(n) + t) by (nonlinear_arith)
                requires
                    pow2(n) == 2 * h,
                    rest == t - h,
            ;
            let j = choose|j: int| 0 <= j < first.len() && first[j] == (2 * v + 1) * h + rest;
            assert(patterns(n, k, v)[j] == first[j]);
        } else if k == 0 {
            lemma_bits_zero(t);
            assert(patterns(n, k, v)[0] == v * pow2(n) + t);
        } else {
            lemma_bits_bound(t, (n - 1) as nat);
            lemma_patterns_complete((n - 1) as nat, k, 2 * v, t);
            assert((2 * v) * h + t == v * pow2(n) + t) by (nonlinear_arith)
                requires
                    pow2(n) == 2 * h,
            ;
            let j = choose|j: int| 0 <= j < second.len() && second[j] == (2 * v) * h + t;
            assert(patterns(n, k, v)[first.len() + j] == second[j]);
        }
    }
}

/// Only zero has no set bit.
pub proof fn lemma_bits_zero(t: nat)
    requires
        bits(t) == 0,
    ensures
        t == 0,
{
    if t > 0 {
        lemma_bits_double(t / 2);
        assert(t == 2 * (t / 2) + t % 2);
        if t % 2 == 0 {
            lemma_bits_zero_half(t / 2);
        }
    }
}

proof fn lemma_bits_zero_half(t: nat)
    requires
        bits(t) == 0,
    ensures
        t == 0,
    decreases t,
{
    if t > 0 {
        lemma_bits_double(t / 2);
        assert(t == 2 * (t / 2) + t % 2);
        if t % 2 == 0 {
            lemma_bits_zero_half(t / 2);
        }
    }
}

/// The sets with more than `k` indices are enumerated by rising size, and each such
/// set is enumerated.
pub proof fn lemma_rounds(n: nat, k: nat)
    ensures
        forall|j: int| 0 <= j < rounds(n, k).len() ==> bits(#[trigger] rounds(n, k)[j]) > k,
        forall|i: int, j: int|
            0 <= i <= j < rounds(n, k).len() ==> bits(#[trigger] rounds(n, k)[i]) <= bits(
                #[trigger] rounds(n, k)[j],
            ),
        forall|t: nat| t < pow2(n) && bits(t) > k ==> #[trigger] rounds(n, k).contains(t),
    decreases n - k,
{
    if k < n {
        let first = patterns(n, k + 1, 0);
        let rest = rounds(n, k + 1);
        let all = rounds(n, k);
        lemma_rounds(n, k + 1);
        lemma_patterns_bits(n, k + 1, 0);
        assert(set_bits(0, 0).len() == 0);
        assert forall|j: int| 0 <= j < all.len() implies bits(#[trigger] all[j]) > k && (j
            < first.len() ==> bits(all[j]) == k + 1) && (j >= first.len() ==> bits(all[j]) > k
            + 1) by {
            if j < first.len() {
                assert(all[j] == first[j]);
            } else {
                assert(all[j] == rest[j - first.len()]);
            }
        }
        assert forall|i: int, j: int| 0 <= i <= j < all.len() implies bits(#[trigger] all[i])
            <= bits(#[trigger] all[j]) by {
            if i >= first.len() {
                assert(all[i] == rest[i - first.len()]);
                assert(all[j] == rest[j - first.len()]);
            }
        }
        assert forall|t: nat| t < pow2(n) && bits(t) > k implies #[trigger] all.contains(t) by {
            if bits(t) == k + 1 {
                lemma_patterns_complete(n, k + 1, 0, t);
                assert(0 * pow2(n) + t == t) by (nonlinear_arith);
                let j = choose|j: int| 0 <= j < first.len() && first[j] == t;
                assert(all[j] == t);
            } else {
                assert(rounds(n, k + 1).contains(t));
                let j = choose|j: int| 0 <= j < rest.len() && rest[j] == t;
                assert(all[first.len() + j] == t);
            }
        }
    } else {
        assert forall|t: nat| t < pow2(n) && bits(t) > k implies #[trigger] rounds(n, k).contains(
            t,
        ) by {
            lemma_bits_bound(t, n);
        }
    }
}

/// The sets of indices below `n` are enumerated by rising size, and each set is
/// enumerated.
pub proof fn lemma_subsets(n: nat)
    ensures
        forall|i: int, j: int|
            0 <= i <= j < subsets(n).len() ==> bits(#[trigger] subsets(n)[i]) <= bits(
                #[trigger] subsets(n)[j],
            ),
        forall|t: nat| t < pow2(n) ==> #[trigger] subsets(n).contains(t),
{
    let all = subsets(n);
    let rest = rounds(n, 0);
    lemma_rounds(n, 0);
    assert(set_bits(0, 0).len() == 0);
    assert forall|i: int, j: int| 0 <= i <= j < all.len() implies bits(#[trigger] all[i]) <= bits(
        #[trigger] all[j],
    ) by {
        if i > 0 {
            assert(all[i] == rest[i - 1]);
            assert(all[j] == rest[j - 1]);
        }
    }
    assert forall|t: nat| t < pow2(n) implies #[trigger] all.contains(t) by {
        if t == 0 {
            assert(all[0] == 0);
        } else {
            if bits(t) == 0 {
                lemma_bits_zero(t);
            }
            assert(rounds(n, 0).contains(t));
            let j = choose|j: int| 0 <= j < rest.len() && rest[j] == t;
            assert(all[j + 1] == t);
        }
    }
}

} // verus!
