use vstd::prelude::*;
use std::collections::HashMap;
use crate::vector::{nats, table, total, zeros};

use crate::compositions::{compositions, lemma_compositions_complete, Permutations};
use crate::search::{ascending, fewer, iota, lemma_ascending_len, origin, Puzzle};


verus! {

broadcast use vstd::std_specs::hash::group_hash_axioms;

/// The numbers of a list of button indices.
pub open spec fn ints(s: Seq<usize>) -> Seq<int> {
    Seq::new(s.len(), |i: int| s[i] as int)
}

/// A result as a natural number.
pub open spec fn opt_nat(o: Option<u64>) -> Option<nat> {
    match o {
        Some(n) => Some(n as nat),
        None => None,
    }
}

/// A dimension's index as a number.
pub open spec fn opt_int(o: Option<usize>) -> Option<int> {
    match o {
        Some(n) => Some(n as int),
        None => None,
    }
}

/// The bit mask with a bit set for each of the indices.
pub open spec fn mask_of(ids: Seq<int>) -> u64
    decreases ids.len(),
{
    if ids.len() == 0 {
        0
    } else {
        mask_of(ids.drop_last()) | (1u64 << (ids.last() as u64))
    }
}

/// Bit `k` of the mask is set.
pub open spec fn has_bit(mask: u64, k: int) -> bool {
    (mask >> (k as u64)) & 1 == 1
}

/// Whether two vectors are equal.
pub fn same(a: &Vec<u32>, b: &Vec<u32>) -> (out: bool)
    ensures
        out == (a@ == b@),
{
    if a.len() != b.len() {
        return false;
    }
    let mut i: usize = 0;
    while i < a.len()
        invariant
            i <= a@.len(),
            a@.len() == b@.len(),
            forall|j: int| 0 <= j < i ==> a@[j] == b@[j],
        decreases a@.len() - i,
    {
        if a[i] != b[i] {
            return false;
        }
        i += 1;
    }
    proof {
        assert(a@ =~= b@);
    }
    true
}

/// The sum of the components of a vector.
pub fn sum_of(v: &Vec<u32>) -> (out: u64)
    requires
        v@.len() <= u32::MAX,
    ensures
        out == total(nats(v@)),
{
    let ghost w = nats(v@);
    let mut sum: u64 = 0;
    let mut i: usize = 0;
    while i < v.len()
        invariant
            i <= v@.len(),
            v@.len() <= u32::MAX,
            w == nats(v@),
            sum == total(w.take(i as int)),
            sum <= i * u32::MAX,
        decreases v@.len() - i,
    {
        proof {
            assert(w.take(i + 1).drop_last() =~= w.take(i as int));
            assert(i * u32::MAX + u32::MAX <= u32::MAX * u32::MAX) by (nonlinear_arith)
                requires
                    i < u32::MAX,
            ;
        }
        sum = sum + v[i] as u64;
        i += 1;
    }
    proof {
        assert(w.take(i as int) =~= w);
    }
    sum
}

/// A state of the search and the buttons that may still be pressed from it.
pub struct MemoKey {
    current: Vec<u32>,
    remaining_mask: u64,
}

/// The results that a search has found so far, each under the state it was found for.
pub struct Memo {
    slots: HashMap<u64, Vec<(MemoKey, Option<u64>)>>,
}

/// The entry holds what the search returns for its key.
pub closed spec fn holds(pz: Puzzle, e: (MemoKey, Option<u64>)) -> bool {
    known(pz, e.0.current@, e.0.remaining_mask, e.1)
}

/// `answer` is what the search returns from `current` with the buttons of `mask`.
pub open spec fn known(pz: Puzzle, current: Seq<u32>, mask: u64, answer: Option<u64>) -> bool {
    forall|ids: Seq<int>|
        mask_of(ids) == mask && ascending(ids) && pz.valid_ids(ids) ==> opt_nat(answer)
            == #[trigger] pz.search(nats(current), ids)
}

/// Where a key is kept: a number made of the state and the mask.
pub open spec fn fingerprint(current: Seq<u32>, mask: u64) -> u64
    decreases current.len(),
{
    if current.len() == 0 {
        mask
    } else {
        ((fingerprint(current.drop_last(), mask) * 31 + current.last()) % 0x1_0000_0000_0000_0000) as u64
    }
}

/// Computes where a key is kept.
pub fn slot(current: &Vec<u32>, mask: u64) -> (out: u64)
    ensures
        out == fingerprint(current@, mask),
{
    let mut h: u64 = mask;
    let mut i: usize = 0;
    while i < current.len()
        invariant
            i <= current@.len(),
            h == fingerprint(current@.take(i as int), mask),
        decreases current@.len() - i,
    {
        proof {
            assert(current@.take(i + 1).drop_last() =~= current@.take(i as int));
        }
        let wide: u128 = (h as u128 * 31 + current[i] as u128) % 0x1_0000_0000_0000_0000u128;
        h = wide as u64;
        i += 1;
    }
    proof {
        assert(current@.take(i as int) =~= current@);
    }
    h
}

/// Setting a bit of a mask sets that bit and leaves the others; no bit of zero is set.
proof fn lemma_bit_or(m: u64, a: u64, b: u64)
    requires
        a < 64,
        b < 64,
    ensures
        has_bit(m | (1u64 << a), b as int) == (has_bit(m, b as int) || a == b),
        !has_bit(0, b as int),
{
    assert(((m | (1u64 << a)) >> b) & 1 == 1 <==> (((m >> b) & 1 == 1) || a == b)) by (bit_vector)
        requires
            a < 64,
            b < 64,
    ;
    assert((0u64 >> b) & 1 == 0) by (bit_vector)
        requires
            b < 64,
    ;
}

/// A bit of the mask is set exactly if its index is among the indices.
pub proof fn lemma_mask_bits(ids: Seq<int>, k: int)
    requires
        forall|j: int| 0 <= j < ids.len() ==> 0 <= #[trigger] ids[j] < 64,
        0 <= k < 64,
    ensures
        has_bit(mask_of(ids), k) == ids.contains(k),
    decreases ids.len(),
{
    if ids.len() == 0 {
        lemma_bit_or(0, 0, k as u64);
    } else {
        let rest = ids.drop_last();
        let last = ids.last();
        lemma_mask_bits(rest, k);
        lemma_bit_or(mask_of(rest), last as u64, k as u64);
        if rest.contains(k) {
            let j = choose|j: int| 0 <= j < rest.len() && rest[j] == k;
            assert(ids[j] == k);
        }
        if ids.contains(k) {
            let j = choose|j: int| 0 <= j < ids.len() && ids[j] == k;
            if j < rest.len() {
                assert(rest[j] == k);
            }
        }
        if last == k {
            assert(ids[ids.len() - 1] == k);
        }
    }
}

/// Two rising lists with the same members are the same list.
proof fn lemma_same_members(a: Seq<int>, b: Seq<int>)
    requires
        ascending(a),
        ascending(b),
        forall|x: int| a.contains(x) == b.contains(x),
    ensures
        a == b,
    decreases a.len(),
{
    if a.len() == 0 {
        if b.len() > 0 {
            assert(b.contains(b[0]));
        }
        assert(a =~= b);
    } else {
        assert(a.contains(a[0]));
        assert(b.len() > 0);
        let la = a.last();
        let lb = b.last();
        assert(a.contains(a[a.len() - 1]));
        assert(b.contains(b[b.len() - 1]));
        let i = choose|i: int| 0 <= i < a.len() && a[i] == lb;
        let j = choose|j: int| 0 <= j < b.len() && b[j] == la;
        assert(la == lb);
        let fa = a.drop_last();
        let fb = b.drop_last();
        assert forall|x: int| fa.contains(x) == fb.contains(x) by {
            if fa.contains(x) {
                let p = choose|p: int| 0 <= p < fa.len() && fa[p] == x;
                assert(a[p] == x);
                assert(a.contains(x));
                let q = choose|q: int| 0 <= q < b.len() && b[q] == x;
                assert(fb[q] == x);
            }
            if fb.contains(x) {
                let p = choose|p: int| 0 <= p < fb.len() && fb[p] == x;
                assert(b[p] == x);
                assert(b.contains(x));
                let q = choose|q: int| 0 <= q < a.len() && a[q] == x;
                assert(fa[q] == x);
            }
        }
        lemma_same_members(fa, fb);
        assert(a =~= fa.push(la));
        assert(b =~= fb.push(lb));
    }
}

/// Two rising lists of button indices with the same mask are the same list.
pub proof fn lemma_mask_injective(a: Seq<int>, b: Seq<int>)
    requires
        ascending(a),
        ascending(b),
        forall|j: int| 0 <= j < a.len() ==> 0 <= #[trigger] a[j] < 64,
        forall|j: int| 0 <= j < b.len() ==> 0 <= #[trigger] b[j] < 64,
        mask_of(a) == mask_of(b),
    ensures
        a == b,
{
    assert forall|x: int| a.contains(x) == b.contains(x) by {
        if 0 <= x < 64 {
            lemma_mask_bits(a, x);
            lemma_mask_bits(b, x);
        }
    }
    lemma_same_members(a, b);
}

/// The lesser of two results.
pub fn least(a: Option<u64>, b: Option<u64>) -> (out: Option<u64>)
    ensures
        opt_nat(out) == fewer(opt_nat(a), opt_nat(b)),
{
    match (a, b) {
        (None, _) => b,
        (_, None) => a,
        (Some(p), Some(q)) => Some(if p <= q { p } else { q }),
    }
}

/// What the first of the first `n` entries with the key holds, if there is one.
pub closed spec fn first_match(
    bucket: Seq<(MemoKey, Option<u64>)>,
    current: Seq<u32>,
    mask: u64,
    n: nat,
) -> Option<Option<u64>>
    decreases n,
{
    if n == 0 {
        None
    } else {
        match first_match(bucket, current, mask, (n - 1) as nat) {
            Some(answer) => Some(answer),
            None => if bucket[n - 1].0.current@ == current && bucket[n - 1].0.remaining_mask == mask {
                Some(bucket[n - 1].1)
            } else {
                None
            },
        }
    }
}

/// The entry that is found is one of the entries, and it has the key.
proof fn lemma_first_match_at(
    bucket: Seq<(MemoKey, Option<u64>)>,
    current: Seq<u32>,
    mask: u64,
    n: nat,
) -> (i: int)
    requires
        n <= bucket.len(),
        first_match(bucket, current, mask, n) is Some,
    ensures
        0 <= i < n,
        bucket[i].0.current@ == current,
        bucket[i].0.remaining_mask == mask,
        first_match(bucket, current, mask, n) == Some(bucket[i].1),
    decreases n,
{
    if first_match(bucket, current, mask, (n - 1) as nat) is Some {
        lemma_first_match_at(bucket, current, mask, (n - 1) as nat)
    } else {
        n - 1
    }
}

/// What is found among the first entries is what is found among more.
proof fn lemma_first_match_more(
    bucket: Seq<(MemoKey, Option<u64>)>,
    current: Seq<u32>,
    mask: u64,
    n: nat,
    m: nat,
)
    requires
        n <= m,
        first_match(bucket, current, mask, n) is Some,
    ensures
        first_match(bucket, current, mask, m) == first_match(bucket, current, mask, n),
    decreases m - n,
{
    if n < m {
        lemma_first_match_more(bucket, current, mask, n, (m - 1) as nat);
    }
}

/// One more entry at the end changes nothing among the entries before it.
proof fn lemma_first_match_push(
    bucket: Seq<(MemoKey, Option<u64>)>,
    entry: (MemoKey, Option<u64>),
    current: Seq<u32>,
    mask: u64,
    n: nat,
)
    requires
        n <= bucket.len(),
    ensures
        first_match(bucket.push(entry), current, mask, n) == first_match(bucket, current, mask, n),
    decreases n,
{
    if n > 0 {
        lemma_first_match_push(bucket, entry, current, mask, (n - 1) as nat);
    }
}

impl Memo {
    /// Every entry holds what the search for `pz` returns for its key.
    pub closed spec fn wf(&self, pz: Puzzle) -> bool {
        forall|h: u64, i: int|
            self.slots@.contains_key(h) && 0 <= i < self.slots@[h]@.len() ==> holds(
                pz,
                #[trigger] self.slots@[h]@[i],
            )
    }

    /// What the table holds for the state `current` and the buttons of `mask`, if it
    /// holds anything for them.
    pub closed spec fn held(&self, current: Seq<u32>, mask: u64) -> Option<Option<u64>> {
        let h = fingerprint(current, mask);
        if self.slots@.contains_key(h) {
            first_match(self.slots@[h]@, current, mask, self.slots@[h]@.len())
        } else {
            None
        }
    }

    /// What a well-formed table holds is what the search returns.
    pub proof fn lemma_held_known(&self, pz: Puzzle, current: Seq<u32>, mask: u64)
        requires
            self.wf(pz),
            self.held(current, mask) is Some,
        ensures
            known(pz, current, mask, self.held(current, mask)->Some_0),
    {
        let h = fingerprint(current, mask);
        let bucket = self.slots@[h]@;
        let i = lemma_first_match_at(bucket, current, mask, bucket.len());
        assert(holds(pz, self.slots@[h]@[i]));
    }

    /// A table without entries.
    pub fn new() -> (out: Self)
        ensures
            forall|pz: Puzzle| out.wf(pz),
            forall|current: Seq<u32>, mask: u64| out.held(current, mask) is None,
    {
        Memo { slots: HashMap::new() }
    }
}

/// A search for the fewest presses that reach a target.
pub struct Solver {
    target: Vec<u32>,
    buttons: Vec<Vec<u32>>,
    len: usize,
}

impl View for Solver {
    type V = Puzzle;

    /// The target and the buttons as natural numbers.
    closed spec fn view(&self) -> Puzzle {
        Puzzle { target: nats(self.target@), buttons: table(self.buttons@) }
    }
}

impl Solver {
    /// There are at most 64 buttons, each with one component for each dimension of
    /// the target.
    pub closed spec fn wf(&self) -> bool {
        &&& self.len == self.target@.len()
        &&& self.buttons@.len() <= 64
        &&& self@.wf()
    }

    /// The indices rise strictly and each is that of a button.
    pub open spec fn usable(&self, ids: Seq<usize>) -> bool {
        ascending(ints(ids)) && self@.valid_ids(ints(ids))
    }

    /// A solver for the target and the buttons.
    pub fn new(target: Vec<u32>, buttons: Vec<Vec<u32>>) -> (out: Self)
        ensures
            out@ == (Puzzle { target: nats(target@), buttons: table(buttons@) }),
            out.wf() <==> buttons@.len() <= 64 && out@.wf(),
    {
        let len = target.len();
        Self { target, buttons, len }
    }

    /// The bit mask of the buttons that may still be pressed.
    pub fn remaining_mask(&self, remaining_buttons: &Vec<usize>) -> (out: u64)
        requires
            forall|j: int| 0 <= j < remaining_buttons@.len() ==> remaining_buttons@[j] < 64,
        ensures
            out == mask_of(ints(remaining_buttons@)),
            forall|k: int|
                0 <= k < 64 ==> has_bit(out, k) == #[trigger] ints(remaining_buttons@).contains(k),
    {
        let ghost ids = ints(remaining_buttons@);
        let mut mask: u64 = 0;
        let mut j: usize = 0;
        while j < remaining_buttons.len()
            invariant
                j <= remaining_buttons@.len(),
                ids == ints(remaining_buttons@),
                forall|j: int| 0 <= j < remaining_buttons@.len() ==> remaining_buttons@[j] < 64,
                mask == mask_of(ids.take(j as int)),
            decreases remaining_buttons@.len() - j,
        {
            proof {
                assert(ids.take(j + 1).drop_last() =~= ids.take(j as int));
            }
            let id = remaining_buttons[j];
            let bit: u64 = 1u64 << (id as u64);
            mask = mask | bit;
            j += 1;
        }
        proof {
            assert(ids.take(j as int) =~= ids);
            assert forall|k: int| 0 <= k < 64 implies has_bit(mask, k) == #[trigger] ids.contains(
                k,
            ) by {
                lemma_mask_bits(ids, k);
            }
        }
        mask
    }

    /// The sum of what the buttons add to dimension `d` at one press each.
    pub fn frequency(&self, button_ids: &Vec<usize>, d: usize) -> (out: u64)
        requires
            self.wf(),
            d < self@.target.len(),
            self@.valid_ids(ints(button_ids@)),
            button_ids@.len() <= 64,
        ensures
            out == self@.frequency(ints(button_ids@), d as int),
    {
        let ghost ids = ints(button_ids@);
        let mut sum: u64 = 0;
        let mut j: usize = 0;
        while j < button_ids.len()
            invariant
                j <= button_ids@.len(),
                self.wf(),
                d < self@.target.len(),
                ids == ints(button_ids@),
                self@.valid_ids(ids),
                button_ids@.len() <= 64,
                sum == self@.frequency(ids.take(j as int), d as int),
                sum <= j * u32::MAX,
            decreases button_ids@.len() - j,
        {
            proof {
                assert(ids.take(j + 1).drop_last() =~= ids.take(j as int));
                assert(0 <= ids[j as int] < self.buttons@.len());
                assert(self@.buttons[ids[j as int]].len() == self.len);
            }
            sum = sum + self.buttons[button_ids[j]][d] as u64;
            j += 1;
        }
        proof {
            assert(ids.take(j as int) =~= ids);
        }
        sum
    }

    /// The dimension to branch on: of the dimensions that are still short of the
    /// target, the first of those to which the buttons add least; `None` if no
    /// dimension is short.
    pub fn least_frequent(&self, button_ids: &Vec<usize>, current: &Vec<u32>) -> (out: Option<usize>)
        requires
            self.wf(),
            current@.len() == self@.target.len(),
            self@.valid_ids(ints(button_ids@)),
            button_ids@.len() <= 64,
        ensures
            opt_int(out) == self@.pick(nats(current@), ints(button_ids@)),
            match out {
                Some(d) => d < self@.target.len() && nats(current@)[d as int] < self@.target[d as int]
                    && forall|e: int|
                    0 <= e < self@.target.len() && nats(current@)[e] < self@.target[e]
                        ==> self@.frequency(
                        ints(button_ids@),
                        d as int,
                    ) < #[trigger] self@.frequency(ints(button_ids@), e) || (self@.frequency(
                        ints(button_ids@),
                        d as int,
                    ) == self@.frequency(ints(button_ids@), e) && d <= e),
                None => forall|e: int|
                    0 <= e < self@.target.len() ==> #[trigger] nats(current@)[e] >= self@.target[e],
            },
    {
        let ghost ids = ints(button_ids@);
        let ghost cur = nats(current@);
        let mut best: Option<usize> = None;
        let mut least: u64 = 0;
        let mut d: usize = 0;
        while d < self.len
            invariant
                d <= self.len,
                self.wf(),
                current@.len() == self@.target.len(),
                ids == ints(button_ids@),
                cur == nats(current@),
                self@.valid_ids(ids),
                button_ids@.len() <= 64,
                opt_int(best) == self@.pick_upto(cur, ids, d as nat),
                best is Some ==> best->Some_0 < d && least == self@.frequency(
                    ids,
                    best->Some_0 as int,
                ),
            decreases self.len - d,
        {
            if current[d] < self.target[d] {
                let f = self.frequency(button_ids, d);
                if best.is_none() || f < least {
                    best = Some(d);
                    least = f;
                }
            }
            d += 1;
        }
        proof {
            self@.lemma_pick_upto(cur, ids, self@.target.len());
            if best is Some {
                let d = best->Some_0 as int;
                assert forall|e: int|
                    0 <= e < self@.target.len() && cur[e] < self@.target[e] implies self@.frequency(
                    ids,
                    d,
                ) < #[trigger] self@.frequency(ids, e) || (self@.frequency(ids, d)
                    == self@.frequency(ids, e) && d <= e) by {}
            } else {
                assert forall|e: int| 0 <= e < self@.target.len() implies #[trigger] cur[e]
                    >= self@.target[e] by {}
            }
        }
        best
    }

    /// Of the buttons, in order, those that add to dimension `d` (`wanted`), or those
    /// that do not.
    pub fn split(&self, button_ids: &Vec<usize>, d: usize, wanted: bool) -> (out: Vec<usize>)
        requires
            self.wf(),
            d < self@.target.len(),
            self@.valid_ids(ints(button_ids@)),
        ensures
            ints(out@) == self@.touching(ints(button_ids@), d as int, wanted),
    {
        let ghost ids = ints(button_ids@);
        let mut out: Vec<usize> = Vec::new();
        let mut j: usize = 0;
        proof {
            assert(ints(out@) =~= Seq::<int>::empty());
        }
        while j < button_ids.len()
            invariant
                j <= button_ids@.len(),
                self.wf(),
                d < self@.target.len(),
                ids == ints(button_ids@),
                self@.valid_ids(ids),
                ints(out@) == self@.touching(ids.take(j as int), d as int, wanted),
            decreases button_ids@.len() - j,
        {
            proof {
                assert(ids.take(j + 1).drop_last() =~= ids.take(j as int));
                assert(0 <= ids[j as int] < self.buttons@.len());
                assert(self@.buttons[ids[j as int]].len() == self.len);
            }
            let id = button_ids[j];
            let ghost before = ints(out@);
            if (self.buttons[id][d] > 0) == wanted {
                out.push(id);
                proof {
                    assert(ints(out@) =~= before.push(id as int));
                }
            }
            j += 1;
        }
        proof {
            assert(ids.take(j as int) =~= ids);
        }
        out
    }

    /// The least that one of the buttons adds to dimension `i` at a press; zero where
    /// there is no button.
    pub fn min_cost(&self, active: &Vec<usize>, i: usize) -> (out: u32)
        requires
            self.wf(),
            i < self@.target.len(),
            self@.valid_ids(ints(active@)),
        ensures
            out == self@.least_cost(ints(active@), i as int),
    {
        let ghost ids = ints(active@);
        let mut least: u32 = 0;
        let mut j: usize = 0;
        while j < active.len()
            invariant
                j <= active@.len(),
                self.wf(),
                i < self@.target.len(),
                ids == ints(active@),
                self@.valid_ids(ids),
                least == self@.least_cost(ids.take(j as int), i as int),
            decreases active@.len() - j,
        {
            proof {
                assert(ids.take(j + 1).drop_last() =~= ids.take(j as int));
                assert(0 <= ids[j as int] < self.buttons@.len());
                assert(self@.buttons[ids[j as int]].len() == self.len);
                assert(ids.take(j + 1)[0] == ids[0]);
            }
            let cost = self.buttons[active[j]][i];
            if j == 0 || cost < least {
                least = cost;
            }
            j += 1;
        }
        proof {
            assert(ids.take(j as int) =~= ids);
        }
        least
    }

    /// Whether the branch on dimension `d` is cut.
    pub fn is_pruned(&self, current: &Vec<u32>, active: &Vec<usize>, d: usize) -> (out: bool)
        requires
            self.wf(),
            d < self@.target.len(),
            current@.len() == self@.target.len(),
            self@.valid_ids(ints(active@)),
        ensures
            out == self@.pruned(nats(current@), ints(active@), d as int),
    {
        let ghost ids = ints(active@);
        let ghost cur = nats(current@);
        let needed = self.target[d].saturating_sub(current[d]);
        let mut i: usize = 0;
        while i < self.len
            invariant
                i <= self.len,
                self.wf(),
                d < self@.target.len(),
                current@.len() == self@.target.len(),
                ids == ints(active@),
                cur == nats(current@),
                self@.valid_ids(ids),
                needed == self@.space(cur, d as int),
                forall|e: int|
                    0 <= e < i && e != d ==> self@.space(cur, d as int) * self@.least_cost(ids, e)
                        <= self@.space(cur, e),
            decreases self.len - i,
        {
            if i != d {
                let room = self.target[i].saturating_sub(current[i]);
                let cost = self.min_cost(active, i);
                proof {
                    assert(room == self@.space(cur, i as int));
                    assert(needed as u64 * cost as u64 <= u32::MAX * u32::MAX) by (nonlinear_arith)
                        requires
                            needed <= u32::MAX,
                            cost <= u32::MAX,
                    ;
                }
                if needed as u64 * cost as u64 > room as u64 {
                    return true;
                }
            }
            i += 1;
        }
        false
    }

    /// How often button `k` can be pressed without overshooting a dimension; zero for
    /// a button that adds to none.
    pub fn cap(&self, current: &Vec<u32>, k: usize) -> (out: u32)
        requires
            self.wf(),
            current@.len() == self@.target.len(),
            k < self@.buttons.len(),
        ensures
            out == self@.cap(nats(current@), k as int),
    {
        let ghost cur = nats(current@);
        let mut least: Option<u32> = None;
        let mut i: usize = 0;
        proof {
            assert(self@.buttons[k as int].len() == self.len);
        }
        while i < self.len
            invariant
                i <= self.len,
                self.wf(),
                current@.len() == self@.target.len(),
                k < self@.buttons.len(),
                self.buttons@[k as int]@.len() == self.len,
                cur == nats(current@),
                match least {
                    Some(c) => self@.cap_upto(cur, k as int, i as nat) == Some(c as nat),
                    None => self@.cap_upto(cur, k as int, i as nat) is None,
                },
            decreases self.len - i,
        {
            let v = self.buttons[k][i];
            if v > 0 {
                let here = self.target[i].saturating_sub(current[i]) / v;
                proof {
                    assert(here == self@.space(cur, i as int) / self@.buttons[k as int][i as int]);
                }
                least = match least {
                    None => Some(here),
                    Some(c) => Some(if c <= here { c } else { here }),
                };
            }
            i += 1;
        }
        match least {
            Some(c) => c,
            None => 0,
        }
    }

    /// The caps of the buttons `active`.
    pub fn caps(&self, current: &Vec<u32>, active: &Vec<usize>) -> (out: Vec<u32>)
        requires
            self.wf(),
            current@.len() == self@.target.len(),
            self@.valid_ids(ints(active@)),
        ensures
            nats(out@) == self@.caps(nats(current@), ints(active@)),
    {
        let ghost ids = ints(active@);
        let mut out: Vec<u32> = Vec::new();
        let mut j: usize = 0;
        while j < active.len()
            invariant
                j <= active@.len(),
                self.wf(),
                current@.len() == self@.target.len(),
                ids == ints(active@),
                self@.valid_ids(ids),
                out@.len() == j,
                forall|q: int| 0 <= q < j ==> out@[q] == self@.cap(nats(current@), ids[q]),
            decreases active@.len() - j,
        {
            proof {
                assert(0 <= ids[j as int] < self@.buttons.len());
            }
            out.push(self.cap(current, active[j]));
            j += 1;
        }
        proof {
            assert(nats(out@) =~= self@.caps(nats(current@), ids));
        }
        out
    }

    /// What dimension `i` gains when button `active[j]` is pressed `counts[j]` times,
    /// for each `j`.
    pub fn gained(&self, active: &Vec<usize>, counts: &Vec<u32>, i: usize) -> (out: u128)
        requires
            self.wf(),
            i < self@.target.len(),
            self@.valid_ids(ints(active@)),
            active@.len() == counts@.len(),
            active@.len() <= 64,
        ensures
            out == self@.gain(ints(active@), nats(counts@), i as int),
            out <= 64 * 0x1_0000_0000_0000_0000,
    {
        let ghost ids = ints(active@);
        let ghost cs = nats(counts@);
        let mut sum: u128 = 0;
        let mut j: usize = 0;
        while j < active.len()
            invariant
                j <= active@.len(),
                self.wf(),
                i < self@.target.len(),
                ids == ints(active@),
                cs == nats(counts@),
                self@.valid_ids(ids),
                active@.len() == counts@.len(),
                active@.len() <= 64,
                sum == self@.gain(ids.take(j as int), cs.take(j as int), i as int),
                sum <= j * 0x1_0000_0000_0000_0000,
            decreases active@.len() - j,
        {
            proof {
                assert(ids.take(j + 1).drop_last() =~= ids.take(j as int));
                assert(cs.take(j + 1).drop_last() =~= cs.take(j as int));
                assert(0 <= ids[j as int] < self.buttons@.len());
                assert(self@.buttons[ids[j as int]].len() == self.len);
            }
            let count = counts[j];
            let step = self.buttons[active[j]][i];
            proof {
                assert(count as u128 * step as u128 <= 0x1_0000_0000_0000_0000) by (nonlinear_arith)
                    requires
                        count <= 0xffff_ffff,
                        step <= 0xffff_ffff,
                ;
            }
            sum = sum + count as u128 * step as u128;
            j += 1;
        }
        proof {
            assert(ids.take(j as int) =~= ids);
            assert(cs.take(j as int) =~= cs);
        }
        sum
    }

    /// The state after button `active[j]` has been pressed `counts[j]` times, for each
    /// `j`, if that overshoots no dimension and fills dimension `d` exactly.
    pub fn advance(&self, current: &Vec<u32>, active: &Vec<usize>, counts: &Vec<u32>, d: usize) -> (out:
        Option<Vec<u32>>)
        requires
            self.wf(),
            d < self@.target.len(),
            current@.len() == self@.target.len(),
            self@.valid_ids(ints(active@)),
            active@.len() == counts@.len(),
            active@.len() <= 64,
        ensures
            match out {
                Some(next) => self@.lands(nats(current@), ints(active@), nats(counts@), d as int)
                    && nats(next@) == self@.moved(nats(current@), ints(active@), nats(counts@)),
                None => !self@.lands(nats(current@), ints(active@), nats(counts@), d as int),
            },
    {
        let ghost ids = ints(active@);
        let ghost cs = nats(counts@);
        let ghost cur = nats(current@);
        let mut next: Vec<u32> = Vec::new();
        let mut i: usize = 0;
        while i < self.len
            invariant
                i <= self.len,
                self.wf(),
                d < self@.target.len(),
                current@.len() == self@.target.len(),
                ids == ints(active@),
                cs == nats(counts@),
                cur == nats(current@),
                self@.valid_ids(ids),
                active@.len() == counts@.len(),
                active@.len() <= 64,
                next@.len() == i,
                forall|e: int| 0 <= e < i ==> next@[e] == cur[e] + self@.gain(ids, cs, e),
                forall|e: int| 0 <= e < i ==> cur[e] + self@.gain(ids, cs, e) <= self@.target[e],
            decreases self.len - i,
        {
            let reached: u128 = current[i] as u128 + self.gained(active, counts, i);
            if reached > self.target[i] as u128 {
                proof {
                    assert(cur[i as int] + self@.gain(ids, cs, i as int) > self@.target[i as int]);
                }
                return None;
            }
            next.push(reached as u32);
            i += 1;
        }
        if next[d] != self.target[d] {
            return None;
        }
        proof {
            assert(nats(next@) =~= self@.moved(cur, ids, cs));
        }
        Some(next)
    }

    /// What the table holds for the state `current` and the buttons of `mask`.
    pub fn lookup(&self, memo: &Memo, current: &Vec<u32>, mask: u64) -> (out: Option<Option<u64>>)
        requires
            memo.wf(self@),
        ensures
            out == memo.held(current@, mask),
            match out {
                Some(answer) => known(self@, current@, mask, answer),
                None => true,
            },
    {
        let h = slot(current, mask);
        match memo.slots.get(&h) {
            None => None,
            Some(bucket) => {
                let mut i: usize = 0;
                while i < bucket.len()
                    invariant
                        i <= bucket@.len(),
                        memo.wf(self@),
                        h == fingerprint(current@, mask),
                        memo.slots@.contains_key(h),
                        memo.slots@[h] == *bucket,
                        first_match(bucket@, current@, mask, i as nat) is None,
                    decreases bucket@.len() - i,
                {
                    let entry = &bucket[i];
                    if entry.0.remaining_mask == mask && same(&entry.0.current, current) {
                        proof {
                            assert(holds(self@, memo.slots@[h]@[i as int]));
                            lemma_first_match_more(
                                bucket@,
                                current@,
                                mask,
                                (i + 1) as nat,
                                bucket@.len(),
                            );
                        }
                        return Some(entry.1);
                    }
                    i += 1;
                }
                None
            },
        }
    }

    /// Enters what the search returns for the state `current` and the buttons of
    /// `mask`. What the table held before, it still holds.
    pub fn record(&self, memo: &mut Memo, current: &Vec<u32>, mask: u64, answer: Option<u64>)
        requires
            old(memo).wf(self@),
            known(self@, current@, mask, answer),
        ensures
            final(memo).wf(self@),
            final(memo).held(current@, mask) == match old(memo).held(current@, mask) {
                Some(before) => Some(before),
                None => Some(answer),
            },
            forall|other: Seq<u32>, m: u64|
                !(other == current@ && m == mask) ==> #[trigger] final(memo).held(other, m) == old(
                    memo,
                ).held(other, m),
    {
        let h = slot(current, mask);
        let ghost before = memo.slots@;
        let ghost start = *memo;
        let found = memo.slots.remove(&h);
        let mut bucket: Vec<(MemoKey, Option<u64>)> = match found {
            Some(b) => b,
            None => Vec::new(),
        };
        let ghost kept = bucket@;
        proof {
            assert forall|i: int| 0 <= i < kept.len() implies holds(self@, #[trigger] kept[i]) by {
                assert(before.contains_key(h));
                assert(before[h]@ == kept);
                assert(holds(self@, before[h]@[i]));
            }
        }
        let key = MemoKey { current: current.clone(), remaining_mask: mask };
        let ghost entry = (key, answer);
        bucket.push((key, answer));
        proof {
            assert forall|i: int| 0 <= i < bucket@.len() implies holds(self@, #[trigger] bucket@[i]) by {
                if i < kept.len() {
                    assert(bucket@[i] == kept[i]);
                }
            }
        }
        memo.slots.insert(h, bucket);
        proof {
            assert forall|g: u64, i: int|
                memo.slots@.contains_key(g) && 0 <= i < memo.slots@[g]@.len() implies holds(
                self@,
                #[trigger] memo.slots@[g]@[i],
            ) by {
                if g != h {
                    assert(before.contains_key(g));
                    assert(memo.slots@[g] == before[g]);
                    assert(holds(self@, before[g]@[i]));
                }
            }
            assert(memo.slots@[h]@ == kept.push(entry));
            assert forall|other: Seq<u32>, m: u64| #[trigger]
                memo.held(other, m) == if other == current@ && m == mask {
                    match start.held(other, m) {
                        Some(a) => Some(a),
                        None => Some(answer),
                    }
                } else {
                    start.held(other, m)
                } by {
                let g = fingerprint(other, m);
                if g == h {
                    lemma_first_match_push(kept, entry, other, m, kept.len());
                    if before.contains_key(h) {
                        assert(before[h]@ == kept);
                    } else {
                        assert(kept.len() == 0);
                    }
                } else {
                    if before.contains_key(g) {
                        assert(memo.slots@[g] == before[g]);
                    }
                }
            }
        }
    }

    /// The fewest presses that lead from `current` to the target with the buttons
    /// `remaining_buttons`, as the search finds them. A result that the table holds is
    /// returned as it is, and every result is entered.
    pub fn go(&self, remaining_buttons: &Vec<usize>, current: &Vec<u32>, memo: &mut Memo) -> (out:
        Option<u64>)
        requires
            self.wf(),
            self.usable(remaining_buttons@),
            current@.len() == self@.target.len(),
            old(memo).wf(self@),
        ensures
            final(memo).wf(self@),
            opt_nat(out) == self@.search(nats(current@), ints(remaining_buttons@)),
            final(memo).held(current@, mask_of(ints(remaining_buttons@))) == Some(out),
            forall|other: Seq<u32>, m: u64|
                old(memo).held(other, m) is Some ==> #[trigger] final(memo).held(other, m) == old(
                    memo,
                ).held(other, m),
        decreases remaining_buttons@.len(),
    {
        let ghost pz = self@;
        let ghost ids = ints(remaining_buttons@);
        let ghost cur = nats(current@);
        proof {
            lemma_ascending_len(ids, pz.buttons.len());
            assert forall|j: int| 0 <= j < remaining_buttons@.len() implies remaining_buttons@[j]
                < 64 by {
                assert(0 <= ids[j] < pz.buttons.len());
            }
        }
        let mask = self.remaining_mask(remaining_buttons);
        match self.lookup(memo, current, mask) {
            Some(cached) => {
                return cached;
            },
            None => {},
        }
        let mut answer: Option<u64> = None;
        if remaining_buttons.len() == 0 {
            if same(&self.target, current) {
                answer = Some(0);
            }
            proof {
                lemma_nats_equal(self.target@, current@);
            }
        } else {
            match self.least_frequent(remaining_buttons, current) {
                None => {
                    if same(&self.target, current) {
                        answer = Some(0);
                    }
                    proof {
                        lemma_nats_equal(self.target@, current@);
                    }
                },
                Some(d) => {
                    proof {
                        pz.lemma_pick_upto(cur, ids, pz.target.len());
                    }
                    let active = self.split(remaining_buttons, d, true);
                    let inactive = self.split(remaining_buttons, d, false);
                    let ghost act = ints(active@);
                    let ghost inact = ints(inactive@);
                    proof {
                        pz.lemma_touching(ids, d as int, true);
                        pz.lemma_touching(ids, d as int, false);
                        pz.lemma_touching_lens(ids, d as int);
                    }
                    if active.len() > 0 && !self.is_pruned(current, &active, d) {
                        let needed = self.target[d].saturating_sub(current[d]);
                        let maxes = self.caps(current, &active);
                        let ghost bounds = pz.caps(cur, act);
                        let mut perms = Permutations::new(maxes, needed);
                        let ghost all = perms@;
                        let ghost mut seen: int = 0;
                        let mut best: Option<u64> = None;
                        proof {
                            assert(all.take(0) =~= Seq::<Seq<nat>>::empty());
                            assert(all.skip(0) =~= all);
                        }
                        loop
                            invariant
                                self.wf(),
                                pz == self@,
                                d < pz.target.len(),
                                current@.len() == pz.target.len(),
                                cur == nats(current@),
                                act == ints(active@),
                                inact == ints(inactive@),
                                pz.valid_ids(act),
                                self.usable(inactive@),
                                active@.len() <= 64,
                                inactive@.len() <= 64,
                                bounds == pz.caps(cur, act),
                                inactive@.len() < remaining_buttons@.len(),
                                needed == pz.space(cur, d as int),
                                all == compositions(bounds, needed as nat),
                                perms.wf(),
                                0 <= seen <= all.len(),
                                perms@ == all.skip(seen),
                                memo.wf(pz),
                                forall|other: Seq<u32>, m: u64|
                                    old(memo).held(other, m) is Some ==> #[trigger] memo.held(
                                        other,
                                        m,
                                    ) == old(memo).held(other, m),
                                opt_nat(best) == pz.best(cur, act, inact, d as int, all.take(seen)),
                            ensures
                                seen == all.len(),
                            decreases perms@.len(),
                        {
                            match perms.next() {
                                None => {
                                    break;
                                },
                                Some(it) => {
                                    let ghost counts = nats(it@);
                                    proof {
                                        assert(counts == all[seen]);
                                        assert(all.contains(counts));
                                        lemma_compositions_complete(bounds, needed as nat, counts);
                                        assert(all.take(seen + 1).drop_last() =~= all.take(seen));
                                        assert(all.skip(seen).skip(1) =~= all.skip(seen + 1));
                                        assert(counts.len() == bounds.len());
                                        assert(it@.len() == act.len());
                                    }
                                    let mut here: Option<u64> = None;
                                    match self.advance(current, &active, &it, d) {
                                        None => {},
                                        Some(next) => {
                                            proof {
                                                assert(nats(next@).len() == pz.target.len());
                                            }
                                            let presses_here = sum_of(&it);
                                            match self.go(&inactive, &next, memo) {
                                                None => {},
                                                Some(extra) => {
                                                    proof {
                                                        pz.lemma_search_bound(
                                                            nats(next@),
                                                            inact,
                                                            u32::MAX as nat,
                                                        );
                                                        assert(inact.len() * u32::MAX <= 64
                                                            * u32::MAX) by (nonlinear_arith)
                                                            requires
                                                                inact.len() <= 64,
                                                        ;
                                                    }
                                                    here = Some(presses_here + extra);
                                                },
                                            }
                                        },
                                    }
                                    proof {
                                        let tried = all.take(seen + 1);
                                        assert(tried.last() == counts);
                                        assert(opt_nat(here) == pz.outcome(
                                            cur,
                                            act,
                                            inact,
                                            d as int,
                                            counts,
                                        ));
                                        assert(pz.best(cur, act, inact, d as int, tried) == fewer(
                                            pz.best(cur, act, inact, d as int, tried.drop_last()),
                                            pz.outcome(cur, act, inact, d as int, tried.last()),
                                        ));
                                    }
                                    best = least(best, here);
                                    proof {
                                        seen = seen + 1;
                                    }
                                },
                            }
                        }
                        proof {
                            assert(all.take(seen) =~= all);
                        }
                        answer = best;
                    }
                },
            }
        }
        proof {
            assert forall|other: Seq<int>|
                mask_of(other) == mask && ascending(other) && pz.valid_ids(other) implies opt_nat(
                answer,
            ) == #[trigger] pz.search(nats(current@), other) by {
                lemma_mask_injective(other, ids);
            }
            if memo.held(current@, mask) is Some {
                memo.lemma_held_known(pz, current@, mask);
                let before = memo.held(current@, mask)->Some_0;
                assert(opt_nat(before) == pz.search(nats(current@), ids));
                assert(before == answer);
            }
        }
        let ghost middle = *memo;
        self.record(memo, current, mask, answer);
        proof {
            assert forall|other: Seq<u32>, m: u64| old(memo).held(other, m) is Some implies #[trigger] memo.held(
                other,
                m,
            ) == old(memo).held(other, m) by {
                assert(middle.held(other, m) == old(memo).held(other, m));
            }
        }
        answer
    }

    /// The fewest presses that reach the target from zero, as the search finds them.
    /// What it returns is the number of some presses that reach the target. Where no
    /// button adds more than one to a dimension, it is the least such number, and
    /// `None` is returned only if no presses reach the target.
    pub fn solve(&self) -> (out: Option<u64>)
        requires
            self.wf(),
        ensures
            opt_nat(out) == self@.search(origin(self@.target.len()), iota(self@.buttons.len())),
            out is Some ==> out->Some_0 <= self@.buttons.len() * u32::MAX,
            out is Some ==> exists|x: Seq<nat>| self@.reaches(x) && total(x) == out->Some_0,
            self@.binary() ==> match out {
                Some(n) => self@.is_fewest(n as nat),
                None => !self@.solvable(),
            },
    {
        let mut ids: Vec<usize> = Vec::new();
        let mut k: usize = 0;
        while k < self.buttons.len()
            invariant
                k <= self.buttons@.len(),
                ids@.len() == k,
                forall|j: int| 0 <= j < k ==> ids@[j] == j,
            decreases self.buttons@.len() - k,
        {
            ids.push(k);
            k += 1;
        }
        let current = zeros(self.len);
        let mut memo = Memo::new();
        proof {
            assert(ints(ids@) =~= iota(self@.buttons.len()));
            assert(nats(current@) =~= origin(self@.target.len()));
            self@.lemma_search_optimal();
            self@.lemma_search_bound(nats(current@), ints(ids@), u32::MAX as nat);
        }
        self.go(&ids, &current, &mut memo)
    }
}

/// Vectors with the same components as numbers are the same vector.
pub proof fn lemma_nats_equal(a: Seq<u32>, b: Seq<u32>)
    ensures
        (nats(a) == nats(b)) == (a == b),
{
    if nats(a) == nats(b) {
        assert(a.len() == nats(a).len());
        assert(b.len() == nats(b).len());
        assert forall|i: int| 0 <= i < a.len() implies a[i] == b[i] by {
            assert(nats(a)[i] == nats(b)[i]);
        }
        assert(a =~= b);
    }
}

} // verus!
