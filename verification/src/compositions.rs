use vstd::prelude::*;
use crate::vector::{nats, total, lemma_nats_push, lemma_nats_drop_last};

verus! {

/// The smaller of two numbers.
pub open spec fn smaller(a: nat, b: nat) -> nat {
    if a <= b {
        a
    } else {
        b
    }
}

/// The distributions that begin with `prefix` and hand out exactly `room` over the
/// slots behind it, the next slot's larger values first.
pub open spec fn under(maxes: Seq<nat>, room: nat, prefix: Seq<nat>) -> Seq<Seq<nat>>
    decreases maxes.len() - prefix.len(), 1int, 0int,
{
    if prefix.len() >= maxes.len() {
        if room == 0 {
            seq![prefix]
        } else {
            Seq::empty()
        }
    } else {
        below(maxes, room, prefix, smaller(maxes[prefix.len() as int], room) + 1)
    }
}

/// The distributions that begin with `prefix`, put less than `bound` into the next slot
/// and hand out exactly `room` over that slot and those behind it.
pub open spec fn below(maxes: Seq<nat>, room: nat, prefix: Seq<nat>, bound: nat) -> Seq<Seq<nat>>
    decreases maxes.len() - prefix.len(), 0int, bound,
{
    if bound == 0 || bound > room + 1 || prefix.len() >= maxes.len() {
        Seq::empty()
    } else {
        let v = (bound - 1) as nat;
        under(maxes, (room - v) as nat, prefix.push(v)) + below(maxes, room, prefix, v)
    }
}

/// The distributions that follow every distribution beginning with `prefix`, where
/// `room` is what the slots behind `prefix` have to hand out.
pub open spec fn after(maxes: Seq<nat>, room: nat, prefix: Seq<nat>) -> Seq<Seq<nat>>
    decreases prefix.len(),
{
    if prefix.len() == 0 {
        Seq::empty()
    } else {
        let v = prefix.last();
        below(maxes, room + v, prefix.drop_last(), v) + after(maxes, room + v, prefix.drop_last())
    }
}

/// Every way to hand out exactly `total` over the slots, slot `i` getting at most
/// `maxes[i]`, in the order in which the enumerator yields them.
pub open spec fn compositions(maxes: Seq<nat>, total: nat) -> Seq<Seq<nat>> {
    under(maxes, total, Seq::empty())
}

/// `c` hands out exactly `sum` over the slots and keeps within each slot's bound.
pub open spec fn is_composition(c: Seq<nat>, maxes: Seq<nat>, sum: nat) -> bool {
    &&& c.len() == maxes.len()
    &&& forall|i: int| 0 <= i < c.len() ==> c[i] <= maxes[i]
    &&& total(c) == sum
}

/// The steps that the walk needs for the distributions that begin with `prefix`.
spec fn work_under(maxes: Seq<nat>, room: nat, prefix: Seq<nat>) -> nat
    decreases maxes.len() - prefix.len(), 1int, 0int,
{
    if prefix.len() >= maxes.len() {
        1
    } else {
        1 + work_below(maxes, room, prefix, smaller(maxes[prefix.len() as int], room) + 1)
    }
}

/// The steps that the walk needs for the distributions that begin with `prefix` and put less
/// than `bound` into the next slot.
spec fn work_below(maxes: Seq<nat>, room: nat, prefix: Seq<nat>, bound: nat) -> nat
    decreases maxes.len() - prefix.len(), 0int, bound,
{
    if bound == 0 || bound > room + 1 || prefix.len() >= maxes.len() {
        1
    } else {
        let v = (bound - 1) as nat;
        1 + work_under(maxes, (room - v) as nat, prefix.push(v)) + work_below(maxes, room, prefix, v)
    }
}

/// The steps that the walk needs behind the distributions that begin with `prefix`.
spec fn work_after(maxes: Seq<nat>, room: nat, prefix: Seq<nat>) -> nat
    decreases prefix.len(),
{
    if prefix.len() == 0 {
        0
    } else {
        let v = prefix.last();
        work_below(maxes, room + v, prefix.drop_last(), v) + work_after(
            maxes,
            room + v,
            prefix.drop_last(),
        )
    }
}

/// Where the walk over the tree of prefixes stands.
enum Stage {
    /// The distributions that begin with the current prefix are still to come.
    Descend,
    /// The distributions that begin with the current prefix have been yielded.
    Backtrack,
}

/// A lazy enumerator of the bounded compositions of a number.
pub struct Permutations {
    maxes: Vec<u32>,
    current: Vec<u32>,
    room: u32,
    stage: Stage,
}

impl View for Permutations {
    type V = Seq<Seq<nat>>;

    /// The distributions that are still to be yielded, in order.
    closed spec fn view(&self) -> Seq<Seq<nat>> {
        match self.stage {
            Stage::Descend => under(nats(self.maxes@), self.room as nat, nats(self.current@))
                + after(nats(self.maxes@), self.room as nat, nats(self.current@)),
            Stage::Backtrack => after(nats(self.maxes@), self.room as nat, nats(self.current@)),
        }
    }
}

impl Permutations {
    /// The enumerator's invariant.
    pub closed spec fn wf(&self) -> bool {
        &&& self.current@.len() <= self.maxes@.len()
        &&& self.room + total(nats(self.current@)) <= u32::MAX
    }

    /// The bounds that the enumerator was made with.
    pub closed spec fn bounds(&self) -> Seq<nat> {
        nats(self.maxes@)
    }

    /// The steps that the walk still needs: it falls with every step.
    spec fn work(&self) -> nat {
        match self.stage {
            Stage::Descend => work_under(nats(self.maxes@), self.room as nat, nats(self.current@))
                + work_after(nats(self.maxes@), self.room as nat, nats(self.current@)),
            Stage::Backtrack => work_after(
                nats(self.maxes@),
                self.room as nat,
                nats(self.current@),
            ),
        }
    }

    /// An enumerator of the ways to hand out exactly `count` over `maxes.len()` slots,
    /// slot `i` getting at most `maxes[i]`.
    pub fn new(maxes: Vec<u32>, count: u32) -> (out: Self)
        ensures
            out.wf(),
            out.bounds() == nats(maxes@),
            out@ == compositions(nats(maxes@), count as nat),
    {
        let out = Permutations { maxes, current: Vec::new(), room: count, stage: Stage::Descend };
        proof {
            assert(nats(out.current@) =~= Seq::<nat>::empty());
            assert(out@ =~= compositions(nats(out.maxes@), count as nat));
        }
        out
    }

    /// Yields the next distribution, or `None` when all have been yielded.
    pub fn next(&mut self) -> (out: Option<Vec<u32>>)
        requires
            old(self).wf(),
        ensures
            final(self).wf(),
            final(self).bounds() == old(self).bounds(),
            old(self)@.len() == 0 ==> out is None && final(self)@ == old(self)@,
            old(self)@.len() > 0 ==> out is Some && nats(out->Some_0@) == old(self)@[0]
                && final(self)@ == old(self)@.skip(1),
    {
        loop
            invariant
                self.wf(),
                self.maxes == old(self).maxes,
                self@ == old(self)@,
            decreases self.work(),
        {
            let ghost m = nats(self.maxes@);
            let ghost p = nats(self.current@);
            let ghost r = self.room as nat;
            match self.stage {
                Stage::Descend => {
                    if self.current.len() == self.maxes.len() {
                        self.stage = Stage::Backtrack;
                        if self.room == 0 {
                            let out = self.current.clone();
                            proof {
                                assert(under(m, r, p) =~= seq![p]);
                                assert(old(self)@[0] == p);
                                assert(self@ =~= old(self)@.skip(1));
                                assert(nats(out@) =~= p);
                            }
                            return Some(out);
                        }
                        proof {
                            assert(old(self)@ =~= self@);
                        }
                    } else {
                        let cap = self.maxes[self.current.len()];
                        let limit = if cap <= self.room { cap } else { self.room };
                        proof {
                            let hi = limit as nat;
                            assert(hi == smaller(m[p.len() as int], r));
                            lemma_nats_push(self.current@, limit);
                            crate::vector::lemma_total_push(p, hi);
                            let q = p.push(hi);
                            assert(q.drop_last() =~= p);
                            assert(below(m, r, p, hi + 1) == under(m, (r - hi) as nat, q) + below(
                                m,
                                r,
                                p,
                                hi,
                            ));
                            assert(after(m, (r - hi) as nat, q) == below(m, r, p, hi) + after(
                                m,
                                r,
                                p,
                            ));
                            assert(under(m, r, p) + after(m, r, p) =~= under(m, (r - hi) as nat, q)
                                + after(m, (r - hi) as nat, q));
                            assert(work_after(m, (r - hi) as nat, q) == work_below(m, r, p, hi)
                                + work_after(m, r, p));
                        }
                        self.current.push(limit);
                        self.room = self.room - limit;
                    }
                },
                Stage::Backtrack => {
                    if self.current.len() == 0 {
                        proof {
                            assert(after(m, r, p) =~= Seq::<Seq<nat>>::empty());
                        }
                        return None;
                    }
                    proof {
                        lemma_nats_drop_last(self.current@);
                    }
                    let v = self.current.pop().unwrap();
                    let ghost q = nats(self.current@);
                    proof {
                        assert(q == p.drop_last());
                        assert(p == q.push(v as nat)) by {
                            assert(p =~= q.push(v as nat));
                        }
                        crate::vector::lemma_total_push(q, v as nat);
                    }
                    if v > 0 {
                        let w = v - 1;
                        proof {
                            let s = q.push(w as nat);
                            let rv: nat = r + v as nat;
                            lemma_nats_push(self.current@, w);
                            crate::vector::lemma_total_push(q, w as nat);
                            assert(s.drop_last() =~= q);
                            assert(below(m, rv, q, v as nat) == under(m, (r + 1) as nat, s)
                                + below(m, rv, q, w as nat));
                            assert(after(m, (r + 1) as nat, s) == below(m, rv, q, w as nat)
                                + after(m, rv, q));
                            assert(after(m, r, p) =~= under(m, (r + 1) as nat, s) + after(
                                m,
                                (r + 1) as nat,
                                s,
                            ));
                            assert(work_after(m, (r + 1) as nat, s) == work_below(
                                m,
                                rv,
                                q,
                                w as nat,
                            ) + work_after(m, rv, q));
                        }
                        self.current.push(w);
                        self.room = self.room + 1;
                        self.stage = Stage::Descend;
                    } else {
                        proof {
                            assert(below(m, r, q, 0) =~= Seq::<Seq<nat>>::empty());
                            assert(after(m, r, p) =~= after(m, r, q));
                        }
                    }
                },
            }
        }
    }
}

/// `c` begins with `prefix`, has one value for each slot and keeps within the bound
/// of each slot behind the prefix.
pub open spec fn continues(c: Seq<nat>, maxes: Seq<nat>, prefix: Seq<nat>) -> bool {
    &&& c.len() == maxes.len()
    &&& prefix.len() <= c.len()
    &&& c.take(prefix.len() as int) == prefix
    &&& forall|i: int| prefix.len() <= i < c.len() ==> c[i] <= maxes[i]
}

/// What two sequences hold together is what one of them holds.
proof fn lemma_concat_contains<A>(a: Seq<A>, b: Seq<A>, c: A)
    ensures
        (a + b).contains(c) <==> a.contains(c) || b.contains(c),
{
    if a.contains(c) {
        let i = choose|i: int| 0 <= i < a.len() && a[i] == c;
        assert((a + b)[i] == c);
    }
    if b.contains(c) {
        let i = choose|i: int| 0 <= i < b.len() && b[i] == c;
        assert((a + b)[a.len() + i] == c);
    }
    if (a + b).contains(c) {
        let i = choose|i: int| 0 <= i < (a + b).len() && (a + b)[i] == c;
        if i < a.len() {
            assert(a[i] == c);
        } else {
            assert(b[i - a.len()] == c);
        }
    }
}

/// Two sequences without duplicates that share no entry have no duplicates together.
proof fn lemma_concat_no_duplicates<A>(a: Seq<A>, b: Seq<A>)
    requires
        a.no_duplicates(),
        b.no_duplicates(),
        forall|c: A| a.contains(c) ==> !b.contains(c),
    ensures
        (a + b).no_duplicates(),
{
    assert forall|i: int, j: int|
        0 <= i < (a + b).len() && 0 <= j < (a + b).len() && i != j implies (a + b)[i] != (a + b)[j] by {
        if i < a.len() && j >= a.len() {
            assert(a.contains(a[i]));
            assert(b.contains(b[j - a.len()]));
        }
        if j < a.len() && i >= a.len() {
            assert(a.contains(a[j]));
            assert(b.contains(b[i - a.len()]));
        }
    }
}

/// The sum of a vector is the sum of a prefix of it at least.
pub proof fn lemma_total_take(c: Seq<nat>, k: int)
    requires
        0 <= k <= c.len(),
    ensures
        total(c.take(k)) <= total(c),
        k < c.len() ==> total(c.take(k + 1)) == total(c.take(k)) + c[k],
    decreases c.len() - k,
{
    if k < c.len() {
        assert(c.take(k + 1).drop_last() =~= c.take(k));
        lemma_total_take(c, k + 1);
    } else {
        assert(c.take(k) =~= c);
    }
}

/// The distributions that begin with a prefix are those that continue it, keep within the
/// bounds and hand out what is left.
proof fn lemma_under_contains(maxes: Seq<nat>, room: nat, prefix: Seq<nat>, c: Seq<nat>)
    requires
        prefix.len() <= maxes.len(),
    ensures
        under(maxes, room, prefix).contains(c) <==> continues(c, maxes, prefix) && total(c)
            == total(prefix) + room,
    decreases maxes.len() - prefix.len(), 1int, 0int,
{
    let n = prefix.len() as int;
    if prefix.len() >= maxes.len() {
        if continues(c, maxes, prefix) {
            assert(c.take(n) =~= c);
        }
        if room == 0 {
            assert(seq![prefix][0] == prefix);
            if c == prefix {
                assert(c.take(n) =~= c);
            }
        }
    } else {
        let hi = smaller(maxes[n], room);
        lemma_below_contains(maxes, room, prefix, hi + 1, c);
        if continues(c, maxes, prefix) && total(c) == total(prefix) + room {
            lemma_total_take(c, n);
            lemma_total_take(c, n + 1);
        }
    }
}

/// The same for the distributions that put less than `bound` into the next slot.
proof fn lemma_below_contains(maxes: Seq<nat>, room: nat, prefix: Seq<nat>, bound: nat, c: Seq<nat>)
    requires
        prefix.len() < maxes.len(),
        bound <= smaller(maxes[prefix.len() as int], room) + 1,
    ensures
        below(maxes, room, prefix, bound).contains(c) <==> continues(c, maxes, prefix)
            && c[prefix.len() as int] < bound && total(c) == total(prefix) + room,
    decreases maxes.len() - prefix.len(), 0int, bound,
{
    let n = prefix.len() as int;
    if bound > 0 {
        let v = (bound - 1) as nat;
        let q = prefix.push(v);
        lemma_under_contains(maxes, (room - v) as nat, q, c);
        lemma_below_contains(maxes, room, prefix, v, c);
        lemma_concat_contains(
            under(maxes, (room - v) as nat, q),
            below(maxes, room, prefix, v),
            c,
        );
        crate::vector::lemma_total_push(prefix, v);
        if continues(c, maxes, q) {
            assert(c.take(n) =~= c.take(n + 1).take(n));
            assert(q.take(n) =~= prefix);
            assert(c[n] == c.take(n + 1)[n]);
        }
        if continues(c, maxes, prefix) && c[n] == v {
            assert(c.take(n + 1) =~= q);
        }
    }
}

/// No distribution that begins with a prefix is enumerated twice.
proof fn lemma_under_distinct(maxes: Seq<nat>, room: nat, prefix: Seq<nat>)
    requires
        prefix.len() <= maxes.len(),
    ensures
        under(maxes, room, prefix).no_duplicates(),
    decreases maxes.len() - prefix.len(), 1int, 0int,
{
    if prefix.len() < maxes.len() {
        lemma_below_distinct(
            maxes,
            room,
            prefix,
            smaller(maxes[prefix.len() as int], room) + 1,
        );
    }
}

/// No distribution that puts less than `bound` into the next slot is enumerated twice.
proof fn lemma_below_distinct(maxes: Seq<nat>, room: nat, prefix: Seq<nat>, bound: nat)
    requires
        prefix.len() < maxes.len(),
        bound <= smaller(maxes[prefix.len() as int], room) + 1,
    ensures
        below(maxes, room, prefix, bound).no_duplicates(),
    decreases maxes.len() - prefix.len(), 0int, bound,
{
    let n = prefix.len() as int;
    if bound > 0 {
        let v = (bound - 1) as nat;
        let q = prefix.push(v);
        let first = under(maxes, (room - v) as nat, q);
        let rest = below(maxes, room, prefix, v);
        lemma_under_distinct(maxes, (room - v) as nat, q);
        lemma_below_distinct(maxes, room, prefix, v);
        assert forall|c: Seq<nat>| first.contains(c) implies !rest.contains(c) by {
            lemma_under_contains(maxes, (room - v) as nat, q, c);
            lemma_below_contains(maxes, room, prefix, v, c);
            assert(c[n] == c.take(n + 1)[n]);
        }
        lemma_concat_no_duplicates(first, rest);
    }
}

/// The enumerator yields exactly the bounded compositions: a vector is among
/// `compositions(maxes, sum)` if and only if it has one value for each slot, keeps
/// within each slot's bound and sums to `sum`.
pub proof fn lemma_compositions_complete(maxes: Seq<nat>, sum: nat, c: Seq<nat>)
    ensures
        compositions(maxes, sum).contains(c) <==> is_composition(c, maxes, sum),
{
    let e = Seq::<nat>::empty();
    lemma_under_contains(maxes, sum, e, c);
    assert(c.take(0) =~= e);
}

/// The enumerator yields no distribution twice.
pub proof fn lemma_compositions_distinct(maxes: Seq<nat>, sum: nat)
    ensures
        compositions(maxes, sum).no_duplicates(),
{
    lemma_under_distinct(maxes, sum, Seq::<nat>::empty());
}

} // verus!
