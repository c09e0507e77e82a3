use vstd::prelude::*;

verus! {

/// The components of a vector as natural numbers.
pub open spec fn nats(s: Seq<u32>) -> Seq<nat> {
    Seq::new(s.len(), |i: int| s[i] as nat)
}

/// The rows of a table, each as a sequence of natural numbers.
pub open spec fn table(m: Seq<Vec<u32>>) -> Seq<Seq<nat>> {
    Seq::new(m.len(), |i: int| nats(m[i]@))
}

/// The sum of the components.
pub open spec fn total(s: Seq<nat>) -> nat
    decreases s.len(),
{
    if s.len() == 0 {
        0
    } else {
        total(s.drop_last()) + s.last()
    }
}

/// The sum of the products of matching components.
pub open spec fn dot(a: Seq<nat>, x: Seq<nat>) -> nat
    decreases a.len(),
{
    if a.len() == 0 || x.len() == 0 {
        0
    } else {
        dot(a.drop_last(), x.drop_last()) + a.last() * x.last()
    }
}

/// The numbers of a vector with one more component.
pub proof fn lemma_nats_push(s: Seq<u32>, v: u32)
    ensures
        nats(s.push(v)) == nats(s).push(v as nat),
{
    assert(nats(s.push(v)) =~= nats(s).push(v as nat));
}

/// The numbers of a vector without its last component.
pub proof fn lemma_nats_drop_last(s: Seq<u32>)
    requires
        s.len() > 0,
    ensures
        nats(s.drop_last()) == nats(s).drop_last(),
        nats(s).last() == s.last() as nat,
{
    assert(nats(s.drop_last()) =~= nats(s).drop_last());
}

/// One more component adds to the sum.
pub proof fn lemma_total_push(s: Seq<nat>, v: nat)
    ensures
        total(s.push(v)) == total(s) + v,
{
    assert(s.push(v).drop_last() =~= s);
}

/// A vector of `len` zeros.
pub fn zeros(len: usize) -> (out: Vec<u32>)
    ensures
        out@.len() == len,
        forall|i: int| 0 <= i < len ==> out@[i] == 0,
{
    let mut out: Vec<u32> = Vec::new();
    let mut i: usize = 0;
    while i < len
        invariant
            i <= len,
            out@.len() == i,
            forall|j: int| 0 <= j < i ==> out@[j] == 0,
        decreases len - i,
    {
        out.push(0);
        i += 1;
    }
    out
}

/// The entry at a place.
pub open spec fn at<T>(s: Seq<T>, i: usize) -> T {
    s[i as int]
}

/// `order` names the place `j`.
pub open spec fn names(order: Seq<int>, j: int) -> bool {
    exists|k: int| 0 <= k < order.len() && #[trigger] order[k] == j
}

/// `order` names each place of a sequence of `n` entries once.
pub open spec fn is_order(order: Seq<int>, n: nat) -> bool {
    &&& order.len() == n
    &&& forall|k: int| 0 <= k < n ==> 0 <= #[trigger] order[k] < n
    &&& forall|a: int, b: int| 0 <= a < b < n ==> #[trigger] order[a] != #[trigger] order[b]
    &&& forall|j: int| 0 <= j < n ==> #[trigger] names(order, j)
}

} // verus!
