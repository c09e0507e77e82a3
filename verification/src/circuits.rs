use vstd::prelude::*;
use crate::vector::is_order;
use crate::text::{parse_signed, pieces, signed_number, split};

verus! {

/// A junction box in space.
#[derive(Clone, Copy, Debug, PartialEq, Eq, Structural)]
pub struct Point {
    pub x: i64,
    pub y: i64,
    pub z: i64,
}

/// The square of the distance between two points.
pub open spec fn squared_distance(p: Point, q: Point) -> int {
    (p.x - q.x) * (p.x - q.x) + (p.y - q.y) * (p.y - q.y) + (p.z - q.z) * (p.z - q.z)
}

/// The coordinate lies within a range in which squares of differences can be added.
pub open spec fn near(v: i64) -> bool {
    -0x2000_0000 <= v <= 0x2000_0000
}

impl Point {
    /// The coordinates lie within a range in which squares of differences can be
    /// added.
    pub open spec fn near(&self) -> bool {
        near(self.x) && near(self.y) && near(self.z)
    }

    /// The square of the distance to another point.
    pub fn distance_to(&self, other: &Point) -> (out: u64)
        requires
            self.near(),
            other.near(),
        ensures
            out == squared_distance(*self, *other),
    {
        let dx = self.x - other.x;
        let dy = self.y - other.y;
        let dz = self.z - other.z;
        proof {
            assert(0 <= dx * dx <= 0x1000_0000_0000_0000) by (nonlinear_arith)
                requires
                    -0x4000_0000 <= dx <= 0x4000_0000,
            ;
            assert(0 <= dy * dy <= 0x1000_0000_0000_0000) by (nonlinear_arith)
                requires
                    -0x4000_0000 <= dy <= 0x4000_0000,
            ;
            assert(0 <= dz * dz <= 0x1000_0000_0000_0000) by (nonlinear_arith)
                requires
                    -0x4000_0000 <= dz <= 0x4000_0000,
            ;
        }
        (dx * dx + dy * dy + dz * dz) as u64
    }
}

/// Each box points to a box, and the levels fall along the pointers that do not
/// point to their own box.
pub open spec fn leveled(p: Seq<usize>, lvl: Seq<nat>) -> bool {
    &&& lvl.len() == p.len()
    &&& forall|i: int|
        0 <= i < p.len() ==> (#[trigger] p[i]) < p.len() && (p[i] != i ==> lvl[p[i] as int] < lvl[i])
}

/// The pointers make a forest: following them from any box ends at a box that points
/// to itself.
pub open spec fn forest(p: Seq<usize>) -> bool {
    exists|lvl: Seq<nat>| leveled(p, lvl)
}

/// The box at which the pointers from box `i` end, for pointers with levels `lvl`.
pub open spec fn root_with(p: Seq<usize>, lvl: Seq<nat>, i: int) -> int
    decreases lvl[i],
    when leveled(p, lvl) && 0 <= i < p.len()
{
    if p[i] == i {
        i
    } else {
        root_with(p, lvl, p[i] as int)
    }
}

/// Levels of a forest.
pub open spec fn levels(p: Seq<usize>) -> Seq<nat> {
    choose|lvl: Seq<nat>| leveled(p, lvl)
}

/// The box at which the pointers from box `i` end: the representative of its circuit.
pub open spec fn root_of(p: Seq<usize>, i: int) -> int {
    root_with(p, levels(p), i)
}

/// The representative of a box is a box that points to itself, no higher than the box, and the
/// representative of the box that it points to.
pub proof fn lemma_root(p: Seq<usize>, lvl: Seq<nat>, i: int)
    requires
        leveled(p, lvl),
        0 <= i < p.len(),
    ensures
        0 <= root_with(p, lvl, i) < p.len(),
        p[root_with(p, lvl, i)] == root_with(p, lvl, i),
        lvl[root_with(p, lvl, i)] <= lvl[i],
        root_with(p, lvl, i) != i ==> lvl[root_with(p, lvl, i)] < lvl[i],
        root_with(p, lvl, root_with(p, lvl, i)) == root_with(p, lvl, i),
        root_with(p, lvl, p[i] as int) == root_with(p, lvl, i),
    decreases lvl[i],
{
    if p[i] != i {
        lemma_root(p, lvl, p[i] as int);
    }
}

/// The representative does not depend on the levels.
pub proof fn lemma_root_any(p: Seq<usize>, a: Seq<nat>, b: Seq<nat>, i: int)
    requires
        leveled(p, a),
        leveled(p, b),
        0 <= i < p.len(),
    ensures
        root_with(p, a, i) == root_with(p, b, i),
    decreases a[i],
{
    if p[i] != i {
        lemma_root_any(p, a, b, p[i] as int);
    }
}

/// Pointing boxes to their representatives keeps the forest and every
/// representative.
pub proof fn lemma_repoint(p: Seq<usize>, q: Seq<usize>, lvl: Seq<nat>, j: int)
    requires
        leveled(p, lvl),
        q.len() == p.len(),
        forall|k: int| 0 <= k < p.len() ==> #[trigger] q[k] == p[k] || q[k] == root_with(p, lvl, k),
        0 <= j < p.len(),
    ensures
        leveled(q, lvl),
        root_with(q, lvl, j) == root_with(p, lvl, j),
    decreases lvl[j],
{
    assert forall|i: int| 0 <= i < q.len() implies (#[trigger] q[i]) < q.len() && (q[i] != i
        ==> lvl[q[i] as int] < lvl[i]) by {
        lemma_root(p, lvl, i);
    }
    lemma_root(p, lvl, j);
    if q[j] != j {
        lemma_repoint(p, q, lvl, q[j] as int);
    }
}

/// The representative of a box, with the boxes on the way pointed to it.
fn find_leveled(parent: &mut Vec<usize>, i: usize, Ghost(lvl): Ghost<Seq<nat>>) -> (out: usize)
    requires
        leveled(old(parent)@, lvl),
        i < old(parent)@.len(),
    ensures
        final(parent)@.len() == old(parent)@.len(),
        out == root_with(old(parent)@, lvl, i as int),
        forall|k: int|
            0 <= k < old(parent)@.len() ==> #[trigger] final(parent)@[k] == old(parent)@[k]
                || final(parent)@[k] == root_with(old(parent)@, lvl, k),
    decreases lvl[i as int],
{
    let p = parent[i];
    if p != i {
        let ghost before = parent@;
        let r = find_leveled(parent, p, Ghost(lvl));
        proof {
            lemma_root(before, lvl, i as int);
        }
        parent[i] = r;
        r
    } else {
        i
    }
}

/// The representative of the circuit of box `i`. The boxes on the way to it are
/// pointed to it; no representative changes.
pub fn find(parent: &mut Vec<usize>, i: usize) -> (out: usize)
    requires
        forest(old(parent)@),
        i < old(parent)@.len(),
    ensures
        forest(final(parent)@),
        final(parent)@.len() == old(parent)@.len(),
        out == root_of(old(parent)@, i as int),
        out < old(parent)@.len(),
        forall|j: int|
            0 <= j < old(parent)@.len() ==> root_of(final(parent)@, j) == root_of(old(parent)@, j),
{
    let ghost before = parent@;
    let ghost lvl = levels(parent@);
    let out = find_leveled(parent, i, Ghost(lvl));
    proof {
        lemma_root(before, lvl, i as int);
        lemma_repoint(before, parent@, lvl, 0);
        assert forall|j: int| 0 <= j < before.len() implies root_of(parent@, j) == root_of(
            before,
            j,
        ) by {
            lemma_repoint(before, parent@, lvl, j);
            lemma_root_any(parent@, lvl, levels(parent@), j);
        }
    }
    out
}

/// The levels after the tree of `q` has been hung below `p`.
pub open spec fn hung(p: Seq<usize>, lvl: Seq<nat>, top: int, q: int) -> Seq<nat> {
    Seq::new(
        p.len(),
        |x: int|
            if root_with(p, lvl, x) == q {
                lvl[x] + lvl[top] + 1
            } else {
                lvl[x]
            },
    )
}

/// Hanging one representative below another joins their circuits under the other.
pub proof fn lemma_hang(p: Seq<usize>, lvl: Seq<nat>, top: int, q: int, x: int)
    requires
        leveled(p, lvl),
        0 <= top < p.len(),
        0 <= q < p.len(),
        p[top] == top,
        p[q] == q,
        top != q,
        0 <= x < p.len(),
    ensures
        leveled(p.update(q, top as usize), hung(p, lvl, top, q)),
        root_with(p.update(q, top as usize), hung(p, lvl, top, q), x) == if root_with(p, lvl, x) == q {
            top
        } else {
            root_with(p, lvl, x)
        },
    decreases lvl[x],
{
    let p2 = p.update(q, top as usize);
    let l2 = hung(p, lvl, top, q);
    assert forall|i: int| 0 <= i < p2.len() implies (#[trigger] p2[i]) < p2.len() && (p2[i] != i
        ==> l2[p2[i] as int] < l2[i]) by {
        lemma_root(p, lvl, i);
        if i != q && p[i] != i {
            lemma_root(p, lvl, p[i] as int);
        }
    }
    lemma_root(p, lvl, x);
    if x == q {
        assert(root_with(p2, l2, top) == top);
    } else if p[x] != x {
        lemma_hang(p, lvl, top, q, p[x] as int);
    }
}

/// Joins the circuits of two boxes: the representative of the first box stands for
/// both from then on.
pub fn union(parent: &mut Vec<usize>, i: usize, j: usize)
    requires
        forest(old(parent)@),
        i < old(parent)@.len(),
        j < old(parent)@.len(),
    ensures
        forest(final(parent)@),
        final(parent)@.len() == old(parent)@.len(),
        forall|x: int|
            0 <= x < old(parent)@.len() ==> root_of(final(parent)@, x) == if root_of(old(parent)@, x)
                == root_of(old(parent)@, j as int) {
                root_of(old(parent)@, i as int)
            } else {
                root_of(old(parent)@, x)
            },
{
    let ghost start = parent@;
    let p = find(parent, i);
    let q = find(parent, j);
    let ghost mid = parent@;
    let ghost lvl = levels(mid);
    proof {
        lemma_root(start, levels(start), i as int);
        lemma_root(start, levels(start), j as int);
        assert(root_of(mid, p as int) == p) by {
            assert(root_of(mid, p as int) == root_of(start, p as int));
        }
        assert(root_of(mid, q as int) == q) by {
            assert(root_of(mid, q as int) == root_of(start, q as int));
        }
        lemma_root(mid, lvl, p as int);
        lemma_root(mid, lvl, q as int);
        assert(mid[p as int] == p) by {
            if mid[p as int] != p {
                lemma_root(mid, lvl, mid[p as int] as int);
            }
        }
        assert(mid[q as int] == q) by {
            if mid[q as int] != q {
                lemma_root(mid, lvl, mid[q as int] as int);
            }
        }
    }
    if p == q {
        return;
    }
    parent[q] = p;
    proof {
        lemma_hang(mid, lvl, p as int, q as int, 0);
        assert forall|x: int| 0 <= x < start.len() implies root_of(parent@, x) == if root_of(start, x)
            == root_of(start, j as int) {
            root_of(start, i as int)
        } else {
            root_of(start, x)
        } by {
            lemma_hang(mid, lvl, p as int, q as int, x);
            lemma_root_any(parent@, hung(mid, lvl, p as int, q as int), levels(parent@), x);
            assert(root_of(mid, x) == root_of(start, x));
        }
    }
}

/// The pairs of box `i` with the boxes behind it and before box `j`, each with the
/// square of its distance.
pub open spec fn pairs_of(points: Seq<Point>, i: int, j: int) -> Seq<(usize, usize, u64)>
    decreases j - i,
{
    if j <= i + 1 {
        Seq::empty()
    } else {
        pairs_of(points, i, j - 1).push(
            (i as usize, (j - 1) as usize, squared_distance(points[i], points[j - 1]) as u64),
        )
    }
}

/// The pairs of the first `i` boxes with the boxes behind them, each with the square
/// of its distance: the pairs of the first box first.
pub open spec fn pairs_before(points: Seq<Point>, i: int) -> Seq<(usize, usize, u64)>
    decreases i,
{
    if i <= 0 {
        Seq::empty()
    } else {
        pairs_before(points, i - 1) + pairs_of(points, i - 1, points.len() as int)
    }
}

/// `new` holds the entries of `old` by rising distance, entries with the same
/// distance in the order in which `old` holds them.
pub open spec fn stably_sorted(old: Seq<(usize, usize, u64)>, new: Seq<(usize, usize, u64)>) -> bool {
    exists|order: Seq<int>|
        {
            &&& is_order(order, old.len())
            &&& new.len() == old.len()
            &&& forall|k: int| 0 <= k < new.len() ==> #[trigger] new[k] == old[order[k]]
            &&& forall|a: int, b: int|
                0 <= a < b < new.len() ==> (#[trigger] new[a]).2 < (#[trigger] new[b]).2 || (new[a].2
                    == new[b].2 && order[a] < order[b])
        }
}

/// Sorts the pairs by distance.
///
/// Trusted: the body calls std's `sort_by_key` with the distance as the key. The
/// contract says what std documents: the result holds the same entries by rising
/// key, and entries with the same key keep their order.
#[verifier::external_body]
fn sort_by_distance(distances: &mut Vec<(usize, usize, u64)>)
    ensures
        stably_sorted(old(distances)@, final(distances)@),
{
    distances.sort_by_key(|p| p.2);
}

/// The numbers stand by rising size.
pub open spec fn rising(s: Seq<usize>) -> bool {
    forall|a: int, b: int| 0 <= a < b < s.len() ==> s[a] <= s[b]
}

/// Sorts the numbers.
///
/// Trusted: the body calls std's `sort_unstable`. The contract says what std
/// documents: the result holds the same numbers by rising size.
#[verifier::external_body]
fn sort_counts(counts: &mut Vec<usize>)
    ensures
        rising(final(counts)@),
        final(counts)@.to_multiset() == old(counts)@.to_multiset(),
{
    counts.sort_unstable();
}

/// The pairs of boxes, each with the square of its distance, by rising distance;
/// pairs of the same distance stand in the order of their boxes.
pub fn calculate_pairwise_distances(points: &Vec<Point>) -> (out: Vec<(usize, usize, u64)>)
    requires
        forall|i: int| 0 <= i < points@.len() ==> (#[trigger] points@[i]).near(),
    ensures
        stably_sorted(pairs_before(points@, points@.len() as int), out@),
        forall|k: int|
            0 <= k < out@.len() ==> (#[trigger] out@[k]).0 < points@.len() && out@[k].1
                < points@.len(),
{
    let n = points.len();
    let mut distances: Vec<(usize, usize, u64)> = Vec::new();
    let mut i: usize = 0;
    while i < n
        invariant
            i <= n,
            n == points@.len(),
            forall|i: int| 0 <= i < points@.len() ==> (#[trigger] points@[i]).near(),
            distances@ == pairs_before(points@, i as int),
            forall|k: int|
                0 <= k < distances@.len() ==> (#[trigger] distances@[k]).0 < n && distances@[k].1 < n,
        decreases n - i,
    {
        let ghost before = distances@;
        let mut j: usize = i + 1;
        while j < n
            invariant
                i < n,
                i + 1 <= j <= n,
                n == points@.len(),
                forall|i: int| 0 <= i < points@.len() ==> (#[trigger] points@[i]).near(),
                distances@ == before + pairs_of(points@, i as int, j as int),
                forall|k: int|
                    0 <= k < distances@.len() ==> (#[trigger] distances@[k]).0 < n && distances@[k].1
                        < n,
            decreases n - j,
        {
            let d = points[i].distance_to(&points[j]);
            distances.push((i, j, d));
            j += 1;
            proof {
                assert(distances@ =~= before + pairs_of(points@, i as int, j as int));
            }
        }
        i += 1;
    }
    let ghost all = distances@;
    sort_by_distance(&mut distances);
    proof {
        let order = choose|order: Seq<int>|
            {
                &&& is_order(order, all.len())
                &&& distances@.len() == all.len()
                &&& forall|k: int| 0 <= k < distances@.len() ==> #[trigger] distances@[k] == all[order[k]]
                &&& forall|a: int, b: int|
                    0 <= a < b < distances@.len() ==> (#[trigger] distances@[a]).2 < (
                    #[trigger] distances@[b]).2 || (distances@[a].2 == distances@[b].2 && order[a]
                        < order[b])
            };
        assert forall|k: int| 0 <= k < distances@.len() implies (#[trigger] distances@[k]).0 < n
            && distances@[k].1 < n by {
            assert(distances@[k] == all[order[k]]);
        }
    }
    distances
}

/// The representatives after the circuits of boxes `i` and `j` have been joined.
pub open spec fn merged(reps: Seq<int>, i: int, j: int) -> Seq<int> {
    Seq::new(
        reps.len(),
        |x: int|
            if reps[x] == reps[j] {
                reps[i]
            } else {
                reps[x]
            },
    )
}

/// The representatives of `n` boxes after the first `k` pairs have been joined.
pub open spec fn joined(n: nat, edges: Seq<(usize, usize, u64)>, k: nat) -> Seq<int>
    decreases k,
{
    if k == 0 {
        Seq::new(n, |x: int| x)
    } else {
        merged(
            joined(n, edges, (k - 1) as nat),
            edges[k - 1].0 as int,
            edges[k - 1].1 as int,
        )
    }
}

/// The representatives of the boxes.
pub open spec fn roots(p: Seq<usize>) -> Seq<int> {
    Seq::new(p.len(), |x: int| root_of(p, x))
}

/// Each pair names two of the `n` boxes.
pub open spec fn within(edges: Seq<(usize, usize, u64)>, n: nat) -> bool {
    forall|k: int| 0 <= k < edges.len() ==> (#[trigger] edges[k]).0 < n && edges[k].1 < n
}

/// Boxes that each stand for themselves.
pub fn singletons(n: usize) -> (out: Vec<usize>)
    ensures
        forest(out@),
        out@.len() == n,
        roots(out@) == Seq::new(n as nat, |x: int| x),
{
    let mut out: Vec<usize> = Vec::new();
    let mut i: usize = 0;
    while i < n
        invariant
            i <= n,
            out@.len() == i,
            forall|k: int| 0 <= k < i ==> out@[k] == k,
        decreases n - i,
    {
        out.push(i);
        i += 1;
    }
    proof {
        let lvl = Seq::new(n as nat, |x: int| 0nat);
        assert(leveled(out@, lvl));
        assert forall|x: int| 0 <= x < n implies root_of(out@, x) == x by {
            lemma_root_any(out@, lvl, levels(out@), x);
        }
        assert(roots(out@) =~= Seq::new(n as nat, |x: int| x));
    }
    out
}

/// Joins the circuits of the two boxes of a pair, unless they are one circuit.
pub fn connect(connections: &mut Vec<usize>, i: usize, j: usize) -> (out: bool)
    requires
        forest(old(connections)@),
        i < old(connections)@.len(),
        j < old(connections)@.len(),
    ensures
        forest(final(connections)@),
        final(connections)@.len() == old(connections)@.len(),
        roots(final(connections)@) == merged(roots(old(connections)@), i as int, j as int),
        out == (root_of(old(connections)@, i as int) != root_of(old(connections)@, j as int)),
{
    let ghost start = connections@;
    let p = find(connections, i);
    let q = find(connections, j);
    if p == q {
        proof {
            assert(roots(connections@) =~= merged(roots(start), i as int, j as int));
        }
        return false;
    }
    let ghost mid = connections@;
    union(connections, i, j);
    proof {
        assert forall|x: int| 0 <= x < start.len() implies roots(connections@)[x] == merged(
            roots(start),
            i as int,
            j as int,
        )[x] by {
            assert(root_of(mid, x) == root_of(start, x));
            assert(root_of(mid, i as int) == root_of(start, i as int));
            assert(root_of(mid, j as int) == root_of(start, j as int));
        }
        assert(roots(connections@) =~= merged(roots(start), i as int, j as int));
    }
    true
}

/// The smaller of two numbers.
pub open spec fn least(a: nat, b: nat) -> nat {
    if a <= b {
        a
    } else {
        b
    }
}

/// The circuits after the first `max_connections` pairs, or all pairs if they are
/// fewer, have been joined.
pub fn build_connections(
    point_count: usize,
    distances: &Vec<(usize, usize, u64)>,
    max_connections: usize,
) -> (out: Vec<usize>)
    requires
        within(distances@, point_count as nat),
    ensures
        forest(out@),
        out@.len() == point_count,
        roots(out@) == joined(
            point_count as nat,
            distances@,
            least(max_connections as nat, distances@.len()),
        ),
{
    let mut connections = singletons(point_count);
    let mut remaining = max_connections;
    let mut k: usize = 0;
    while k < distances.len() && remaining > 0
        invariant
            k <= distances@.len(),
            k + remaining == max_connections,
            within(distances@, point_count as nat),
            forest(connections@),
            connections@.len() == point_count,
            roots(connections@) == joined(point_count as nat, distances@, k as nat),
        decreases distances@.len() - k,
    {
        remaining -= 1;
        let (i, j, _) = distances[k];
        proof {
            assert(distances@[k as int].0 < point_count && distances@[k as int].1 < point_count);
        }
        connect(&mut connections, i, j);
        k += 1;
    }
    connections
}

/// The number of the first `upto` boxes whose representative is `r`.
pub open spec fn tally(reps: Seq<int>, r: int, upto: nat) -> nat
    decreases upto,
{
    if upto == 0 {
        0
    } else {
        tally(reps, r, (upto - 1) as nat) + if reps[upto - 1] == r {
            1nat
        } else {
            0nat
        }
    }
}

/// For each box, the number of boxes that it stands for.
pub open spec fn sizes(reps: Seq<int>) -> Seq<usize> {
    Seq::new(reps.len(), |r: int| tally(reps, r, reps.len()) as usize)
}

/// The product of the three largest numbers of a sequence that stands by rising
/// size, or of all if they are fewer.
pub open spec fn top_product(s: Seq<usize>) -> int {
    if s.len() == 0 {
        1
    } else if s.len() == 1 {
        s[0] as int
    } else if s.len() == 2 {
        s[1] * s[0]
    } else {
        s[s.len() - 1] * s[s.len() - 2] * s[s.len() - 3]
    }
}

/// No more of the first boxes have a representative than there are.
pub proof fn lemma_tally_bound(reps: Seq<int>, r: int, upto: nat)
    ensures
        tally(reps, r, upto) <= upto,
    decreases upto,
{
    if upto > 0 {
        lemma_tally_bound(reps, r, (upto - 1) as nat);
    }
}

/// The product of the sizes of the three largest circuits.
pub fn count_top_three_product(connections: &mut Vec<usize>) -> (out: usize)
    requires
        forest(old(connections)@),
        1 <= old(connections)@.len(),
        old(connections)@.len() * old(connections)@.len() * old(connections)@.len() <= usize::MAX,
    ensures
        forest(final(connections)@),
        roots(final(connections)@) == roots(old(connections)@),
        exists|s: Seq<usize>|
            rising(s) && s.to_multiset() == sizes(roots(old(connections)@)).to_multiset() && out
                == top_product(s),
{
    let n = connections.len();
    let ghost reps = roots(connections@);
    let mut counts: Vec<usize> = Vec::new();
    let mut i: usize = 0;
    while i < n
        invariant
            i <= n,
            counts@.len() == i,
            forall|k: int| 0 <= k < i ==> counts@[k] == 0,
        decreases n - i,
    {
        counts.push(0);
        i += 1;
    }
    let mut i: usize = 0;
    while i < n
        invariant
            i <= n,
            n == connections@.len(),
            forest(connections@),
            roots(connections@) == reps,
            reps.len() == n,
            counts@.len() == n,
            forall|r: int| 0 <= r < n ==> #[trigger] counts@[r] == tally(reps, r, i as nat),
        decreases n - i,
    {
        let ghost before = connections@;
        let r = find(connections, i);
        proof {
            assert(roots(connections@) =~= roots(before));
            assert(reps[i as int] == root_of(before, i as int));
            lemma_tally_bound(reps, r as int, i as nat);
        }
        let c = counts[r];
        counts[r] = c + 1;
        i += 1;
    }
    proof {
        assert(counts@ =~= sizes(reps)) by {
            assert forall|r: int| 0 <= r < n implies counts@[r] == sizes(reps)[r] by {
                lemma_tally_bound(reps, r, n as nat);
            }
        }
    }
    sort_counts(&mut counts);
    proof {
        assert(counts@.len() == n) by {
            counts@.to_multiset_ensures();
            sizes(reps).to_multiset_ensures();
        }
        assert forall|k: int| 0 <= k < n implies #[trigger] counts@[k] <= n by {
            counts@.to_multiset_ensures();
            sizes(reps).to_multiset_ensures();
            assert(counts@.to_multiset().count(counts@[k]) > 0);
            assert(sizes(reps).to_multiset().contains(counts@[k]));
            assert(sizes(reps).contains(counts@[k]));
            let q = choose|q: int| 0 <= q < sizes(reps).len() && sizes(reps)[q] == counts@[k];
            lemma_tally_bound(reps, q, n as nat);
        }
    }
    let a = counts[n - 1];
    proof {
        assert(counts@[n - 1] <= n);
    }
    if n == 1 {
        return a;
    }
    let b = counts[n - 2];
    proof {
        assert(counts@[n - 2] <= n);
        assert(0 <= a * b <= n * n && n * n <= n * n * n) by (nonlinear_arith)
            requires
                0 <= a <= n,
                0 <= b <= n,
                n >= 1,
        ;
    }
    if n == 2 {
        return a * b;
    }
    let c = counts[n - 3];
    proof {
        assert(counts@[n - 3] <= n);
        assert(a * b * c <= n * n * n) by (nonlinear_arith)
            requires
                0 <= a * b <= n * n,
                0 <= c <= n,
        ;
    }
    a * b * c
}

/// The pair at place `k` joins two circuits that the pairs before it left apart.
pub open spec fn joins(n: nat, edges: Seq<(usize, usize, u64)>, k: int) -> bool {
    joined(n, edges, k as nat)[edges[k].0 as int] != joined(n, edges, k as nat)[edges[k].1 as int]
}

/// The number of the first `k` pairs that join two circuits.
pub open spec fn joins_before(n: nat, edges: Seq<(usize, usize, u64)>, k: nat) -> nat
    decreases k,
{
    if k == 0 {
        0
    } else {
        joins_before(n, edges, (k - 1) as nat) + if joins(n, edges, k - 1) {
            1nat
        } else {
            0nat
        }
    }
}

/// The pair at place `k` joins the last two circuits into one.
pub open spec fn completes(n: nat, edges: Seq<(usize, usize, u64)>, k: int) -> bool {
    joins(n, edges, k) && joins_before(n, edges, (k + 1) as nat) + 1 == n
}

/// The two boxes of the first pair that joins all boxes into one circuit, if the
/// pairs do so.
pub fn find_final_connection(points: &Vec<Point>, distances: &Vec<(usize, usize, u64)>) -> (out:
    Option<(Point, Point)>)
    requires
        within(distances@, points@.len()),
    ensures
        match out {
            Some(pair) => exists|k: int|
                0 <= k < distances@.len() && #[trigger] completes(points@.len(), distances@, k)
                    && pair.0 == points@[distances@[k].0 as int] && pair.1
                    == points@[distances@[k].1 as int] && forall|e: int|
                    0 <= e < k ==> !#[trigger] completes(points@.len(), distances@, e),
            None => forall|e: int|
                0 <= e < distances@.len() ==> !#[trigger] completes(points@.len(), distances@, e),
        },
{
    let n = points.len();
    let mut connections = singletons(n);
    let mut remaining = n;
    let mut k: usize = 0;
    while k < distances.len()
        invariant
            k <= distances@.len(),
            n == points@.len(),
            within(distances@, n as nat),
            forest(connections@),
            connections@.len() == n,
            roots(connections@) == joined(n as nat, distances@, k as nat),
            remaining + joins_before(n as nat, distances@, k as nat) == n,
            n >= 2 ==> remaining >= 2,
            forall|e: int| 0 <= e < k ==> !#[trigger] completes(n as nat, distances@, e),
        decreases distances@.len() - k,
    {
        let (i, j, _) = distances[k];
        proof {
            assert(distances@[k as int].0 < n && distances@[k as int].1 < n);
            assert(roots(connections@)[i as int] == root_of(connections@, i as int));
            assert(roots(connections@)[j as int] == root_of(connections@, j as int));
        }
        let ghost before = joined(n as nat, distances@, k as nat);
        if connect(&mut connections, i, j) {
            proof {
                assert(before[i as int] != before[j as int]);
                assert(joins(n as nat, distances@, k as int));
                if n == 1 {
                    assert(i == 0 && j == 0);
                }
            }
            remaining -= 1;
            if remaining == 1 {
                proof {
                    assert(completes(n as nat, distances@, k as int));
                }
                return Some((points[i], points[j]));
            }
        } else {
            proof {
                assert(!joins(n as nat, distances@, k as int));
            }
        }
        proof {
            assert(!completes(n as nat, distances@, k as int));
        }
        k += 1;
    }
    None
}


/// Why a line gives no point.
#[derive(Debug, PartialEq, Eq, Structural)]
pub enum ParsePointError {
    /// The line does not hold three fields.
    WrongFieldCount,
    /// A field is no whole number.
    InvalidNumber,
}

/// The point that a line writes: three whole numbers with commas between them.
pub open spec fn point_of(line: Seq<u8>) -> Result<Point, ParsePointError> {
    let parts = pieces(line, 44);
    if parts.len() != 3 {
        Err(ParsePointError::WrongFieldCount)
    } else {
        match (signed_number(parts[0]), signed_number(parts[1]), signed_number(parts[2])) {
            (Some(x), Some(y), Some(z)) => Ok(Point { x: x as i64, y: y as i64, z: z as i64 }),
            _ => Err(ParsePointError::InvalidNumber),
        }
    }
}

impl Point {
    /// Reads a point: three whole numbers with commas between them.
    pub fn from_str(line: &Vec<u8>) -> (out: Result<Point, ParsePointError>)
        ensures
            out == point_of(line@),
    {
        let parts = split(line, 44);
        if parts.len() != 3 {
            return Err(ParsePointError::WrongFieldCount);
        }
        proof {
            assert(crate::text::views(parts@)[0] == parts@[0]@);
            assert(crate::text::views(parts@)[1] == parts@[1]@);
            assert(crate::text::views(parts@)[2] == parts@[2]@);
        }
        let x = parse_signed(&parts[0]);
        let y = parse_signed(&parts[1]);
        let z = parse_signed(&parts[2]);
        match (x, y, z) {
            (Some(x), Some(y), Some(z)) => Ok(Point { x, y, z }),
            _ => Err(ParsePointError::InvalidNumber),
        }
    }
}

} // verus!
