use vstd::prelude::*;
use crate::tiles::Point;
use crate::vector::is_order;

verus! {

/// The first tile stands before the second: its row is less, or the rows are equal
/// and its column is less.
pub open spec fn row_first(p: Point, q: Point) -> bool {
    p.y < q.y || (p.y == q.y && p.x < q.x)
}

/// `new` holds the tiles of `old` by rising row, tiles of a row by rising column;
/// equal tiles keep their order.
pub open spec fn sorted_by_row(old: Seq<Point>, new: Seq<Point>) -> bool {
    exists|order: Seq<int>|
        {
            &&& is_order(order, old.len())
            &&& new.len() == old.len()
            &&& forall|k: int| 0 <= k < new.len() ==> #[trigger] new[k] == old[order[k]]
            &&& forall|a: int, b: int|
                0 <= a < b < new.len() ==> row_first(#[trigger] new[a], #[trigger] new[b]) || (new[a]
                    == new[b] && order[a] < order[b])
        }
}

/// Sorts the tiles by row, then by column.
///
/// Trusted: the body calls std's `sort_by_key` with the row and the column as the
/// key. The contract says what std documents of a stable sort by the order of
/// tuples: the result holds the same tiles by rising key, equal ones in their old
/// order.
#[verifier::external_body]
fn sort_by_row(points: &mut Vec<Point>)
    ensures
        sorted_by_row(old(points)@, final(points)@),
{
    points.sort_by_key(|p| (p.y, p.x));
}

/// The area of the rectangle with two tiles as opposite corners, the first tile in a
/// row no lower than the second; zero if the second tile lies to the left of the
/// first.
pub open spec fn span(p: Point, q: Point) -> int {
    if q.x < p.x {
        0
    } else {
        (q.x - p.x + 1) * (q.y - p.y + 1)
    }
}

/// The area of the rectangle with two tiles as opposite corners.
pub fn span_of(p: &Point, q: &Point) -> (out: u64)
    requires
        p.y <= q.y,
        q.x < 0x8000_0000,
        q.y < 0x8000_0000,
    ensures
        out == span(*p, *q),
{
    if q.x < p.x {
        return 0;
    }
    let dx = q.x - p.x + 1;
    let dy = q.y - p.y + 1;
    proof {
        assert(dx * dy <= 0x4000_0000_0000_0000) by (nonlinear_arith)
            requires
                0 <= dx <= 0x8000_0000,
                0 <= dy <= 0x8000_0000,
        ;
    }
    dx * dy
}

/// Sorts the tiles by row and column and finds the largest area of a rectangle with
/// two tiles as opposite corners, the second to the right of the first or below it.
pub fn largest_area(points: &mut Vec<Point>) -> (out: u64)
    requires
        old(points)@.len() >= 2,
        forall|i: int|
            0 <= i < old(points)@.len() ==> (#[trigger] old(points)@[i]).x < 0x8000_0000 && old(
                points,
            )@[i].y < 0x8000_0000,
    ensures
        sorted_by_row(old(points)@, final(points)@),
        exists|i: int, j: int|
            0 <= i < j < final(points)@.len() && out == #[trigger] span(
                final(points)@[i],
                final(points)@[j],
            ),
        forall|i: int, j: int|
            0 <= i < j < final(points)@.len() ==> #[trigger] span(final(points)@[i], final(points)@[j])
                <= out,
{
    let ghost before = points@;
    sort_by_row(points);
    let n = points.len();
    proof {
        let order = choose|order: Seq<int>|
            {
                &&& is_order(order, before.len())
                &&& points@.len() == before.len()
                &&& forall|k: int| 0 <= k < points@.len() ==> #[trigger] points@[k] == before[order[k]]
                &&& forall|a: int, b: int|
                    0 <= a < b < points@.len() ==> row_first(
                        #[trigger] points@[a],
                        #[trigger] points@[b],
                    ) || (points@[a] == points@[b] && order[a] < order[b])
            };
        assert forall|k: int| 0 <= k < points@.len() implies (#[trigger] points@[k]).x < 0x8000_0000
            && points@[k].y < 0x8000_0000 by {
            assert(points@[k] == before[order[k]]);
        }
        assert forall|a: int, b: int| 0 <= a < b < points@.len() implies (#[trigger] points@[a]).y <= (
        #[trigger] points@[b]).y by {
            assert(row_first(points@[a], points@[b]) || points@[a] == points@[b]);
        }
    }
    let mut best: u64 = span_of(&points[0], &points[1]);
    let mut i: usize = 0;
    while i < n
        invariant
            i <= n,
            n == points@.len(),
            n >= 2,
            forall|k: int|
                0 <= k < points@.len() ==> (#[trigger] points@[k]).x < 0x8000_0000 && points@[k].y
                    < 0x8000_0000,
            forall|a: int, b: int|
                0 <= a < b < points@.len() ==> (#[trigger] points@[a]).y <= (#[trigger] points@[b]).y,
            exists|a: int, b: int| 0 <= a < b < n && best == #[trigger] span(points@[a], points@[b]),
            forall|a: int, b: int|
                0 <= a < b < n && a < i ==> #[trigger] span(points@[a], points@[b]) <= best,
        decreases n - i,
    {
        let mut j: usize = i + 1;
        while j < n
            invariant
                i < n,
                i + 1 <= j <= n,
                n == points@.len(),
                forall|k: int|
                    0 <= k < points@.len() ==> (#[trigger] points@[k]).x < 0x8000_0000 && points@[k].y
                        < 0x8000_0000,
                forall|a: int, b: int|
                    0 <= a < b < points@.len() ==> (#[trigger] points@[a]).y <= (
                    #[trigger] points@[b]).y,
                exists|a: int, b: int|
                    0 <= a < b < n && best == #[trigger] span(points@[a], points@[b]),
                forall|a: int, b: int|
                    0 <= a < b < n && (a < i || (a == i && b < j)) ==> #[trigger] span(
                        points@[a],
                        points@[b],
                    ) <= best,
            decreases n - j,
        {
            let area = span_of(&points[i], &points[j]);
            if area > best {
                best = area;
                proof {
                    assert(best == span(points@[i as int], points@[j as int]));
                }
            }
            j += 1;
        }
        i += 1;
    }
    best
}

} // verus!
