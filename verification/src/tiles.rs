use vstd::prelude::*;
use std::cmp::Ordering;
use crate::text::{number, parse_number, pieces, split};
use crate::vector::{at, is_order};

verus! {

/// A red tile on the floor.
#[derive(Clone, Copy, Debug, PartialEq, Eq, Structural)]
pub struct Point {
    pub x: u64,
    pub y: u64,
}

/// A side of the loop of tiles: from one tile to the next.
#[derive(Clone, Copy, Debug)]
pub struct Edge {
    pub s: Point,
    pub e: Point,
}

/// Why a line gives no tile.
#[derive(Debug, PartialEq, Eq, Structural)]
pub enum ParsePointError {
    /// The line does not hold two fields.
    WrongFieldCount,
    /// A field is no number.
    InvalidNumber,
}

/// The tile that a line writes: two numbers with a comma between them.
pub open spec fn point_of(line: Seq<u8>) -> Result<Point, ParsePointError> {
    let parts = pieces(line, 44);
    if parts.len() != 2 {
        Err(ParsePointError::WrongFieldCount)
    } else {
        match (number(parts[0], u64::MAX as nat), number(parts[1], u64::MAX as nat)) {
            (Some(x), Some(y)) => Ok(Point { x: x as u64, y: y as u64 }),
            _ => Err(ParsePointError::InvalidNumber),
        }
    }
}

impl Point {
    /// Reads a tile: two numbers with a comma between them.
    pub fn from_str(line: &Vec<u8>) -> (out: Result<Point, ParsePointError>)
        ensures
            out == point_of(line@),
    {
        let parts = split(line, 44);
        if parts.len() != 2 {
            return Err(ParsePointError::WrongFieldCount);
        }
        proof {
            assert(crate::text::views(parts@)[0] == parts@[0]@);
            assert(crate::text::views(parts@)[1] == parts@[1]@);
        }
        let x = parse_number(&parts[0], u64::MAX);
        let y = parse_number(&parts[1], u64::MAX);
        match (x, y) {
            (Some(x), Some(y)) => Ok(Point { x, y }),
            _ => Err(ParsePointError::InvalidNumber),
        }
    }
}

/// The lesser of two numbers.
pub open spec fn lesser(a: u64, b: u64) -> u64 {
    if a <= b {
        a
    } else {
        b
    }
}

/// The larger of two numbers.
pub open spec fn larger(a: u64, b: u64) -> u64 {
    if a >= b {
        a
    } else {
        b
    }
}

impl Edge {
    /// The row of a horizontal side and the column at which it starts from the left.
    pub open spec fn across(self) -> (u64, u64) {
        (self.s.y, lesser(self.s.x, self.e.x))
    }

    /// The column of a vertical side and the row at which it starts from the top.
    pub open spec fn along(self) -> (u64, u64) {
        (self.s.x, lesser(self.s.y, self.e.y))
    }
}

/// The first pair stands before the second: its first number is less, or the first
/// numbers are equal and its second number is less.
pub open spec fn precedes(a: (u64, u64), b: (u64, u64)) -> bool {
    a.0 < b.0 || (a.0 == b.0 && a.1 < b.1)
}

/// Whether two stretches of a line share more than an end: `a0` to `a1` and `b0` to
/// `b1`.
pub fn overlaps(a0: u64, a1: u64, b0: u64, b1: u64) -> (out: bool)
    ensures
        out == (b0 < a1 && a0 < b1),
{
    !(a1 <= b0 || b1 <= a0)
}

/// The order of two pairs.
pub fn order_of(a0: u64, a1: u64, b0: u64, b1: u64) -> (out: Ordering)
    ensures
        (out == Ordering::Less) == precedes((a0, a1), (b0, b1)),
        (out == Ordering::Greater) == precedes((b0, b1), (a0, a1)),
        (out == Ordering::Equal) == (a0 == b0 && a1 == b1),
{
    if a0 < b0 {
        Ordering::Less
    } else if a0 > b0 {
        Ordering::Greater
    } else if a1 < b1 {
        Ordering::Less
    } else if a1 > b1 {
        Ordering::Greater
    } else {
        Ordering::Equal
    }
}

/// The order of two horizontal sides: by row, then by the column at which they start
/// from the left.
pub fn compare_horizontal(a: &Edge, b: &Edge) -> (out: Ordering)
    ensures
        (out == Ordering::Less) == precedes(a.across(), b.across()),
        (out == Ordering::Greater) == precedes(b.across(), a.across()),
        (out == Ordering::Equal) == (a.across() == b.across()),
{
    let ax0 = if a.s.x <= a.e.x { a.s.x } else { a.e.x };
    let bx0 = if b.s.x <= b.e.x { b.s.x } else { b.e.x };
    order_of(a.s.y, ax0, b.s.y, bx0)
}

/// The order of two vertical sides: by column, then by the row at which they start
/// from the top.
pub fn compare_vertical(a: &Edge, b: &Edge) -> (out: Ordering)
    ensures
        (out == Ordering::Less) == precedes(a.along(), b.along()),
        (out == Ordering::Greater) == precedes(b.along(), a.along()),
        (out == Ordering::Equal) == (a.along() == b.along()),
{
    let ay0 = if a.s.y <= a.e.y { a.s.y } else { a.e.y };
    let by0 = if b.s.y <= b.e.y { b.s.y } else { b.e.y };
    order_of(a.s.x, ay0, b.s.x, by0)
}

/// A place found by halving such that `f` holds for the entry before it, if there is
/// one, and not for the entry at it, if there is one. Where `f` holds for no entry
/// behind one for which it does not hold, that is the number of entries for which
/// `f` holds.
pub fn lower_bound<T, F: Fn(&T) -> bool>(slice: &Vec<T>, f: F) -> (out: usize)
    requires
        forall|i: int| 0 <= i < slice@.len() ==> call_requires(f, (&#[trigger] slice@[i],)),
    ensures
        out <= slice@.len(),
        out > 0 ==> call_ensures(f, (&slice@[out - 1],), true),
        out < slice@.len() ==> call_ensures(f, (&slice@[out as int],), false),
{
    let mut left: usize = 0;
    let mut right: usize = slice.len();
    while left < right
        invariant
            left <= right <= slice@.len(),
            forall|i: int| 0 <= i < slice@.len() ==> call_requires(f, (&#[trigger] slice@[i],)),
            left > 0 ==> call_ensures(f, (&slice@[left - 1],), true),
            right < slice@.len() ==> call_ensures(f, (&slice@[right as int],), false),
        decreases right - left,
    {
        let mid = left + (right - left) / 2;
        if f(&slice[mid]) {
            left = mid + 1;
        } else {
            right = mid;
        }
    }
    left
}

/// The side lies in a row.
pub open spec fn horizontal(e: Edge) -> bool {
    e.s.y == e.e.y
}

/// The side lies in a column.
pub open spec fn vertical(e: Edge) -> bool {
    e.s.x == e.e.x
}

/// The sides of the loop: from each tile to the next, and from the last to the first.
pub open spec fn edges_of(points: Seq<Point>) -> Seq<Edge> {
    Seq::new(
        points.len(),
        |i: int| Edge { s: points[i], e: points[(i + 1) % (points.len() as int)] },
    )
}

/// Each index is that of a side.
pub open spec fn valid(ids: Seq<usize>, n: nat) -> bool {
    forall|k: int| 0 <= k < ids.len() ==> #[trigger] ids[k] < n
}

/// The sides stand by rising row.
pub open spec fn by_row(edges: Seq<Edge>, ids: Seq<usize>) -> bool {
    forall|a: int, b: int|
        0 <= a <= b < ids.len() ==> at(edges, #[trigger] ids[a]).s.y <= at(edges, #[trigger] ids[b]).s.y
}

/// The sides stand by rising column.
pub open spec fn by_col(edges: Seq<Edge>, ids: Seq<usize>) -> bool {
    forall|a: int, b: int|
        0 <= a <= b < ids.len() ==> at(edges, #[trigger] ids[a]).s.x <= at(edges, #[trigger] ids[b]).s.x
}

/// `new` holds the indices of `old` in the order of the rows of their sides and of
/// the columns at which these start; indices of sides that are equal in that keep
/// their order.
pub open spec fn sorted_across(edges: Seq<Edge>, old: Seq<usize>, new: Seq<usize>) -> bool {
    exists|order: Seq<int>|
        {
            &&& is_order(order, old.len())
            &&& new.len() == old.len()
            &&& forall|k: int| 0 <= k < new.len() ==> #[trigger] new[k] == old[order[k]]
            &&& forall|a: int, b: int|
                0 <= a < b < new.len() ==> precedes(
                    at(edges, #[trigger] new[a]).across(),
                    at(edges, #[trigger] new[b]).across(),
                ) || (at(edges, new[a]).across() == at(edges, new[b]).across() && order[a]
                    < order[b])
        }
}

/// `new` holds the indices of `old` in the order of the columns of their sides and
/// of the rows at which these start; indices of sides that are equal in that keep
/// their order.
pub open spec fn sorted_along(edges: Seq<Edge>, old: Seq<usize>, new: Seq<usize>) -> bool {
    exists|order: Seq<int>|
        {
            &&& is_order(order, old.len())
            &&& new.len() == old.len()
            &&& forall|k: int| 0 <= k < new.len() ==> #[trigger] new[k] == old[order[k]]
            &&& forall|a: int, b: int|
                0 <= a < b < new.len() ==> precedes(
                    at(edges, #[trigger] new[a]).along(),
                    at(edges, #[trigger] new[b]).along(),
                ) || (at(edges, new[a]).along() == at(edges, new[b]).along() && order[a]
                    < order[b])
        }
}

/// Sorts the indices of horizontal sides.
///
/// Trusted: the body calls std's `sort_by` with `compare_horizontal` on the sides.
/// The contract says what std documents of a stable sort: the result holds the same
/// indices in the order of the comparison, equal ones in their old order.
#[verifier::external_body]
fn sort_across(indices: &mut Vec<usize>, edges: &Vec<Edge>)
    requires
        valid(old(indices)@, edges@.len()),
    ensures
        sorted_across(edges@, old(indices)@, final(indices)@),
{
    indices.sort_by(|a, b| compare_horizontal(&edges[*a], &edges[*b]));
}

/// Sorts the indices of vertical sides.
///
/// Trusted: the body calls std's `sort_by` with `compare_vertical` on the sides. The
/// contract says what std documents of a stable sort: the result holds the same
/// indices in the order of the comparison, equal ones in their old order.
#[verifier::external_body]
fn sort_along(indices: &mut Vec<usize>, edges: &Vec<Edge>)
    requires
        valid(old(indices)@, edges@.len()),
    ensures
        sorted_along(edges@, old(indices)@, final(indices)@),
{
    indices.sort_by(|a, b| compare_vertical(&edges[*a], &edges[*b]));
}

/// The kinds of sides that the solver keeps lists of.
#[derive(Clone, Copy, PartialEq, Eq, Structural)]
pub enum Kind {
    Horizontal,
    Vertical,
    Left,
    Right,
    Up,
    Down,
}

/// The side is of the kind.
pub open spec fn is_kind(e: Edge, kind: Kind) -> bool {
    match kind {
        Kind::Horizontal => e.s.y == e.e.y,
        Kind::Vertical => e.s.x == e.e.x,
        Kind::Left => e.s.y == e.e.y && e.s.x > e.e.x,
        Kind::Right => e.s.y == e.e.y && e.s.x < e.e.x,
        Kind::Up => e.s.x == e.e.x && e.s.y > e.e.y,
        Kind::Down => e.s.x == e.e.x && e.s.y < e.e.y,
    }
}

/// The list holds the indices of the sides of the kind, and no others.
pub open spec fn lists(edges: Seq<Edge>, ids: Seq<usize>, kind: Kind) -> bool {
    &&& valid(ids, edges.len())
    &&& forall|k: int| 0 <= k < ids.len() ==> is_kind(at(edges, #[trigger] ids[k]), kind)
    &&& forall|i: usize| i < edges.len() && is_kind(#[trigger] at(edges, i), kind) ==> ids.contains(i)
}

/// Whether the side is of the kind.
pub fn has_kind(e: &Edge, kind: Kind) -> (out: bool)
    ensures
        out == is_kind(*e, kind),
{
    match kind {
        Kind::Horizontal => e.s.y == e.e.y,
        Kind::Vertical => e.s.x == e.e.x,
        Kind::Left => e.s.y == e.e.y && e.s.x > e.e.x,
        Kind::Right => e.s.y == e.e.y && e.s.x < e.e.x,
        Kind::Up => e.s.x == e.e.x && e.s.y > e.e.y,
        Kind::Down => e.s.x == e.e.x && e.s.y < e.e.y,
    }
}

/// The indices of the sides of a kind, by rising index.
pub fn select(edges: &Vec<Edge>, kind: Kind) -> (out: Vec<usize>)
    ensures
        lists(edges@, out@, kind),
        out@ == select_spec(edges@, kind),
{
    let mut out: Vec<usize> = Vec::new();
    let mut i: usize = 0;
    while i < edges.len()
        invariant
            i <= edges@.len(),
            valid(out@, edges@.len()),
            out@ == select_upto(edges@, kind, i as nat),
            forall|k: int| 0 <= k < out@.len() ==> is_kind(at(edges@, #[trigger] out@[k]), kind),
            forall|j: usize| j < i && is_kind(#[trigger] at(edges@, j), kind) ==> out@.contains(j),
        decreases edges@.len() - i,
    {
        let ghost before = out@;
        if has_kind(&edges[i], kind) {
            out.push(i);
            proof {
                assert(out@[out@.len() - 1] == i);
                assert forall|j: usize| j < i + 1 && is_kind(
                    #[trigger] at(edges@, j),
                    kind,
                ) implies out@.contains(j) by {
                    if j < i {
                        let k = choose|k: int| 0 <= k < before.len() && before[k] == j;
                        assert(out@[k] == j);
                    }
                }
            }
        }
        i += 1;
    }
    out
}

/// A list that holds the same indices as a list of the sides of a kind is one too.
pub proof fn lemma_lists_permuted(edges: Seq<Edge>, old: Seq<usize>, new: Seq<usize>, order: Seq<int>, kind: Kind)
    requires
        lists(edges, old, kind),
        is_order(order, old.len()),
        new.len() == old.len(),
        forall|k: int| 0 <= k < new.len() ==> #[trigger] new[k] == old[order[k]],
    ensures
        lists(edges, new, kind),
{
    assert forall|i: usize| i < edges.len() && is_kind(
        #[trigger] at(edges, i),
        kind,
    ) implies new.contains(i) by {
        let j = choose|j: int| 0 <= j < old.len() && old[j] == i;
        assert(crate::vector::names(order, j));
        let k = choose|k: int| 0 <= k < order.len() && order[k] == j;
        assert(new[k] == i);
    }
}

/// The tiles of a loop and its sides, listed by kind.
pub struct Solver {
    pub points: Vec<Point>,
    pub edges: Vec<Edge>,
    pub h_edges: Vec<usize>,
    pub v_edges: Vec<usize>,
    pub left_edges: Vec<usize>,
    pub right_edges: Vec<usize>,
    pub up_edges: Vec<usize>,
    pub down_edges: Vec<usize>,
}

/// Some side of the list lies in a row between `y0` and `y1` and reaches into the
/// columns between `x0` and `x1`.
pub open spec fn crossed_across(edges: Seq<Edge>, ids: Seq<usize>, x0: u64, x1: u64, y0: u64, y1: u64) -> bool {
    exists|k: int|
        0 <= k < ids.len() && y0 < at(edges, #[trigger] ids[k]).s.y < y1 && larger(
            at(edges, ids[k]).s.x,
            at(edges, ids[k]).e.x,
        ) > x0 && lesser(at(edges, ids[k]).s.x, at(edges, ids[k]).e.x) < x1
}

/// Some side of the list lies in a column between `x0` and `x1` and reaches into the
/// rows between `y0` and `y1`.
pub open spec fn crossed_along(edges: Seq<Edge>, ids: Seq<usize>, x0: u64, x1: u64, y0: u64, y1: u64) -> bool {
    exists|k: int|
        0 <= k < ids.len() && x0 < at(edges, #[trigger] ids[k]).s.x < x1 && larger(
            at(edges, ids[k]).s.y,
            at(edges, ids[k]).e.y,
        ) > y0 && lesser(at(edges, ids[k]).s.y, at(edges, ids[k]).e.y) < y1
}

/// Some side of the list lies in row `y` and shares more than an end with the
/// columns from `x0` to `x1`.
pub open spec fn touched_across(edges: Seq<Edge>, ids: Seq<usize>, x0: u64, x1: u64, y: u64) -> bool {
    exists|k: int|
        0 <= k < ids.len() && at(edges, #[trigger] ids[k]).s.y == y && lesser(
            at(edges, ids[k]).s.x,
            at(edges, ids[k]).e.x,
        ) < x1 && x0 < larger(at(edges, ids[k]).s.x, at(edges, ids[k]).e.x)
}

/// Some side of the list lies in column `x` and shares more than an end with the
/// rows from `y0` to `y1`.
pub open spec fn touched_along(edges: Seq<Edge>, ids: Seq<usize>, y0: u64, y1: u64, x: u64) -> bool {
    exists|k: int|
        0 <= k < ids.len() && at(edges, #[trigger] ids[k]).s.x == x && lesser(
            at(edges, ids[k]).s.y,
            at(edges, ids[k]).e.y,
        ) < y1 && y0 < larger(at(edges, ids[k]).s.y, at(edges, ids[k]).e.y)
}

impl Solver {
    /// The lists hold the sides of their kinds, the horizontal ones by rising row,
    /// the vertical ones by rising column.
    pub open spec fn wf(&self) -> bool {
        &&& self.edges@ == edges_of(self.points@)
        &&& lists(self.edges@, self.h_edges@, Kind::Horizontal)
        &&& lists(self.edges@, self.v_edges@, Kind::Vertical)
        &&& lists(self.edges@, self.left_edges@, Kind::Left)
        &&& lists(self.edges@, self.right_edges@, Kind::Right)
        &&& lists(self.edges@, self.up_edges@, Kind::Up)
        &&& lists(self.edges@, self.down_edges@, Kind::Down)
        &&& by_row(self.edges@, self.h_edges@)
        &&& by_row(self.edges@, self.left_edges@)
        &&& by_row(self.edges@, self.right_edges@)
        &&& by_col(self.edges@, self.v_edges@)
        &&& by_col(self.edges@, self.up_edges@)
        &&& by_col(self.edges@, self.down_edges@)
    }

    /// The rectangle from `(x0, y0)` to `(x1, y1)` is cut by a side, or a side runs
    /// along one of its borders on the wrong side.
    pub open spec fn blocked(&self, x0: u64, x1: u64, y0: u64, y1: u64) -> bool {
        ||| crossed_across(self.edges@, self.h_edges@, x0, x1, y0, y1)
        ||| crossed_along(self.edges@, self.v_edges@, x0, x1, y0, y1)
        ||| touched_across(self.edges@, self.left_edges@, x0, x1, y0)
        ||| touched_across(self.edges@, self.right_edges@, x0, x1, y1)
        ||| touched_along(self.edges@, self.down_edges@, y0, y1, x0)
        ||| touched_along(self.edges@, self.up_edges@, y0, y1, x1)
    }

    /// The area of the rectangle with two tiles as opposite corners, or zero if the
    /// rectangle is blocked.
    pub open spec fn value(&self, p: Point, q: Point) -> int {
        let x0 = lesser(p.x, q.x);
        let x1 = larger(p.x, q.x);
        let y0 = lesser(p.y, q.y);
        let y1 = larger(p.y, q.y);
        if self.blocked(x0, x1, y0, y1) {
            0
        } else {
            (x1 - x0 + 1) * (y1 - y0 + 1)
        }
    }

    /// Whether a horizontal side lies in a row between `y0` and `y1` and reaches into
    /// the columns between `x0` and `x1`.
    pub fn horizontal_cross(&self, x0: u64, x1: u64, y0: u64, y1: u64) -> (out: bool)
        requires
            self.wf(),
        ensures
            out == crossed_across(self.edges@, self.h_edges@, x0, x1, y0, y1),
    {
        let edges = &self.edges;
        let passed = |idx: &usize| -> (r: bool)
            requires
                *idx < edges@.len(),
            ensures
                r == (at(edges@, *idx).s.y <= y0),
            { edges[*idx].s.y <= y0 };
        let start = lower_bound(&self.h_edges, passed);
        proof {
            let h = self.h_edges@;
            assert forall|i: int| 0 <= i < start implies at(self.edges@, #[trigger] h[i]).s.y <= y0 by {
                assert(at(self.edges@, h[i]).s.y <= at(self.edges@, h[start - 1]).s.y);
            }
            assert forall|i: int| start <= i < h.len() implies at(self.edges@, #[trigger] h[i]).s.y
                > y0 by {
                assert(at(self.edges@, h[start as int]).s.y <= at(self.edges@, h[i]).s.y);
            }
        }
        let mut k: usize = start;
        while k < self.h_edges.len()
            invariant
                start <= k <= self.h_edges@.len(),
                self.wf(),
                forall|i: int| 0 <= i < start ==> at(self.edges@, #[trigger] self.h_edges@[i]).s.y <= y0,
                forall|i: int|
                    start <= i < self.h_edges@.len() ==> at(
                        self.edges@,
                        #[trigger] self.h_edges@[i],
                    ).s.y > y0,
                forall|i: int|
                    start <= i < k ==> !(y0 < at(self.edges@, #[trigger] self.h_edges@[i]).s.y < y1
                        && larger(
                        at(self.edges@, self.h_edges@[i]).s.x,
                        at(self.edges@, self.h_edges@[i]).e.x,
                    ) > x0 && lesser(
                        at(self.edges@, self.h_edges@[i]).s.x,
                        at(self.edges@, self.h_edges@[i]).e.x,
                    ) < x1),
            decreases self.h_edges@.len() - k,
        {
            let e = &self.edges[self.h_edges[k]];
            let y = e.s.y;
            if y >= y1 {
                proof {
                    assert forall|i: int| k <= i < self.h_edges@.len() implies at(
                        self.edges@,
                        #[trigger] self.h_edges@[i],
                    ).s.y >= y1 by {
                        assert(at(self.edges@, self.h_edges@[k as int]).s.y <= at(
                            self.edges@,
                            self.h_edges@[i],
                        ).s.y);
                    }
                }
                return false;
            }
            let ex0 = if e.s.x <= e.e.x { e.s.x } else { e.e.x };
            let ex1 = if e.s.x >= e.e.x { e.s.x } else { e.e.x };
            if ex1 > x0 && ex0 < x1 {
                proof {
                    assert(y0 < at(self.edges@, self.h_edges@[k as int]).s.y < y1);
                }
                return true;
            }
            k += 1;
        }
        false
    }

    /// Whether a vertical side lies in a column between `x0` and `x1` and reaches
    /// into the rows between `y0` and `y1`.
    pub fn vertical_cross(&self, x0: u64, x1: u64, y0: u64, y1: u64) -> (out: bool)
        requires
            self.wf(),
        ensures
            out == crossed_along(self.edges@, self.v_edges@, x0, x1, y0, y1),
    {
        let edges = &self.edges;
        let passed = |idx: &usize| -> (r: bool)
            requires
                *idx < edges@.len(),
            ensures
                r == (at(edges@, *idx).s.x <= x0),
            { edges[*idx].s.x <= x0 };
        let start = lower_bound(&self.v_edges, passed);
        proof {
            let h = self.v_edges@;
            assert forall|i: int| 0 <= i < start implies at(self.edges@, #[trigger] h[i]).s.x <= x0 by {
                assert(at(self.edges@, h[i]).s.x <= at(self.edges@, h[start - 1]).s.x);
            }
            assert forall|i: int| start <= i < h.len() implies at(self.edges@, #[trigger] h[i]).s.x
                > x0 by {
                assert(at(self.edges@, h[start as int]).s.x <= at(self.edges@, h[i]).s.x);
            }
        }
        let mut k: usize = start;
        while k < self.v_edges.len()
            invariant
                start <= k <= self.v_edges@.len(),
                self.wf(),
                forall|i: int| 0 <= i < start ==> at(self.edges@, #[trigger] self.v_edges@[i]).s.x <= x0,
                forall|i: int|
                    start <= i < self.v_edges@.len() ==> at(
                        self.edges@,
                        #[trigger] self.v_edges@[i],
                    ).s.x > x0,
                forall|i: int|
                    start <= i < k ==> !(x0 < at(self.edges@, #[trigger] self.v_edges@[i]).s.x < x1
                        && larger(
                        at(self.edges@, self.v_edges@[i]).s.y,
                        at(self.edges@, self.v_edges@[i]).e.y,
                    ) > y0 && lesser(
                        at(self.edges@, self.v_edges@[i]).s.y,
                        at(self.edges@, self.v_edges@[i]).e.y,
                    ) < y1),
            decreases self.v_edges@.len() - k,
        {
            let e = &self.edges[self.v_edges[k]];
            let x = e.s.x;
            if x >= x1 {
                proof {
                    assert forall|i: int| k <= i < self.v_edges@.len() implies at(
                        self.edges@,
                        #[trigger] self.v_edges@[i],
                    ).s.x >= x1 by {
                        assert(at(self.edges@, self.v_edges@[k as int]).s.x <= at(
                            self.edges@,
                            self.v_edges@[i],
                        ).s.x);
                    }
                }
                return false;
            }
            let ey0 = if e.s.y <= e.e.y { e.s.y } else { e.e.y };
            let ey1 = if e.s.y >= e.e.y { e.s.y } else { e.e.y };
            if ey1 > y0 && ey0 < y1 {
                proof {
                    assert(x0 < at(self.edges@, self.v_edges@[k as int]).s.x < x1);
                }
                return true;
            }
            k += 1;
        }
        false
    }

    /// Whether a side of the list lies in row `y` and shares more than an end with
    /// the columns from `x0` to `x1`.
    pub fn horizontal_border_conflict(&self, indices: &Vec<usize>, x0: u64, x1: u64, y: u64) -> (out:
        bool)
        requires
            valid(indices@, self.edges@.len()),
            by_row(self.edges@, indices@),
        ensures
            out == touched_across(self.edges@, indices@, x0, x1, y),
    {
        let edges = &self.edges;
        let passed = |idx: &usize| -> (r: bool)
            requires
                *idx < edges@.len(),
            ensures
                r == (at(edges@, *idx).s.y < y),
            { edges[*idx].s.y < y };
        let start = lower_bound(indices, passed);
        proof {
            let h = indices@;
            assert forall|i: int| 0 <= i < start implies at(self.edges@, #[trigger] h[i]).s.y < y by {
                assert(at(self.edges@, h[i]).s.y <= at(self.edges@, h[start - 1]).s.y);
            }
            assert forall|i: int| start <= i < h.len() implies at(self.edges@, #[trigger] h[i]).s.y
                >= y by {
                assert(at(self.edges@, h[start as int]).s.y <= at(self.edges@, h[i]).s.y);
            }
        }
        let mut k: usize = start;
        while k < indices.len()
            invariant
                start <= k <= indices@.len(),
                valid(indices@, self.edges@.len()),
                by_row(self.edges@, indices@),
                forall|i: int| 0 <= i < start ==> at(self.edges@, #[trigger] indices@[i]).s.y < y,
                forall|i: int|
                    start <= i < indices@.len() ==> at(self.edges@, #[trigger] indices@[i]).s.y >= y,
                forall|i: int|
                    start <= i < k ==> !(at(self.edges@, #[trigger] indices@[i]).s.y == y && lesser(
                        at(self.edges@, indices@[i]).s.x,
                        at(self.edges@, indices@[i]).e.x,
                    ) < x1 && x0 < larger(
                        at(self.edges@, indices@[i]).s.x,
                        at(self.edges@, indices@[i]).e.x,
                    )),
            decreases indices@.len() - k,
        {
            let e = &self.edges[indices[k]];
            let ey = e.s.y;
            if ey > y {
                proof {
                    assert forall|i: int| k <= i < indices@.len() implies at(
                        self.edges@,
                        #[trigger] indices@[i],
                    ).s.y > y by {
                        assert(at(self.edges@, indices@[k as int]).s.y <= at(
                            self.edges@,
                            indices@[i],
                        ).s.y);
                    }
                }
                return false;
            }
            let ex0 = if e.s.x <= e.e.x { e.s.x } else { e.e.x };
            let ex1 = if e.s.x >= e.e.x { e.s.x } else { e.e.x };
            if overlaps(x0, x1, ex0, ex1) {
                proof {
                    assert(at(self.edges@, indices@[k as int]).s.y == y);
                }
                return true;
            }
            k += 1;
        }
        false
    }

    /// Whether a side of the list lies in column `x` and shares more than an end with
    /// the rows from `y0` to `y1`.
    pub fn vertical_border_conflict(&self, indices: &Vec<usize>, y0: u64, y1: u64, x: u64) -> (out: bool)
        requires
            valid(indices@, self.edges@.len()),
            by_col(self.edges@, indices@),
        ensures
            out == touched_along(self.edges@, indices@, y0, y1, x),
    {
        let edges = &self.edges;
        let passed = |idx: &usize| -> (r: bool)
            requires
                *idx < edges@.len(),
            ensures
                r == (at(edges@, *idx).s.x < x),
            { edges[*idx].s.x < x };
        let start = lower_bound(indices, passed);
        proof {
            let h = indices@;
            assert forall|i: int| 0 <= i < start implies at(self.edges@, #[trigger] h[i]).s.x < x by {
                assert(at(self.edges@, h[i]).s.x <= at(self.edges@, h[start - 1]).s.x);
            }
            assert forall|i: int| start <= i < h.len() implies at(self.edges@, #[trigger] h[i]).s.x
                >= x by {
                assert(at(self.edges@, h[start as int]).s.x <= at(self.edges@, h[i]).s.x);
            }
        }
        let mut k: usize = start;
        while k < indices.len()
            invariant
                start <= k <= indices@.len(),
                valid(indices@, self.edges@.len()),
                by_col(self.edges@, indices@),
                forall|i: int| 0 <= i < start ==> at(self.edges@, #[trigger] indices@[i]).s.x < x,
                forall|i: int|
                    start <= i < indices@.len() ==> at(self.edges@, #[trigger] indices@[i]).s.x >= x,
                forall|i: int|
                    start <= i < k ==> !(at(self.edges@, #[trigger] indices@[i]).s.x == x && lesser(
                        at(self.edges@, indices@[i]).s.y,
                        at(self.edges@, indices@[i]).e.y,
                    ) < y1 && y0 < larger(
                        at(self.edges@, indices@[i]).s.y,
                        at(self.edges@, indices@[i]).e.y,
                    )),
            decreases indices@.len() - k,
        {
            let e = &self.edges[indices[k]];
            let ex = e.s.x;
            if ex > x {
                proof {
                    assert forall|i: int| k <= i < indices@.len() implies at(
                        self.edges@,
                        #[trigger] indices@[i],
                    ).s.x > x by {
                        assert(at(self.edges@, indices@[k as int]).s.x <= at(
                            self.edges@,
                            indices@[i],
                        ).s.x);
                    }
                }
                return false;
            }
            let ey0 = if e.s.y <= e.e.y { e.s.y } else { e.e.y };
            let ey1 = if e.s.y >= e.e.y { e.s.y } else { e.e.y };
            if overlaps(y0, y1, ey0, ey1) {
                proof {
                    assert(at(self.edges@, indices@[k as int]).s.x == x);
                }
                return true;
            }
            k += 1;
        }
        false
    }
}


/// The sides by rising row follow from their order across.
pub proof fn lemma_sorted_across(edges: Seq<Edge>, old: Seq<usize>, new: Seq<usize>, kind: Kind)
    requires
        lists(edges, old, kind),
        sorted_across(edges, old, new),
    ensures
        lists(edges, new, kind),
        by_row(edges, new),
{
    let order = choose|order: Seq<int>|
        {
            &&& is_order(order, old.len())
            &&& new.len() == old.len()
            &&& forall|k: int| 0 <= k < new.len() ==> #[trigger] new[k] == old[order[k]]
            &&& forall|a: int, b: int|
                0 <= a < b < new.len() ==> precedes(
                    at(edges, #[trigger] new[a]).across(),
                    at(edges, #[trigger] new[b]).across(),
                ) || (at(edges, new[a]).across() == at(edges, new[b]).across() && order[a]
                    < order[b])
        };
    lemma_lists_permuted(edges, old, new, order, kind);
}

/// The sides by rising column follow from their order along.
pub proof fn lemma_sorted_along(edges: Seq<Edge>, old: Seq<usize>, new: Seq<usize>, kind: Kind)
    requires
        lists(edges, old, kind),
        sorted_along(edges, old, new),
    ensures
        lists(edges, new, kind),
        by_col(edges, new),
{
    let order = choose|order: Seq<int>|
        {
            &&& is_order(order, old.len())
            &&& new.len() == old.len()
            &&& forall|k: int| 0 <= k < new.len() ==> #[trigger] new[k] == old[order[k]]
            &&& forall|a: int, b: int|
                0 <= a < b < new.len() ==> precedes(
                    at(edges, #[trigger] new[a]).along(),
                    at(edges, #[trigger] new[b]).along(),
                ) || (at(edges, new[a]).along() == at(edges, new[b]).along() && order[a]
                    < order[b])
        };
    lemma_lists_permuted(edges, old, new, order, kind);
}

/// The indices of the sides of a kind that lie in rows, by rising row.
pub fn select_across(edges: &Vec<Edge>, kind: Kind) -> (out: Vec<usize>)
    ensures
        lists(edges@, out@, kind),
        by_row(edges@, out@),
        sorted_across(edges@, select_spec(edges@, kind), out@),
{
    let mut out = select(edges, kind);
    let ghost before = out@;
    sort_across(&mut out, edges);
    proof {
        lemma_sorted_across(edges@, before, out@, kind);
    }
    out
}

/// The indices of the sides of a kind that lie in columns, by rising column.
pub fn select_along(edges: &Vec<Edge>, kind: Kind) -> (out: Vec<usize>)
    ensures
        lists(edges@, out@, kind),
        by_col(edges@, out@),
        sorted_along(edges@, select_spec(edges@, kind), out@),
{
    let mut out = select(edges, kind);
    let ghost before = out@;
    sort_along(&mut out, edges);
    proof {
        lemma_sorted_along(edges@, before, out@, kind);
    }
    out
}

impl Solver {
    /// The solver for a loop of tiles.
    pub fn new(points: &Vec<Point>) -> (out: Self)
        ensures
            out.wf(),
            out.points@ == points@,
            sorted_across(out.edges@, select_spec(out.edges@, Kind::Horizontal), out.h_edges@),
            sorted_along(out.edges@, select_spec(out.edges@, Kind::Vertical), out.v_edges@),
            sorted_across(out.edges@, select_spec(out.edges@, Kind::Left), out.left_edges@),
            sorted_across(out.edges@, select_spec(out.edges@, Kind::Right), out.right_edges@),
            sorted_along(out.edges@, select_spec(out.edges@, Kind::Up), out.up_edges@),
            sorted_along(out.edges@, select_spec(out.edges@, Kind::Down), out.down_edges@),
    {
        let n = points.len();
        let mut edges: Vec<Edge> = Vec::new();
        let mut kept: Vec<Point> = Vec::new();
        let mut i: usize = 0;
        while i < n
            invariant
                i <= n,
                n == points@.len(),
                edges@.len() == i,
                kept@ == points@.take(i as int),
                forall|k: int|
                    0 <= k < i ==> #[trigger] edges@[k] == (Edge {
                        s: points@[k],
                        e: points@[(k + 1) % (n as int)],
                    }),
            decreases n - i,
        {
            let next = if i + 1 == n { 0 } else { i + 1 };
            proof {
                if i + 1 == n {
                    vstd::arithmetic::div_mod::lemma_mod_self_0(n as int);
                } else {
                    vstd::arithmetic::div_mod::lemma_small_mod((i + 1) as nat, n as nat);
                }
            }
            edges.push(Edge { s: points[i], e: points[next] });
            kept.push(points[i]);
            i += 1;
            proof {
                assert(kept@ =~= points@.take(i as int));
            }
        }
        proof {
            assert(points@.take(n as int) =~= points@);
            assert(edges@ =~= edges_of(points@));
        }
        let h_edges = select_across(&edges, Kind::Horizontal);
        let v_edges = select_along(&edges, Kind::Vertical);
        let left_edges = select_across(&edges, Kind::Left);
        let right_edges = select_across(&edges, Kind::Right);
        let up_edges = select_along(&edges, Kind::Up);
        let down_edges = select_along(&edges, Kind::Down);
        Solver { points: kept, edges, h_edges, v_edges, left_edges, right_edges, up_edges, down_edges }
    }

    /// Whether the rectangle from `(x0, y0)` to `(x1, y1)` is blocked.
    pub fn is_blocked(&self, x0: u64, x1: u64, y0: u64, y1: u64) -> (out: bool)
        requires
            self.wf(),
        ensures
            out == self.blocked(x0, x1, y0, y1),
    {
        if self.horizontal_cross(x0, x1, y0, y1) || self.vertical_cross(x0, x1, y0, y1) {
            return true;
        }
        let top_conflict = self.horizontal_border_conflict(&self.left_edges, x0, x1, y0);
        let bottom_conflict = self.horizontal_border_conflict(&self.right_edges, x0, x1, y1);
        let left_conflict = self.vertical_border_conflict(&self.down_edges, y0, y1, x0);
        let right_conflict = self.vertical_border_conflict(&self.up_edges, y0, y1, x1);
        top_conflict || bottom_conflict || left_conflict || right_conflict
    }

    /// The area of the rectangle with two tiles as opposite corners, or zero if the
    /// rectangle is blocked.
    pub fn area(&self, p: &Point, q: &Point) -> (out: u64)
        requires
            self.wf(),
            p.x < 0x8000_0000 && p.y < 0x8000_0000 && q.x < 0x8000_0000 && q.y < 0x8000_0000,
        ensures
            out == self.value(*p, *q),
    {
        let x0 = if p.x <= q.x { p.x } else { q.x };
        let x1 = if p.x >= q.x { p.x } else { q.x };
        let y0 = if p.y <= q.y { p.y } else { q.y };
        let y1 = if p.y >= q.y { p.y } else { q.y };
        let dx = x1 - x0 + 1;
        let dy = y1 - y0 + 1;
        proof {
            assert(dx * dy <= 0x4000_0000_0000_0000) by (nonlinear_arith)
                requires
                    0 <= dx <= 0x8000_0000,
                    0 <= dy <= 0x8000_0000,
            ;
        }
        let area = dx * dy;
        if self.is_blocked(x0, x1, y0, y1) {
            0
        } else {
            area
        }
    }

    /// The largest area of a rectangle with two tiles as opposite corners that is not
    /// blocked; zero if all are.
    pub fn solve(&self) -> (out: u64)
        requires
            self.wf(),
            self.points@.len() >= 2,
            forall|i: int|
                0 <= i < self.points@.len() ==> (#[trigger] self.points@[i]).x < 0x8000_0000
                    && self.points@[i].y < 0x8000_0000,
        ensures
            exists|i: int, j: int|
                0 <= i < j < self.points@.len() && out == #[trigger] self.value(
                    self.points@[i],
                    self.points@[j],
                ),
            forall|i: int, j: int|
                0 <= i < j < self.points@.len() ==> #[trigger] self.value(
                    self.points@[i],
                    self.points@[j],
                ) <= out,
    {
        let n = self.points.len();
        let mut best: u64 = self.area(&self.points[0], &self.points[1]);
        let mut i: usize = 0;
        while i < n
            invariant
                i <= n,
                n == self.points@.len(),
                n >= 2,
                self.wf(),
                forall|i: int|
                    0 <= i < self.points@.len() ==> (#[trigger] self.points@[i]).x < 0x8000_0000
                        && self.points@[i].y < 0x8000_0000,
                exists|a: int, b: int|
                    0 <= a < b < n && best == #[trigger] self.value(self.points@[a], self.points@[b]),
                forall|a: int, b: int|
                    0 <= a < b < n && a < i ==> #[trigger] self.value(
                        self.points@[a],
                        self.points@[b],
                    ) <= best,
            decreases n - i,
        {
            let mut j: usize = i + 1;
            while j < n
                invariant
                    i < n,
                    i + 1 <= j <= n,
                    n == self.points@.len(),
                    self.wf(),
                    forall|i: int|
                        0 <= i < self.points@.len() ==> (#[trigger] self.points@[i]).x < 0x8000_0000
                            && self.points@[i].y < 0x8000_0000,
                    exists|a: int, b: int|
                        0 <= a < b < n && best == #[trigger] self.value(
                            self.points@[a],
                            self.points@[b],
                        ),
                    forall|a: int, b: int|
                        0 <= a < b < n && (a < i || (a == i && b < j)) ==> #[trigger] self.value(
                            self.points@[a],
                            self.points@[b],
                        ) <= best,
                decreases n - j,
            {
                let area = self.area(&self.points[i], &self.points[j]);
                if area > best {
                    best = area;
                    proof {
                        assert(best == self.value(self.points@[i as int], self.points@[j as int]));
                    }
                }
                j += 1;
            }
            i += 1;
        }
        best
    }
}

/// The indices of the sides of a kind among the first `n` sides, by rising index.
pub open spec fn select_upto(edges: Seq<Edge>, kind: Kind, n: nat) -> Seq<usize>
    decreases n,
{
    if n == 0 {
        Seq::empty()
    } else if is_kind(edges[n - 1], kind) {
        select_upto(edges, kind, (n - 1) as nat).push((n - 1) as usize)
    } else {
        select_upto(edges, kind, (n - 1) as nat)
    }
}

/// The indices of the sides of a kind, by rising index.
pub open spec fn select_spec(edges: Seq<Edge>, kind: Kind) -> Seq<usize> {
    select_upto(edges, kind, edges.len())
}

} // verus!
