use vstd::prelude::*;
use crate::vector::{nats, table, total, dot};

verus! {

/// Every row of the table has `cols` entries.
pub open spec fn rectangular(m: Seq<Seq<nat>>, cols: nat) -> bool {
    forall|r: int| 0 <= r < m.len() ==> (#[trigger] m[r]).len() == cols
}

/// The number of columns of the table: the length of its first row.
pub open spec fn width(m: Seq<Seq<nat>>) -> nat {
    if m.len() == 0 {
        0
    } else {
        m[0].len()
    }
}

/// All rows of the table are as long as the first.
pub open spec fn uniform(m: Seq<Seq<nat>>) -> bool {
    rectangular(m, width(m))
}

/// Column `k` of the table: entry `k` of each row.
pub open spec fn column(m: Seq<Seq<nat>>, k: int) -> Seq<nat> {
    Seq::new(m.len(), |p: int| m[p][k])
}

/// The table whose `rows` rows are the columns of `m`.
pub open spec fn transposed(m: Seq<Seq<nat>>, rows: nat) -> Seq<Seq<nat>> {
    Seq::new(rows, |p: int| column(m, p))
}

/// `x` gives every row of the system its right-hand side.
pub open spec fn solves(m: Seq<Seq<nat>>, rhs: Seq<nat>, x: Seq<nat>) -> bool {
    forall|r: int| 0 <= r < m.len() ==> x.len() == (#[trigger] m[r]).len() && dot(m[r], x) == rhs[r]
}

/// `n` is the least sum of a solution of the system.
pub open spec fn is_least(m: Seq<Seq<nat>>, rhs: Seq<nat>, n: nat) -> bool {
    &&& exists|x: Seq<nat>| solves(m, rhs, x) && total(x) == n
    &&& forall|x: Seq<nat>| solves(m, rhs, x) ==> n <= total(x)
}

/// Some entry of the row is not zero.
pub open spec fn nonzero(row: Seq<nat>) -> bool {
    exists|c: int| 0 <= c < row.len() && row[c] != 0
}

/// Entry by entry, `a` is at most `b`.
pub open spec fn dominated(a: Seq<nat>, b: Seq<nat>) -> bool {
    &&& a.len() == b.len()
    &&& forall|c: int| 0 <= c < a.len() ==> a[c] <= b[c]
}

/// Row `j` can be taken from row `i`: they are two rows, row `j` is not all zero, and
/// neither an entry nor the right-hand side of row `j` exceeds that of row `i`.
pub open spec fn reducible(m: Seq<Seq<nat>>, rhs: Seq<nat>, i: int, j: int) -> bool {
    &&& rhs.len() == m.len()
    &&& 0 <= i < m.len()
    &&& 0 <= j < m.len()
    &&& i != j
    &&& nonzero(m[j])
    &&& dominated(m[j], m[i])
    &&& rhs[j] <= rhs[i]
}

/// Entry by entry, `a` less `b`.
pub open spec fn minus(a: Seq<nat>, b: Seq<nat>) -> Seq<nat> {
    Seq::new(a.len(), |c: int| (a[c] - b[c]) as nat)
}

/// The system after row `j` has been taken from row `i`.
pub open spec fn reduced(m: Seq<Seq<nat>>, rhs: Seq<nat>, i: int, j: int) -> (Seq<Seq<nat>>, Seq<nat>) {
    (m.update(i, minus(m[i], m[j])), rhs.update(i, (rhs[i] - rhs[j]) as nat))
}

/// The first `j` at or behind `from` such that row `j` can be taken from row `i`.
pub open spec fn first_partner(m: Seq<Seq<nat>>, rhs: Seq<nat>, i: int, from: int) -> Option<int>
    decreases m.len() - from,
{
    if from < 0 || from >= m.len() {
        None
    } else if reducible(m, rhs, i, from) {
        Some(from)
    } else {
        first_partner(m, rhs, i, from + 1)
    }
}

/// The first pair `(i, j)`, rows from `from` on and in the order of a scan row by row,
/// such that row `j` can be taken from row `i`.
pub open spec fn first_pair_from(m: Seq<Seq<nat>>, rhs: Seq<nat>, from: int) -> Option<(int, int)>
    decreases m.len() - from,
{
    if from < 0 || from >= m.len() {
        None
    } else {
        match first_partner(m, rhs, from, 0) {
            Some(j) => Some((from, j)),
            None => first_pair_from(m, rhs, from + 1),
        }
    }
}

/// The first pair of rows, in the order of a scan row by row, of which the second can
/// be taken from the first.
pub open spec fn first_pair(m: Seq<Seq<nat>>, rhs: Seq<nat>) -> Option<(int, int)> {
    first_pair_from(m, rhs, 0)
}

/// The sum of all entries of the table.
pub open spec fn weight(m: Seq<Seq<nat>>) -> nat
    decreases m.len(),
{
    if m.len() == 0 {
        0
    } else {
        weight(m.drop_last()) + total(m.last())
    }
}

/// The system that is left when the first pair of rows has been reduced until there is
/// none.
pub open spec fn simplified(m: Seq<Seq<nat>>, rhs: Seq<nat>) -> (Seq<Seq<nat>>, Seq<nat>)
    decreases weight(m),
{
    match first_pair(m, rhs) {
        None => (m, rhs),
        Some(p) => {
            proof {
                lemma_first_pair_reducible(m, rhs);
                lemma_reduced_weight(m, rhs, p.0, p.1);
            }
            simplified(reduced(m, rhs, p.0, p.1).0, reduced(m, rhs, p.0, p.1).1)
        },
    }
}

/// The first partner of a row is one that can be taken from it, and none before it can.
pub proof fn lemma_first_partner(m: Seq<Seq<nat>>, rhs: Seq<nat>, i: int, from: int)
    requires
        0 <= from,
    ensures
        match first_partner(m, rhs, i, from) {
            Some(j) => from <= j < m.len() && reducible(m, rhs, i, j) && forall|k: int|
                from <= k < j ==> !reducible(m, rhs, i, k),
            None => forall|k: int| from <= k < m.len() ==> !reducible(m, rhs, i, k),
        },
    decreases m.len() - from,
{
    if from < m.len() && !reducible(m, rhs, i, from) {
        lemma_first_partner(m, rhs, i, from + 1);
    }
}

/// The first pair is one whose second row can be taken from its first, and none before it is.
pub proof fn lemma_first_pair_from(m: Seq<Seq<nat>>, rhs: Seq<nat>, from: int)
    requires
        0 <= from,
    ensures
        match first_pair_from(m, rhs, from) {
            Some(p) => from <= p.0 < m.len() && reducible(m, rhs, p.0, p.1) && (forall|k: int|
                0 <= k < p.1 ==> !reducible(m, rhs, p.0, k)) && (forall|i: int, k: int|
                from <= i < p.0 ==> !reducible(m, rhs, i, k)),
            None => forall|i: int, k: int| from <= i < m.len() ==> !reducible(m, rhs, i, k),
        },
    decreases m.len() - from,
{
    if from < m.len() {
        lemma_first_partner(m, rhs, from, 0);
        if first_partner(m, rhs, from, 0) is None {
            lemma_first_pair_from(m, rhs, from + 1);
        }
    }
}

/// The first pair is one whose second row can be taken from its first, and there is
/// one whenever any row can be taken from another.
pub proof fn lemma_first_pair_reducible(m: Seq<Seq<nat>>, rhs: Seq<nat>)
    ensures
        match first_pair(m, rhs) {
            Some(p) => reducible(m, rhs, p.0, p.1),
            None => forall|i: int, j: int| !reducible(m, rhs, i, j),
        },
{
    lemma_first_pair_from(m, rhs, 0);
}

/// A row less a row that it dominates sums to the difference of their sums.
pub proof fn lemma_total_minus(a: Seq<nat>, b: Seq<nat>)
    requires
        dominated(b, a),
    ensures
        total(minus(a, b)) + total(b) == total(a),
    decreases a.len(),
{
    if a.len() > 0 {
        assert(minus(a, b).drop_last() =~= minus(a.drop_last(), b.drop_last()));
        lemma_total_minus(a.drop_last(), b.drop_last());
    }
}

/// A row that is not all zero has a sum above zero.
pub proof fn lemma_total_nonzero(a: Seq<nat>)
    requires
        nonzero(a),
    ensures
        total(a) > 0,
    decreases a.len(),
{
    let c = choose|c: int| 0 <= c < a.len() && a[c] != 0;
    if c < a.len() - 1 {
        assert(a.drop_last()[c] != 0);
        lemma_total_nonzero(a.drop_last());
    }
}

/// Replacing a row changes the weight by the difference of the sums of the rows.
pub proof fn lemma_weight_update(m: Seq<Seq<nat>>, i: int, row: Seq<nat>)
    requires
        0 <= i < m.len(),
    ensures
        weight(m.update(i, row)) + total(m[i]) == weight(m) + total(row),
    decreases m.len(),
{
    if i == m.len() - 1 {
        assert(m.update(i, row).drop_last() =~= m.drop_last());
    } else {
        assert(m.update(i, row).drop_last() =~= m.drop_last().update(i, row));
        lemma_weight_update(m.drop_last(), i, row);
    }
}

/// Taking one row from another makes the table lighter.
pub proof fn lemma_reduced_weight(m: Seq<Seq<nat>>, rhs: Seq<nat>, i: int, j: int)
    requires
        reducible(m, rhs, i, j),
    ensures
        weight(reduced(m, rhs, i, j).0) < weight(m),
{
    lemma_total_minus(m[i], m[j]);
    lemma_total_nonzero(m[j]);
    lemma_weight_update(m, i, minus(m[i], m[j]));
}

/// The coefficient matrix of a list of buttons: one row for each dimension, one column
/// for each button, beside the unchanged target.
pub fn build_system_from_buttons(buttons: Vec<Vec<u32>>, rhs: Vec<u32>) -> (out: (
    Vec<Vec<u32>>,
    Vec<u32>,
))
    requires
        forall|k: int| 0 <= k < buttons@.len() ==> (#[trigger] buttons@[k])@.len() == rhs@.len(),
    ensures
        out.1@ == rhs@,
        out.0@.len() == rhs@.len(),
        forall|p: int| 0 <= p < out.0@.len() ==> (#[trigger] out.0@[p])@.len() == buttons@.len(),
        forall|p: int, k: int|
            0 <= p < rhs@.len() && 0 <= k < buttons@.len() ==> out.0@[p]@[k] == buttons@[k]@[p],
        table(out.0@) == transposed(table(buttons@), rhs@.len() as nat),
        uniform(table(out.0@)),
{
    let len = rhs.len();
    let count = buttons.len();
    let mut coefficients: Vec<Vec<u32>> = Vec::new();
    let mut p: usize = 0;
    while p < len
        invariant
            p <= len,
            len == rhs@.len(),
            count == buttons@.len(),
            coefficients@.len() == p,
            forall|k: int| 0 <= k < buttons@.len() ==> (#[trigger] buttons@[k])@.len() == len,
            forall|q: int| 0 <= q < p ==> (#[trigger] coefficients@[q])@.len() == count,
            forall|q: int, k: int|
                0 <= q < p && 0 <= k < count ==> coefficients@[q]@[k] == buttons@[k]@[q],
        decreases len - p,
    {
        let mut row: Vec<u32> = Vec::new();
        let mut k: usize = 0;
        while k < count
            invariant
                k <= count,
                p < len,
                count == buttons@.len(),
                row@.len() == k,
                forall|k: int| 0 <= k < buttons@.len() ==> (#[trigger] buttons@[k])@.len() == len,
                forall|j: int| 0 <= j < k ==> row@[j] == buttons@[j]@[p as int],
            decreases count - k,
        {
            row.push(buttons[k][p]);
            k += 1;
        }
        coefficients.push(row);
        p += 1;
    }
    proof {
        let built = table(coefficients@);
        let wanted = transposed(table(buttons@), rhs@.len() as nat);
        assert(built.len() == wanted.len());
        assert forall|q: int| 0 <= q < built.len() implies built[q] == wanted[q] by {
            assert(built[q] =~= wanted[q]);
        }
        assert(built =~= wanted);
        assert forall|r: int| 0 <= r < built.len() implies (#[trigger] built[r]).len() == width(
            built,
        ) by {
            assert(built[r].len() == count);
            assert(built[0].len() == count);
        }
    }
    (coefficients, rhs)
}

/// Whether row `j` can be taken from row `i`.
pub fn is_reducing_partner(coefficients: &Vec<Vec<u32>>, rhs: &Vec<u32>, i: usize, j: usize) -> (out:
    bool)
    requires
        i < coefficients@.len(),
        j < coefficients@.len(),
        rhs@.len() == coefficients@.len(),
        coefficients@[i as int]@.len() == coefficients@[j as int]@.len(),
    ensures
        out == reducible(table(coefficients@), nats(rhs@), i as int, j as int),
{
    if i == j {
        return false;
    }
    let cols = coefficients[i].len();
    let ghost a = nats(coefficients@[i as int]@);
    let ghost b = nats(coefficients@[j as int]@);
    let mut some: bool = false;
    let mut c: usize = 0;
    while c < cols
        invariant
            c <= cols,
            i < coefficients@.len(),
            j < coefficients@.len(),
            cols == coefficients@[i as int]@.len(),
            cols == coefficients@[j as int]@.len(),
            a == nats(coefficients@[i as int]@),
            b == nats(coefficients@[j as int]@),
            forall|k: int| 0 <= k < c ==> b[k] <= a[k],
            some == exists|k: int| 0 <= k < c && b[k] != 0,
        decreases cols - c,
    {
        if coefficients[i][c] < coefficients[j][c] {
            proof {
                assert(b[c as int] > a[c as int]);
            }
            return false;
        }
        if coefficients[j][c] != 0 {
            proof {
                assert(b[c as int] != 0);
            }
            some = true;
        }
        c += 1;
    }
    some && rhs[j] <= rhs[i]
}

/// The first pair of rows, in the order of a scan row by row, of which the second can
/// be taken from the first.
pub fn find_reducible(coefficients: &Vec<Vec<u32>>, rhs: &Vec<u32>) -> (out: Option<(usize, usize)>)
    requires
        rhs@.len() == coefficients@.len(),
        uniform(table(coefficients@)),
    ensures
        match out {
            Some(p) => first_pair(table(coefficients@), nats(rhs@)) == Some((p.0 as int, p.1 as int)),
            None => first_pair(table(coefficients@), nats(rhs@)) is None,
        },
{
    let rows = coefficients.len();
    let ghost m = table(coefficients@);
    let ghost b = nats(rhs@);
    let ghost cols = width(table(coefficients@));
    let mut i: usize = 0;
    while i < rows
        invariant
            i <= rows,
            rows == coefficients@.len(),
            rhs@.len() == coefficients@.len(),
            m == table(coefficients@),
            b == nats(rhs@),
            rectangular(m, cols),
            first_pair(m, b) == first_pair_from(m, b, i as int),
        decreases rows - i,
    {
        let mut j: usize = 0;
        while j < rows
            invariant
                j <= rows,
                i < rows,
                rows == coefficients@.len(),
                rhs@.len() == coefficients@.len(),
                m == table(coefficients@),
                b == nats(rhs@),
                rectangular(m, cols),
                first_pair(m, b) == first_pair_from(m, b, i as int),
                first_partner(m, b, i as int, 0) == first_partner(m, b, i as int, j as int),
            decreases rows - j,
        {
            proof {
                assert(m[i as int].len() == cols);
                assert(m[j as int].len() == cols);
            }
            if is_reducing_partner(coefficients, rhs, i, j) {
                proof {
                    assert(first_partner(m, b, i as int, j as int) == Some(j as int));
                    assert(first_pair_from(m, b, i as int) == Some((i as int, j as int)));
                }
                return Some((i, j));
            }
            j += 1;
        }
        proof {
            assert(first_partner(m, b, i as int, rows as int) is None);
        }
        i += 1;
    }
    None
}

/// Takes row `j` from row `i`, entry by entry and on the right-hand side.
pub fn subtract_row(coefficients: &mut Vec<Vec<u32>>, rhs: &mut Vec<u32>, i: usize, j: usize)
    requires
        old(rhs)@.len() == old(coefficients)@.len(),
        reducible(table(old(coefficients)@), nats(old(rhs)@), i as int, j as int),
    ensures
        final(rhs)@.len() == final(coefficients)@.len(),
        final(coefficients)@.len() == old(coefficients)@.len(),
        (table(final(coefficients)@), nats(final(rhs)@)) == reduced(
            table(old(coefficients)@),
            nats(old(rhs)@),
            i as int,
            j as int,
        ),
{
    let ghost m = table(coefficients@);
    let ghost b = nats(rhs@);
    let cols = coefficients[i].len();
    let mut row: Vec<u32> = Vec::new();
    let mut c: usize = 0;
    while c < cols
        invariant
            c <= cols,
            i < coefficients@.len(),
            j < coefficients@.len(),
            m == table(coefficients@),
            cols == coefficients@[i as int]@.len(),
            dominated(m[j as int], m[i as int]),
            row@.len() == c,
            forall|k: int| 0 <= k < c ==> row@[k] == coefficients@[i as int]@[k] - coefficients@[j as int]@[k],
        decreases cols - c,
    {
        proof {
            assert(m[j as int][c as int] <= m[i as int][c as int]);
        }
        row.push(coefficients[i][c] - coefficients[j][c]);
        c += 1;
    }
    proof {
        assert(nats(row@) =~= minus(m[i as int], m[j as int]));
    }
    coefficients[i] = row;
    let value = rhs[i] - rhs[j];
    rhs[i] = value;
    proof {
        assert(table(coefficients@) =~= reduced(m, b, i as int, j as int).0);
        assert(nats(rhs@) =~= reduced(m, b, i as int, j as int).1);
    }
}

/// Takes rows from rows that they are part of until no row can be taken from another.
pub fn simplify(coefficients: Vec<Vec<u32>>, rhs: Vec<u32>) -> (out: (Vec<Vec<u32>>, Vec<u32>))
    requires
        rhs@.len() == coefficients@.len(),
        uniform(table(coefficients@)),
    ensures
        (table(out.0@), nats(out.1@)) == simplified(table(coefficients@), nats(rhs@)),
        out.0@.len() == coefficients@.len(),
        out.1@.len() == rhs@.len(),
        uniform(table(out.0@)),
        width(table(out.0@)) == width(table(coefficients@)),
{
    let mut matrix = coefficients;
    let mut side = rhs;
    let ghost start = (table(matrix@), nats(side@));
    let ghost cols = width(table(matrix@));
    loop
        invariant
            start == (table(coefficients@), nats(rhs@)),
            cols == width(table(coefficients@)),
            side@.len() == matrix@.len(),
            side@.len() == rhs@.len(),
            matrix@.len() == coefficients@.len(),
            rectangular(table(matrix@), cols),
            simplified(table(matrix@), nats(side@)) == simplified(start.0, start.1),
        decreases weight(table(matrix@)),
    {
        let ghost m = table(matrix@);
        let ghost b = nats(side@);
        match find_reducible(&matrix, &side) {
            None => {
                proof {
                    assert(simplified(m, b) == (m, b));
                    if m.len() > 0 {
                        assert(m[0].len() == cols);
                        assert(table(coefficients@)[0].len() == cols);
                    }
                }
                return (matrix, side);
            },
            Some(p) => {
                proof {
                    lemma_first_pair_reducible(m, b);
                    lemma_reduced_weight(m, b, p.0 as int, p.1 as int);
                    assert(m[p.0 as int].len() == cols);
                    assert(simplified(m, b) == simplified(
                        reduced(m, b, p.0 as int, p.1 as int).0,
                        reduced(m, b, p.0 as int, p.1 as int).1,
                    ));
                }
                subtract_row(&mut matrix, &mut side, p.0, p.1);
                proof {
                    assert(table(matrix@)[0].len() == cols);
                    assert(rectangular(table(matrix@), cols)) by {
                        assert forall|r: int| 0 <= r < table(matrix@).len() implies (
                        #[trigger] table(matrix@)[r]).len() == cols by {
                            if r != p.0 {
                                assert(table(matrix@)[r] == m[r]);
                            }
                        }
                    }
                }
            },
        }
    }
}

/// The number of entries of the row that are not zero.
pub open spec fn populated(row: Seq<nat>) -> nat
    decreases row.len(),
{
    if row.len() == 0 {
        0
    } else {
        populated(row.drop_last()) + if row.last() != 0 {
            1nat
        } else {
            0nat
        }
    }
}

/// The row has exactly one entry that is not zero.
pub open spec fn is_trivial(row: Seq<nat>) -> bool {
    populated(row) == 1
}

/// The rows that are not trivial, their right-hand sides, and the sum of the right-hand
/// sides of the trivial rows.
pub open spec fn extracted(m: Seq<Seq<nat>>, rhs: Seq<nat>) -> (Seq<Seq<nat>>, Seq<nat>, nat)
    decreases m.len(),
{
    if m.len() == 0 || rhs.len() == 0 {
        (Seq::empty(), Seq::empty(), 0)
    } else {
        let rest = extracted(m.drop_last(), rhs.drop_last());
        if is_trivial(m.last()) {
            (rest.0, rest.1, rest.2 + rhs.last())
        } else {
            (rest.0.push(m.last()), rest.1.push(rhs.last()), rest.2)
        }
    }
}

/// Of the first `upto` columns of the table, those that are not all zero, in order.
pub open spec fn live_columns(m: Seq<Seq<nat>>, upto: nat) -> Seq<Seq<nat>>
    decreases upto,
{
    if upto == 0 {
        Seq::empty()
    } else {
        let k = (upto - 1) as nat;
        if nonzero(column(m, k as int)) {
            live_columns(m, k).push(column(m, k as int))
        } else {
            live_columns(m, k)
        }
    }
}

/// Whether the row has exactly one entry that is not zero.
pub fn has_single_entry(row: &Vec<u32>) -> (out: bool)
    ensures
        out == is_trivial(nats(row@)),
{
    let ghost r = nats(row@);
    let mut count: usize = 0;
    let mut c: usize = 0;
    while c < row.len()
        invariant
            c <= row@.len(),
            r == nats(row@),
            count == populated(r.take(c as int)),
            count <= c,
        decreases row@.len() - c,
    {
        proof {
            assert(r.take(c + 1).drop_last() =~= r.take(c as int));
        }
        if row[c] != 0 {
            count += 1;
        }
        c += 1;
    }
    proof {
        assert(r.take(c as int) =~= r);
    }
    count == 1
}

/// Drops the rows with exactly one entry that is not zero and adds up their right-hand
/// sides: the presses that those rows force.
pub fn extract_trivial_solutions(a: Vec<Vec<u32>>, b: Vec<u32>) -> (out: (Vec<Vec<u32>>, Vec<u32>, u64))
    requires
        a@.len() == b@.len(),
        a@.len() <= u32::MAX,
    ensures
        (table(out.0@), nats(out.1@), out.2 as nat) == extracted(table(a@), nats(b@)),
        out.0@.len() == out.1@.len(),
        out.0@.len() <= a@.len(),
        out.2 <= a@.len() * u32::MAX,
        forall|cols: nat| rectangular(table(a@), cols) ==> rectangular(table(out.0@), cols),
{
    let ghost m = table(a@);
    let ghost rhs = nats(b@);
    let mut remaining_a: Vec<Vec<u32>> = Vec::new();
    let mut remaining_b: Vec<u32> = Vec::new();
    let mut sum: u64 = 0;
    let mut i: usize = 0;
    proof {
        assert(table(remaining_a@) =~= Seq::<Seq<nat>>::empty());
        assert(nats(remaining_b@) =~= Seq::<nat>::empty());
    }
    while i < a.len()
        invariant
            i <= a@.len(),
            a@.len() == b@.len(),
            a@.len() <= u32::MAX,
            m == table(a@),
            rhs == nats(b@),
            sum <= i * u32::MAX,
            remaining_a@.len() == remaining_b@.len(),
            remaining_a@.len() <= i,
            forall|r: int|
                0 <= r < remaining_a@.len() ==> exists|q: int|
                    0 <= q < i && (#[trigger] remaining_a@[r])@.len() == a@[q]@.len(),
            (table(remaining_a@), nats(remaining_b@), sum as nat) == extracted(
                m.take(i as int),
                rhs.take(i as int),
            ),
        decreases a@.len() - i,
    {
        proof {
            assert(m.take(i + 1).drop_last() =~= m.take(i as int));
            assert(rhs.take(i + 1).drop_last() =~= rhs.take(i as int));
            assert(i * u32::MAX + u32::MAX <= u32::MAX * u32::MAX) by (nonlinear_arith)
                requires
                    i < u32::MAX,
            ;
        }
        let ghost before_a = table(remaining_a@);
        let ghost before_b = nats(remaining_b@);
        if has_single_entry(&a[i]) {
            sum = sum + b[i] as u64;
        } else {
            let ghost kept = remaining_a@;
            remaining_a.push(a[i].clone());
            remaining_b.push(b[i]);
            proof {
                assert(table(remaining_a@) =~= before_a.push(m[i as int]));
                assert(nats(remaining_b@) =~= before_b.push(rhs[i as int]));
                assert forall|r: int| 0 <= r < remaining_a@.len() implies exists|q: int|
                    0 <= q < i + 1 && (#[trigger] remaining_a@[r])@.len() == a@[q]@.len() by {
                    if r < kept.len() {
                        assert(remaining_a@[r] == kept[r]);
                        let q = choose|q: int| 0 <= q < i && kept[r]@.len() == a@[q]@.len();
                        assert(0 <= q < i + 1 && remaining_a@[r]@.len() == a@[q]@.len());
                    } else {
                        assert(remaining_a@[r]@.len() == a@[i as int]@.len());
                    }
                }
            }
        }
        i += 1;
    }
    proof {
        assert(m.take(i as int) =~= m);
        assert(rhs.take(i as int) =~= rhs);
        assert(i * u32::MAX == a@.len() * u32::MAX);
        assert forall|cols: nat| rectangular(table(a@), cols) implies rectangular(
            table(remaining_a@),
            cols,
        ) by {
            assert forall|r: int| 0 <= r < table(remaining_a@).len() implies (#[trigger] table(
                remaining_a@,
            )[r]).len() == cols by {
                let q = choose|q: int| 0 <= q < i && remaining_a@[r]@.len() == a@[q]@.len();
                assert(table(a@)[q].len() == cols);
            }
        }
    }
    (remaining_a, remaining_b, sum)
}

/// Whether some row has an entry in column `k` that is not zero.
pub fn column_in_use(coefficients: &Vec<Vec<u32>>, k: usize) -> (out: bool)
    requires
        forall|p: int| 0 <= p < coefficients@.len() ==> k < (#[trigger] coefficients@[p])@.len(),
    ensures
        out == nonzero(column(table(coefficients@), k as int)),
{
    let ghost col = column(table(coefficients@), k as int);
    let mut p: usize = 0;
    while p < coefficients.len()
        invariant
            p <= coefficients@.len(),
            col == column(table(coefficients@), k as int),
            forall|p: int| 0 <= p < coefficients@.len() ==> k < (#[trigger] coefficients@[p])@.len(),
            forall|q: int| 0 <= q < p ==> col[q] == 0,
        decreases coefficients@.len() - p,
    {
        if coefficients[p][k] != 0 {
            proof {
                assert(col[p as int] != 0);
            }
            return true;
        }
        p += 1;
    }
    false
}

/// The buttons of a coefficient matrix: one for each column that is not all zero,
/// beside the unchanged right-hand side.
pub fn buttons_from_system(coefficients: Vec<Vec<u32>>, rhs: Vec<u32>) -> (out: (Vec<Vec<u32>>, Vec<u32>))
    requires
        uniform(table(coefficients@)),
    ensures
        out.1@ == rhs@,
        table(out.0@) == live_columns(table(coefficients@), width(table(coefficients@))),
        forall|k: int| 0 <= k < out.0@.len() ==> (#[trigger] out.0@[k])@.len() == coefficients@.len(),
        out.0@.len() <= width(table(coefficients@)),
{
    let ghost m = table(coefficients@);
    let rows = coefficients.len();
    let mut buttons: Vec<Vec<u32>> = Vec::new();
    proof {
        assert(table(buttons@) =~= Seq::<Seq<nat>>::empty());
    }
    if rows == 0 {
        return (buttons, rhs);
    }
    let cols = coefficients[0].len();
    proof {
        let w = width(m);
        assert(m[0].len() == w);
        assert forall|p: int| 0 <= p < coefficients@.len() implies (#[trigger] coefficients@[p])@.len()
            == cols by {
            assert(m[p].len() == w);
        }
    }
    let mut k: usize = 0;
    while k < cols
        invariant
            k <= cols,
            rows == coefficients@.len(),
            m == table(coefficients@),
            forall|p: int| 0 <= p < coefficients@.len() ==> (#[trigger] coefficients@[p])@.len() == cols,
            table(buttons@) == live_columns(m, k as nat),
            buttons@.len() <= k,
            forall|j: int| 0 <= j < buttons@.len() ==> (#[trigger] buttons@[j])@.len() == rows,
        decreases cols - k,
    {
        let ghost before = table(buttons@);
        if column_in_use(&coefficients, k) {
            let mut button: Vec<u32> = Vec::new();
            let mut p: usize = 0;
            while p < rows
                invariant
                    p <= rows,
                    k < cols,
                    rows == coefficients@.len(),
                    forall|p: int|
                        0 <= p < coefficients@.len() ==> (#[trigger] coefficients@[p])@.len() == cols,
                    button@.len() == p,
                    forall|q: int| 0 <= q < p ==> button@[q] == coefficients@[q]@[k as int],
                decreases rows - p,
            {
                button.push(coefficients[p][k]);
                p += 1;
            }
            proof {
                assert(nats(button@) =~= column(m, k as int));
            }
            buttons.push(button);
            proof {
                assert(table(buttons@) =~= before.push(column(m, k as int)));
            }
        }
        k += 1;
    }
    (buttons, rhs)
}

/// Simplifying a simplified system changes nothing: no row of the result can be taken
/// from another.
pub proof fn lemma_simplified_irreducible(m: Seq<Seq<nat>>, rhs: Seq<nat>)
    ensures
        first_pair(simplified(m, rhs).0, simplified(m, rhs).1) is None,
        forall|i: int, j: int| !reducible(simplified(m, rhs).0, simplified(m, rhs).1, i, j),
    decreases weight(m),
{
    lemma_first_pair_reducible(m, rhs);
    match first_pair(m, rhs) {
        None => {},
        Some(p) => {
            lemma_reduced_weight(m, rhs, p.0, p.1);
            let next = reduced(m, rhs, p.0, p.1);
            lemma_simplified_irreducible(next.0, next.1);
        },
    }
}

/// Running the simplifier on its own result gives that result again.
pub proof fn lemma_simplified_stable(m: Seq<Seq<nat>>, rhs: Seq<nat>)
    ensures
        simplified(simplified(m, rhs).0, simplified(m, rhs).1) == simplified(m, rhs),
{
    lemma_simplified_irreducible(m, rhs);
}

/// The products of a row less a row that it dominates and the products of that row sum to the
/// products of the row.
pub proof fn lemma_dot_minus(a: Seq<nat>, b: Seq<nat>, x: Seq<nat>)
    requires
        dominated(b, a),
    ensures
        dot(minus(a, b), x) + dot(b, x) == dot(a, x),
    decreases a.len(),
{
    if a.len() > 0 && x.len() > 0 {
        assert(minus(a, b).drop_last() =~= minus(a.drop_last(), b.drop_last()));
        lemma_dot_minus(a.drop_last(), b.drop_last(), x.drop_last());
        let u = a.last();
        let v = b.last();
        let w = x.last();
        assert(minus(a, b).last() == (u - v) as nat);
        assert((u - v) * w + v * w == u * w) by (nonlinear_arith);
    }
}

/// Taking one row from another keeps the solutions of the system.
pub proof fn lemma_reduced_solutions(m: Seq<Seq<nat>>, rhs: Seq<nat>, i: int, j: int, x: Seq<nat>)
    requires
        reducible(m, rhs, i, j),
    ensures
        solves(reduced(m, rhs, i, j).0, reduced(m, rhs, i, j).1, x) <==> solves(m, rhs, x),
{
    let next = reduced(m, rhs, i, j);
    lemma_dot_minus(m[i], m[j], x);
    if solves(m, rhs, x) {
        assert forall|r: int| 0 <= r < next.0.len() implies x.len() == (#[trigger] next.0[r]).len()
            && dot(next.0[r], x) == next.1[r] by {
            assert(x.len() == m[r].len());
            assert(x.len() == m[j].len() && dot(m[j], x) == rhs[j]);
            assert(x.len() == m[i].len() && dot(m[i], x) == rhs[i]);
        }
    }
    if solves(next.0, next.1, x) {
        assert forall|r: int| 0 <= r < m.len() implies x.len() == (#[trigger] m[r]).len() && dot(
            m[r],
            x,
        ) == rhs[r] by {
            assert(x.len() == next.0[r].len() && dot(next.0[r], x) == next.1[r]);
            assert(x.len() == next.0[j].len() && dot(next.0[j], x) == next.1[j]);
            assert(x.len() == next.0[i].len() && dot(next.0[i], x) == next.1[i]);
        }
    }
}

/// The simplified system has the solutions of the system it was made from, and no
/// others.
pub proof fn lemma_simplified_solutions(m: Seq<Seq<nat>>, rhs: Seq<nat>, x: Seq<nat>)
    ensures
        solves(simplified(m, rhs).0, simplified(m, rhs).1, x) <==> solves(m, rhs, x),
    decreases weight(m),
{
    lemma_first_pair_reducible(m, rhs);
    match first_pair(m, rhs) {
        None => {},
        Some(p) => {
            lemma_reduced_weight(m, rhs, p.0, p.1);
            lemma_reduced_solutions(m, rhs, p.0, p.1, x);
            let next = reduced(m, rhs, p.0, p.1);
            lemma_simplified_solutions(next.0, next.1, x);
        },
    }
}

/// The simplified system has the least sum of presses of the system it was made from,
/// and is solvable exactly when that system is.
pub proof fn lemma_simplified_least(m: Seq<Seq<nat>>, rhs: Seq<nat>, n: nat)
    ensures
        is_least(simplified(m, rhs).0, simplified(m, rhs).1, n) <==> is_least(m, rhs, n),
        (exists|x: Seq<nat>| solves(simplified(m, rhs).0, simplified(m, rhs).1, x)) <==> (exists|
            x: Seq<nat>,
        |
            solves(m, rhs, x)),
{
    let s = simplified(m, rhs);
    assert forall|x: Seq<nat>| #[trigger] solves(s.0, s.1, x) == solves(m, rhs, x) by {
        lemma_simplified_solutions(m, rhs, x);
    }
    assert forall|x: Seq<nat>| #[trigger] solves(m, rhs, x) == solves(s.0, s.1, x) by {
        lemma_simplified_solutions(m, rhs, x);
    }
    if is_least(m, rhs, n) {
        let x = choose|x: Seq<nat>| solves(m, rhs, x) && total(x) == n;
        assert(solves(s.0, s.1, x));
    }
    if is_least(s.0, s.1, n) {
        let x = choose|x: Seq<nat>| solves(s.0, s.1, x) && total(x) == n;
        assert(solves(m, rhs, x));
    }
    if exists|x: Seq<nat>| solves(m, rhs, x) {
        let x = choose|x: Seq<nat>| solves(m, rhs, x);
        assert(solves(s.0, s.1, x));
    }
    if exists|x: Seq<nat>| solves(s.0, s.1, x) {
        let x = choose|x: Seq<nat>| solves(s.0, s.1, x);
        assert(solves(m, rhs, x));
    }
}

/// Row `r` holds a one in column `c` and nothing else, and no other row holds anything
/// in column `c`.
pub open spec fn isolated(m: Seq<Seq<nat>>, r: int, c: int) -> bool {
    &&& 0 <= r < m.len()
    &&& rectangular(m, m[r].len())
    &&& 0 <= c < m[r].len()
    &&& m[r][c] == 1
    &&& forall|k: int| 0 <= k < m[r].len() && k != c ==> m[r][k] == 0
    &&& forall|p: int| 0 <= p < m.len() && p != r ==> (#[trigger] m[p])[c] == 0
}

/// A row of zeros gives the sum zero.
pub proof fn lemma_dot_zero_row(row: Seq<nat>, x: Seq<nat>)
    requires
        forall|k: int| 0 <= k < row.len() ==> row[k] == 0,
    ensures
        dot(row, x) == 0,
    decreases row.len(),
{
    if row.len() > 0 && x.len() > 0 {
        lemma_dot_zero_row(row.drop_last(), x.drop_last());
        assert(row.last() * x.last() == 0) by (nonlinear_arith)
            requires
                row.last() == 0,
        ;
    }
}

/// A row that holds a single one gives the presses of its column.
pub proof fn lemma_dot_unit(row: Seq<nat>, x: Seq<nat>, c: int)
    requires
        row.len() == x.len(),
        0 <= c < row.len(),
        row[c] == 1,
        forall|k: int| 0 <= k < row.len() && k != c ==> row[k] == 0,
    ensures
        dot(row, x) == x[c],
    decreases row.len(),
{
    if c == row.len() - 1 {
        lemma_dot_zero_row(row.drop_last(), x.drop_last());
        assert(row.last() * x.last() == x.last()) by (nonlinear_arith)
            requires
                row.last() == 1,
        ;
    } else {
        lemma_dot_unit(row.drop_last(), x.drop_last(), c);
        assert(row.last() * x.last() == 0) by (nonlinear_arith)
            requires
                row.last() == 0,
        ;
    }
}

/// Changing the presses of a column in which a row holds nothing leaves the row's sum.
pub proof fn lemma_dot_update(row: Seq<nat>, x: Seq<nat>, c: int, v: nat)
    requires
        row.len() == x.len(),
        0 <= c < row.len(),
        row[c] == 0,
    ensures
        dot(row, x.update(c, v)) == dot(row, x),
    decreases row.len(),
{
    let y = x.update(c, v);
    if c == row.len() - 1 {
        assert(y.drop_last() =~= x.drop_last());
        assert(row.last() * y.last() == row.last() * x.last()) by (nonlinear_arith)
            requires
                row.last() == 0,
        ;
    } else {
        assert(y.drop_last() =~= x.drop_last().update(c, v));
        assert(y.last() == x.last());
        lemma_dot_update(row.drop_last(), x.drop_last(), c, v);
    }
}

/// Changing one number changes the sum by the difference.
pub proof fn lemma_total_update(x: Seq<nat>, c: int, v: nat)
    requires
        0 <= c < x.len(),
    ensures
        total(x.update(c, v)) + x[c] == total(x) + v,
    decreases x.len(),
{
    if c == x.len() - 1 {
        assert(x.update(c, v).drop_last() =~= x.drop_last());
    } else {
        assert(x.update(c, v).drop_last() =~= x.drop_last().update(c, v));
        lemma_total_update(x.drop_last(), c, v);
    }
}

/// Zeros sum to zero.
pub proof fn lemma_total_zeros(len: nat)
    ensures
        total(Seq::new(len, |i: int| 0nat)) == 0,
    decreases len,
{
    if len > 0 {
        assert(Seq::new(len, |i: int| 0nat).drop_last() =~= Seq::new((len - 1) as nat, |i: int| 0nat));
        lemma_total_zeros((len - 1) as nat);
    }
}

/// A row that holds a single one forces the presses of its button: every solution
/// presses it as often as the row's right-hand side says. Without those presses the
/// solution solves the system without that row.
pub proof fn lemma_trivial_row_forces(m: Seq<Seq<nat>>, rhs: Seq<nat>, r: int, c: int, x: Seq<nat>)
    requires
        isolated(m, r, c),
        rhs.len() == m.len(),
        solves(m, rhs, x),
    ensures
        x[c] == rhs[r],
        solves(m.remove(r), rhs.remove(r), x.update(c, 0)),
        total(x.update(c, 0)) + rhs[r] == total(x),
{
    assert(x.len() == m[r].len() && dot(m[r], x) == rhs[r]);
    lemma_dot_unit(m[r], x, c);
    lemma_total_update(x, c, 0);
    let mm = m.remove(r);
    let bb = rhs.remove(r);
    let y = x.update(c, 0);
    assert forall|q: int| 0 <= q < mm.len() implies y.len() == (#[trigger] mm[q]).len() && dot(
        mm[q],
        y,
    ) == bb[q] by {
        let p = if q < r {
            q
        } else {
            q + 1
        };
        assert(mm[q] == m[p]);
        assert(x.len() == m[p].len() && dot(m[p], x) == rhs[p]);
        lemma_dot_update(m[p], x, c, 0);
    }
}

/// A solution of the system without a row that holds a single one gives a solution of
/// the whole system that adds no more presses than that row's right-hand side.
pub proof fn lemma_trivial_row_restores(
    m: Seq<Seq<nat>>,
    rhs: Seq<nat>,
    r: int,
    c: int,
    y: Seq<nat>,
) -> (x: Seq<nat>)
    requires
        isolated(m, r, c),
        rhs.len() == m.len(),
        solves(m.remove(r), rhs.remove(r), y),
    ensures
        solves(m, rhs, x),
        total(x) <= total(y) + rhs[r],
{
    let mm = m.remove(r);
    let bb = rhs.remove(r);
    let cols = m[r].len();
    let base = if mm.len() == 0 {
        Seq::new(cols, |i: int| 0nat)
    } else {
        y
    };
    if mm.len() == 0 {
        lemma_total_zeros(cols);
    } else {
        assert(y.len() == mm[0].len());
        assert(mm[0] == m[if 0 < r { 0int } else { 1int }]);
    }
    let x = base.update(c, rhs[r]);
    lemma_total_update(base, c, rhs[r]);
    assert forall|p: int| 0 <= p < m.len() implies x.len() == (#[trigger] m[p]).len() && dot(
        m[p],
        x,
    ) == rhs[p] by {
        if p == r {
            lemma_dot_unit(m[r], x, c);
        } else {
            let q = if p < r {
                p
            } else {
                p - 1
            };
            assert(mm[q] == m[p]);
            assert(y.len() == mm[q].len() && dot(mm[q], y) == bb[q]);
            lemma_dot_update(m[p], y, c, rhs[r]);
        }
    }
    x
}

/// Extracting a row that holds a single one is exact: the least sum of presses of the
/// whole system is that row's right-hand side and the least sum of presses of the
/// system without the row.
pub proof fn lemma_trivial_row_least(m: Seq<Seq<nat>>, rhs: Seq<nat>, r: int, c: int, n: nat)
    requires
        isolated(m, r, c),
        rhs.len() == m.len(),
    ensures
        is_least(m, rhs, n) <==> n >= rhs[r] && is_least(m.remove(r), rhs.remove(r), (n - rhs[r]) as nat),
{
    let mm = m.remove(r);
    let bb = rhs.remove(r);
    if is_least(m, rhs, n) {
        let x = choose|x: Seq<nat>| solves(m, rhs, x) && total(x) == n;
        lemma_trivial_row_forces(m, rhs, r, c, x);
        assert forall|y: Seq<nat>| solves(mm, bb, y) implies n - rhs[r] <= total(y) by {
            let z = lemma_trivial_row_restores(m, rhs, r, c, y);
        }
        assert(is_least(mm, bb, (n - rhs[r]) as nat));
    }
    if n >= rhs[r] && is_least(mm, bb, (n - rhs[r]) as nat) {
        let y = choose|y: Seq<nat>| solves(mm, bb, y) && total(y) == n - rhs[r];
        let x = lemma_trivial_row_restores(m, rhs, r, c, y);
        lemma_trivial_row_forces(m, rhs, r, c, x);
        assert(total(x) == n);
        assert forall|z: Seq<nat>| solves(m, rhs, z) implies n <= total(z) by {
            lemma_trivial_row_forces(m, rhs, r, c, z);
        }
        assert(is_least(m, rhs, n));
    }
}

/// Of a system of one row that holds a single entry, the extractor keeps nothing and
/// counts the row's right-hand side.
pub proof fn lemma_extracted_single(row: Seq<nat>, value: nat)
    requires
        is_trivial(row),
    ensures
        extracted(seq![row], seq![value]) == (Seq::<Seq<nat>>::empty(), Seq::<nat>::empty(), value),
{
    assert(seq![row].drop_last() =~= Seq::<Seq<nat>>::empty());
    assert(seq![value].drop_last() =~= Seq::<nat>::empty());
    assert(extracted(Seq::<Seq<nat>>::empty(), Seq::<nat>::empty()) == (
        Seq::<Seq<nat>>::empty(),
        Seq::<nat>::empty(),
        0nat,
    ));
    assert(seq![row].last() == row);
    assert(seq![value].last() == value);
}

} // verus!
