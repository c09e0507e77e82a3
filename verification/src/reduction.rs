use vstd::prelude::*;
use crate::vector::{dot, total};

use crate::system::{
    column, dominated, extracted, first_pair, is_trivial, lemma_dot_unit, lemma_dot_update, lemma_first_pair_reducible, lemma_reduced_weight, lemma_simplified_irreducible, lemma_simplified_solutions, lemma_total_update, lemma_total_zeros, live_columns, nonzero, populated, rectangular, reduced, reducible, simplified, solves, transposed, weight, width,
};
use crate::search::{iota, origin, Puzzle};

use crate::machine::{reduced_presses, reduction};


verus! {

/// No entry of the table is more than one.
pub open spec fn binary(m: Seq<Seq<nat>>) -> bool {
    forall|r: int, c: int| 0 <= r < m.len() && 0 <= c < m[r].len() ==> #[trigger] m[r][c] <= 1
}

/// The place of an entry of the row that is not zero.
pub open spec fn unit_col(row: Seq<nat>) -> int {
    choose|c: int| 0 <= c < row.len() && row[c] != 0
}

/// Row `r` holds a single entry, and row `p`, another row, holds an entry in the
/// same column.
pub open spec fn clash(m: Seq<Seq<nat>>, r: int, p: int) -> bool {
    is_trivial(m[r]) && p != r && m[p][unit_col(m[r])] != 0
}

/// The system has `cols` columns and no entry above one, and no row holds an entry in
/// the column of a row that holds a single entry.
pub open spec fn settled(m: Seq<Seq<nat>>, rhs: Seq<nat>, cols: nat) -> bool {
    &&& rectangular(m, cols)
    &&& rhs.len() == m.len()
    &&& binary(m)
    &&& forall|r: int, p: int| 0 <= r < m.len() && 0 <= p < m.len() ==> !#[trigger] clash(m, r, p)
}

/// The presses without those that the rows with a single entry force.
pub open spec fn cleared(m: Seq<Seq<nat>>, x: Seq<nat>) -> Seq<nat>
    decreases m.len(),
{
    if m.len() == 0 {
        x
    } else if is_trivial(m.last()) {
        cleared(m.drop_last(), x).update(unit_col(m.last()), 0)
    } else {
        cleared(m.drop_last(), x)
    }
}

/// The presses with those that the rows with a single entry force.
pub open spec fn restored(m: Seq<Seq<nat>>, rhs: Seq<nat>, y: Seq<nat>) -> Seq<nat>
    decreases m.len(),
{
    if m.len() == 0 {
        y
    } else if is_trivial(m.last()) {
        restored(m.drop_last(), rhs.drop_last(), y).update(unit_col(m.last()), rhs.last())
    } else {
        restored(m.drop_last(), rhs.drop_last(), y)
    }
}

/// A row holds no entry exactly if all its entries are zero.
pub proof fn lemma_populated_zero(row: Seq<nat>)
    ensures
        populated(row) == 0 <==> forall|k: int| 0 <= k < row.len() ==> row[k] == 0,
    decreases row.len(),
{
    if row.len() > 0 {
        let front = row.drop_last();
        lemma_populated_zero(front);
        if populated(row) == 0 {
            assert forall|k: int| 0 <= k < row.len() implies row[k] == 0 by {
                if k < front.len() {
                    assert(front[k] == 0);
                }
            }
        }
        if forall|k: int| 0 <= k < row.len() ==> row[k] == 0 {
            assert forall|k: int| 0 <= k < front.len() implies front[k] == 0 by {
                assert(row[k] == 0);
            }
            assert(row[row.len() - 1] == 0);
        }
    }
}

/// A row with a single entry holds nothing beside it.
pub proof fn lemma_populated_single(row: Seq<nat>, c: int)
    requires
        populated(row) == 1,
        0 <= c < row.len(),
        row[c] != 0,
    ensures
        forall|k: int| 0 <= k < row.len() && k != c ==> row[k] == 0,
    decreases row.len(),
{
    let front = row.drop_last();
    lemma_populated_zero(front);
    if c == row.len() - 1 {
        assert forall|k: int| 0 <= k < row.len() && k != c implies row[k] == 0 by {
            assert(front[k] == 0);
        }
    } else {
        assert(front[c] != 0);
        lemma_populated_single(front, c);
        assert forall|k: int| 0 <= k < row.len() && k != c implies row[k] == 0 by {
            if k < front.len() {
                assert(front[k] == 0);
            }
        }
    }
}

/// A row with a single entry holds it at `unit_col`, and nothing elsewhere.
pub proof fn lemma_unit_col(row: Seq<nat>)
    requires
        is_trivial(row),
    ensures
        0 <= unit_col(row) < row.len(),
        row[unit_col(row)] != 0,
        forall|k: int| 0 <= k < row.len() && k != unit_col(row) ==> row[k] == 0,
{
    lemma_populated_zero(row);
    let c = choose|c: int| 0 <= c < row.len() && row[c] != 0;
    lemma_populated_single(row, c);
}

/// A settled system without its last row is settled.
pub proof fn lemma_settled_front(m: Seq<Seq<nat>>, rhs: Seq<nat>, cols: nat)
    requires
        settled(m, rhs, cols),
        m.len() > 0,
    ensures
        settled(m.drop_last(), rhs.drop_last(), cols),
{
    let f = m.drop_last();
    assert forall|r: int, p: int| 0 <= r < f.len() && 0 <= p < f.len() implies !#[trigger] clash(
        f,
        r,
        p,
    ) by {
        assert(!clash(m, r, p));
        assert(f[r] == m[r]);
        assert(f[p] == m[p]);
    }
    assert forall|r: int, c: int| 0 <= r < f.len() && 0 <= c < f[r].len() implies #[trigger] f[r][c]
        <= 1 by {
        assert(m[r][c] <= 1);
    }
    assert forall|r: int| 0 <= r < f.len() implies (#[trigger] f[r]).len() == cols by {
        assert(m[r].len() == cols);
    }
}

/// Presses that solve a system solve it without its last row, and give the last row its
/// right-hand side.
pub proof fn lemma_solves_front(m: Seq<Seq<nat>>, rhs: Seq<nat>, x: Seq<nat>)
    requires
        solves(m, rhs, x),
        rhs.len() == m.len(),
        m.len() > 0,
    ensures
        solves(m.drop_last(), rhs.drop_last(), x),
        x.len() == m.last().len(),
        dot(m.last(), x) == rhs.last(),
{
    let f = m.drop_last();
    assert forall|r: int| 0 <= r < f.len() implies x.len() == (#[trigger] f[r]).len() && dot(f[r], x)
        == rhs.drop_last()[r] by {
        assert(x.len() == m[r].len() && dot(m[r], x) == rhs[r]);
    }
    assert(x.len() == m[m.len() - 1].len() && dot(m[m.len() - 1], x) == rhs[m.len() - 1]);
}

/// The rows that the extractor keeps are rows of the system, none of them with a
/// single entry, beside their right-hand sides.
pub proof fn lemma_extracted_rows(m: Seq<Seq<nat>>, rhs: Seq<nat>)
    requires
        rhs.len() == m.len(),
    ensures
        extracted(m, rhs).0.len() == extracted(m, rhs).1.len(),
        extracted(m, rhs).0.len() <= m.len(),
        forall|q: int|
            0 <= q < extracted(m, rhs).0.len() ==> exists|p: int|
                0 <= p < m.len() && #[trigger] extracted(m, rhs).0[q] == m[p] && extracted(
                    m,
                    rhs,
                ).1[q] == rhs[p] && !is_trivial(m[p]),
    decreases m.len(),
{
    if m.len() > 0 {
        let f = m.drop_last();
        let g = rhs.drop_last();
        lemma_extracted_rows(f, g);
        let e = extracted(m, rhs);
        let e1 = extracted(f, g);
        assert forall|q: int| 0 <= q < e.0.len() implies exists|p: int|
            0 <= p < m.len() && #[trigger] e.0[q] == m[p] && e.1[q] == rhs[p] && !is_trivial(
                m[p],
            ) by {
            if q < e1.0.len() {
                let p = choose|p: int|
                    0 <= p < f.len() && e1.0[q] == f[p] && e1.1[q] == g[p] && !is_trivial(f[p]);
                assert(e.0[q] == m[p] && e.1[q] == rhs[p] && !is_trivial(m[p]));
            } else {
                let p = m.len() - 1;
                assert(e.0[q] == m[p] && e.1[q] == rhs[p] && !is_trivial(m[p]));
            }
        }
    }
}

/// Clearing changes the presses only of the buttons of rows with a single entry.
pub proof fn lemma_cleared(m: Seq<Seq<nat>>, x: Seq<nat>, cols: nat)
    requires
        rectangular(m, cols),
        x.len() == cols,
    ensures
        cleared(m, x).len() == cols,
        forall|k: int|
            0 <= k < cols && (forall|r: int|
                0 <= r < m.len() && is_trivial(m[r]) ==> unit_col(#[trigger] m[r]) != k)
                ==> #[trigger] cleared(m, x)[k] == x[k],
    decreases m.len(),
{
    if m.len() > 0 {
        let f = m.drop_last();
        lemma_cleared(f, x, cols);
        assert(m[m.len() - 1].len() == cols);
        if is_trivial(m.last()) {
            lemma_unit_col(m.last());
        }
        assert forall|k: int|
            0 <= k < cols && (forall|r: int|
                0 <= r < m.len() && is_trivial(m[r]) ==> unit_col(#[trigger] m[r]) != k)
                implies #[trigger] cleared(m, x)[k] == x[k] by {
            assert forall|r: int| 0 <= r < f.len() && is_trivial(f[r]) implies unit_col(
                #[trigger] f[r],
            ) != k by {
                assert(f[r] == m[r]);
            }
            if is_trivial(m.last()) {
                assert(unit_col(m[m.len() - 1]) != k);
            }
        }
    }
}

/// A row without entries in the columns of the rows with a single entry gives the
/// same sum for the cleared presses.
pub proof fn lemma_dot_cleared(m: Seq<Seq<nat>>, x: Seq<nat>, cols: nat, a: Seq<nat>)
    requires
        rectangular(m, cols),
        x.len() == cols,
        a.len() == cols,
        forall|r: int| 0 <= r < m.len() && is_trivial(m[r]) ==> a[unit_col(#[trigger] m[r])] == 0,
    ensures
        dot(a, cleared(m, x)) == dot(a, x),
    decreases m.len(),
{
    if m.len() > 0 {
        let f = m.drop_last();
        assert forall|r: int| 0 <= r < f.len() && is_trivial(f[r]) implies a[unit_col(
            #[trigger] f[r],
        )] == 0 by {
            assert(f[r] == m[r]);
        }
        lemma_dot_cleared(f, x, cols, a);
        lemma_cleared(f, x, cols);
        assert(m[m.len() - 1].len() == cols);
        if is_trivial(m.last()) {
            lemma_unit_col(m.last());
            assert(a[unit_col(m[m.len() - 1])] == 0);
            lemma_dot_update(a, cleared(f, x), unit_col(m.last()), 0);
        }
    }
}

/// Restoring changes the presses only of the buttons of rows with a single entry.
pub proof fn lemma_restored(m: Seq<Seq<nat>>, rhs: Seq<nat>, y: Seq<nat>, cols: nat)
    requires
        rectangular(m, cols),
        y.len() == cols,
    ensures
        restored(m, rhs, y).len() == cols,
    decreases m.len(),
{
    if m.len() > 0 {
        let f = m.drop_last();
        assert forall|r: int| 0 <= r < f.len() implies (#[trigger] f[r]).len() == cols by {
            assert(m[r].len() == cols);
        }
        lemma_restored(f, rhs.drop_last(), y, cols);
        assert(m[m.len() - 1].len() == cols);
        if is_trivial(m.last()) {
            lemma_unit_col(m.last());
        }
    }
}

/// A row without entries in the columns of the rows with a single entry gives the
/// same sum for the restored presses.
pub proof fn lemma_dot_restored(m: Seq<Seq<nat>>, rhs: Seq<nat>, y: Seq<nat>, cols: nat, a: Seq<nat>)
    requires
        rectangular(m, cols),
        y.len() == cols,
        a.len() == cols,
        forall|r: int| 0 <= r < m.len() && is_trivial(m[r]) ==> a[unit_col(#[trigger] m[r])] == 0,
    ensures
        dot(a, restored(m, rhs, y)) == dot(a, y),
    decreases m.len(),
{
    if m.len() > 0 {
        let f = m.drop_last();
        assert forall|r: int| 0 <= r < f.len() && is_trivial(f[r]) implies a[unit_col(
            #[trigger] f[r],
        )] == 0 by {
            assert(f[r] == m[r]);
        }
        lemma_dot_restored(f, rhs.drop_last(), y, cols, a);
        lemma_restored(f, rhs.drop_last(), y, cols);
        assert(m[m.len() - 1].len() == cols);
        if is_trivial(m.last()) {
            lemma_unit_col(m.last());
            assert(a[unit_col(m[m.len() - 1])] == 0);
            lemma_dot_update(a, restored(f, rhs.drop_last(), y), unit_col(m.last()), rhs.last());
        }
    }
}

/// Presses that solve a settled system solve, once cleared, what the extractor
/// keeps, and the extractor counts what clearing took from them.
pub proof fn lemma_extract_forward(m: Seq<Seq<nat>>, rhs: Seq<nat>, cols: nat, x: Seq<nat>)
    requires
        settled(m, rhs, cols),
        solves(m, rhs, x),
        x.len() == cols,
    ensures
        solves(extracted(m, rhs).0, extracted(m, rhs).1, cleared(m, x)),
        total(cleared(m, x)) + extracted(m, rhs).2 == total(x),
        cleared(m, x).len() == cols,
    decreases m.len(),
{
    lemma_cleared(m, x, cols);
    if m.len() > 0 {
        let f = m.drop_last();
        let g = rhs.drop_last();
        let last = m.last();
        let e = extracted(m, rhs);
        let e1 = extracted(f, g);
        let z1 = cleared(f, x);
        let z = cleared(m, x);
        lemma_settled_front(m, rhs, cols);
        lemma_solves_front(m, rhs, x);
        lemma_extract_forward(f, g, cols, x);
        lemma_cleared(f, x, cols);
        lemma_extracted_rows(f, g);
        assert(m[m.len() - 1].len() == cols);
        if is_trivial(last) {
            let c = unit_col(last);
            lemma_unit_col(last);
            assert(last[c] == 1) by {
                assert(m[m.len() - 1][c] <= 1);
            }
            lemma_dot_unit(last, x, c);
            assert(z1[c] == x[c]) by {
                assert forall|r: int| 0 <= r < f.len() && is_trivial(f[r]) implies unit_col(
                    #[trigger] f[r],
                ) != c by {
                    assert(f[r] == m[r]);
                    lemma_unit_col(m[r]);
                    assert(!clash(m, m.len() - 1, r));
                }
            }
            lemma_total_update(z1, c, 0);
            assert forall|q: int| 0 <= q < e.0.len() implies z.len() == (#[trigger] e.0[q]).len()
                && dot(e.0[q], z) == e.1[q] by {
                let p = choose|p: int|
                    0 <= p < f.len() && e1.0[q] == f[p] && e1.1[q] == g[p] && !is_trivial(f[p]);
                assert(f[p] == m[p]);
                assert(!clash(m, m.len() - 1, p));
                assert(z1.len() == e1.0[q].len() && dot(e1.0[q], z1) == e1.1[q]);
                lemma_dot_update(e1.0[q], z1, c, 0);
            }
        } else {
            assert forall|r: int| 0 <= r < f.len() && is_trivial(f[r]) implies last[unit_col(
                #[trigger] f[r],
            )] == 0 by {
                assert(f[r] == m[r]);
                assert(!clash(m, r, m.len() - 1));
            }
            lemma_dot_cleared(f, x, cols, last);
            assert forall|q: int| 0 <= q < e.0.len() implies z.len() == (#[trigger] e.0[q]).len()
                && dot(e.0[q], z) == e.1[q] by {
                if q < e1.0.len() {
                    assert(e.0[q] == e1.0[q]);
                    assert(z1.len() == e1.0[q].len() && dot(e1.0[q], z1) == e1.1[q]);
                }
            }
        }
    }
}

/// Presses that solve what the extractor keeps of a settled system solve the system,
/// once restored, and restoring adds to them no more than the extractor counts.
pub proof fn lemma_extract_backward(m: Seq<Seq<nat>>, rhs: Seq<nat>, cols: nat, y: Seq<nat>)
    requires
        settled(m, rhs, cols),
        solves(extracted(m, rhs).0, extracted(m, rhs).1, y),
        y.len() == cols,
    ensures
        solves(m, rhs, restored(m, rhs, y)),
        total(restored(m, rhs, y)) <= total(y) + extracted(m, rhs).2,
        restored(m, rhs, y).len() == cols,
    decreases m.len(),
{
    lemma_restored(m, rhs, y, cols);
    if m.len() > 0 {
        let f = m.drop_last();
        let g = rhs.drop_last();
        let last = m.last();
        let e = extracted(m, rhs);
        let e1 = extracted(f, g);
        let w1 = restored(f, g, y);
        let w = restored(m, rhs, y);
        lemma_settled_front(m, rhs, cols);
        lemma_extracted_rows(f, g);
        lemma_restored(f, g, y, cols);
        assert(m[m.len() - 1].len() == cols);
        assert(solves(e1.0, e1.1, y)) by {
            assert forall|q: int| 0 <= q < e1.0.len() implies y.len() == (#[trigger] e1.0[q]).len()
                && dot(e1.0[q], y) == e1.1[q] by {
                assert(e.0[q] == e1.0[q]);
                assert(y.len() == e.0[q].len() && dot(e.0[q], y) == e.1[q]);
            }
        }
        lemma_extract_backward(f, g, cols, y);
        if is_trivial(last) {
            let c = unit_col(last);
            lemma_unit_col(last);
            assert(last[c] == 1) by {
                assert(m[m.len() - 1][c] <= 1);
            }
            lemma_total_update(w1, c, rhs.last());
            lemma_dot_unit(last, w, c);
            assert forall|p: int| 0 <= p < m.len() implies w.len() == (#[trigger] m[p]).len() && dot(
                m[p],
                w,
            ) == rhs[p] by {
                if p < f.len() {
                    assert(f[p] == m[p]);
                    assert(!clash(m, m.len() - 1, p));
                    assert(w1.len() == f[p].len() && dot(f[p], w1) == g[p]);
                    lemma_dot_update(m[p], w1, c, rhs.last());
                }
            }
        } else {
            assert forall|r: int| 0 <= r < f.len() && is_trivial(f[r]) implies last[unit_col(
                #[trigger] f[r],
            )] == 0 by {
                assert(f[r] == m[r]);
                assert(!clash(m, r, m.len() - 1));
            }
            lemma_dot_restored(f, g, y, cols, last);
            assert(e.0[e.0.len() - 1] == last);
            assert(y.len() == e.0[e.0.len() - 1].len() && dot(e.0[e.0.len() - 1], y) == e.1[e.0.len()
                - 1]);
            assert forall|p: int| 0 <= p < m.len() implies w.len() == (#[trigger] m[p]).len() && dot(
                m[p],
                w,
            ) == rhs[p] by {
                if p < f.len() {
                    assert(f[p] == m[p]);
                    assert(w1.len() == f[p].len() && dot(f[p], w1) == g[p]);
                }
            }
        }
    }
}

/// One product is part of the sum of the products.
pub proof fn lemma_dot_term(a: Seq<nat>, x: Seq<nat>, c: int)
    requires
        a.len() == x.len(),
        0 <= c < a.len(),
    ensures
        a[c] * x[c] <= dot(a, x),
    decreases a.len(),
{
    if c < a.len() - 1 {
        lemma_dot_term(a.drop_last(), x.drop_last(), c);
    }
}

/// One more entry adds its product to the sum of the products.
pub proof fn lemma_dot_push(a: Seq<nat>, x: Seq<nat>, u: nat, v: nat)
    ensures
        dot(a.push(u), x.push(v)) == dot(a, x) + u * v,
{
    assert(a.push(u).drop_last() =~= a);
    assert(x.push(v).drop_last() =~= x);
}

/// Simplifying keeps the shape of a system and adds no entry above one.
pub proof fn lemma_simplified_shape(m: Seq<Seq<nat>>, rhs: Seq<nat>, cols: nat)
    requires
        rectangular(m, cols),
        binary(m),
        rhs.len() == m.len(),
    ensures
        rectangular(simplified(m, rhs).0, cols),
        binary(simplified(m, rhs).0),
        simplified(m, rhs).0.len() == m.len(),
        simplified(m, rhs).1.len() == m.len(),
    decreases weight(m),
{
    lemma_first_pair_reducible(m, rhs);
    match first_pair(m, rhs) {
        None => {},
        Some(p) => {
            lemma_reduced_weight(m, rhs, p.0, p.1);
            let next = reduced(m, rhs, p.0, p.1);
            assert forall|r: int| 0 <= r < next.0.len() implies (#[trigger] next.0[r]).len()
                == cols by {
                assert(m[r].len() == cols);
                assert(m[p.0].len() == cols);
            }
            assert forall|r: int, c: int|
                0 <= r < next.0.len() && 0 <= c < next.0[r].len() implies #[trigger] next.0[r][c]
                <= 1 by {
                assert(m[r][c] <= 1);
                assert(m[p.0][c] <= 1);
            }
            lemma_simplified_shape(next.0, next.1, cols);
        },
    }
}

/// A solvable system without an entry above one in which no row can be taken from
/// another is settled.
pub proof fn lemma_settled(m: Seq<Seq<nat>>, rhs: Seq<nat>, cols: nat, x: Seq<nat>)
    requires
        rectangular(m, cols),
        binary(m),
        rhs.len() == m.len(),
        solves(m, rhs, x),
        forall|i: int, j: int| !reducible(m, rhs, i, j),
    ensures
        settled(m, rhs, cols),
{
    assert forall|r: int, p: int| 0 <= r < m.len() && 0 <= p < m.len() implies !#[trigger] clash(
        m,
        r,
        p,
    ) by {
        if clash(m, r, p) {
            let c = unit_col(m[r]);
            lemma_unit_col(m[r]);
            assert(m[r].len() == cols);
            assert(m[p].len() == cols);
            assert(m[r][c] <= 1);
            assert(m[p][c] <= 1);
            assert(x.len() == m[r].len() && dot(m[r], x) == rhs[r]);
            assert(x.len() == m[p].len() && dot(m[p], x) == rhs[p]);
            lemma_dot_unit(m[r], x, c);
            lemma_dot_term(m[p], x, c);
            assert(m[p][c] * x[c] == x[c]) by (nonlinear_arith)
                requires
                    m[p][c] == 1,
            ;
            assert(dominated(m[r], m[p]));
            assert(nonzero(m[r]));
            assert(reducible(m, rhs, p, r));
        }
    }
}

/// Of the first `n` presses, those of the buttons whose columns are not all zero.
pub open spec fn kept(m: Seq<Seq<nat>>, x: Seq<nat>, n: nat) -> Seq<nat>
    decreases n,
{
    if n == 0 {
        Seq::empty()
    } else if nonzero(column(m, n - 1)) {
        kept(m, x, (n - 1) as nat).push(x[n - 1])
    } else {
        kept(m, x, (n - 1) as nat)
    }
}

/// Presses for the first `n` buttons: those of `y` for the buttons whose columns are
/// not all zero, none for the others.
pub open spec fn spread(m: Seq<Seq<nat>>, y: Seq<nat>, n: nat) -> Seq<nat>
    decreases n,
{
    if n == 0 {
        Seq::empty()
    } else if nonzero(column(m, n - 1)) {
        if y.len() == 0 {
            Seq::empty()
        } else {
            spread(m, y.drop_last(), (n - 1) as nat).push(y.last())
        }
    } else {
        spread(m, y, (n - 1) as nat).push(0)
    }
}

/// The buttons that the reconstructor makes are columns of the table.
pub proof fn lemma_live_columns(m: Seq<Seq<nat>>, n: nat)
    ensures
        live_columns(m, n).len() <= n,
        forall|j: int|
            0 <= j < live_columns(m, n).len() ==> exists|k: int|
                0 <= k < n && #[trigger] live_columns(m, n)[j] == column(m, k),
    decreases n,
{
    if n > 0 {
        lemma_live_columns(m, (n - 1) as nat);
        let before = live_columns(m, (n - 1) as nat);
        assert forall|j: int| 0 <= j < live_columns(m, n).len() implies exists|k: int|
            0 <= k < n && #[trigger] live_columns(m, n)[j] == column(m, k) by {
            if j < before.len() {
                let k = choose|k: int| 0 <= k < n - 1 && before[j] == column(m, k);
                assert(live_columns(m, n)[j] == column(m, k));
            } else {
                assert(live_columns(m, n)[j] == column(m, n - 1));
            }
        }
    }
}

/// The presses of the buttons whose columns are not all zero give each row the sum
/// that all presses give it.
pub proof fn lemma_kept(m: Seq<Seq<nat>>, x: Seq<nat>, cols: nat, n: nat, d: int)
    requires
        rectangular(m, cols),
        n <= cols,
        x.len() == cols,
        0 <= d < m.len(),
    ensures
        kept(m, x, n).len() == live_columns(m, n).len(),
        dot(column(live_columns(m, n), d), kept(m, x, n)) == dot(m[d].take(n as int), x.take(n as int)),
        total(kept(m, x, n)) <= total(x.take(n as int)),
    decreases n,
{
    if n > 0 {
        let k = (n - 1) as nat;
        lemma_kept(m, x, cols, k, d);
        let a = m[d].take(n as int);
        let b = x.take(n as int);
        assert(m[d].len() == cols);
        assert(a.drop_last() =~= m[d].take(k as int));
        assert(b.drop_last() =~= x.take(k as int));
        let col = column(m, k as int);
        let before = live_columns(m, k);
        if nonzero(col) {
            assert(column(before.push(col), d) =~= column(before, d).push(m[d][k as int]));
            lemma_dot_push(column(before, d), kept(m, x, k), m[d][k as int], x[k as int]);
            crate::vector::lemma_total_push(kept(m, x, k), x[k as int]);
        } else {
            assert(col[d] == 0);
            assert(a.last() * b.last() == 0) by (nonlinear_arith)
                requires
                    a.last() == 0,
            ;
        }
    }
}

/// Presses spread over all buttons give each row the sum that they give it over the
/// buttons whose columns are not all zero.
pub proof fn lemma_spread(m: Seq<Seq<nat>>, y: Seq<nat>, cols: nat, n: nat, d: int)
    requires
        rectangular(m, cols),
        n <= cols,
        y.len() == live_columns(m, n).len(),
        0 <= d < m.len(),
    ensures
        spread(m, y, n).len() == n,
        dot(m[d].take(n as int), spread(m, y, n)) == dot(column(live_columns(m, n), d), y),
        total(spread(m, y, n)) == total(y),
    decreases n,
{
    if n > 0 {
        let k = (n - 1) as nat;
        let a = m[d].take(n as int);
        assert(m[d].len() == cols);
        assert(a.drop_last() =~= m[d].take(k as int));
        let col = column(m, k as int);
        let before = live_columns(m, k);
        if nonzero(col) {
            lemma_spread(m, y.drop_last(), cols, k, d);
            let s = spread(m, y.drop_last(), k);
            assert(column(before.push(col), d) =~= column(before, d).push(m[d][k as int]));
            assert(y =~= y.drop_last().push(y.last()));
            lemma_dot_push(column(before, d), y.drop_last(), m[d][k as int], y.last());
            assert(spread(m, y, n).drop_last() =~= s);
        } else {
            lemma_spread(m, y, cols, k, d);
            let s = spread(m, y, k);
            assert(col[d] == 0);
            assert(spread(m, y, n).drop_last() =~= s);
            assert(a.last() * 0 == 0) by (nonlinear_arith);
        }
    }
}

/// The length of spread presses.
pub proof fn lemma_spread_len(m: Seq<Seq<nat>>, y: Seq<nat>, n: nat)
    requires
        y.len() == live_columns(m, n).len(),
    ensures
        spread(m, y, n).len() == n,
        total(spread(m, y, n)) == total(y),
    decreases n,
{
    if n > 0 {
        let k = (n - 1) as nat;
        if nonzero(column(m, k as int)) {
            lemma_spread_len(m, y.drop_last(), k);
            assert(spread(m, y, n).drop_last() =~= spread(m, y.drop_last(), k));
        } else {
            lemma_spread_len(m, y, k);
            assert(spread(m, y, n).drop_last() =~= spread(m, y, k));
        }
    }
}

/// What holds of the system that reduction works on when the buttons add at most one
/// to a dimension and some presses reach the target.
pub open spec fn binary_and_solvable(target: Seq<nat>, buttons: Seq<Seq<nat>>) -> bool {
    let pz = Puzzle { target, buttons };
    pz.wf() && pz.binary() && pz.solvable()
}

/// The system of a machine, simplified.
pub open spec fn simple_system(target: Seq<nat>, buttons: Seq<Seq<nat>>) -> (Seq<Seq<nat>>, Seq<nat>) {
    simplified(transposed(buttons, target.len()), target)
}

/// Presses reach the target of a machine exactly if they solve its system.
pub proof fn lemma_reaches_solves(target: Seq<nat>, buttons: Seq<Seq<nat>>, x: Seq<nat>)
    requires
        x.len() == buttons.len(),
    ensures
        (Puzzle { target, buttons }).reaches(x) <==> solves(
            transposed(buttons, target.len()),
            target,
            x,
        ),
{
    let m = transposed(buttons, target.len());
    let pz = Puzzle { target, buttons };
    if pz.reaches(x) {
        assert forall|r: int| 0 <= r < m.len() implies x.len() == (#[trigger] m[r]).len() && dot(
            m[r],
            x,
        ) == target[r] by {
            assert(m[r] == column(buttons, r));
            assert(dot(column(pz.buttons, r), x) == pz.target[r]);
        }
    }
    if solves(m, target, x) {
        assert forall|d: int| 0 <= d < pz.target.len() implies dot(column(pz.buttons, d), x)
            == pz.target[d] by {
            assert(m[d] == column(buttons, d));
            assert(x.len() == m[d].len() && dot(m[d], x) == target[d]);
        }
    }
}

/// The simplified system of a machine whose buttons add at most one to a dimension,
/// and whose target some presses reach, is settled.
pub proof fn lemma_machine_settled(target: Seq<nat>, buttons: Seq<Seq<nat>>)
    requires
        binary_and_solvable(target, buttons),
    ensures
        settled(
            simple_system(target, buttons).0,
            simple_system(target, buttons).1,
            buttons.len(),
        ),
        simple_system(target, buttons).0.len() == target.len(),
{
    let pz = Puzzle { target, buttons };
    let m0 = transposed(buttons, target.len());
    let x = choose|x: Seq<nat>| pz.reaches(x);
    lemma_reaches_solves(target, buttons, x);
    assert(rectangular(m0, buttons.len()));
    assert(binary(m0)) by {
        assert forall|r: int, c: int| 0 <= r < m0.len() && 0 <= c < m0[r].len() implies #[trigger] m0[r][c]
            <= 1 by {
            assert(buttons[c][r] <= 1);
        }
    }
    lemma_simplified_shape(m0, target, buttons.len());
    lemma_simplified_solutions(m0, target, x);
    lemma_simplified_irreducible(m0, target);
    let s = simplified(m0, target);
    lemma_settled(s.0, s.1, buttons.len(), x);
}

/// What reduction leaves of a machine whose buttons add at most one to a dimension is
/// a puzzle whose buttons add at most one to a dimension.
pub proof fn lemma_reduction_shape(target: Seq<nat>, buttons: Seq<Seq<nat>>)
    requires
        binary_and_solvable(target, buttons),
    ensures
        reduction(target, buttons).1.wf(),
        reduction(target, buttons).1.binary(),
        rectangular(
            extracted(simple_system(target, buttons).0, simple_system(target, buttons).1).0,
            buttons.len(),
        ),
{
    let s = simple_system(target, buttons);
    let e = extracted(s.0, s.1);
    let pz = reduction(target, buttons).1;
    lemma_machine_settled(target, buttons);
    lemma_extracted_rows(s.0, s.1);
    assert forall|q: int| 0 <= q < e.0.len() implies (#[trigger] e.0[q]).len() == buttons.len() by {
        let p = choose|p: int| 0 <= p < s.0.len() && e.0[q] == s.0[p];
        assert(s.0[p].len() == buttons.len());
    }
    lemma_live_columns(e.0, width(e.0));
    assert forall|j: int| 0 <= j < pz.buttons.len() implies (#[trigger] pz.buttons[j]).len()
        == pz.target.len() by {
        let k = choose|k: int| 0 <= k < width(e.0) && pz.buttons[j] == column(e.0, k);
    }
    assert forall|j: int, d: int|
        0 <= j < pz.buttons.len() && 0 <= d < pz.target.len() implies #[trigger] pz.buttons[j][d]
        <= 1 by {
        let k = choose|k: int| 0 <= k < width(e.0) && pz.buttons[j] == column(e.0, k);
        let p = choose|p: int| 0 <= p < s.0.len() && e.0[d] == s.0[p];
        assert(e.0[d].len() == buttons.len());
        assert(s.0[p][k] <= 1);
    }
}

/// Presses that reach the target of a machine give presses that reach the target of
/// what reduction leaves, fewer by the forced presses at least.
pub proof fn lemma_reduction_forward(target: Seq<nat>, buttons: Seq<Seq<nat>>, x: Seq<nat>) -> (y: Seq<
    nat,
>)
    requires
        binary_and_solvable(target, buttons),
        (Puzzle { target, buttons }).reaches(x),
    ensures
        reduction(target, buttons).1.reaches(y),
        total(y) + reduction(target, buttons).0 <= total(x),
{
    let m0 = transposed(buttons, target.len());
    let s = simple_system(target, buttons);
    let e = extracted(s.0, s.1);
    let pz = reduction(target, buttons).1;
    let cols = buttons.len();
    lemma_reaches_solves(target, buttons, x);
    lemma_simplified_solutions(m0, target, x);
    lemma_machine_settled(target, buttons);
    lemma_extract_forward(s.0, s.1, cols, x);
    lemma_reduction_shape(target, buttons);
    lemma_extracted_rows(s.0, s.1);
    let z = cleared(s.0, x);
    let y = kept(e.0, z, width(e.0));
    if e.0.len() == 0 {
        assert(y =~= Seq::<nat>::empty());
        assert(pz.buttons =~= Seq::<Seq<nat>>::empty());
        assert(total(y) == 0);
    } else {
        assert(e.0[0].len() == cols);
        assert forall|d: int| 0 <= d < pz.target.len() implies dot(column(pz.buttons, d), y)
            == pz.target[d] by {
            lemma_kept(e.0, z, cols, cols, d);
            assert(e.0[d].len() == cols);
            assert(e.0[d].take(cols as int) =~= e.0[d]);
            assert(z.take(cols as int) =~= z);
            assert(z.len() == e.0[d].len() && dot(e.0[d], z) == e.1[d]);
        }
        lemma_kept(e.0, z, cols, cols, 0);
        assert(z.take(cols as int) =~= z);
    }
    y
}

/// Presses that reach the target of what reduction leaves of a machine give presses
/// that reach the target of the machine, more by the forced presses at most.
pub proof fn lemma_reduction_backward(target: Seq<nat>, buttons: Seq<Seq<nat>>, y: Seq<nat>) -> (x: Seq<
    nat,
>)
    requires
        binary_and_solvable(target, buttons),
        reduction(target, buttons).1.reaches(y),
    ensures
        (Puzzle { target, buttons }).reaches(x),
        total(x) <= total(y) + reduction(target, buttons).0,
{
    let m0 = transposed(buttons, target.len());
    let s = simple_system(target, buttons);
    let e = extracted(s.0, s.1);
    let pz = reduction(target, buttons).1;
    let cols = buttons.len();
    lemma_machine_settled(target, buttons);
    lemma_reduction_shape(target, buttons);
    lemma_extracted_rows(s.0, s.1);
    let w = if e.0.len() == 0 {
        Seq::new(cols, |i: int| 0nat)
    } else {
        spread(e.0, y, cols)
    };
    if e.0.len() == 0 {
        lemma_total_zeros(cols);
    } else {
        assert(e.0[0].len() == cols);
        lemma_spread_len(e.0, y, cols);
        assert forall|d: int| 0 <= d < e.0.len() implies w.len() == (#[trigger] e.0[d]).len() && dot(
            e.0[d],
            w,
        ) == e.1[d] by {
            lemma_spread(e.0, y, cols, cols, d);
            assert(e.0[d].len() == cols);
            assert(e.0[d].take(cols as int) =~= e.0[d]);
            assert(dot(column(pz.buttons, d), y) == pz.target[d]);
        }
    }
    lemma_extract_backward(s.0, s.1, cols, w);
    let x = restored(s.0, s.1, w);
    lemma_simplified_solutions(m0, target, x);
    lemma_reaches_solves(target, buttons, x);
    x
}

/// Reduction and search together find the fewest presses: for a machine whose
/// buttons add at most one to a dimension and whose target some presses reach, what
/// they return is the least number of presses that reach the target.
pub proof fn lemma_reduced_presses_fewest(target: Seq<nat>, buttons: Seq<Seq<nat>>)
    requires
        binary_and_solvable(target, buttons),
    ensures
        reduced_presses(target, buttons) is Some,
        (Puzzle { target, buttons }).is_fewest(reduced_presses(target, buttons)->Some_0),
{
    let pz0 = Puzzle { target, buttons };
    let r = reduction(target, buttons);
    let pz = r.1;
    let x0 = choose|x: Seq<nat>| pz0.reaches(x);
    lemma_reduction_forward(target, buttons, x0);
    lemma_reduction_shape(target, buttons);
    pz.lemma_search_optimal();
    assert(pz.solvable());
    let n = pz.search(origin(pz.target.len()), iota(pz.buttons.len()))->Some_0;
    let y1 = choose|y: Seq<nat>| pz.reaches(y) && total(y) == n;
    let x1 = lemma_reduction_backward(target, buttons, y1);
    lemma_reduction_forward(target, buttons, x1);
    assert(total(x1) == r.0 + n);
    assert forall|x: Seq<nat>| pz0.reaches(x) implies r.0 + n <= total(x) by {
        lemma_reduction_forward(target, buttons, x);
    }
}

} // verus!
