use vstd::prelude::*;
use crate::grid::Grid;

verus! {

/// The beam at place `(x, y)` meets a splitter below it.
pub open spec fn splits(cells: Seq<char>, w: int, x: int, y: int) -> bool {
    (cells[w * y + x] == 'S' || cells[w * y + x] == '|') && cells[w * (y + 1) + x] == '^'
}

/// The marks after the beam at place `(x, y)`, if there is one, has gone on into the
/// next row: past a splitter to both sides of it, as far as the grid reaches, or
/// else straight down.
pub open spec fn beamed(cells: Seq<char>, w: int, x: int, y: int) -> Seq<char> {
    if cells[w * y + x] == 'S' || cells[w * y + x] == '|' {
        if cells[w * (y + 1) + x] == '^' {
            let left = if x > 0 {
                cells.update(w * (y + 1) + x - 1, '|')
            } else {
                cells
            };
            if x < w - 1 {
                left.update(w * (y + 1) + x + 1, '|')
            } else {
                left
            }
        } else {
            cells.update(w * (y + 1) + x, '|')
        }
    } else {
        cells
    }
}

/// The marks and the number of splits after the first `x` places of row `y` have been
/// worked through, from the marks `cells`.
pub open spec fn row_done(cells: Seq<char>, w: int, y: int, x: nat) -> (Seq<char>, nat)
    decreases x,
{
    if x == 0 {
        (cells, 0)
    } else {
        let before = row_done(cells, w, y, (x - 1) as nat);
        (
            beamed(before.0, w, x - 1, y),
            before.1 + if splits(before.0, w, x - 1, y) {
                1nat
            } else {
                0nat
            },
        )
    }
}

/// The marks and the number of splits after the first `y` rows have been worked
/// through.
pub open spec fn rows_done(cells: Seq<char>, w: int, y: nat) -> (Seq<char>, nat)
    decreases y,
{
    if y == 0 {
        (cells, 0)
    } else {
        let before = rows_done(cells, w, (y - 1) as nat);
        let row = row_done(before.0, w, y - 1, w as nat);
        (row.0, before.1 + row.1)
    }
}

/// Working through a row keeps the number of marks and splits no more often than there are
/// places.
pub proof fn lemma_row_done(cells: Seq<char>, w: int, y: int, x: nat)
    requires
        0 <= y,
        x <= w,
        w * (y + 2) <= cells.len(),
    ensures
        row_done(cells, w, y, x).0.len() == cells.len(),
        row_done(cells, w, y, x).1 <= x,
    decreases x,
{
    if x > 0 {
        lemma_row_done(cells, w, y, (x - 1) as nat);
        assert(w * (y + 2) == w * (y + 1) + w && w * (y + 1) >= 0 && w * (y + 1) == w * y + w && w
            * y >= 0) by (nonlinear_arith)
            requires
                0 <= y,
                0 < x <= w,
        ;
        let before = row_done(cells, w, y, (x - 1) as nat).0;
        assert(beamed(before, w, x - 1, y).len() == before.len());
    }
}

/// Lets the beam run down the grid, row by row, and counts how often it is split.
pub fn count_splits(grid: &mut Grid<char>) -> (out: usize)
    requires
        old(grid).wf(),
        old(grid).height >= 1,
    ensures
        final(grid).width == old(grid).width,
        final(grid).height == old(grid).height,
        (final(grid).cells@, out as nat) == rows_done(
            old(grid).cells@,
            old(grid).width as int,
            (old(grid).height - 1) as nat,
        ),
{
    let size = grid.cells.len();
    let width = grid.width;
    let height = grid.height;
    let ghost start = grid.cells@;
    let ghost w = width as int;
    let mut count: usize = 0;
    let mut y: usize = 0;
    while y < height - 1
        invariant
            y <= height - 1,
            height >= 1,
            grid.width == width,
            grid.height == height,
            w == width,
            size == grid.cells@.len(),
            size == width * height,
            (grid.cells@, count as nat) == rows_done(start, w, y as nat),
            count <= y * width,
        decreases height - 1 - y,
    {
        let ghost row_start = grid.cells@;
        let ghost before = count;
        let mut x: usize = 0;
        proof {
            assert(w * (y + 2) <= width * height && w * (y + 1) >= 0 && w * y >= 0)
                by (nonlinear_arith)
                requires
                    0 <= y < height - 1,
                    w == width,
                    width >= 0,
            ;
        }
        while x < width
            invariant
                x <= width,
                y < height - 1,
                grid.width == width,
                grid.height == height,
                w == width,
                size == grid.cells@.len(),
                size == width * height,
                row_start.len() == size,
                w * (y + 2) <= size,
                w * (y + 1) >= 0,
                w * y >= 0,
                (grid.cells@, (count - before) as nat) == row_done(row_start, w, y as int, x as nat),
                before <= count <= before + x,
                before <= y * width,
            decreases width - x,
        {
            proof {
                lemma_row_done(row_start, w, y as int, x as nat);
                assert(w * (y + 2) == w * (y + 1) + w && w * (y + 1) == w * y + w)
                    by (nonlinear_arith);
                assert(y * width + width <= width * height) by (nonlinear_arith)
                    requires
                        y < height,
                ;
            }
            let current = grid.cells[width * y + x];
            if current == 'S' || current == '|' {
                let below = grid.cells[width * (y + 1) + x];
                if below == '^' {
                    if x > 0 {
                        grid.cells[width * (y + 1) + x - 1] = '|';
                    }
                    if x < width - 1 {
                        grid.cells[width * (y + 1) + x + 1] = '|';
                    }
                    count += 1;
                } else {
                    grid.cells[width * (y + 1) + x] = '|';
                }
            }
            x += 1;
        }
        proof {
            assert((y + 1) * width == y * width + width) by (nonlinear_arith);
        }
        y += 1;
    }
    count
}

/// Why the timelines cannot be counted.
#[derive(Debug, PartialEq, Eq, Structural)]
pub enum TimelineError {
    /// A splitter stands in the first row.
    Splitter,
    /// A number of timelines does not fit.
    Overflow,
}

/// The numbers of timelines after place `(x, y)` has been worked through: the start
/// has one; a splitter hands the timelines above it to both sides, as far as the
/// grid reaches; any other place takes up the timelines above it.
pub open spec fn stepped(marks: Seq<char>, numbers: Seq<u64>, w: int, x: int, y: int) -> Result<
    Seq<u64>,
    TimelineError,
> {
    let c = marks[w * y + x];
    if c == 'S' {
        Ok(numbers.update(w * y + x, 1))
    } else if c == '^' {
        if y == 0 {
            Err(TimelineError::Splitter)
        } else {
            let above = numbers[w * (y - 1) + x];
            if x > 0 && numbers[w * y + x - 1] + above > u64::MAX {
                Err(TimelineError::Overflow)
            } else {
                let left = if x > 0 {
                    numbers.update(w * y + x - 1, (numbers[w * y + x - 1] + above) as u64)
                } else {
                    numbers
                };
                if x < w - 1 && left[w * y + x + 1] + above > u64::MAX {
                    Err(TimelineError::Overflow)
                } else if x < w - 1 {
                    Ok(left.update(w * y + x + 1, (left[w * y + x + 1] + above) as u64))
                } else {
                    Ok(left)
                }
            }
        }
    } else if y == 0 {
        Ok(numbers)
    } else if numbers[w * y + x] + numbers[w * (y - 1) + x] > u64::MAX {
        Err(TimelineError::Overflow)
    } else {
        Ok(numbers.update(w * y + x, (numbers[w * y + x] + numbers[w * (y - 1) + x]) as u64))
    }
}

/// The numbers of timelines after the first `k` places, in the order of the rows,
/// have been worked through, or the first failure.
pub open spec fn timelines(marks: Seq<char>, w: int, k: nat) -> Result<Seq<u64>, TimelineError>
    decreases k,
{
    if k == 0 {
        Ok(Seq::new(marks.len(), |i: int| 0u64))
    } else {
        match timelines(marks, w, (k - 1) as nat) {
            Err(e) => Err(e),
            Ok(numbers) => stepped(marks, numbers, w, (k - 1) % w, (k - 1) / w),
        }
    }
}

/// The sum of the numbers from place `from` to before place `to`; `None` once it does
/// not fit.
pub open spec fn sum_between(numbers: Seq<u64>, from: int, to: int) -> Option<u64>
    decreases to - from,
{
    if to <= from {
        Some(0)
    } else {
        match sum_between(numbers, from, to - 1) {
            None => None,
            Some(s) => if s + numbers[to - 1] <= u64::MAX {
                Some((s + numbers[to - 1]) as u64)
            } else {
                None
            },
        }
    }
}

/// The number of timelines that reach the last row, or the first failure.
pub open spec fn timelines_out(marks: Seq<char>, w: int, h: int) -> Result<u64, TimelineError> {
    match timelines(marks, w, marks.len()) {
        Err(e) => Err(e),
        Ok(numbers) => match sum_between(numbers, w * (h - 1), w * h) {
            Some(s) => Ok(s),
            None => Err(TimelineError::Overflow),
        },
    }
}

/// A failure at the first places is the failure of all places.
proof fn lemma_timelines_err(marks: Seq<char>, w: int, n: nat, m: nat)
    requires
        n <= m,
        timelines(marks, w, n) is Err,
    ensures
        timelines(marks, w, m) == timelines(marks, w, n),
    decreases m - n,
{
    if n < m {
        lemma_timelines_err(marks, w, n, (m - 1) as nat);
    }
}

/// A sum that does not fit up to a place does not fit up to a later place.
proof fn lemma_sum_between_none(numbers: Seq<u64>, from: int, n: int, m: int)
    requires
        n <= m,
        sum_between(numbers, from, n) is None,
    ensures
        sum_between(numbers, from, m) is None,
    decreases m - n,
{
    if n < m {
        lemma_sum_between_none(numbers, from, n, m - 1);
    }
}

/// The number of timelines on which a particle reaches the last row.
pub fn count_timelines(grid: &Grid<char>) -> (out: Result<u64, TimelineError>)
    requires
        grid.wf(),
        grid.height >= 1,
    ensures
        out == timelines_out(grid.cells@, grid.width as int, grid.height as int),
{
    let size = grid.cells.len();
    let width = grid.width;
    let height = grid.height;
    let ghost marks = grid.cells@;
    let ghost w = width as int;
    let mut numbers: Vec<u64> = Vec::new();
    let mut k: usize = 0;
    while k < size
        invariant
            k <= size,
            numbers@.len() == k,
            forall|i: int| 0 <= i < k ==> numbers@[i] == 0,
        decreases size - k,
    {
        numbers.push(0);
        k += 1;
    }
    proof {
        assert(numbers@ =~= Seq::new(marks.len(), |i: int| 0u64));
    }
    let mut y: usize = 0;
    while y < height
        invariant
            y <= height,
            grid.wf(),
            width == grid.width,
            height == grid.height,
            marks == grid.cells@,
            w == width,
            size == width * height,
            size == marks.len(),
            numbers@.len() == size,
            y * width <= size,
            timelines(marks, w, (y * width) as nat) == Ok::<Seq<u64>, TimelineError>(numbers@),
        decreases height - y,
    {
        let mut x: usize = 0;
        while x < width
            invariant
                x <= width,
                y < height,
                grid.wf(),
                width == grid.width,
                height == grid.height,
                marks == grid.cells@,
                w == width,
                size == width * height,
                size == marks.len(),
                numbers@.len() == size,
                y * width + x <= size,
                timelines(marks, w, (y * width + x) as nat) == Ok::<Seq<u64>, TimelineError>(
                    numbers@,
                ),
            decreases width - x,
        {
            let ghost at = y * width + x;
            proof {
                assert(y * width + width <= width * height && y * width >= 0 && width * y == y
                    * width) by (nonlinear_arith)
                    requires
                        0 <= y < height,
                        width >= 0,
                ;
                vstd::arithmetic::div_mod::lemma_fundamental_div_mod_converse(
                    at as int,
                    w,
                    y as int,
                    x as int,
                );
                if y > 0 {
                    assert(width * (y - 1) == width * y - width && width * (y - 1) >= 0)
                        by (nonlinear_arith)
                        requires
                            y >= 1,
                            width >= 0,
                    ;
                }
            }
            let current = grid.cells[width * y + x];
            if current == 'S' {
                numbers[width * y + x] = 1;
            } else if current == '^' {
                if y == 0 {
                    proof {
                        lemma_timelines_err(marks, w, (at + 1) as nat, size as nat);
                    }
                    return Err(TimelineError::Splitter);
                }
                let above = numbers[width * (y - 1) + x];
                if x > 0 {
                    match numbers[width * y + x - 1].checked_add(above) {
                        None => {
                            proof {
                                lemma_timelines_err(marks, w, (at + 1) as nat, size as nat);
                            }
                            return Err(TimelineError::Overflow);
                        },
                        Some(v) => {
                            numbers[width * y + x - 1] = v;
                        },
                    }
                }
                if x < width - 1 {
                    match numbers[width * y + x + 1].checked_add(above) {
                        None => {
                            proof {
                                lemma_timelines_err(marks, w, (at + 1) as nat, size as nat);
                            }
                            return Err(TimelineError::Overflow);
                        },
                        Some(v) => {
                            numbers[width * y + x + 1] = v;
                        },
                    }
                }
            } else if y > 0 {
                let above = numbers[width * (y - 1) + x];
                match numbers[width * y + x].checked_add(above) {
                    None => {
                        proof {
                            lemma_timelines_err(marks, w, (at + 1) as nat, size as nat);
                        }
                        return Err(TimelineError::Overflow);
                    },
                    Some(v) => {
                        numbers[width * y + x] = v;
                    },
                }
            }
            x += 1;
        }
        proof {
            assert((y + 1) * width == y * width + width) by (nonlinear_arith);
        }
        y += 1;
    }
    proof {
        assert(height * width == width * height) by (nonlinear_arith);
        assert(width * (height - 1) == width * height - width && width * (height - 1) >= 0)
            by (nonlinear_arith)
            requires
                height >= 1,
                width >= 0,
        ;
    }
    let from = width * (height - 1);
    let mut sum: u64 = 0;
    let mut i: usize = from;
    while i < size
        invariant
            from <= i <= size,
            from == w * (height - 1),
            size == w * height,
            height == grid.height,
            w == grid.width,
            marks == grid.cells@,
            size == marks.len(),
            numbers@.len() == size,
            timelines(marks, w, size as nat) == Ok::<Seq<u64>, TimelineError>(numbers@),
            sum_between(numbers@, from as int, i as int) == Some(sum),
        decreases size - i,
    {
        match sum.checked_add(numbers[i]) {
            None => {
                proof {
                    lemma_sum_between_none(numbers@, from as int, i + 1, size as int);
                }
                return Err(TimelineError::Overflow);
            },
            Some(s) => {
                sum = s;
            },
        }
        i += 1;
    }
    Ok(sum)
}

} // verus!
