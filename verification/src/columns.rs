use vstd::prelude::*;
use crate::grid::Grid;
use crate::homework::Operation;

verus! {

/// Why the columns give no total.
#[derive(Debug, PartialEq, Eq, Structural)]
pub enum ColumnsError {
    /// The digits of a column write a number that does not fit.
    Number,
    /// The mark below a column is no operation.
    Operation,
    /// A column continues a problem, but no problem has been started.
    Empty,
    /// A result does not fit.
    Overflow,
}

/// The character is white space.
pub open spec fn is_space(c: char) -> bool {
    let n = c as u32;
    (9 <= n <= 13) || n == 32 || n == 0x85 || n == 0xa0 || n == 0x1680 || (0x2000 <= n <= 0x200a)
        || n == 0x2028 || n == 0x2029 || n == 0x202f || n == 0x205f || n == 0x3000
}

/// Whether the character is white space.
pub fn space(c: char) -> (out: bool)
    ensures
        out == is_space(c),
{
    let n = c as u32;
    (9 <= n && n <= 13) || n == 32 || n == 0x85 || n == 0xa0 || n == 0x1680 || (0x2000 <= n && n
        <= 0x200a) || n == 0x2028 || n == 0x2029 || n == 0x202f || n == 0x205f || n == 0x3000
}

/// The character is one of the digits `0` to `9`.
pub open spec fn is_digit(c: char) -> bool {
    48 <= c as u32 <= 57
}

/// The number that the digits among the first `rows` marks of column `i` write, the
/// marks read from the top; `None` once it does not fit.
pub open spec fn column_number(cells: Seq<char>, width: int, i: int, rows: nat) -> Option<u64>
    decreases rows,
{
    if rows == 0 {
        Some(0)
    } else {
        let c = cells[width * (rows - 1) + i];
        match column_number(cells, width, i, (rows - 1) as nat) {
            None => None,
            Some(n) => if is_digit(c) {
                if n * 10 + (c as u32 - 48) <= u64::MAX {
                    Some((n * 10 + (c as u32 - 48)) as u64)
                } else {
                    None
                }
            } else {
                Some(n)
            },
        }
    }
}

/// The number of digits among the first `rows` marks of column `i`.
pub open spec fn column_digits(cells: Seq<char>, width: int, i: int, rows: nat) -> nat
    decreases rows,
{
    if rows == 0 {
        0
    } else {
        column_digits(cells, width, i, (rows - 1) as nat) + if is_digit(
            cells[width * (rows - 1) + i],
        ) {
            1nat
        } else {
            0nat
        }
    }
}

/// The operation in use and the results so far, the latest last.
pub struct Work {
    pub operation: Operation,
    pub stack: Seq<u64>,
}

/// The work after one more column. A column without digits changes nothing. A column
/// with an operation below it starts a problem with its number; any other column
/// joins its number to the latest result by the operation in use.
pub open spec fn after_column(work: Work, cells: Seq<char>, width: int, height: int, i: int) -> Result<
    Work,
    ColumnsError,
> {
    if column_digits(cells, width, i, (height - 1) as nat) == 0 {
        Ok(work)
    } else {
        match column_number(cells, width, i, (height - 1) as nat) {
            None => Err(ColumnsError::Number),
            Some(number) => {
                let c = cells[width * (height - 1) + i];
                if !is_space(c) {
                    if c == '*' {
                        Ok(Work { operation: Operation::Multiply, stack: work.stack.push(number) })
                    } else if c == '+' {
                        Ok(Work { operation: Operation::Add, stack: work.stack.push(number) })
                    } else {
                        Err(ColumnsError::Operation)
                    }
                } else if work.stack.len() == 0 {
                    Err(ColumnsError::Empty)
                } else {
                    let r = work.operation.result(work.stack.last() as int, number as int);
                    if r <= u64::MAX {
                        Ok(Work { stack: work.stack.drop_last().push(r as u64), ..work })
                    } else {
                        Err(ColumnsError::Overflow)
                    }
                }
            },
        }
    }
}

/// The work after the first `n` columns, or the first failure.
pub open spec fn after_columns(cells: Seq<char>, width: int, height: int, n: nat) -> Result<
    Work,
    ColumnsError,
>
    decreases n,
{
    if n == 0 {
        Ok(Work { operation: Operation::Add, stack: Seq::empty() })
    } else {
        match after_columns(cells, width, height, (n - 1) as nat) {
            Err(e) => Err(e),
            Ok(work) => after_column(work, cells, width, height, n - 1),
        }
    }
}

/// The sum of the first `n` results; `None` once it does not fit.
pub open spec fn sum_of(stack: Seq<u64>, n: nat) -> Option<u64>
    decreases n,
{
    if n == 0 {
        Some(0)
    } else {
        match sum_of(stack, (n - 1) as nat) {
            None => None,
            Some(s) => if s + stack[n - 1] <= u64::MAX {
                Some((s + stack[n - 1]) as u64)
            } else {
                None
            },
        }
    }
}

/// The grand total of the problems that the columns write, or the first failure.
pub open spec fn total_of(cells: Seq<char>, width: int, height: int) -> Result<u64, ColumnsError> {
    match after_columns(cells, width, height, width as nat) {
        Err(e) => Err(e),
        Ok(work) => match sum_of(work.stack, work.stack.len()) {
            Some(s) => Ok(s),
            None => Err(ColumnsError::Overflow),
        },
    }
}

/// A failure in the first columns is the failure of all columns.
proof fn lemma_after_columns_err(cells: Seq<char>, width: int, height: int, n: nat, m: nat)
    requires
        n <= m,
        after_columns(cells, width, height, n) is Err,
    ensures
        after_columns(cells, width, height, m) == after_columns(cells, width, height, n),
    decreases m - n,
{
    if n < m {
        lemma_after_columns_err(cells, width, height, n, (m - 1) as nat);
    }
}

/// A number that does not fit in the first rows does not fit in more rows.
proof fn lemma_column_number_none(cells: Seq<char>, width: int, i: int, n: nat, m: nat)
    requires
        n <= m,
        column_number(cells, width, i, n) is None,
    ensures
        column_number(cells, width, i, m) is None,
    decreases m - n,
{
    if n < m {
        lemma_column_number_none(cells, width, i, n, (m - 1) as nat);
    }
}

/// A sum that does not fit for the first results does not fit for more.
proof fn lemma_sum_none(stack: Seq<u64>, n: nat, m: nat)
    requires
        n <= m,
        sum_of(stack, n) is None,
    ensures
        sum_of(stack, m) is None,
    decreases m - n,
{
    if n < m {
        lemma_sum_none(stack, n, (m - 1) as nat);
    }
}

/// The grand total of the problems that the columns of the grid write: the digits of
/// a column, read from the top, are a number; the mark in the last row below the
/// first number of a problem is its operation.
pub fn grand_total(grid: &Grid<char>) -> (out: Result<u64, ColumnsError>)
    requires
        grid.wf(),
        grid.height >= 1,
    ensures
        out == total_of(grid.cells@, grid.width as int, grid.height as int),
{
    let size = grid.cells.len();
    let ghost cells = grid.cells@;
    let ghost w = grid.width as int;
    let ghost h = grid.height as int;
    let mut operation = Operation::Add;
    let mut stack: Vec<u64> = Vec::new();
    let mut i: usize = 0;
    while i < grid.width
        invariant
            i <= grid.width,
            grid.wf(),
            grid.height >= 1,
            size == grid.cells@.len(),
            cells == grid.cells@,
            w == grid.width,
            h == grid.height,
            after_columns(cells, w, h, i as nat) == Ok::<Work, ColumnsError>(
                Work { operation, stack: stack@ },
            ),
        decreases grid.width - i,
    {
        let mut number: u64 = 0;
        let mut digits: usize = 0;
        let mut failed = false;
        let mut j: usize = 0;
        while j < grid.height - 1 && !failed
            invariant
                j <= grid.height - 1,
                i < grid.width,
                grid.wf(),
                size == grid.cells@.len(),
                cells == grid.cells@,
                w == grid.width,
                h == grid.height,
                digits == column_digits(cells, w, i as int, j as nat),
                digits <= j,
                failed ==> column_number(cells, w, i as int, (h - 1) as nat) is None,
                !failed ==> column_number(cells, w, i as int, j as nat) == Some(number),
            decreases grid.height - 1 - j + if failed { 0int } else { 1int },
        {
            proof {
                assert(grid.width * j + i < grid.width * grid.height && grid.width * j >= 0)
                    by (nonlinear_arith)
                    requires
                        0 <= i < grid.width,
                        0 <= j < grid.height,
                ;
            }
            let c = grid.cells[grid.width * j + i];
            let n = c as u32;
            if 48 <= n && n <= 57 {
                let d = (n - 48) as u64;
                match number.checked_mul(10) {
                    None => {
                        failed = true;
                    },
                    Some(v) => match v.checked_add(d) {
                        None => {
                            failed = true;
                        },
                        Some(v) => {
                            number = v;
                        },
                    },
                }
                if failed {
                    proof {
                        lemma_column_number_none(cells, w, i as int, (j + 1) as nat, (h - 1) as nat);
                    }
                } else {
                    digits += 1;
                    j += 1;
                }
            } else {
                j += 1;
            }
        }
        proof {
            if failed && column_digits(cells, w, i as int, (h - 1) as nat) == 0 {
                lemma_digits_number(cells, w, i as int, (h - 1) as nat);
            }
        }
        if failed {
            proof {
                lemma_after_columns_err(cells, w, h, (i + 1) as nat, w as nat);
            }
            return Err(ColumnsError::Number);
        }
        if digits > 0 {
            proof {
                assert(grid.width * (grid.height - 1) + i < grid.width * grid.height && grid.width * (
                grid.height - 1) >= 0) by (nonlinear_arith)
                    requires
                        0 <= i < grid.width,
                        grid.height >= 1,
                ;
            }
            let c = grid.cells[grid.width * (grid.height - 1) + i];
            if !space(c) {
                if c == '*' {
                    operation = Operation::Multiply;
                } else if c == '+' {
                    operation = Operation::Add;
                } else {
                    proof {
                        lemma_after_columns_err(cells, w, h, (i + 1) as nat, w as nat);
                    }
                    return Err(ColumnsError::Operation);
                }
                stack.push(number);
            } else {
                let ghost before = stack@;
                match stack.pop() {
                    None => {
                        proof {
                            lemma_after_columns_err(cells, w, h, (i + 1) as nat, w as nat);
                        }
                        return Err(ColumnsError::Empty);
                    },
                    Some(last) => match operation.checked(last, number) {
                        None => {
                            proof {
                                lemma_after_columns_err(cells, w, h, (i + 1) as nat, w as nat);
                            }
                            return Err(ColumnsError::Overflow);
                        },
                        Some(r) => {
                            stack.push(r);
                            proof {
                                assert(stack@ =~= before.drop_last().push(r));
                            }
                        },
                    },
                }
            }
        }
        i += 1;
    }
    let mut sum: u64 = 0;
    let mut k: usize = 0;
    while k < stack.len()
        invariant
            k <= stack@.len(),
            cells == grid.cells@,
            w == grid.width,
            h == grid.height,
            after_columns(cells, w, h, w as nat) == Ok::<Work, ColumnsError>(
                Work { operation, stack: stack@ },
            ),
            sum_of(stack@, k as nat) == Some(sum),
        decreases stack@.len() - k,
    {
        match sum.checked_add(stack[k]) {
            None => {
                proof {
                    lemma_sum_none(stack@, (k + 1) as nat, stack@.len());
                }
                return Err(ColumnsError::Overflow);
            },
            Some(s) => {
                sum = s;
            },
        }
        k += 1;
    }
    Ok(sum)
}

/// A column without digits writes zero.
proof fn lemma_digits_number(cells: Seq<char>, width: int, i: int, rows: nat)
    requires
        column_digits(cells, width, i, rows) == 0,
    ensures
        column_number(cells, width, i, rows) == Some(0u64),
    decreases rows,
{
    if rows > 0 {
        lemma_digits_number(cells, width, i, (rows - 1) as nat);
    }
}

} // verus!
