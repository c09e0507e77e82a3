use vstd::prelude::*;
use crate::text::{is_digit, number, parse_number, split_words, views, words};

verus! {

/// What is done with two numbers.
#[derive(Clone, Copy, Debug, PartialEq, Eq, Structural)]
pub enum Operation {
    Add,
    Multiply,
}

impl Operation {
    /// The result of the operation on two numbers.
    pub open spec fn result(&self, a: int, b: int) -> int {
        match self {
            Operation::Add => a + b,
            Operation::Multiply => a * b,
        }
    }

    /// Adds `value` to the accumulator, or multiplies the accumulator by it.
    pub fn apply(&self, accumulator: &mut u64, value: u64)
        requires
            self.result(*old(accumulator) as int, value as int) <= u64::MAX,
        ensures
            *final(accumulator) == self.result(*old(accumulator) as int, value as int),
    {
        match self {
            Operation::Add => {
                *accumulator = *accumulator + value;
            },
            Operation::Multiply => {
                *accumulator = *accumulator * value;
            },
        }
    }
}

/// A sheet of problems: `height` rows of `width` numbers, stored row by row, and one
/// operation for each column.
pub struct Input {
    pub width: usize,
    pub height: usize,
    pub numbers: Vec<u64>,
    pub operations: Vec<Operation>,
}

impl Input {
    /// The number in column `x` of row `y`, if the sheet holds a number at that
    /// place.
    pub fn get(&self, x: usize, y: usize) -> (out: Option<u64>)
        requires
            y * self.width + x <= usize::MAX,
        ensures
            out == if y * self.width + x < self.numbers@.len() {
                Some(self.numbers@[y * self.width + x])
            } else {
                None
            },
    {
        let at = y * self.width + x;
        if at < self.numbers.len() {
            Some(self.numbers[at])
        } else {
            None
        }
    }
}

/// Why a word gives no operation: the word that is none.
#[derive(Debug)]
pub struct ParseOperationError(pub Vec<u8>);

/// The operation that a word writes: `*` or `+`.
pub open spec fn operation_of(word: Seq<u8>) -> Option<Operation> {
    if word == seq![42u8] {
        Some(Operation::Multiply)
    } else if word == seq![43u8] {
        Some(Operation::Add)
    } else {
        None
    }
}

impl Operation {
    /// Reads an operation: `*` or `+`.
    pub fn from_str(word: &Vec<u8>) -> (out: Result<Operation, ParseOperationError>)
        ensures
            match out {
                Ok(op) => operation_of(word@) == Some(op),
                Err(e) => operation_of(word@) is None && e.0@ == word@,
            },
    {
        if word.len() == 1 && word[0] == 42 {
            proof {
                assert(word@ =~= seq![42u8]);
            }
            Ok(Operation::Multiply)
        } else if word.len() == 1 && word[0] == 43 {
            proof {
                assert(word@ =~= seq![43u8]);
            }
            Ok(Operation::Add)
        } else {
            proof {
                if word@ == seq![42u8] || word@ == seq![43u8] {
                    assert(word@.len() == 1);
                    assert(word@[0] == seq![42u8][0] || word@[0] == seq![43u8][0]);
                }
            }
            Err(ParseOperationError(word.clone()))
        }
    }

    /// The result of the operation, if it fits.
    pub fn checked(&self, a: u64, b: u64) -> (out: Option<u64>)
        ensures
            match out {
                Some(r) => r == self.result(a as int, b as int),
                None => self.result(a as int, b as int) > u64::MAX,
            },
    {
        match self {
            Operation::Add => a.checked_add(b),
            Operation::Multiply => {
                let r = a.checked_mul(b);
                proof {
                    assert(a * b >= 0) by (nonlinear_arith)
                        requires
                            a >= 0,
                            b >= 0,
                    ;
                }
                r
            },
        }
    }
}

/// The numbers that the words write, if each writes one.
pub open spec fn numbers_of(tokens: Seq<Seq<u8>>) -> Option<Seq<u64>>
    decreases tokens.len(),
{
    if tokens.len() == 0 {
        Some(Seq::empty())
    } else {
        match (numbers_of(tokens.drop_last()), number(tokens.last(), u64::MAX as nat)) {
            (Some(ns), Some(n)) => Some(ns.push(n as u64)),
            _ => None,
        }
    }
}

/// Words give no numbers if a part of them from the start gives none.
proof fn lemma_numbers_none(tokens: Seq<Seq<u8>>, n: int)
    requires
        0 <= n <= tokens.len(),
        numbers_of(tokens.take(n)) is None,
    ensures
        numbers_of(tokens) is None,
    decreases tokens.len() - n,
{
    if n < tokens.len() {
        assert(tokens.take(n + 1).drop_last() =~= tokens.take(n));
        lemma_numbers_none(tokens, n + 1);
    } else {
        assert(tokens.take(n) =~= tokens);
    }
}

/// Reads the numbers of a line: its words, each a number.
pub fn parse_line(line: &Vec<u8>) -> (out: Option<Vec<u64>>)
    ensures
        match out {
            Some(ns) => numbers_of(words(line@)) == Some(ns@),
            None => numbers_of(words(line@)) is None,
        },
{
    let tokens = split_words(line);
    let ghost all = views(tokens@);
    let mut out: Vec<u64> = Vec::new();
    let mut i: usize = 0;
    while i < tokens.len()
        invariant
            i <= tokens@.len(),
            all == views(tokens@),
            all == words(line@),
            numbers_of(all.take(i as int)) == Some(out@),
        decreases tokens@.len() - i,
    {
        proof {
            assert(all.take(i + 1).drop_last() =~= all.take(i as int));
            assert(all.take(i + 1).last() == tokens@[i as int]@);
        }
        match parse_number(&tokens[i], u64::MAX) {
            Some(n) => {
                out.push(n);
            },
            None => {
                proof {
                    lemma_numbers_none(all, i + 1);
                }
                return None;
            },
        }
        i += 1;
    }
    proof {
        assert(all.take(i as int) =~= all);
    }
    Some(out)
}

/// The operations that the words write, if each writes one.
pub open spec fn operations_of(tokens: Seq<Seq<u8>>) -> Option<Seq<Operation>>
    decreases tokens.len(),
{
    if tokens.len() == 0 {
        Some(Seq::empty())
    } else {
        match (operations_of(tokens.drop_last()), operation_of(tokens.last())) {
            (Some(ops), Some(op)) => Some(ops.push(op)),
            _ => None,
        }
    }
}

/// Words give no operations if a part of them from the start gives none.
proof fn lemma_operations_none(tokens: Seq<Seq<u8>>, n: int)
    requires
        0 <= n <= tokens.len(),
        operations_of(tokens.take(n)) is None,
    ensures
        operations_of(tokens) is None,
    decreases tokens.len() - n,
{
    if n < tokens.len() {
        assert(tokens.take(n + 1).drop_last() =~= tokens.take(n));
        lemma_operations_none(tokens, n + 1);
    } else {
        assert(tokens.take(n) =~= tokens);
    }
}

/// Reads the operations of a line: its words, each an operation.
pub fn parse_operations(line: &Vec<u8>) -> (out: Result<Vec<Operation>, ParseOperationError>)
    ensures
        match out {
            Ok(ops) => operations_of(words(line@)) == Some(ops@),
            Err(_) => operations_of(words(line@)) is None,
        },
{
    let tokens = split_words(line);
    let ghost all = views(tokens@);
    let mut out: Vec<Operation> = Vec::new();
    let mut i: usize = 0;
    while i < tokens.len()
        invariant
            i <= tokens@.len(),
            all == views(tokens@),
            all == words(line@),
            operations_of(all.take(i as int)) == Some(out@),
        decreases tokens@.len() - i,
    {
        proof {
            assert(all.take(i + 1).drop_last() =~= all.take(i as int));
            assert(all.take(i + 1).last() == tokens@[i as int]@);
        }
        match Operation::from_str(&tokens[i]) {
            Ok(op) => {
                out.push(op);
            },
            Err(e) => {
                proof {
                    lemma_operations_none(all, i + 1);
                }
                return Err(e);
            },
        }
        i += 1;
    }
    proof {
        assert(all.take(i as int) =~= all);
    }
    Ok(out)
}

/// The result of a column: its operation applied to its numbers from the top, the
/// first `rows` of them; `None` once a result does not fit.
pub open spec fn column_result(
    numbers: Seq<u64>,
    width: nat,
    op: Operation,
    x: nat,
    rows: nat,
) -> Option<u64>
    decreases rows,
{
    if rows == 0 {
        None
    } else if rows == 1 {
        Some(numbers[x as int])
    } else {
        match column_result(numbers, width, op, x, (rows - 1) as nat) {
            Some(before) => {
                let r = op.result(before as int, numbers[(rows - 1) * width + x] as int);
                if r <= u64::MAX {
                    Some(r as u64)
                } else {
                    None
                }
            },
            None => None,
        }
    }
}

/// The sum of the results of the first `columns` columns; `None` once a result or
/// the sum does not fit.
pub open spec fn sheet_total(
    numbers: Seq<u64>,
    width: nat,
    height: nat,
    operations: Seq<Operation>,
    columns: nat,
) -> Option<u64>
    decreases columns,
{
    if columns == 0 {
        Some(0)
    } else {
        match (
            sheet_total(numbers, width, height, operations, (columns - 1) as nat),
            column_result(numbers, width, operations[columns - 1], (columns - 1) as nat, height),
        ) {
            (Some(sum), Some(r)) => if sum + r <= u64::MAX {
                Some((sum + r) as u64)
            } else {
                None
            },
            _ => None,
        }
    }
}

impl Input {
    /// The sheet holds a number for each column of each row and an operation for
    /// each column, and has a row at least.
    pub open spec fn wf(&self) -> bool {
        &&& self.height >= 1
        &&& self.numbers@.len() == self.width * self.height
        &&& self.operations@.len() >= self.width
    }

    /// The sum of the results of the columns; `None` if a result or the sum does not
    /// fit.
    pub fn grand_total(&self) -> (out: Option<u64>)
        requires
            self.wf(),
        ensures
            out == sheet_total(
                self.numbers@,
                self.width as nat,
                self.height as nat,
                self.operations@,
                self.width as nat,
            ),
    {
        let size = self.numbers.len();
        let mut sum: u64 = 0;
        let mut i: usize = 0;
        while i < self.width
            invariant
                i <= self.width,
                self.wf(),
                size == self.numbers@.len(),
                sheet_total(
                    self.numbers@,
                    self.width as nat,
                    self.height as nat,
                    self.operations@,
                    i as nat,
                ) == Some(sum),
            decreases self.width - i,
        {
            proof {
                assert(i < self.width * self.height) by (nonlinear_arith)
                    requires
                        i < self.width,
                        self.height >= 1,
                ;
            }
            let mut result = self.numbers[i];
            let mut j: usize = 1;
            while j < self.height
                invariant
                    1 <= j <= self.height,
                    i < self.width,
                    self.wf(),
                    size == self.numbers@.len(),
                    column_result(
                        self.numbers@,
                        self.width as nat,
                        self.operations@[i as int],
                        i as nat,
                        j as nat,
                    ) == Some(result),
                decreases self.height - j,
            {
                proof {
                    assert(j * self.width + i < self.width * self.height && j * self.width >= 0)
                        by (nonlinear_arith)
                        requires
                            0 <= i < self.width,
                            0 <= j < self.height,
                    ;
                }
                match self.operations[i].checked(result, self.numbers[j * self.width + i]) {
                    Some(r) => {
                        result = r;
                    },
                    None => {
                        proof {
                            lemma_column_none(
                                self.numbers@,
                                self.width as nat,
                                self.operations@[i as int],
                                i as nat,
                                (j + 1) as nat,
                                self.height as nat,
                            );
                            lemma_total_none(
                                self.numbers@,
                                self.width as nat,
                                self.height as nat,
                                self.operations@,
                                (i + 1) as nat,
                                self.width as nat,
                            );
                        }
                        return None;
                    },
                }
                j += 1;
            }
            match sum.checked_add(result) {
                Some(s) => {
                    sum = s;
                },
                None => {
                    proof {
                        lemma_total_none(
                            self.numbers@,
                            self.width as nat,
                            self.height as nat,
                            self.operations@,
                            (i + 1) as nat,
                            self.width as nat,
                        );
                    }
                    return None;
                },
            }
            i += 1;
        }
        Some(sum)
    }
}

/// A column result that does not fit in the first rows does not fit in more rows.
proof fn lemma_column_none(numbers: Seq<u64>, width: nat, op: Operation, x: nat, n: nat, rows: nat)
    requires
        1 <= n <= rows,
        column_result(numbers, width, op, x, n) is None,
    ensures
        column_result(numbers, width, op, x, rows) is None,
    decreases rows - n,
{
    if n < rows {
        lemma_column_none(numbers, width, op, x, n + 1, rows);
    }
}

/// A total that does not fit for the first columns does not fit for more.
proof fn lemma_total_none(
    numbers: Seq<u64>,
    width: nat,
    height: nat,
    operations: Seq<Operation>,
    n: nat,
    columns: nat,
)
    requires
        n <= columns,
        sheet_total(numbers, width, height, operations, n) is None,
    ensures
        sheet_total(numbers, width, height, operations, columns) is None,
    decreases columns - n,
{
    if n < columns {
        lemma_total_none(numbers, width, height, operations, n + 1, columns);
    }
}


/// Why the lines give no sheet.
#[derive(Debug)]
pub enum ReadError {
    /// A word of a line of numbers is no number.
    Number,
    /// A word of a line of operations is no operation.
    Operation(ParseOperationError),
}

/// What has been read of a sheet.
pub struct Sheet {
    pub width: nat,
    pub height: nat,
    pub numbers: Seq<u64>,
    pub operations: Seq<Operation>,
}

/// The kinds of failure.
pub enum Failure {
    Number,
    Operation,
}

/// What has been read after one more line: a line that starts with a digit is a row
/// of numbers, and the first such row sets the width; any other line sets the
/// operations.
pub open spec fn after_line(sheet: Sheet, line: Seq<u8>) -> Result<Sheet, Failure> {
    if line.len() > 0 && is_digit(line[0]) {
        match numbers_of(words(line)) {
            None => Err(Failure::Number),
            Some(row) => Ok(
                Sheet {
                    height: sheet.height + 1,
                    numbers: sheet.numbers + row,
                    width: if sheet.width == 0 {
                        (sheet.numbers + row).len()
                    } else {
                        sheet.width
                    },
                    ..sheet
                },
            ),
        }
    } else {
        match operations_of(words(line)) {
            None => Err(Failure::Operation),
            Some(ops) => Ok(Sheet { operations: ops, ..sheet }),
        }
    }
}

/// What has been read after the first `n` lines, or the first failure.
pub open spec fn after_lines(lines: Seq<Seq<u8>>, n: nat) -> Result<Sheet, Failure>
    decreases n,
{
    if n == 0 {
        Ok(Sheet { width: 0, height: 0, numbers: Seq::empty(), operations: Seq::empty() })
    } else {
        match after_lines(lines, (n - 1) as nat) {
            Err(e) => Err(e),
            Ok(sheet) => after_line(sheet, lines[n - 1]),
        }
    }
}

/// A failure in the first lines is the failure of all lines.
proof fn lemma_after_lines_err(lines: Seq<Seq<u8>>, n: nat, m: nat)
    requires
        n <= m,
        after_lines(lines, n) is Err,
    ensures
        after_lines(lines, m) == after_lines(lines, n),
    decreases m - n,
{
    if n < m {
        lemma_after_lines_err(lines, n, (m - 1) as nat);
    }
}

impl Input {
    /// What the sheet holds.
    pub open spec fn sheet(&self) -> Sheet {
        Sheet {
            width: self.width as nat,
            height: self.height as nat,
            numbers: self.numbers@,
            operations: self.operations@,
        }
    }

    /// Reads a sheet from its lines: rows of numbers, and a line of operations.
    pub fn from_lines(lines: &Vec<Vec<u8>>) -> (out: Result<Input, ReadError>)
        ensures
            match out {
                Ok(input) => after_lines(views(lines@), lines@.len()) == Ok::<Sheet, Failure>(
                    input.sheet(),
                ),
                Err(ReadError::Number) => after_lines(views(lines@), lines@.len()) == Err::<
                    Sheet,
                    Failure,
                >(Failure::Number),
                Err(ReadError::Operation(_)) => after_lines(views(lines@), lines@.len()) == Err::<
                    Sheet,
                    Failure,
                >(Failure::Operation),
            },
    {
        let ghost all = views(lines@);
        let mut width: usize = 0;
        let mut height: usize = 0;
        let mut numbers: Vec<u64> = Vec::new();
        let mut operations: Vec<Operation> = Vec::new();
        let mut i: usize = 0;
        while i < lines.len()
            invariant
                i <= lines@.len(),
                all == views(lines@),
                height <= i,
                after_lines(all, i as nat) == Ok::<Sheet, Failure>(
                    Sheet {
                        width: width as nat,
                        height: height as nat,
                        numbers: numbers@,
                        operations: operations@,
                    },
                ),
            decreases lines@.len() - i,
        {
            let line = &lines[i];
            proof {
                assert(all[i as int] == line@);
            }
            if line.len() > 0 && line[0] >= 48 && line[0] <= 57 {
                match parse_line(line) {
                    None => {
                        proof {
                            lemma_after_lines_err(all, (i + 1) as nat, lines@.len());
                        }
                        return Err(ReadError::Number);
                    },
                    Some(row) => {
                        let mut row = row;
                        height += 1;
                        numbers.append(&mut row);
                        if width == 0 {
                            width = numbers.len();
                        }
                    },
                }
            } else {
                match parse_operations(line) {
                    Err(e) => {
                        proof {
                            lemma_after_lines_err(all, (i + 1) as nat, lines@.len());
                        }
                        return Err(ReadError::Operation(e));
                    },
                    Ok(ops) => {
                        operations = ops;
                    },
                }
            }
            i += 1;
        }
        Ok(Input { width, height, numbers, operations })
    }
}

} // verus!
