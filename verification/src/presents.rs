use vstd::prelude::*;
use crate::packing::{Grid, GridView, Input, Region, RegionView, region_views};
use crate::pattern::{captures, first_captures, group_views};
use crate::text::{number, parse_number, split_words, trim, trimmed, views, words};

verus! {

/// Why the lines give no puzzle.
#[derive(Debug, PartialEq, Eq, Structural)]
pub enum LoadError {
    /// A line is neither the head of a shape nor a region.
    UnexpectedLine,
    /// The width of a region is no number that fits.
    Width,
    /// The height of a region is no number that fits.
    Height,
    /// A quantity of a region is no number that fits.
    Quantity,
    /// The number of a shape is no number that fits.
    ShapeId,
    /// The number of a shape is not the number of shapes before it.
    ShapeIdMismatch,
    /// No row follows the head of a shape.
    EmptyGrid,
    /// The rows of a shape differ in length.
    RaggedGrid,
}

/// The pattern of a region: its width, its height and the quantities.
pub open spec fn region_pattern() -> Seq<char> {
    r"^(\d+)x(\d+):(( \d+)+)$"@
}

/// The pattern of the head of a shape: its number.
pub open spec fn shape_pattern() -> Seq<char> {
    r"^(\d+):$"@
}

/// The numbers that the words write, if each writes one that fits.
pub open spec fn quantities_of(tokens: Seq<Seq<u8>>) -> Option<Seq<usize>>
    decreases tokens.len(),
{
    if tokens.len() == 0 {
        Some(Seq::empty())
    } else {
        match (quantities_of(tokens.drop_last()), number(tokens.last(), usize::MAX as nat)) {
            (Some(ns), Some(n)) => Some(ns.push(n as usize)),
            _ => None,
        }
    }
}

/// The region that the groups of a match of the region pattern give.
pub open spec fn region_of(g: Seq<Option<Seq<u8>>>) -> Result<RegionView, LoadError> {
    if g.len() >= 4 && g[1] is Some && g[2] is Some && g[3] is Some {
        match number(g[1]->Some_0, usize::MAX as nat) {
            None => Err(LoadError::Width),
            Some(width) => match number(g[2]->Some_0, usize::MAX as nat) {
                None => Err(LoadError::Height),
                Some(height) => match quantities_of(words(g[3]->Some_0)) {
                    None => Err(LoadError::Quantity),
                    Some(shape_quantities) => Ok(RegionView { width, height, shape_quantities }),
                },
            },
        }
    } else {
        Err(LoadError::UnexpectedLine)
    }
}

/// The first line at or behind line `i` that is empty but for white space, or the
/// number of lines if there is none.
pub open spec fn rows_end(lines: Seq<Seq<u8>>, i: int) -> int
    decreases lines.len() - i,
{
    if i < 0 || i >= lines.len() {
        lines.len() as int
    } else if trimmed(lines[i]).len() == 0 {
        i
    } else {
        rows_end(lines, i + 1)
    }
}

/// The mark of a byte of a row: a blank for a dot.
pub open spec fn mark(b: u8) -> char {
    if b == 46 {
        ' '
    } else {
        b as char
    }
}

/// The marks of the lines from `from` to before `to`, each without the white space
/// around it.
pub open spec fn cells(lines: Seq<Seq<u8>>, from: int, to: int) -> Seq<char>
    decreases to - from,
{
    if to <= from {
        Seq::empty()
    } else {
        cells(lines, from, to - 1) + Seq::new(
            trimmed(lines[to - 1]).len(),
            |k: int| mark(trimmed(lines[to - 1])[k]),
        )
    }
}

/// The grid of the lines from `from` to before `to`: a row for each line.
pub open spec fn grid_of(lines: Seq<Seq<u8>>, from: int, to: int) -> Result<GridView, LoadError> {
    if to <= from {
        Err(LoadError::EmptyGrid)
    } else if exists|r: int| from <= r < to && trimmed(#[trigger] lines[r]).len() != trimmed(lines[from]).len() {
        Err(LoadError::RaggedGrid)
    } else {
        Ok(
            GridView {
                data: cells(lines, from, to),
                width: trimmed(lines[from]).len(),
                height: (to - from) as nat,
            },
        )
    }
}

/// The shapes and the regions of a puzzle, as plain values.
pub struct InputView {
    pub shapes: Seq<GridView>,
    pub regions: Seq<RegionView>,
}

/// The puzzle that the lines from line `i` on give, after the shapes and the regions
/// of the lines before, or the first failure.
pub open spec fn loaded(lines: Seq<Seq<u8>>, i: int, so_far: InputView) -> Result<InputView, LoadError>
    decreases lines.len() - i,
{
    if i < 0 || i >= lines.len() {
        Ok(so_far)
    } else {
        match first_captures(region_pattern(), lines[i]) {
            Some(g) => match region_of(g) {
                Err(e) => Err(e),
                Ok(r) => loaded(lines, i + 1, InputView { regions: so_far.regions.push(r), ..so_far }),
            },
            None => match first_captures(shape_pattern(), lines[i]) {
                None => Err(LoadError::UnexpectedLine),
                Some(g) => if g.len() >= 2 && g[1] is Some {
                    match number(g[1]->Some_0, usize::MAX as nat) {
                        None => Err(LoadError::ShapeId),
                        Some(id) => if id != so_far.shapes.len() {
                            Err(LoadError::ShapeIdMismatch)
                        } else {
                            let end = rows_end(lines, i + 1);
                            match grid_of(lines, i + 1, end) {
                                Err(e) => Err(e),
                                Ok(grid) => if i < end < lines.len() {
                                    loaded(
                                        lines,
                                        end + 1,
                                        InputView { shapes: so_far.shapes.push(grid), ..so_far },
                                    )
                                } else {
                                    Ok(InputView { shapes: so_far.shapes.push(grid), ..so_far })
                                },
                            }
                        },
                    }
                } else {
                    Err(LoadError::UnexpectedLine)
                },
            },
        }
    }
}

/// Words give no quantities if a part of them from the start gives none.
proof fn lemma_quantities_none(tokens: Seq<Seq<u8>>, n: int)
    requires
        0 <= n <= tokens.len(),
        quantities_of(tokens.take(n)) is None,
    ensures
        quantities_of(tokens) is None,
    decreases tokens.len() - n,
{
    if n < tokens.len() {
        assert(tokens.take(n + 1).drop_last() =~= tokens.take(n));
        lemma_quantities_none(tokens, n + 1);
    } else {
        assert(tokens.take(n) =~= tokens);
    }
}

/// The numbers that the words of a text write.
pub fn read_quantities(text: &Vec<u8>) -> (out: Option<Vec<usize>>)
    ensures
        match out {
            Some(ns) => quantities_of(words(text@)) == Some(ns@),
            None => quantities_of(words(text@)) is None,
        },
{
    let tokens = split_words(text);
    let ghost all = views(tokens@);
    let mut shape_quantities: Vec<usize> = Vec::new();
    let mut i: usize = 0;
    while i < tokens.len()
        invariant
            i <= tokens@.len(),
            all == views(tokens@),
            all == words(text@),
            quantities_of(all.take(i as int)) == Some(shape_quantities@),
        decreases tokens@.len() - i,
    {
        proof {
            assert(all.take(i + 1).drop_last() =~= all.take(i as int));
            assert(all.take(i + 1).last() == tokens@[i as int]@);
        }
        match parse_number(&tokens[i], usize::MAX as u64) {
            Some(n) => {
                shape_quantities.push(n as usize);
            },
            None => {
                proof {
                    lemma_quantities_none(all, i + 1);
                }
                return None;
            },
        }
        i += 1;
    }
    proof {
        assert(all.take(i as int) =~= all);
    }
    Some(shape_quantities)
}

/// The region that the groups of a match of the region pattern give.
pub fn read_region(g: &Vec<Option<Vec<u8>>>) -> (out: Result<Region, LoadError>)
    ensures
        match out {
            Ok(r) => region_of(group_views(g@)) == Ok::<RegionView, LoadError>(r@),
            Err(e) => region_of(group_views(g@)) == Err::<RegionView, LoadError>(e),
        },
{
    if g.len() < 4 {
        return Err(LoadError::UnexpectedLine);
    }
    match (&g[1], &g[2], &g[3]) {
        (Some(w), Some(h), Some(q)) => {
            let width = match parse_number(w, usize::MAX as u64) {
                Some(n) => n as usize,
                None => {
                    return Err(LoadError::Width);
                },
            };
            let height = match parse_number(h, usize::MAX as u64) {
                Some(n) => n as usize,
                None => {
                    return Err(LoadError::Height);
                },
            };
            match read_quantities(q) {
                Some(shape_quantities) => Ok(Region { width, height, shape_quantities }),
                None => Err(LoadError::Quantity),
            }
        },
        _ => Err(LoadError::UnexpectedLine),
    }
}

/// The views of the grids.
pub open spec fn grid_views(grids: Seq<Grid>) -> Seq<GridView> {
    Seq::new(grids.len(), |i: int| grids[i]@)
}

/// Reads the grid of a shape from the lines from `from` on: a row for each line up to
/// the first that is empty but for white space. Gives the grid and the place of that
/// line.
pub fn parse_grid(lines: &Vec<Vec<u8>>, from: usize) -> (out: (Result<Grid, LoadError>, usize))
    requires
        from <= lines@.len(),
    ensures
        out.1 == rows_end(views(lines@), from as int),
        from <= out.1 <= lines@.len(),
        match out.0 {
            Ok(grid) => grid_of(views(lines@), from as int, out.1 as int) == Ok::<
                GridView,
                LoadError,
            >(grid@),
            Err(e) => grid_of(views(lines@), from as int, out.1 as int) == Err::<
                GridView,
                LoadError,
            >(e),
        },
{
    let ghost all = views(lines@);
    let mut data: Vec<char> = Vec::new();
    let mut width: usize = 0;
    let mut ragged = false;
    let mut i: usize = from;
    let mut done = false;
    while i < lines.len() && !done
        invariant
            from <= i <= lines@.len(),
            all == views(lines@),
            rows_end(all, from as int) == rows_end(all, i as int),
            done ==> i < lines@.len() && trimmed(all[i as int]).len() == 0,
            data@ == cells(all, from as int, i as int),
            i > from ==> width == trimmed(all[from as int]).len(),
            ragged == exists|r: int|
                from <= r < i && trimmed(#[trigger] all[r]).len() != trimmed(all[from as int]).len(),
        decreases lines@.len() - i + if done { 0int } else { 1int },
    {
        let row = trim(&lines[i]);
        proof {
            assert(all[i as int] == lines@[i as int]@);
        }
        if row.len() == 0 {
            done = true;
        } else {
            if i == from {
                width = row.len();
            } else if row.len() != width {
                ragged = true;
            }
            let ghost before = data@;
            let mut k: usize = 0;
            while k < row.len()
                invariant
                    k <= row@.len(),
                    data@ == before + Seq::new(k as nat, |j: int| mark(row@[j])),
                decreases row@.len() - k,
            {
                let b = row[k];
                let c = if b == 46 { ' ' } else { b as char };
                data.push(c);
                k += 1;
                proof {
                    assert(data@ =~= before + Seq::new(k as nat, |j: int| mark(row@[j])));
                }
            }
            i += 1;
        }
    }
    if i == from {
        return (Err(LoadError::EmptyGrid), i);
    }
    if ragged {
        return (Err(LoadError::RaggedGrid), i);
    }
    (Ok(Grid { data, width, height: i - from }), i)
}

impl Input {
    /// The shapes and the regions, as plain values.
    pub open spec fn content(&self) -> InputView {
        InputView { shapes: grid_views(self.shapes@), regions: region_views(self.regions@) }
    }

    /// Reads a puzzle from its lines: shapes, each a head with its number and the
    /// rows of its grid, and regions.
    pub fn from_lines(lines: &Vec<Vec<u8>>) -> (out: Result<Input, LoadError>)
        ensures
            match out {
                Ok(input) => loaded(
                    views(lines@),
                    0,
                    InputView { shapes: Seq::empty(), regions: Seq::empty() },
                ) == Ok::<InputView, LoadError>(input.content()),
                Err(e) => loaded(
                    views(lines@),
                    0,
                    InputView { shapes: Seq::empty(), regions: Seq::empty() },
                ) == Err::<InputView, LoadError>(e),
            },
    {
        let ghost all = views(lines@);
        let ghost start = InputView { shapes: Seq::empty(), regions: Seq::empty() };
        let mut shapes: Vec<Grid> = Vec::new();
        let mut regions: Vec<Region> = Vec::new();
        let mut i: usize = 0;
        proof {
            assert(grid_views(shapes@) =~= Seq::<GridView>::empty());
            assert(region_views(regions@) =~= Seq::<RegionView>::empty());
        }
        while i < lines.len()
            invariant
                i <= lines@.len(),
                all == views(lines@),
                start == (InputView { shapes: Seq::empty(), regions: Seq::empty() }),
                loaded(all, 0, start) == loaded(
                    all,
                    i as int,
                    InputView { shapes: grid_views(shapes@), regions: region_views(regions@) },
                ),
            decreases lines@.len() - i,
        {
            let line = &lines[i];
            proof {
                assert(all[i as int] == line@);
            }
            let ghost old_shapes = grid_views(shapes@);
            let ghost old_regions = region_views(regions@);
            match captures(r"^(\d+)x(\d+):(( \d+)+)$", line) {
                Some(g) => {
                    match read_region(&g) {
                        Err(e) => {
                            return Err(e);
                        },
                        Ok(r) => {
                            regions.push(r);
                            proof {
                                assert(region_views(regions@) =~= old_regions.push(r@));
                            }
                            i += 1;
                        },
                    }
                },
                None => {
                    match captures(r"^(\d+):$", line) {
                        None => {
                            return Err(LoadError::UnexpectedLine);
                        },
                        Some(g) => {
                            if g.len() < 2 {
                                return Err(LoadError::UnexpectedLine);
                            }
                            match &g[1] {
                                None => {
                                    return Err(LoadError::UnexpectedLine);
                                },
                                Some(text) => {
                                    let id = match parse_number(text, usize::MAX as u64) {
                                        None => {
                                            return Err(LoadError::ShapeId);
                                        },
                                        Some(n) => n as usize,
                                    };
                                    if shapes.len() != id {
                                        return Err(LoadError::ShapeIdMismatch);
                                    }
                                    let (grid, end) = parse_grid(lines, i + 1);
                                    match grid {
                                        Err(e) => {
                                            return Err(e);
                                        },
                                        Ok(grid) => {
                                            shapes.push(grid);
                                            proof {
                                                assert(grid_views(shapes@) =~= old_shapes.push(grid@));
                                            }
                                            i = if end < lines.len() {
                                                end + 1
                                            } else {
                                                end
                                            };
                                        },
                                    }
                                },
                            }
                        },
                    }
                },
            }
        }
        Ok(Input { shapes, regions })
    }
}

} // verus!
