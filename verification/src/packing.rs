use vstd::prelude::*;
use vstd::arithmetic::div_mod::lemma_fundamental_div_mod_converse;

verus! {

/// A grid of marks, stored row by row: a blank for an empty cell.
#[derive(Clone, Debug)]
pub struct Grid {
    pub data: Vec<char>,
    pub width: usize,
    pub height: usize,
}

/// What a grid holds, as plain values.
pub struct GridView {
    pub data: Seq<char>,
    pub width: nat,
    pub height: nat,
}

impl View for Grid {
    type V = GridView;

    /// The value as plain values.
    open spec fn view(&self) -> GridView {
        GridView { data: self.data@, width: self.width as nat, height: self.height as nat }
    }
}

impl GridView {
    /// The grid holds a mark for each column of each row.
    pub open spec fn wf(self) -> bool {
        self.data.len() == self.width * self.height
    }

    /// The mark at column `x` of row `y`.
    pub open spec fn cell(self, x: int, y: int) -> char {
        self.data[self.width * y + x]
    }

    /// The grid with a mark put at column `x` of row `y`, if that is a cell of it.
    pub open spec fn put(self, x: int, y: int, c: char) -> GridView {
        if 0 <= x < self.width && 0 <= y < self.height {
            GridView { data: self.data.update(self.width * y + x, c), ..self }
        } else {
            self
        }
    }

    /// The mark at column `x` of row `y`, if that is a cell of the grid.
    pub open spec fn mark(self, x: int, y: int) -> Option<char> {
        if 0 <= x < self.width && 0 <= y < self.height {
            Some(self.cell(x, y))
        } else {
            None
        }
    }

    /// The cells among the first `n` that are not blank, each as its column and its
    /// row.
    pub open spec fn filled(self, n: nat) -> Seq<(usize, usize)>
        decreases n,
    {
        if n == 0 {
            Seq::empty()
        } else if self.data[n - 1] != ' ' {
            self.filled((n - 1) as nat).push(
                (((n - 1) % (self.width as int)) as usize, ((n - 1) / (self.width as int)) as usize),
            )
        } else {
            self.filled((n - 1) as nat)
        }
    }
}

/// The place of a cell of the grid lies within the grid, and gives the cell's column and row
/// back.
pub proof fn lemma_cell_index(w: nat, h: nat, x: int, y: int)
    requires
        0 <= x < w,
        0 <= y < h,
    ensures
        0 <= w * y + x < w * h,
        (w * y + x) % (w as int) == x,
        (w * y + x) / (w as int) == y,
{
    assert(w * y + x < w * h && w * y >= 0 && w * y == y * w) by (nonlinear_arith)
        requires
            0 <= x < w,
            0 <= y < h,
    ;
    lemma_fundamental_div_mod_converse(w * y + x, w as int, y, x);
}

/// A place within the grid is the place of the cell in its column and row.
pub proof fn lemma_index_cell(w: nat, h: nat, k: int)
    requires
        0 <= k < w * h,
    ensures
        0 <= k % (w as int) < w,
        0 <= k / (w as int) < h,
        w * (k / (w as int)) + k % (w as int) == k,
{
    assert(w > 0) by (nonlinear_arith)
        requires
            0 <= k < w * h,
    ;
    vstd::arithmetic::div_mod::lemma_fundamental_div_mod(k, w as int);
    vstd::arithmetic::div_mod::lemma_mod_bound(k, w as int);
    let q = k / (w as int);
    let r = k % (w as int);
    assert(0 <= q < h) by (nonlinear_arith)
        requires
            k == w * q + r,
            0 <= r < w,
            0 <= k < w * h,
    ;
}

impl Grid {
    /// The place of the cell in column `x` of row `y`.
    #[inline]
    pub fn index(&self, x: usize, y: usize) -> (out: usize)
        requires
            self.width * y + x <= usize::MAX,
        ensures
            out == self.width * y + x,
    {
        self.width * y + x
    }

    /// A grid of blank cells.
    pub fn new(width: usize, height: usize) -> (out: Self)
        requires
            width * height <= usize::MAX,
        ensures
            out@.wf(),
            out.width == width,
            out.height == height,
            forall|k: int| 0 <= k < out.data@.len() ==> out.data@[k] == ' ',
    {
        let count = width * height;
        let mut data: Vec<char> = Vec::new();
        let mut k: usize = 0;
        while k < count
            invariant
                k <= count,
                data@.len() == k,
                forall|i: int| 0 <= i < k ==> data@[i] == ' ',
            decreases count - k,
        {
            data.push(' ');
            k += 1;
        }
        Self { width, height, data }
    }

    /// The mark at column `x` of row `y`, if that is a cell of the grid.
    pub fn get(&self, x: usize, y: usize) -> (out: Option<char>)
        requires
            self@.wf(),
        ensures
            out == self@.mark(x as int, y as int),
    {
        if x >= self.width {
            return None;
        }
        if y >= self.height {
            return None;
        }
        proof {
            lemma_cell_index(self.width as nat, self.height as nat, x as int, y as int);
        }
        let size = self.data.len();
        Some(self.data[self.index(x, y)])
    }

    /// Puts a mark at column `x` of row `y`, if that is a cell of the grid.
    pub fn set(&mut self, x: usize, y: usize, c: char)
        requires
            old(self)@.wf(),
        ensures
            final(self)@ == old(self)@.put(x as int, y as int, c),
            final(self)@.wf(),
    {
        if x >= self.width {
            return;
        }
        if y >= self.height {
            return;
        }
        proof {
            lemma_cell_index(self.width as nat, self.height as nat, x as int, y as int);
        }
        let size = self.data.len();
        let index = self.index(x, y);
        self.data[index] = c;
    }

    /// The cells that are not blank, each as its column and its row.
    pub fn filled_cells(&self) -> (out: Vec<(usize, usize)>)
        requires
            self@.wf(),
        ensures
            out@ == self@.filled(self.data@.len()),
            forall|k: int|
                0 <= k < out@.len() ==> (#[trigger] out@[k]).0 < self.width && out@[k].1 < self.height
                    && self@.cell(out@[k].0 as int, out@[k].1 as int) != ' ',
    {
        let mut filled: Vec<(usize, usize)> = Vec::new();
        let mut idx: usize = 0;
        while idx < self.data.len()
            invariant
                idx <= self.data@.len(),
                self@.wf(),
                filled@ == self@.filled(idx as nat),
                forall|k: int|
                    0 <= k < filled@.len() ==> (#[trigger] filled@[k]).0 < self.width && filled@[k].1
                        < self.height && self@.cell(filled@[k].0 as int, filled@[k].1 as int) != ' ',
            decreases self.data@.len() - idx,
        {
            proof {
                lemma_index_cell(self.width as nat, self.height as nat, idx as int);
            }
            if self.data[idx] != ' ' {
                filled.push((idx % self.width, idx / self.width));
            }
            idx += 1;
        }
        filled
    }

    /// A copy of the grid.
    pub fn copy(&self) -> (out: Self)
        ensures
            out@ == self@,
    {
        Grid { data: self.data.clone(), width: self.width, height: self.height }
    }

    /// Whether two grids are equal.
    pub fn same(&self, other: &Grid) -> (out: bool)
        ensures
            out == (self@ == other@),
    {
        if self.width != other.width || self.height != other.height || self.data.len()
            != other.data.len() {
            return false;
        }
        let mut i: usize = 0;
        while i < self.data.len()
            invariant
                i <= self.data@.len(),
                self.data@.len() == other.data@.len(),
                forall|j: int| 0 <= j < i ==> self.data@[j] == other.data@[j],
            decreases self.data@.len() - i,
        {
            if self.data[i] != other.data[i] {
                return false;
            }
            i += 1;
        }
        proof {
            assert(self.data@ =~= other.data@);
        }
        true
    }
}

impl PartialEq for Grid {
    /// Whether two grids are equal.
    fn eq(&self, other: &Self) -> (out: bool) {
        self.same(other)
    }
}

impl vstd::std_specs::cmp::PartialEqSpecImpl for Grid {
    open spec fn obeys_eq_spec() -> bool {
        true
    }

    open spec fn eq_spec(&self, other: &Self) -> bool {
        self@ == other@
    }
}

/// A way to turn and flip a grid.
#[derive(Clone, Copy, PartialEq, Eq, Structural)]
pub struct Transformation {
    pub swap_xy: bool,
    pub invert_x: bool,
    pub invert_y: bool,
}

impl Transformation {
    /// The cell to which the cell in column `x` of row `y` of a grid goes.
    pub open spec fn target(self, w: nat, h: nat, x: int, y: int) -> (int, int) {
        let cx = if self.invert_x {
            w - 1 - x
        } else {
            x
        };
        let cy = if self.invert_y {
            h - 1 - y
        } else {
            y
        };
        if self.swap_xy {
            (cy, cx)
        } else {
            (cx, cy)
        }
    }

    /// The cell from which the cell in column `fx` of row `fy` of the turned grid
    /// comes.
    pub open spec fn source(self, w: nat, h: nat, fx: int, fy: int) -> (int, int) {
        let cx = if self.swap_xy {
            fy
        } else {
            fx
        };
        let cy = if self.swap_xy {
            fx
        } else {
            fy
        };
        (
            if self.invert_x {
                w - 1 - cx
            } else {
                cx
            },
            if self.invert_y {
                h - 1 - cy
            } else {
                cy
            },
        )
    }

    /// The grid turned and flipped.
    pub open spec fn turned(self, g: GridView) -> GridView {
        let nw = if self.swap_xy {
            g.height
        } else {
            g.width
        };
        let nh = if self.swap_xy {
            g.width
        } else {
            g.height
        };
        GridView {
            width: nw,
            height: nh,
            data: Seq::new(
                g.data.len(),
                |k: int|
                    g.cell(
                        self.source(g.width, g.height, k % (nw as int), k / (nw as int)).0,
                        self.source(g.width, g.height, k % (nw as int), k / (nw as int)).1,
                    ),
            ),
        }
    }

    /// Each cell of the grid is found in the turned grid at the cell to which it
    /// goes.
    pub proof fn lemma_turned(self, g: GridView, x: int, y: int)
        requires
            g.wf(),
            0 <= x < g.width,
            0 <= y < g.height,
        ensures
            self.turned(g).wf(),
            0 <= self.target(g.width, g.height, x, y).0 < self.turned(g).width,
            0 <= self.target(g.width, g.height, x, y).1 < self.turned(g).height,
            self.turned(g).cell(
                self.target(g.width, g.height, x, y).0,
                self.target(g.width, g.height, x, y).1,
            ) == g.cell(x, y),
    {
        let t = self.turned(g);
        let f = self.target(g.width, g.height, x, y);
        assert(t.width * t.height == g.width * g.height) by (nonlinear_arith)
            requires
                (t.width == g.width && t.height == g.height) || (t.width == g.height && t.height
                    == g.width),
        ;
        lemma_cell_index(t.width, t.height, f.0, f.1);
    }

    /// The grid turned and flipped.
    pub fn apply(&self, grid: &Grid) -> (out: Grid)
        requires
            grid@.wf(),
        ensures
            out@ == self.turned(grid@),
            out@.wf(),
    {
        let old_w = grid.width;
        let old_h = grid.height;
        let new_w = if self.swap_xy { old_h } else { old_w };
        let new_h = if self.swap_xy { old_w } else { old_h };
        let size = grid.data.len();
        proof {
            assert(new_w * new_h == old_w * old_h) by (nonlinear_arith)
                requires
                    (new_w == old_w && new_h == old_h) || (new_w == old_h && new_h == old_w),
            ;
        }
        let mut result: Vec<char> = Vec::new();
        let mut k: usize = 0;
        while k < size
            invariant
                k <= size,
                size == grid.data@.len(),
                grid@.wf(),
                old_w == grid.width,
                old_h == grid.height,
                new_w == self.turned(grid@).width,
                new_h == self.turned(grid@).height,
                new_w * new_h == size,
                result@.len() == k,
                forall|i: int| 0 <= i < k ==> result@[i] == self.turned(grid@).data[i],
            decreases size - k,
        {
            proof {
                lemma_index_cell(new_w as nat, new_h as nat, k as int);
            }
            let fx = k % new_w;
            let fy = k / new_w;
            let cx = if self.swap_xy { fy } else { fx };
            let cy = if self.swap_xy { fx } else { fy };
            let x = if self.invert_x { old_w - 1 - cx } else { cx };
            let y = if self.invert_y { old_h - 1 - cy } else { cy };
            proof {
                lemma_cell_index(old_w as nat, old_h as nat, x as int, y as int);
                assert(y * old_w == old_w * y) by (nonlinear_arith);
            }
            result.push(grid.data[y * old_w + x]);
            k += 1;
        }
        proof {
            assert(result@ =~= self.turned(grid@).data);
        }
        Grid { data: result, width: new_w, height: new_h }
    }
}

/// The eight ways to turn and flip a grid: the four turns, and the four turns of the
/// flipped grid.
pub open spec fn way(i: int) -> Transformation {
    if i == 0 {
        Transformation { swap_xy: false, invert_x: false, invert_y: false }
    } else if i == 1 {
        Transformation { swap_xy: true, invert_x: false, invert_y: true }
    } else if i == 2 {
        Transformation { swap_xy: false, invert_x: true, invert_y: true }
    } else if i == 3 {
        Transformation { swap_xy: true, invert_x: true, invert_y: false }
    } else if i == 4 {
        Transformation { swap_xy: false, invert_x: true, invert_y: false }
    } else if i == 5 {
        Transformation { swap_xy: true, invert_x: true, invert_y: true }
    } else if i == 6 {
        Transformation { swap_xy: false, invert_x: false, invert_y: true }
    } else {
        Transformation { swap_xy: true, invert_x: false, invert_y: false }
    }
}

/// One of the eight ways to turn and flip a grid.
pub fn transformation(i: usize) -> (out: Transformation)
    ensures
        out == way(i as int),
{
    if i == 0 {
        Transformation { swap_xy: false, invert_x: false, invert_y: false }
    } else if i == 1 {
        Transformation { swap_xy: true, invert_x: false, invert_y: true }
    } else if i == 2 {
        Transformation { swap_xy: false, invert_x: true, invert_y: true }
    } else if i == 3 {
        Transformation { swap_xy: true, invert_x: true, invert_y: false }
    } else if i == 4 {
        Transformation { swap_xy: false, invert_x: true, invert_y: false }
    } else if i == 5 {
        Transformation { swap_xy: true, invert_x: true, invert_y: true }
    } else if i == 6 {
        Transformation { swap_xy: false, invert_x: false, invert_y: true }
    } else {
        Transformation { swap_xy: true, invert_x: false, invert_y: false }
    }
}


/// A shape as it lies after a turn or a flip, and its cells that are not blank.
pub struct Variant {
    pub grid: Grid,
    pub filled: Vec<(usize, usize)>,
}

/// What a variant holds, as plain values.
pub struct VariantView {
    pub grid: GridView,
    pub filled: Seq<(usize, usize)>,
}

impl View for Variant {
    type V = VariantView;

    /// The value as plain values.
    open spec fn view(&self) -> VariantView {
        VariantView { grid: self.grid@, filled: self.filled@ }
    }
}

/// The variant of a grid.
pub open spec fn variant_of(g: GridView) -> VariantView {
    VariantView { grid: g, filled: g.filled(g.data.len()) }
}

/// The views of the variants.
pub open spec fn variant_views(v: Seq<Variant>) -> Seq<VariantView> {
    Seq::new(v.len(), |i: int| v[i]@)
}

/// The views of the lists of variants.
pub open spec fn shape_views(v: Seq<Vec<Variant>>) -> Seq<Seq<VariantView>> {
    Seq::new(v.len(), |i: int| variant_views(v[i]@))
}

/// The variants of a shape under the first `n` ways to turn and flip it, each once.
pub open spec fn turns(shape: GridView, n: nat) -> Seq<VariantView>
    decreases n,
{
    if n == 0 {
        Seq::empty()
    } else {
        let before = turns(shape, (n - 1) as nat);
        let t = variant_of(way(n - 1).turned(shape));
        if before.contains(t) {
            before
        } else {
            before.push(t)
        }
    }
}

/// The variants of the shapes, and for each shape the number of its cells that are
/// not blank.
pub struct Transformer {
    pub variants: Vec<Vec<Variant>>,
    pub filled_counts: Vec<usize>,
}

/// The cells lie within a grid of the width and the height.
pub open spec fn cells_within(cells: Seq<(usize, usize)>, w: nat, h: nat) -> bool {
    forall|k: int| 0 <= k < cells.len() ==> (#[trigger] cells[k]).0 < w && cells[k].1 < h
}

impl Transformer {
    /// Each shape has its count, and each variant holds the cells of its grid that
    /// are not blank.
    pub open spec fn wf(&self) -> bool {
        &&& self.variants@.len() == self.filled_counts@.len()
        &&& forall|s: int, v: int|
            0 <= s < self.variants@.len() && 0 <= v < self.variants@[s]@.len() ==> (
            #[trigger] self.variants@[s]@[v])@.grid.wf() && cells_within(
                self.variants@[s]@[v].filled@,
                self.variants@[s]@[v].grid.width as nat,
                self.variants@[s]@[v].grid.height as nat,
            )
    }

    /// The variants of the shapes.
    pub fn new(shapes: &Vec<Grid>) -> (out: Self)
        requires
            forall|s: int| 0 <= s < shapes@.len() ==> (#[trigger] shapes@[s])@.wf(),
        ensures
            out.wf(),
            out.variants@.len() == shapes@.len(),
            forall|s: int|
                0 <= s < shapes@.len() ==> variant_views(#[trigger] out.variants@[s]@) == turns(
                    shapes@[s]@,
                    8,
                ),
            forall|s: int|
                0 <= s < shapes@.len() ==> #[trigger] out.filled_counts@[s] == shapes@[s]@.filled(
                    shapes@[s].data@.len(),
                ).len(),
    {
        let mut variants: Vec<Vec<Variant>> = Vec::new();
        let mut filled_counts: Vec<usize> = Vec::new();
        let mut s: usize = 0;
        while s < shapes.len()
            invariant
                s <= shapes@.len(),
                forall|s: int| 0 <= s < shapes@.len() ==> (#[trigger] shapes@[s])@.wf(),
                variants@.len() == s,
                filled_counts@.len() == s,
                forall|q: int, v: int|
                    0 <= q < variants@.len() && 0 <= v < variants@[q]@.len() ==> (
                    #[trigger] variants@[q]@[v])@.grid.wf() && cells_within(
                        variants@[q]@[v].filled@,
                        variants@[q]@[v].grid.width as nat,
                        variants@[q]@[v].grid.height as nat,
                    ),
                forall|q: int|
                    0 <= q < s ==> variant_views(#[trigger] variants@[q]@) == turns(shapes@[q]@, 8),
                forall|q: int|
                    0 <= q < s ==> #[trigger] filled_counts@[q] == shapes@[q]@.filled(
                        shapes@[q].data@.len(),
                    ).len(),
            decreases shapes@.len() - s,
        {
            let shape = &shapes[s];
            filled_counts.push(shape.filled_cells().len());
            let mut list: Vec<Variant> = Vec::new();
            let mut i: usize = 0;
            proof {
                assert(variant_views(list@) =~= turns(shape@, 0));
            }
            while i < 8
                invariant
                    i <= 8,
                    shape@.wf(),
                    variant_views(list@) == turns(shape@, i as nat),
                    forall|v: int|
                        0 <= v < list@.len() ==> (#[trigger] list@[v])@.grid.wf() && cells_within(
                            list@[v].filled@,
                            list@[v].grid.width as nat,
                            list@[v].grid.height as nat,
                        ) && list@[v]@ == variant_of(list@[v]@.grid),
                decreases 8 - i,
            {
                let transformed = transformation(i).apply(shape);
                let ghost t = variant_of(transformed@);
                let mut seen = false;
                let mut j: usize = 0;
                while j < list.len()
                    invariant
                        j <= list@.len(),
                        t == variant_of(transformed@),
                        forall|v: int|
                            0 <= v < list@.len() ==> (#[trigger] list@[v])@ == variant_of(
                                list@[v]@.grid,
                            ),
                        seen == exists|v: int| 0 <= v < j && variant_views(list@)[v] == t,
                    decreases list@.len() - j,
                {
                    if list[j].grid.same(&transformed) {
                        seen = true;
                        proof {
                            assert(variant_views(list@)[j as int] == t);
                        }
                    } else {
                        proof {
                            assert(variant_views(list@)[j as int].grid != t.grid);
                        }
                    }
                    j += 1;
                }
                let ghost before = variant_views(list@);
                if !seen {
                    let filled = transformed.filled_cells();
                    list.push(Variant { grid: transformed, filled });
                    proof {
                        assert(variant_views(list@) =~= before.push(t));
                    }
                }
                i += 1;
            }
            let ghost old_variants = variants@;
            variants.push(list);
            proof {
                assert forall|q: int, v: int|
                    0 <= q < variants@.len() && 0 <= v < variants@[q]@.len() implies (
                #[trigger] variants@[q]@[v])@.grid.wf() && cells_within(
                    variants@[q]@[v].filled@,
                    variants@[q]@[v].grid.width as nat,
                    variants@[q]@[v].grid.height as nat,
                ) by {
                    if q < s {
                        assert(variants@[q] == old_variants[q]);
                    }
                }
            }
            s += 1;
        }
        Self { variants, filled_counts }
    }

    /// The variants of a shape.
    pub fn variants(&self, shape_id: usize) -> (out: &Vec<Variant>)
        requires
            shape_id < self.variants@.len(),
        ensures
            *out == self.variants@[shape_id as int],
    {
        &self.variants[shape_id]
    }

    /// The number of cells of a shape that are not blank.
    pub fn filled_count(&self, shape_id: usize) -> (out: usize)
        requires
            shape_id < self.filled_counts@.len(),
        ensures
            out == self.filled_counts@[shape_id as int],
    {
        self.filled_counts[shape_id]
    }
}


/// A region and, for each shape, the number of presents of that shape that are to
/// lie in it.
pub struct Region {
    pub width: usize,
    pub height: usize,
    pub shape_quantities: Vec<usize>,
}

/// The first of the first `n` cells that is blank, if there is one.
pub open spec fn first_blank(data: Seq<char>, n: nat) -> Option<int>
    decreases n,
{
    if n == 0 {
        None
    } else {
        match first_blank(data, (n - 1) as nat) {
            Some(i) => Some(i),
            None => if data[n - 1] == ' ' {
                Some(n - 1)
            } else {
                None
            },
        }
    }
}

/// The number of the first `n` cells that are blank.
pub open spec fn blanks(data: Seq<char>, n: nat) -> nat
    decreases n,
{
    if n == 0 {
        0
    } else {
        blanks(data, (n - 1) as nat) + if data[n - 1] == ' ' {
            1nat
        } else {
            0nat
        }
    }
}

/// The number of blank cells of a grid.
pub open spec fn room(g: GridView) -> nat {
    blanks(g.data, g.data.len())
}

/// The grid with the mark `c` put at the first `n` of the cells, moved by `x` columns
/// and `y` rows.
pub open spec fn stamped(g: GridView, cells: Seq<(usize, usize)>, x: int, y: int, c: char, n: nat) -> GridView
    decreases n,
{
    if n == 0 {
        g
    } else {
        stamped(g, cells, x, y, c, (n - 1) as nat).put(x + cells[n - 1].0, y + cells[n - 1].1, c)
    }
}

/// The cells, moved by `x` columns and `y` rows, are blank cells of the grid.
pub open spec fn free(g: GridView, cells: Seq<(usize, usize)>, x: int, y: int) -> bool {
    forall|k: int|
        0 <= k < cells.len() ==> g.mark(x + (#[trigger] cells[k]).0, y + cells[k].1) == Some(' ')
}

/// The sum of the first `n` numbers.
pub open spec fn total(r: Seq<usize>, n: nat) -> nat
    decreases n,
{
    if n == 0 {
        0
    } else {
        total(r, (n - 1) as nat) + r[n - 1] as nat
    }
}

/// The corner at which variant `v` of shape `s` lies when its cell `f` covers the
/// cell at place `a`, if it lies within the region and on blank cells only.
pub open spec fn placing(
    shapes: Seq<Seq<VariantView>>,
    rw: nat,
    rh: nat,
    g: GridView,
    a: int,
    s: int,
    v: int,
    f: int,
) -> Option<(int, int)> {
    if 0 <= s < shapes.len() && 0 <= v < shapes[s].len() && 0 <= f < shapes[s][v].filled.len() {
        let var = shapes[s][v];
        let ax = a % (g.width as int);
        let ay = a / (g.width as int);
        let x = ax - var.filled[f].0;
        let y = ay - var.filled[f].1;
        if x >= 0 && y >= 0 && x + var.grid.width <= rw && y + var.grid.height <= rh && free(
            g,
            var.filled,
            x,
            y,
        ) {
            Some((x, y))
        } else {
            None
        }
    } else {
        None
    }
}

/// The presents fit once variant `v` of shape `s` has been laid with its cell `f` on
/// the cell at place `a`.
pub open spec fn attempt(
    shapes: Seq<Seq<VariantView>>,
    rw: nat,
    rh: nat,
    g: GridView,
    remaining: Seq<usize>,
    budget: nat,
    a: int,
    s: int,
    v: int,
    f: int,
) -> bool
    decreases room(g), 0int,
{
    &&& 0 <= s < remaining.len()
    &&& remaining[s] > 0
    &&& placing(shapes, rw, rh, g, a, s, v, f) is Some
    &&& {
        let at = placing(shapes, rw, rh, g, a, s, v, f)->Some_0;
        let cells = shapes[s][v].filled;
        let next = stamped(g, cells, at.0, at.1, '#', cells.len());
        room(next) < room(g) && fits(
            shapes,
            rw,
            rh,
            next,
            remaining.update(s, (remaining[s] - 1) as usize),
            budget,
        )
    }
}

/// A choice of a shape, of a variant of it and of one of its cells.
pub open spec fn choice(s: int, v: int, f: int) -> bool {
    true
}

/// The presents fit once some variant of some shape has been laid with one of its
/// cells on the cell at place `a`.
pub open spec fn covered(
    shapes: Seq<Seq<VariantView>>,
    rw: nat,
    rh: nat,
    g: GridView,
    remaining: Seq<usize>,
    budget: nat,
    a: int,
) -> bool
    decreases room(g), 1int,
{
    exists|s: int, v: int, f: int| #[trigger]
        choice(s, v, f) && attempt(shapes, rw, rh, g, remaining, budget, a, s, v, f)
}

/// The presents that remain fit into the blank cells of the grid: each lies as one
/// of the variants of its shape, none lies on another, and at most `budget` cells
/// stay empty. The first blank cell is covered by a present or stays empty.
pub open spec fn fits(
    shapes: Seq<Seq<VariantView>>,
    rw: nat,
    rh: nat,
    g: GridView,
    remaining: Seq<usize>,
    budget: nat,
) -> bool
    decreases room(g), 2int,
{
    if total(remaining, remaining.len()) == 0 {
        true
    } else {
        match first_blank(g.data, g.data.len()) {
            None => false,
            Some(a) => {
                ||| covered(shapes, rw, rh, g, remaining, budget, a)
                ||| (budget > 0 && room(g.put(a % (g.width as int), a / (g.width as int), '.'))
                    < room(g) && fits(
                    shapes,
                    rw,
                    rh,
                    g.put(a % (g.width as int), a / (g.width as int), '.'),
                    remaining,
                    (budget - 1) as nat,
                ))
            },
        }
    }
}

/// The first blank cell is blank, and no cell before it is.
pub proof fn lemma_first_blank(data: Seq<char>, n: nat)
    ensures
        match first_blank(data, n) {
            Some(a) => 0 <= a < n && data[a] == ' ' && forall|k: int| 0 <= k < a ==> data[k] != ' ',
            None => forall|k: int| 0 <= k < n ==> data[k] != ' ',
        },
    decreases n,
{
    if n > 0 {
        lemma_first_blank(data, (n - 1) as nat);
    }
}

/// Marks put on blank cells leave fewer blank cells.
pub proof fn lemma_blanks_fewer(before: Seq<char>, after: Seq<char>, n: nat, at: int)
    requires
        forall|k: int| 0 <= k < n ==> (after[k] == ' ' ==> before[k] == ' '),
    ensures
        blanks(after, n) <= blanks(before, n),
        0 <= at < n && before[at] == ' ' && after[at] != ' ' ==> blanks(after, n) < blanks(before, n),
    decreases n,
{
    if n > 0 {
        lemma_blanks_fewer(before, after, (n - 1) as nat, at);
    }
}

/// A cell of the grid is hit by one of the first `n` of the cells, moved by `x`
/// columns and `y` rows.
pub open spec fn hit(g: GridView, cells: Seq<(usize, usize)>, x: int, y: int, n: nat, k: int) -> bool {
    exists|j: int|
        0 <= j < n && 0 <= x + (#[trigger] cells[j]).0 < g.width && 0 <= y + cells[j].1 < g.height
            && g.width * (y + cells[j].1) + (x + cells[j].0) == k
}

/// Stamping changes the cells that are hit, and no others.
pub proof fn lemma_stamped(g: GridView, cells: Seq<(usize, usize)>, x: int, y: int, c: char, n: nat)
    requires
        g.wf(),
        n <= cells.len(),
    ensures
        stamped(g, cells, x, y, c, n).wf(),
        stamped(g, cells, x, y, c, n).width == g.width,
        stamped(g, cells, x, y, c, n).height == g.height,
        forall|k: int|
            0 <= k < g.data.len() ==> #[trigger] stamped(g, cells, x, y, c, n).data[k] == if hit(
                g,
                cells,
                x,
                y,
                n,
                k,
            ) {
                c
            } else {
                g.data[k]
            },
    decreases n,
{
    if n > 0 {
        let m = (n - 1) as nat;
        lemma_stamped(g, cells, x, y, c, m);
        let after = stamped(g, cells, x, y, c, n);
        let tx = x + cells[n - 1].0;
        let ty = y + cells[n - 1].1;
        if 0 <= tx < g.width && 0 <= ty < g.height {
            lemma_cell_index(g.width, g.height, tx, ty);
        }
        assert forall|k: int| 0 <= k < g.data.len() implies #[trigger] after.data[k] == if hit(
            g,
            cells,
            x,
            y,
            n,
            k,
        ) {
            c
        } else {
            g.data[k]
        } by {
            if hit(g, cells, x, y, m, k) {
                let j = choose|j: int|
                    0 <= j < m && 0 <= x + (#[trigger] cells[j]).0 < g.width && 0 <= y + cells[j].1
                        < g.height && g.width * (y + cells[j].1) + (x + cells[j].0) == k;
                assert(0 <= j < n);
            }
            if 0 <= tx < g.width && 0 <= ty < g.height && g.width * ty + tx == k {
                assert(0 <= x + cells[n - 1].0 < g.width);
            }
            if hit(g, cells, x, y, n, k) && !hit(g, cells, x, y, m, k) {
                let j = choose|j: int|
                    0 <= j < n && 0 <= x + (#[trigger] cells[j]).0 < g.width && 0 <= y + cells[j].1
                        < g.height && g.width * (y + cells[j].1) + (x + cells[j].0) == k;
                assert(j == n - 1);
            }
        }
    }
}

/// Laying a variant on blank cells leaves fewer blank cells, and taking it up again
/// leaves the grid as it was.
pub proof fn lemma_lay(g: GridView, cells: Seq<(usize, usize)>, x: int, y: int, f: int)
    requires
        g.wf(),
        free(g, cells, x, y),
        0 <= f < cells.len(),
    ensures
        room(stamped(g, cells, x, y, '#', cells.len())) < room(g),
        stamped(stamped(g, cells, x, y, '#', cells.len()), cells, x, y, ' ', cells.len()) == g,
{
    let n = cells.len();
    let laid = stamped(g, cells, x, y, '#', n);
    lemma_stamped(g, cells, x, y, '#', n);
    lemma_stamped(laid, cells, x, y, ' ', n);
    let back = stamped(laid, cells, x, y, ' ', n);
    assert(g.mark(x + cells[f].0, y + cells[f].1) == Some(' '));
    let at = g.width * (y + cells[f].1) + (x + cells[f].0);
    lemma_cell_index(g.width, g.height, x + cells[f].0, y + cells[f].1);
    assert(hit(g, cells, x, y, n, at));
    assert forall|k: int| 0 <= k < g.data.len() && laid.data[k] == ' ' implies g.data[k] == ' ' by {}
    lemma_blanks_fewer(g.data, laid.data, g.data.len(), at);
    assert forall|k: int| 0 <= k < g.data.len() implies back.data[k] == g.data[k] by {
        if hit(laid, cells, x, y, n, k) {
            let j = choose|j: int|
                0 <= j < n && 0 <= x + (#[trigger] cells[j]).0 < laid.width && 0 <= y + cells[j].1
                    < laid.height && laid.width * (y + cells[j].1) + (x + cells[j].0) == k;
            assert(g.mark(x + cells[j].0, y + cells[j].1) == Some(' '));
        }
    }
    assert(back.data =~= g.data);
}

/// Marking a blank cell as empty leaves fewer blank cells.
pub proof fn lemma_mark_empty(g: GridView, a: int)
    requires
        g.wf(),
        0 <= a < g.data.len(),
        g.data[a] == ' ',
    ensures
        room(g.put(a % (g.width as int), a / (g.width as int), '.')) < room(g),
        g.put(a % (g.width as int), a / (g.width as int), '.').put(
            a % (g.width as int),
            a / (g.width as int),
            ' ',
        ) == g,
        g.put(a % (g.width as int), a / (g.width as int), '.').wf(),
{
    lemma_index_cell(g.width, g.height, a);
    let next = g.put(a % (g.width as int), a / (g.width as int), '.');
    lemma_blanks_fewer(g.data, next.data, g.data.len(), a);
    let back = next.put(a % (g.width as int), a / (g.width as int), ' ');
    assert(back.data =~= g.data);
}

/// Changing one number changes the sum by the difference.
pub proof fn lemma_total_update(r: Seq<usize>, n: nat, s: int, v: usize)
    requires
        n <= r.len(),
        0 <= s < r.len(),
    ensures
        total(r.update(s, v), n) == if s < n {
            total(r, n) - r[s] + v
        } else {
            total(r, n) as int
        },
    decreases n,
{
    if n > 0 {
        lemma_total_update(r, (n - 1) as nat, s, v);
    }
}

/// The first numbers sum to no more than all.
pub proof fn lemma_total_part(r: Seq<usize>, n: nat, m: nat)
    requires
        n <= m <= r.len(),
    ensures
        total(r, n) <= total(r, m),
    decreases m - n,
{
    if n < m {
        lemma_total_part(r, n, (m - 1) as nat);
    }
}

/// The sum of the numbers.
pub fn sum_quantities(remaining: &Vec<usize>) -> (out: usize)
    requires
        total(remaining@, remaining@.len()) <= usize::MAX,
    ensures
        out == total(remaining@, remaining@.len()),
{
    let mut sum: usize = 0;
    let mut i: usize = 0;
    while i < remaining.len()
        invariant
            i <= remaining@.len(),
            total(remaining@, remaining@.len()) <= usize::MAX,
            sum == total(remaining@, i as nat),
        decreases remaining@.len() - i,
    {
        proof {
            lemma_total_part(remaining@, (i + 1) as nat, remaining@.len());
        }
        sum = sum + remaining[i];
        i += 1;
    }
    sum
}


/// A region and the variants of the shapes that are to lie in it.
pub struct Solver<'a> {
    pub region: &'a Region,
    pub transforms: &'a Transformer,
}

impl<'a> Solver<'a> {
    /// The variants hold the cells of their grids, there is a quantity for each
    /// shape, and sizes can be added.
    pub open spec fn wf(&self) -> bool {
        &&& self.transforms.wf()
        &&& self.region.shape_quantities@.len() == self.transforms.variants@.len()
        &&& self.region.width * self.region.height <= usize::MAX
        &&& forall|s: int, v: int|
            0 <= s < self.transforms.variants@.len() && 0 <= v < self.transforms.variants@[s]@.len()
                ==> (#[trigger] self.transforms.variants@[s]@[v]).grid.width + self.region.width
                <= usize::MAX && self.transforms.variants@[s]@[v].grid.height + self.region.height
                <= usize::MAX
    }

    /// The variants of the shapes, as plain values.
    pub open spec fn shapes(&self) -> Seq<Seq<VariantView>> {
        shape_views(self.transforms.variants@)
    }

    /// The first blank cell of the grid, as its column and its row.
    pub fn first_empty_cell(&self, grid: &Grid) -> (out: Option<(usize, usize)>)
        requires
            grid@.wf(),
        ensures
            match out {
                Some(cell) => first_blank(grid.data@, grid.data@.len()) == Some(
                    grid.width * cell.1 + cell.0,
                ) && cell.0 < grid.width && cell.1 < grid.height && cell.0 == (grid.width * cell.1
                    + cell.0) % (grid.width as int) && cell.1 == (grid.width * cell.1 + cell.0) / (
                grid.width as int),
                None => first_blank(grid.data@, grid.data@.len()) is None,
            },
    {
        let mut idx: usize = 0;
        while idx < grid.data.len()
            invariant
                idx <= grid.data@.len(),
                grid@.wf(),
                first_blank(grid.data@, idx as nat) is None,
            decreases grid.data@.len() - idx,
        {
            if grid.data[idx] == ' ' {
                proof {
                    lemma_index_cell(grid.width as nat, grid.height as nat, idx as int);
                    lemma_blank_found(grid.data@, (idx + 1) as nat, grid.data@.len());
                }
                return Some((idx % grid.width, idx / grid.width));
            }
            idx += 1;
        }
        None
    }

    /// Whether the cells of the variant, moved to the corner `(x, y)`, are blank cells
    /// of the grid.
    pub fn can_place_at(&self, grid: &Grid, variant: &Variant, x: usize, y: usize) -> (out: bool)
        requires
            grid@.wf(),
            cells_within(variant.filled@, variant.grid.width as nat, variant.grid.height as nat),
            x + variant.grid.width <= usize::MAX,
            y + variant.grid.height <= usize::MAX,
        ensures
            out == free(grid@, variant.filled@, x as int, y as int),
    {
        let mut k: usize = 0;
        while k < variant.filled.len()
            invariant
                k <= variant.filled@.len(),
                grid@.wf(),
                cells_within(variant.filled@, variant.grid.width as nat, variant.grid.height as nat),
                x + variant.grid.width <= usize::MAX,
                y + variant.grid.height <= usize::MAX,
                forall|j: int|
                    0 <= j < k ==> grid@.mark(x + (#[trigger] variant.filled@[j]).0, y
                        + variant.filled@[j].1) == Some(' '),
            decreases variant.filled@.len() - k,
        {
            let (dx, dy) = variant.filled[k];
            let gx = x + dx;
            let gy = y + dy;
            match grid.get(gx, gy) {
                Some(c) => {
                    if c != ' ' {
                        return false;
                    }
                },
                None => {
                    return false;
                },
            }
            k += 1;
        }
        true
    }

    /// Puts the mark `c` on the cells of the variant, moved to the corner `(x, y)`.
    pub fn place_at(&self, grid: &mut Grid, variant: &Variant, x: usize, y: usize, c: char)
        requires
            old(grid)@.wf(),
            cells_within(variant.filled@, variant.grid.width as nat, variant.grid.height as nat),
            x + variant.grid.width <= usize::MAX,
            y + variant.grid.height <= usize::MAX,
        ensures
            final(grid)@ == stamped(
                old(grid)@,
                variant.filled@,
                x as int,
                y as int,
                c,
                variant.filled@.len(),
            ),
            final(grid)@.wf(),
    {
        let mut k: usize = 0;
        while k < variant.filled.len()
            invariant
                k <= variant.filled@.len(),
                grid@.wf(),
                cells_within(variant.filled@, variant.grid.width as nat, variant.grid.height as nat),
                x + variant.grid.width <= usize::MAX,
                y + variant.grid.height <= usize::MAX,
                grid@ == stamped(old(grid)@, variant.filled@, x as int, y as int, c, k as nat),
            decreases variant.filled@.len() - k,
        {
            let (dx, dy) = variant.filled[k];
            grid.set(x + dx, y + dy, c);
            k += 1;
        }
    }

    /// Whether the presents that remain fit into the blank cells of the grid with at
    /// most `remaining_empty` cells left empty. Where they do not fit, the grid and
    /// the numbers of presents are left as they were.
    pub fn can_fit_grid(
        &self,
        grid: &mut Grid,
        remaining: &mut Vec<usize>,
        remaining_empty: usize,
        depth: usize,
    ) -> (out: bool)
        requires
            self.wf(),
            old(grid)@.wf(),
            old(grid).width == self.region.width,
            old(grid).height == self.region.height,
            old(remaining)@.len() == self.transforms.variants@.len(),
            total(old(remaining)@, old(remaining)@.len()) <= usize::MAX,
            depth + room(old(grid)@) <= usize::MAX,
        ensures
            out == fits(
                self.shapes(),
                self.region.width as nat,
                self.region.height as nat,
                old(grid)@,
                old(remaining)@,
                remaining_empty as nat,
            ),
            !out ==> final(grid)@ == old(grid)@ && final(remaining)@ == old(remaining)@,
        decreases room(old(grid)@),
    {
        let ghost shapes = self.shapes();
        let ghost rw = self.region.width as nat;
        let ghost rh = self.region.height as nat;
        let ghost g0 = grid@;
        let ghost r0 = remaining@;
        let ghost budget = remaining_empty as nat;
        let total_remaining = sum_quantities(remaining);
        if total_remaining == 0 {
            return true;
        }
        let (anchor_x, anchor_y) = match self.first_empty_cell(grid) {
            Some(cell) => cell,
            None => {
                return false;
            },
        };
        let ghost a: int = grid.width * anchor_y + anchor_x;
        proof {
            lemma_first_blank(g0.data, g0.data.len());
        }
        let count = remaining.len();
        let mut shape_id: usize = 0;
        while shape_id < count
            invariant
                shape_id <= count,
                count == r0.len(),
                self.wf(),
                shapes == self.shapes(),
                rw == self.region.width,
                rh == self.region.height,
                budget == remaining_empty,
                grid@ == g0,
                remaining@ == r0,
                g0 == old(grid)@,
                r0 == old(remaining)@,
                total(r0, r0.len()) > 0,
                g0.wf(),
                g0.width == rw,
                g0.height == rh,
                r0.len() == self.transforms.variants@.len(),
                total(r0, r0.len()) <= usize::MAX,
                depth + room(g0) <= usize::MAX,
                first_blank(g0.data, g0.data.len()) == Some(a),
                0 <= a < g0.data.len(),
                g0.data[a] == ' ',
                anchor_x == a % (g0.width as int),
                anchor_y == a / (g0.width as int),
                anchor_x < g0.width,
                anchor_y < g0.height,
                a == g0.width * anchor_y + anchor_x,
                forall|s: int, v: int, f: int|
                    0 <= s < shape_id && #[trigger] choice(s, v, f) ==> !attempt(
                        shapes,
                        rw,
                        rh,
                        g0,
                        r0,
                        budget,
                        a,
                        s,
                        v,
                        f,
                    ),
            decreases count - shape_id,
        {
            if remaining[shape_id] != 0 {
                let variants = self.transforms.variants(shape_id);
                let mut v: usize = 0;
                while v < variants.len()
                    invariant
                        v <= variants@.len(),
                        shape_id < count,
                        count == r0.len(),
                        *variants == self.transforms.variants@[shape_id as int],
                        r0[shape_id as int] != 0,
                        self.wf(),
                        shapes == self.shapes(),
                        rw == self.region.width,
                        rh == self.region.height,
                        budget == remaining_empty,
                        grid@ == g0,
                        remaining@ == r0,
                        g0 == old(grid)@,
                        r0 == old(remaining)@,
                        total(r0, r0.len()) > 0,
                        g0.wf(),
                        g0.width == rw,
                        g0.height == rh,
                        r0.len() == self.transforms.variants@.len(),
                        total(r0, r0.len()) <= usize::MAX,
                        depth + room(g0) <= usize::MAX,
                        first_blank(g0.data, g0.data.len()) == Some(a),
                        0 <= a < g0.data.len(),
                        g0.data[a] == ' ',
                        anchor_x == a % (g0.width as int),
                        anchor_y == a / (g0.width as int),
                        anchor_x < g0.width,
                        anchor_y < g0.height,
                        a == g0.width * anchor_y + anchor_x,
                        forall|q: int, f: int|
                            0 <= q < v && #[trigger] choice(shape_id as int, q, f) ==> !attempt(
                                shapes,
                                rw,
                                rh,
                                g0,
                                r0,
                                budget,
                                a,
                                shape_id as int,
                                q,
                                f,
                            ),
                    decreases variants@.len() - v,
                {
                    let variant = &variants[v];
                    let ghost cells = variant.filled@;
                    proof {
                        assert(shapes[shape_id as int][v as int] == variant@);
                        assert(self.transforms.variants@[shape_id as int]@[v as int] == *variant);
                    }
                    let mut f: usize = 0;
                    while f < variant.filled.len()
                        invariant
                            f <= variant.filled@.len(),
                            v < variants@.len(),
                            shape_id < count,
                            count == r0.len(),
                            *variants == self.transforms.variants@[shape_id as int],
                            *variant == variants@[v as int],
                            cells == variant.filled@,
                            shapes[shape_id as int][v as int] == variant@,
                            variant@.grid.wf(),
                            cells_within(
                                variant.filled@,
                                variant.grid.width as nat,
                                variant.grid.height as nat,
                            ),
                            variant.grid.width + self.region.width <= usize::MAX,
                            variant.grid.height + self.region.height <= usize::MAX,
                            r0[shape_id as int] != 0,
                            self.wf(),
                            shapes == self.shapes(),
                            rw == self.region.width,
                            rh == self.region.height,
                            budget == remaining_empty,
                            grid@ == g0,
                            remaining@ == r0,
                            g0 == old(grid)@,
                            r0 == old(remaining)@,
                            total(r0, r0.len()) > 0,
                            g0.wf(),
                            g0.width == rw,
                            g0.height == rh,
                            r0.len() == self.transforms.variants@.len(),
                            total(r0, r0.len()) <= usize::MAX,
                            depth + room(g0) <= usize::MAX,
                            first_blank(g0.data, g0.data.len()) == Some(a),
                            0 <= a < g0.data.len(),
                            g0.data[a] == ' ',
                            anchor_x == a % (g0.width as int),
                            anchor_y == a / (g0.width as int),
                            anchor_x < g0.width,
                            anchor_y < g0.height,
                            a == g0.width * anchor_y + anchor_x,
                            forall|q: int|
                                0 <= q < f && #[trigger] choice(shape_id as int, v as int, q)
                                    ==> !attempt(
                                    shapes,
                                    rw,
                                    rh,
                                    g0,
                                    r0,
                                    budget,
                                    a,
                                    shape_id as int,
                                    v as int,
                                    q,
                                ),
                        decreases variant.filled@.len() - f,
                    {
                        let (dx, dy) = variant.filled[f];
                        if !(anchor_x < dx || anchor_y < dy) {
                            let x = anchor_x - dx;
                            let y = anchor_y - dy;
                            if !(x + variant.grid.width > self.region.width || y + variant.grid.height
                                > self.region.height) {
                                if self.can_place_at(grid, variant, x, y) {
                                    proof {
                                        lemma_lay(g0, cells, x as int, y as int, f as int);
                                        lemma_total_update(
                                            r0,
                                            r0.len(),
                                            shape_id as int,
                                            (r0[shape_id as int] - 1) as usize,
                                        );
                                        lemma_stamped(g0, cells, x as int, y as int, '#', cells.len());
                                    }
                                    self.place_at(grid, variant, x, y, '#');
                                    let before = remaining[shape_id];
                                    remaining[shape_id] = before - 1;
                                    if self.can_fit_grid(grid, remaining, remaining_empty, depth + 1) {
                                        proof {
                                            assert(attempt(
                                                shapes,
                                                rw,
                                                rh,
                                                g0,
                                                r0,
                                                budget,
                                                a,
                                                shape_id as int,
                                                v as int,
                                                f as int,
                                            ));
                                            assert(choice(shape_id as int, v as int, f as int));
                                            assert(covered(shapes, rw, rh, g0, r0, budget, a));
                                        }
                                        return true;
                                    }
                                    remaining[shape_id] = before;
                                    self.place_at(grid, variant, x, y, ' ');
                                    proof {
                                        assert(remaining@ =~= r0);
                                    }
                                }
                            }
                        }
                        f += 1;
                    }
                    proof {
                        assert forall|q: int| #[trigger]
                            choice(shape_id as int, v as int, q) implies !attempt(
                            shapes,
                            rw,
                            rh,
                            g0,
                            r0,
                            budget,
                            a,
                            shape_id as int,
                            v as int,
                            q,
                        ) by {
                            if !(0 <= q < variant.filled@.len()) {
                                assert(placing(shapes, rw, rh, g0, a, shape_id as int, v as int, q)
                                    is None);
                            }
                        }
                    }
                    v += 1;
                }
                proof {
                    assert forall|q: int, f: int| #[trigger]
                        choice(shape_id as int, q, f) implies !attempt(
                        shapes,
                        rw,
                        rh,
                        g0,
                        r0,
                        budget,
                        a,
                        shape_id as int,
                        q,
                        f,
                    ) by {
                        if !(0 <= q < variants@.len()) {
                            assert(shapes[shape_id as int].len() == variants@.len());
                            assert(placing(shapes, rw, rh, g0, a, shape_id as int, q, f) is None);
                        }
                    }
                }
            } else {
                proof {
                    assert forall|q: int, f: int| #[trigger]
                        choice(shape_id as int, q, f) implies !attempt(
                        shapes,
                        rw,
                        rh,
                        g0,
                        r0,
                        budget,
                        a,
                        shape_id as int,
                        q,
                        f,
                    ) by {}
                }
            }
            shape_id += 1;
        }
        proof {
            assert forall|s: int, v: int, f: int| #[trigger] choice(s, v, f) implies !attempt(
                shapes,
                rw,
                rh,
                g0,
                r0,
                budget,
                a,
                s,
                v,
                f,
            ) by {}
        }
        if remaining_empty > 0 {
            proof {
                lemma_mark_empty(g0, a);
            }
            grid.set(anchor_x, anchor_y, '.');
            if self.can_fit_grid(grid, remaining, remaining_empty - 1, depth + 1) {
                return true;
            }
            grid.set(anchor_x, anchor_y, ' ');
        }
        proof {
            assert(!covered(shapes, rw, rh, g0, r0, budget, a));
        }
        false
    }

    /// Whether the presents of the region fit into it.
    pub fn can_fit(&self) -> (out: bool)
        requires
            self.wf(),
            total(self.region.shape_quantities@, self.region.shape_quantities@.len()) <= usize::MAX,
            filled_total(
                self.region.shape_quantities@,
                self.transforms.filled_counts@,
                self.region.shape_quantities@.len(),
            ) <= usize::MAX,
        ensures
            out == (filled_total(
                self.region.shape_quantities@,
                self.transforms.filled_counts@,
                self.region.shape_quantities@.len(),
            ) <= self.region.width * self.region.height && fits(
                self.shapes(),
                self.region.width as nat,
                self.region.height as nat,
                GridView {
                    data: Seq::new(
                        (self.region.width * self.region.height) as nat,
                        |k: int| ' ',
                    ),
                    width: self.region.width as nat,
                    height: self.region.height as nat,
                },
                self.region.shape_quantities@,
                (self.region.width * self.region.height - filled_total(
                    self.region.shape_quantities@,
                    self.transforms.filled_counts@,
                    self.region.shape_quantities@.len(),
                )) as nat,
            )),
    {
        let mut grid = Grid::new(self.region.width, self.region.height);
        let mut remaining = self.region.shape_quantities.clone();
        let area = self.region.width * self.region.height;
        let quantities = &self.region.shape_quantities;
        let mut total_filled: usize = 0;
        let mut shape_id: usize = 0;
        while shape_id < quantities.len()
            invariant
                shape_id <= quantities@.len(),
                self.wf(),
                *quantities == self.region.shape_quantities,
                total_filled == filled_total(
                    quantities@,
                    self.transforms.filled_counts@,
                    shape_id as nat,
                ),
                filled_total(quantities@, self.transforms.filled_counts@, quantities@.len())
                    <= usize::MAX,
            decreases quantities@.len() - shape_id,
        {
            proof {
                lemma_filled_part(
                    quantities@,
                    self.transforms.filled_counts@,
                    (shape_id + 1) as nat,
                    quantities@.len(),
                );
                assert(quantities@[shape_id as int] * self.transforms.filled_counts@[shape_id as int]
                    >= 0) by (nonlinear_arith);
            }
            total_filled = total_filled + quantities[shape_id] * self.transforms.filled_count(
                shape_id,
            );
            shape_id += 1;
        }
        if total_filled > area {
            return false;
        }
        let empty_budget = area - total_filled;
        proof {
            assert(grid@.data =~= Seq::new(
                (self.region.width * self.region.height) as nat,
                |k: int| ' ',
            ));
            lemma_blanks_bound(grid@.data, grid@.data.len());
            assert(remaining@ == self.region.shape_quantities@);
        }
        self.can_fit_grid(&mut grid, &mut remaining, empty_budget, 0)
    }
}

/// The number of cells that the presents of the first `n` shapes fill.
pub open spec fn filled_total(quantities: Seq<usize>, counts: Seq<usize>, n: nat) -> nat
    decreases n,
{
    if n == 0 {
        0
    } else {
        filled_total(quantities, counts, (n - 1) as nat) + (quantities[n - 1] * counts[n - 1]) as nat
    }
}

/// The presents of the first shapes fill no more cells than all.
pub proof fn lemma_filled_part(quantities: Seq<usize>, counts: Seq<usize>, n: nat, m: nat)
    requires
        n <= m,
    ensures
        filled_total(quantities, counts, n) <= filled_total(quantities, counts, m),
    decreases m - n,
{
    if n < m {
        lemma_filled_part(quantities, counts, n, (m - 1) as nat);
    }
}

/// No more cells are blank than there are.
pub proof fn lemma_blanks_bound(data: Seq<char>, n: nat)
    ensures
        blanks(data, n) <= n,
    decreases n,
{
    if n > 0 {
        lemma_blanks_bound(data, (n - 1) as nat);
    }
}

/// The first blank cell among some cells is the first blank cell among more.
pub proof fn lemma_blank_found(data: Seq<char>, n: nat, m: nat)
    requires
        n <= m,
        first_blank(data, n) is Some,
    ensures
        first_blank(data, m) == first_blank(data, n),
    decreases m - n,
{
    if n < m {
        lemma_blank_found(data, n, (m - 1) as nat);
    }
}

/// What a region holds, as plain values.
pub struct RegionView {
    pub width: nat,
    pub height: nat,
    pub shape_quantities: Seq<usize>,
}

impl View for Region {
    type V = RegionView;

    /// The value as plain values.
    open spec fn view(&self) -> RegionView {
        RegionView {
            width: self.width as nat,
            height: self.height as nat,
            shape_quantities: self.shape_quantities@,
        }
    }
}

/// The shapes and the regions of a puzzle.
pub struct Input {
    pub shapes: Vec<Grid>,
    pub regions: Vec<Region>,
}

/// The larger of two numbers.
pub open spec fn larger(a: nat, b: nat) -> nat {
    if a >= b {
        a
    } else {
        b
    }
}

/// The presents of the region fit into it: they fill no more cells than the region
/// has, and they can be laid.
pub open spec fn region_fits(shapes: Seq<Seq<VariantView>>, counts: Seq<usize>, r: RegionView) -> bool {
    let filled = filled_total(r.shape_quantities, counts, r.shape_quantities.len());
    filled <= r.width * r.height && fits(
        shapes,
        r.width,
        r.height,
        GridView { data: Seq::new((r.width * r.height) as nat, |k: int| ' '), width: r.width, height: r.height },
        r.shape_quantities,
        (r.width * r.height - filled) as nat,
    )
}

/// The number of the first `n` regions whose presents fit.
pub open spec fn fitting(shapes: Seq<Seq<VariantView>>, counts: Seq<usize>, regions: Seq<RegionView>, n: nat) -> nat
    decreases n,
{
    if n == 0 {
        0
    } else {
        fitting(shapes, counts, regions, (n - 1) as nat) + if region_fits(
            shapes,
            counts,
            regions[n - 1],
        ) {
            1nat
        } else {
            0nat
        }
    }
}

/// The views of the regions.
pub open spec fn region_views(regions: Seq<Region>) -> Seq<RegionView> {
    Seq::new(regions.len(), |i: int| regions[i]@)
}

/// The variants of a shape are as wide and as high as the shape, or as high and as
/// wide.
pub proof fn lemma_turns_size(shape: GridView, n: nat)
    ensures
        forall|v: int|
            0 <= v < turns(shape, n).len() ==> (#[trigger] turns(shape, n)[v]).grid.width <= larger(
                shape.width,
                shape.height,
            ) && turns(shape, n)[v].grid.height <= larger(shape.width, shape.height),
    decreases n,
{
    if n > 0 {
        lemma_turns_size(shape, (n - 1) as nat);
        let before = turns(shape, (n - 1) as nat);
        assert forall|v: int| 0 <= v < turns(shape, n).len() implies (#[trigger] turns(
            shape,
            n,
        )[v]).grid.width <= larger(shape.width, shape.height) && turns(shape, n)[v].grid.height
            <= larger(shape.width, shape.height) by {
            if v < before.len() {
                assert(turns(shape, n)[v] == before[v]);
            }
        }
    }
}

/// The variants of each shape.
pub open spec fn shape_turns(shapes: Seq<Grid>) -> Seq<Seq<VariantView>> {
    Seq::new(shapes.len(), |s: int| turns(shapes[s]@, 8))
}

/// For each shape, the number of its cells that are not blank.
pub open spec fn shape_counts(shapes: Seq<Grid>) -> Seq<usize> {
    Seq::new(shapes.len(), |s: int| shapes[s]@.filled(shapes[s].data@.len()).len() as usize)
}

impl Input {
    /// The shapes hold their cells, each region has a quantity for each shape, and
    /// the sizes and the numbers of cells can be added.
    pub open spec fn wf(&self) -> bool {
        &&& self.regions@.len() <= u32::MAX
        &&& forall|s: int| 0 <= s < self.shapes@.len() ==> (#[trigger] self.shapes@[s])@.wf()
        &&& forall|r: int|
            0 <= r < self.regions@.len() ==> {
                let region = #[trigger] self.regions@[r];
                &&& region.shape_quantities@.len() == self.shapes@.len()
                &&& region.width * region.height <= usize::MAX
                &&& total(region.shape_quantities@, region.shape_quantities@.len()) <= usize::MAX
                &&& filled_total(
                    region.shape_quantities@,
                    shape_counts(self.shapes@),
                    region.shape_quantities@.len(),
                ) <= usize::MAX
                &&& forall|s: int|
                    0 <= s < self.shapes@.len() ==> larger(
                        (#[trigger] self.shapes@[s]).width as nat,
                        self.shapes@[s].height as nat,
                    ) + larger(region.width as nat, region.height as nat) <= usize::MAX
            }
    }

    /// The number of regions whose presents fit into them.
    pub fn count(&self) -> (out: u32)
        requires
            self.wf(),
        ensures
            out == fitting(
                shape_turns(self.shapes@),
                shape_counts(self.shapes@),
                region_views(self.regions@),
                self.regions@.len(),
            ),
    {
        let mut count: u32 = 0;
        let transformer = Transformer::new(&self.shapes);
        let ghost shapes = shape_views(transformer.variants@);
        let ghost counts = transformer.filled_counts@;
        let ghost regions = region_views(self.regions@);
        proof {
            assert(shapes =~= shape_turns(self.shapes@));
            assert forall|s: int| 0 <= s < counts.len() implies counts[s] == shape_counts(
                self.shapes@,
            )[s] by {
                lemma_filled_len(self.shapes@[s]@, self.shapes@[s].data@.len());
            }
            assert(counts =~= shape_counts(self.shapes@));
        }
        let mut r: usize = 0;
        while r < self.regions.len()
            invariant
                r <= self.regions@.len(),
                self.wf(),
                transformer.wf(),
                transformer.variants@.len() == self.shapes@.len(),
                forall|s: int|
                    0 <= s < self.shapes@.len() ==> variant_views(
                        #[trigger] transformer.variants@[s]@,
                    ) == turns(self.shapes@[s]@, 8),
                shapes == shape_views(transformer.variants@),
                shapes == shape_turns(self.shapes@),
                counts == transformer.filled_counts@,
                counts == shape_counts(self.shapes@),
                regions == region_views(self.regions@),
                count == fitting(shapes, counts, regions, r as nat),
                count <= r,
            decreases self.regions@.len() - r,
        {
            let region = &self.regions[r];
            let solver = Solver { region, transforms: &transformer };
            proof {
                assert(regions[r as int] == region@);
                assert forall|s: int, v: int|
                    0 <= s < transformer.variants@.len() && 0 <= v < transformer.variants@[s]@.len()
                        implies (#[trigger] transformer.variants@[s]@[v]).grid.width + region.width
                    <= usize::MAX && transformer.variants@[s]@[v].grid.height + region.height
                    <= usize::MAX by {
                    lemma_turns_size(self.shapes@[s]@, 8);
                    assert(variant_views(transformer.variants@[s]@)[v] == turns(
                        self.shapes@[s]@,
                        8,
                    )[v]);
                    assert(larger(self.shapes@[s].width as nat, self.shapes@[s].height as nat)
                        + larger(region.width as nat, region.height as nat) <= usize::MAX);
                }
            }
            if solver.can_fit() {
                count += 1;
            }
            r += 1;
        }
        count
    }
}

/// No more cells are filled than there are.
pub proof fn lemma_filled_len(g: GridView, n: nat)
    ensures
        g.filled(n).len() <= n,
    decreases n,
{
    if n > 0 {
        lemma_filled_len(g, (n - 1) as nat);
    }
}

} // verus!
