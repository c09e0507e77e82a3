use vstd::prelude::*;

verus! {

/// A place on a shelf: a column and a row.
pub struct Position {
    pub x: usize,
    pub y: usize,
}

impl Position {
    /// The place `dx` columns and `dy` rows further, if neither its column nor its
    /// row is negative.
    pub fn offset(&self, dx: isize, dy: isize) -> (out: Option<Self>)
        requires
            self.x <= isize::MAX,
            self.y <= isize::MAX,
            self.x + dx <= isize::MAX,
            self.y + dy <= isize::MAX,
        ensures
            match out {
                Some(p) => p.x == self.x + dx && p.y == self.y + dy,
                None => self.x + dx < 0 || self.y + dy < 0,
            },
    {
        let x = self.x as isize + dx;
        let y = self.y as isize + dy;
        if x < 0 || y < 0 {
            None
        } else {
            Some(Position { x: x as usize, y: y as usize })
        }
    }
}

/// A shelf of rolls: `width` columns and `height` rows of marks, stored row by row.
pub struct Shelf {
    pub data: Vec<char>,
    pub width: usize,
    pub height: usize,
}

/// The mark of a place that holds a roll.
pub open spec fn roll() -> char {
    '@'
}

impl Shelf {
    /// The mark at column `x` of row `y`, if `x` is a column of the shelf and the
    /// shelf holds a mark at that place.
    pub open spec fn mark_at(&self, x: int, y: int) -> Option<char> {
        if 0 <= x < self.width && 0 <= y && y * self.width + x < self.data@.len() {
            Some(self.data@[y * self.width + x])
        } else {
            None
        }
    }

    /// One if the place holds a roll, zero otherwise.
    pub open spec fn roll_at(&self, x: int, y: int) -> nat {
        if self.mark_at(x, y) == Some(roll()) {
            1
        } else {
            0
        }
    }

    /// The number of rolls on the eight places around a place.
    pub open spec fn neighbours(&self, x: int, y: int) -> nat {
        self.roll_at(x - 1, y - 1) + self.roll_at(x - 1, y) + self.roll_at(x - 1, y + 1)
            + self.roll_at(x, y - 1) + self.roll_at(x, y + 1) + self.roll_at(x + 1, y - 1)
            + self.roll_at(x + 1, y) + self.roll_at(x + 1, y + 1)
    }

    /// The mark at a place, if its column is one of the shelf and the shelf holds a
    /// mark there.
    pub fn get(&self, p: &Position) -> (out: Option<&char>)
        requires
            p.y * self.width + p.x <= usize::MAX,
        ensures
            match out {
                Some(c) => self.mark_at(p.x as int, p.y as int) == Some(*c),
                None => self.mark_at(p.x as int, p.y as int) is None,
            },
    {
        if p.x >= self.width {
            return None;
        }
        let at = p.y * self.width + p.x;
        if at < self.data.len() {
            Some(&self.data[at])
        } else {
            None
        }
    }

    /// Puts a mark at a place, if its column is one of the shelf and the shelf holds
    /// a mark there.
    pub fn set(&mut self, p: &Position, c: char)
        requires
            p.y * old(self).width + p.x <= usize::MAX,
        ensures
            final(self).width == old(self).width,
            final(self).height == old(self).height,
            final(self).data@ == if old(self).mark_at(p.x as int, p.y as int) is Some {
                old(self).data@.update(p.y * old(self).width + p.x, c)
            } else {
                old(self).data@
            },
    {
        if p.x >= self.width {
            return;
        }
        let at = p.y * self.width + p.x;
        if at < self.data.len() {
            self.data[at] = c;
        }
    }

    /// Whether the roll at a place can be taken: fewer than four of the eight places
    /// around it hold a roll.
    pub fn can_remove(&self, p: &Position) -> (out: bool)
        requires
            p.x < isize::MAX,
            p.y < isize::MAX,
            (p.y + 1) * self.width + p.x + 1 <= usize::MAX,
        ensures
            out == (self.neighbours(p.x as int, p.y as int) < 4),
    {
        let mut sum: usize = 0;
        let mut dx: isize = -1;
        while dx <= 1
            invariant
                -1 <= dx <= 2,
                p.x < isize::MAX,
                p.y < isize::MAX,
                (p.y + 1) * self.width + p.x + 1 <= usize::MAX,
                sum < 4,
                sum == self.column_sum(p.x as int, p.y as int, dx as int),
            decreases 2 - dx,
        {
            let mut dy: isize = -1;
            while dy <= 1
                invariant
                    -1 <= dx <= 1,
                    -1 <= dy <= 2,
                    p.x < isize::MAX,
                    p.y < isize::MAX,
                    (p.y + 1) * self.width + p.x + 1 <= usize::MAX,
                    sum < 4,
                    sum == self.column_sum(p.x as int, p.y as int, dx as int) + self.row_sum(
                        p.x as int,
                        p.y as int,
                        dx as int,
                        dy as int,
                    ),
                decreases 2 - dy,
            {
                if !(dx == 0 && dy == 0) {
                    match p.offset(dx, dy) {
                        Some(neighbour) => {
                            proof {
                                assert(neighbour.y * self.width <= (p.y + 1) * self.width)
                                    by (nonlinear_arith)
                                    requires
                                        neighbour.y <= p.y + 1,
                                ;
                            }
                            match self.get(&neighbour) {
                                Some(c) => {
                                    if *c == '@' {
                                        sum += 1;
                                        if sum == 4 {
                                            proof {
                                                self.lemma_sums(p.x as int, p.y as int, dx as int, dy as int);
                                            }
                                            return false;
                                        }
                                    }
                                },
                                None => {},
                            }
                        },
                        None => {},
                    }
                }
                dy += 1;
            }
            dx += 1;
        }
        true
    }

    /// The rolls around `(x, y)` in the columns before column `x + dx`.
    pub open spec fn column_sum(&self, x: int, y: int, dx: int) -> nat {
        (if dx > -1 {
            self.roll_at(x - 1, y - 1) + self.roll_at(x - 1, y) + self.roll_at(x - 1, y + 1)
        } else {
            0
        }) + (if dx > 0 {
            self.roll_at(x, y - 1) + self.roll_at(x, y + 1)
        } else {
            0
        }) + (if dx > 1 {
            self.roll_at(x + 1, y - 1) + self.roll_at(x + 1, y) + self.roll_at(x + 1, y + 1)
        } else {
            0
        })
    }

    /// The rolls around `(x, y)` in column `x + dx` in the rows before row `y + dy`.
    pub open spec fn row_sum(&self, x: int, y: int, dx: int, dy: int) -> nat {
        (if dy > -1 {
            self.roll_at(x + dx, y - 1)
        } else {
            0
        }) + (if dy > 0 && dx != 0 {
            self.roll_at(x + dx, y)
        } else {
            0
        }) + (if dy > 1 {
            self.roll_at(x + dx, y + 1)
        } else {
            0
        })
    }

    /// The rolls counted so far are among the rolls around the place.
    proof fn lemma_sums(&self, x: int, y: int, dx: int, dy: int)
        requires
            -1 <= dx <= 1,
            -1 <= dy <= 1,
        ensures
            self.column_sum(x, y, dx) + self.row_sum(x, y, dx, dy + 1) <= self.neighbours(x, y),
    {
    }
}


/// The marks with the mark at a place, if its column is one of the shelf and the
/// shelf holds a mark there.
pub open spec fn mark_in(data: Seq<char>, width: int, x: int, y: int) -> Option<char> {
    if 0 <= x < width && 0 <= y && y * width + x < data.len() {
        Some(data[y * width + x])
    } else {
        None
    }
}

/// One if the place holds a roll, zero otherwise.
pub open spec fn roll_in(data: Seq<char>, width: int, x: int, y: int) -> nat {
    if mark_in(data, width, x, y) == Some(roll()) {
        1
    } else {
        0
    }
}

/// The number of rolls on the eight places around a place.
pub open spec fn around(data: Seq<char>, width: int, x: int, y: int) -> nat {
    roll_in(data, width, x - 1, y - 1) + roll_in(data, width, x - 1, y) + roll_in(
        data,
        width,
        x - 1,
        y + 1,
    ) + roll_in(data, width, x, y - 1) + roll_in(data, width, x, y + 1) + roll_in(
        data,
        width,
        x + 1,
        y - 1,
    ) + roll_in(data, width, x + 1, y) + roll_in(data, width, x + 1, y + 1)
}

/// The place `k` in the order of the rows holds a roll that can be taken: fewer than
/// four of the places around it hold a roll.
pub open spec fn free_at(data: Seq<char>, width: int, k: int) -> bool {
    width > 0 && 0 <= k < data.len() && data[k] == roll() && around(data, width, k % width, k / width)
        < 4
}

/// The number of rolls that can be taken among the first `k` places.
pub open spec fn free_before(data: Seq<char>, width: int, k: nat) -> nat
    decreases k,
{
    if k == 0 {
        0
    } else {
        free_before(data, width, (k - 1) as nat) + if free_at(data, width, k - 1) {
            1nat
        } else {
            0nat
        }
    }
}

/// The marks after the rolls that can be taken among the first `k` places have been
/// taken.
pub open spec fn swept(data: Seq<char>, width: int, k: int) -> Seq<char> {
    Seq::new(
        data.len(),
        |i: int|
            if i < k && free_at(data, width, i) {
                '.'
            } else {
                data[i]
            },
    )
}

/// The number of rolls among the first `k` places.
pub open spec fn rolls(data: Seq<char>, k: nat) -> nat
    decreases k,
{
    if k == 0 {
        0
    } else {
        rolls(data, (k - 1) as nat) + if data[k - 1] == roll() {
            1nat
        } else {
            0nat
        }
    }
}

/// Taking the rolls that can be taken leaves as many rolls fewer.
pub proof fn lemma_swept_rolls(data: Seq<char>, width: int, k: nat)
    requires
        k <= data.len(),
    ensures
        rolls(swept(data, width, data.len() as int), k) + free_before(data, width, k) == rolls(
            data,
            k,
        ),
    decreases k,
{
    if k > 0 {
        lemma_swept_rolls(data, width, (k - 1) as nat);
    }
}

/// The number of rolls that are taken in all, round by round, until no roll can be
/// taken: in each round all rolls that can be taken are taken at once.
pub open spec fn taken_in_all(data: Seq<char>, width: int) -> nat
    decreases rolls(data, data.len()),
{
    let count = free_before(data, width, data.len());
    if count == 0 {
        0
    } else {
        proof {
            lemma_swept_rolls(data, width, data.len());
        }
        count + taken_in_all(swept(data, width, data.len() as int), width)
    }
}

impl Shelf {
    /// The shelf holds a mark for each column of each row, and places next to it can
    /// be counted.
    pub open spec fn wf(&self) -> bool {
        &&& self.data@.len() == self.width * self.height
        &&& (self.height + 1) * self.width + self.width + 1 <= usize::MAX
        &&& self.width < isize::MAX
        &&& self.height < isize::MAX
    }

    /// Whether the place holds a roll that can be taken.
    pub fn is_accessible(&self, x: usize, y: usize) -> (out: bool)
        requires
            self.wf(),
            x < self.width,
            y < self.height,
        ensures
            out == free_at(self.data@, self.width as int, y * self.width + x),
            y * self.width + x < self.data@.len(),
    {
        let p = Position { x, y };
        let ghost w = self.width as int;
        let ghost k = y * self.width + x;
        proof {
            assert((y + 1) * self.width <= (self.height + 1) * self.width) by (nonlinear_arith)
                requires
                    y < self.height,
            ;
            assert(y * self.width <= (y + 1) * self.width) by (nonlinear_arith);
            assert(y * self.width + self.width <= self.width * self.height) by (nonlinear_arith)
                requires
                    y < self.height,
            ;
            vstd::arithmetic::div_mod::lemma_fundamental_div_mod_converse(k, w, y as int, x as int);
            assert(self.neighbours(x as int, y as int) == around(self.data@, w, x as int, y as int));
        }
        match self.get(&p) {
            Some(c) => *c == '@' && self.can_remove(&p),
            None => false,
        }
    }

    /// The number of rolls that can be taken.
    pub fn count_accessible(&self) -> (out: usize)
        requires
            self.wf(),
        ensures
            out == free_before(self.data@, self.width as int, self.data@.len()),
    {
        let size = self.data.len();
        let mut count: usize = 0;
        let mut y: usize = 0;
        while y < self.height
            invariant
                y <= self.height,
                self.wf(),
                size == self.data@.len(),
                y * self.width <= size,
                count == free_before(self.data@, self.width as int, (y * self.width) as nat),
                count <= y * self.width,
            decreases self.height - y,
        {
            let mut x: usize = 0;
            while x < self.width
                invariant
                    x <= self.width,
                    y < self.height,
                    self.wf(),
                    size == self.data@.len(),
                    y * self.width + x <= size,
                    count == free_before(
                        self.data@,
                        self.width as int,
                        (y * self.width + x) as nat,
                    ),
                    count <= y * self.width + x,
                decreases self.width - x,
            {
                proof {
                    assert(y * self.width + self.width <= self.width * self.height)
                        by (nonlinear_arith)
                        requires
                            y < self.height,
                    ;
                }
                if self.is_accessible(x, y) {
                    count += 1;
                }
                x += 1;
            }
            proof {
                assert((y + 1) * self.width == y * self.width + self.width) by (nonlinear_arith);
            }
            y += 1;
        }
        proof {
            assert(self.height * self.width == self.width * self.height) by (nonlinear_arith);
        }
        count
    }

    /// Takes all rolls that can be taken, all at once, and counts them.
    pub fn remove_accessible(&mut self) -> (out: usize)
        requires
            old(self).wf(),
        ensures
            final(self).wf(),
            final(self).width == old(self).width,
            final(self).height == old(self).height,
            out == free_before(old(self).data@, old(self).width as int, old(self).data@.len()),
            final(self).data@ == swept(
                old(self).data@,
                old(self).width as int,
                old(self).data@.len() as int,
            ),
    {
        let size = self.data.len();
        let mut other = self.data.clone();
        let mut count: usize = 0;
        let mut y: usize = 0;
        proof {
            assert(other@ =~= swept(self.data@, self.width as int, 0));
        }
        while y < self.height
            invariant
                y <= self.height,
                self.wf(),
                *self == *old(self),
                size == self.data@.len(),
                y * self.width <= size,
                count == free_before(self.data@, self.width as int, (y * self.width) as nat),
                count <= y * self.width,
                other@ == swept(self.data@, self.width as int, y * self.width),
            decreases self.height - y,
        {
            let mut x: usize = 0;
            while x < self.width
                invariant
                    x <= self.width,
                    y < self.height,
                    self.wf(),
                    *self == *old(self),
                    size == self.data@.len(),
                    y * self.width + x <= size,
                    count == free_before(
                        self.data@,
                        self.width as int,
                        (y * self.width + x) as nat,
                    ),
                    count <= y * self.width + x,
                    other@ == swept(self.data@, self.width as int, y * self.width + x),
                decreases self.width - x,
            {
                proof {
                    assert(y * self.width + self.width <= self.width * self.height)
                        by (nonlinear_arith)
                        requires
                            y < self.height,
                    ;
                }
                if self.is_accessible(x, y) {
                    other[y * self.width + x] = '.';
                    count += 1;
                }
                x += 1;
                proof {
                    assert(other@ =~= swept(self.data@, self.width as int, y * self.width + x));
                }
            }
            proof {
                assert((y + 1) * self.width == y * self.width + self.width) by (nonlinear_arith);
            }
            y += 1;
        }
        proof {
            assert(self.height * self.width == self.width * self.height) by (nonlinear_arith);
        }
        self.data = other;
        count
    }

    /// Takes rolls round by round until no roll can be taken, and counts them.
    pub fn remove_all(&mut self) -> (out: usize)
        requires
            old(self).wf(),
        ensures
            final(self).wf(),
            out == taken_in_all(old(self).data@, old(self).width as int),
            free_before(final(self).data@, final(self).width as int, final(self).data@.len()) == 0,
    {
        let size = self.data.len();
        let mut count: usize = 0;
        proof {
            lemma_rolls_bound(self.data@, self.data@.len());
        }
        loop
            invariant
                self.wf(),
                self.width == old(self).width,
                size == self.data@.len(),
                count + rolls(self.data@, self.data@.len()) <= size,
                count + taken_in_all(self.data@, self.width as int) == taken_in_all(
                    old(self).data@,
                    old(self).width as int,
                ),
            decreases rolls(self.data@, self.data@.len()),
        {
            let ghost before = self.data@;
            proof {
                lemma_swept_rolls(before, self.width as int, before.len());
            }
            let removed = self.remove_accessible();
            count += removed;
            if removed == 0 {
                proof {
                    assert(self.data@ =~= before) by {
                        assert forall|i: int| 0 <= i < before.len() implies !free_at(
                            before,
                            self.width as int,
                            i,
                        ) by {
                            lemma_free_none(before, self.width as int, before.len(), i);
                        }
                    }
                }
                return count;
            }
        }
    }
}

/// Where no roll can be taken among the first `k` places, none of them can be taken.
pub proof fn lemma_free_none(data: Seq<char>, width: int, k: nat, i: int)
    requires
        free_before(data, width, k) == 0,
        0 <= i < k,
    ensures
        !free_at(data, width, i),
    decreases k,
{
    if i < k - 1 {
        lemma_free_none(data, width, (k - 1) as nat, i);
    }
}

/// There are no more rolls than places.
pub proof fn lemma_rolls_bound(data: Seq<char>, k: nat)
    ensures
        rolls(data, k) <= k,
    decreases k,
{
    if k > 0 {
        lemma_rolls_bound(data, (k - 1) as nat);
    }
}

} // verus!
