//! A set of tiles of a grid, kept as one flag for each tile.
use crate::grids::FlagGrid;
use vstd::prelude::*;

verus! {

/// A set of tiles of a grid of a given shape.
pub struct TileSet {
    tiles: FlagGrid,
    height: usize,
    width: usize,
    len: usize,
}

/// How many of the first `k` flags of a row are set.
pub open spec fn row_count(row: Seq<bool>, k: int) -> int
    decreases k,
{
    if k <= 0 {
        0
    } else {
        row_count(row, k - 1) + if row[k - 1] {
            1int
        } else {
            0int
        }
    }
}

/// How many flags of the first `k` rows are set.
pub open spec fn rows_count(flags: Seq<Seq<bool>>, k: int) -> int
    decreases k,
{
    if k <= 0 {
        0
    } else {
        rows_count(flags, k - 1) + row_count(flags[k - 1], flags[k - 1].len() as int)
    }
}

/// How many flags are set.
pub open spec fn count(flags: Seq<Seq<bool>>) -> int {
    rows_count(flags, flags.len() as int)
}

/// Whether the tile is in the grid and its flag is set.
pub open spec fn holds(flags: Seq<Seq<bool>>, p: (int, int)) -> bool {
    0 <= p.0 < flags.len() && 0 <= p.1 < flags[p.0].len() && flags[p.0][p.1]
}

/// Whether `p` comes before `q`, row by row.
pub open spec fn before(p: (int, int), q: (int, int)) -> bool {
    p.0 < q.0 || (p.0 == q.0 && p.1 < q.1)
}

/// Whether `p` is the first tile of the set, row by row.
pub open spec fn is_first(flags: Seq<Seq<bool>>, p: (int, int)) -> bool {
    holds(flags, p) && forall|q: (int, int)| #[trigger] holds(flags, q) ==> !before(q, p)
}

/// The flags with that of one tile changed.
pub open spec fn with_flag(flags: Seq<Seq<bool>>, p: (int, int), v: bool) -> Seq<Seq<bool>> {
    flags.update(p.0, flags[p.0].update(p.1, v))
}

/// A count of set flags lies between zero and the number of flags counted.
pub proof fn lemma_row_count(row: Seq<bool>, k: int)
    requires
        0 <= k,
    ensures
        0 <= row_count(row, k) <= k,
    decreases k,
{
    if k > 0 {
        lemma_row_count(row, k - 1);
    }
}

/// What a changed flag does to the count of a row.
pub proof fn lemma_row_update(row: Seq<bool>, x: int, v: bool, k: int)
    requires
        0 <= x < row.len(),
        0 <= k <= row.len(),
    ensures
        row_count(row.update(x, v), k) == row_count(row, k) + (if x < k && v && !row[x] {
            1int
        } else if x < k && !v && row[x] {
            -1int
        } else {
            0int
        }),
    decreases k,
{
    if k > 0 {
        lemma_row_update(row, x, v, k - 1);
    }
}

/// What a changed flag does to the count of the rows.
pub proof fn lemma_rows_update(flags: Seq<Seq<bool>>, p: (int, int), v: bool, k: int)
    requires
        0 <= p.0 < flags.len(),
        0 <= p.1 < flags[p.0].len(),
        0 <= k <= flags.len(),
    ensures
        rows_count(with_flag(flags, p, v), k) == rows_count(flags, k) + (if p.0 < k && v
            && !flags[p.0][p.1] {
            1int
        } else if p.0 < k && !v && flags[p.0][p.1] {
            -1int
        } else {
            0int
        }),
    decreases k,
{
    if k > 0 {
        lemma_rows_update(flags, p, v, k - 1);
        if p.0 == k - 1 {
            lemma_row_update(flags[p.0], p.1, v, flags[p.0].len() as int);
        }
    }
}

/// Rows without a set flag count nothing, and a row with a set flag counts
/// at least one.
pub proof fn lemma_rows_none(flags: Seq<Seq<bool>>, k: int)
    requires
        0 <= k <= flags.len(),
    ensures
        0 <= rows_count(flags, k),
        (forall|y: int, x: int| 0 <= y < k && 0 <= x < flags[y].len() ==> !#[trigger] flags[y][x])
            ==> rows_count(flags, k) == 0,
    decreases k,
{
    if k > 0 {
        lemma_rows_none(flags, k - 1);
        lemma_row_none(flags[k - 1], flags[k - 1].len() as int);
    }
}

/// A row without a set flag counts nothing.
pub proof fn lemma_row_none(row: Seq<bool>, k: int)
    requires
        0 <= k <= row.len(),
    ensures
        0 <= row_count(row, k),
        (forall|x: int| 0 <= x < k ==> !#[trigger] row[x]) ==> row_count(row, k) == 0,
    decreases k,
{
    if k > 0 {
        lemma_row_none(row, k - 1);
    }
}

/// No more flags are set than there are tiles.
pub proof fn lemma_rows_bound(flags: Seq<Seq<bool>>, w: int, k: int)
    requires
        0 <= k <= flags.len(),
        forall|y: int| 0 <= y < flags.len() ==> (#[trigger] flags[y]).len() == w,
        0 <= w,
    ensures
        0 <= rows_count(flags, k) <= k * w,
    decreases k,
{
    if k > 0 {
        lemma_rows_bound(flags, w, k - 1);
        lemma_row_count(flags[k - 1], w);
        assert(k * w == (k - 1) * w + w) by (nonlinear_arith);
    } else {
        assert(0 * w == 0);
    }
}

impl View for TileSet {
    type V = Seq<Seq<bool>>;

    /// For each tile of the grid, whether it is in the set.
    closed spec fn view(&self) -> Seq<Seq<bool>> {
        self.tiles@
    }
}

impl TileSet {
    /// The height and width of the grid.
    pub closed spec fn shape(&self) -> (int, int) {
        (self.height as int, self.width as int)
    }

    /// The flags are as many as the tiles, and the length is the number of
    /// flags set.
    pub closed spec fn wf(&self) -> bool {
        &&& self.tiles@.len() == self.height
        &&& forall|y: int| 0 <= y < self.height ==> (#[trigger] self.tiles@[y]).len() == self.width
        &&& self.len == count(self.tiles@)
        &&& self.height >= 1
        &&& self.width >= 1
        &&& self.height * self.width <= isize::MAX
    }

    /// What the shape says of the flags.
    pub proof fn lemma_shape(&self)
        requires
            self.wf(),
        ensures
            self@.len() == self.shape().0,
            forall|y: int| 0 <= y < self@.len() ==> (#[trigger] self@[y]).len() == self.shape().1,
            self.shape().0 >= 1,
            self.shape().1 >= 1,
    {
    }

    /// The empty set of tiles of a grid of a shape.
    pub fn new(shape: (usize, usize)) -> (r: TileSet)
        requires
            shape.0 >= 1,
            shape.1 >= 1,
            shape.0 * shape.1 <= isize::MAX,
        ensures
            r.wf(),
            r.shape() == (shape.0 as int, shape.1 as int),
            count(r@) == 0,
            forall|p: (int, int)| !holds(r@, p),
    {
        let tiles = FlagGrid::from_elem(shape.0, shape.1, false);
        proof {
            lemma_rows_none(tiles@, shape.0 as int);
        }
        TileSet { tiles, height: shape.0, width: shape.1, len: 0 }
    }

    /// Whether the tile is in the set.
    pub fn contains(&self, pos: &(usize, usize)) -> (b: bool)
        requires
            self.wf(),
            pos.0 < self.shape().0,
            pos.1 < self.shape().1,
        ensures
            b == holds(self@, (pos.0 as int, pos.1 as int)),
    {
        self.tiles.get(pos.0, pos.1)
    }

    /// The number of tiles in the set.
    pub fn len(&self) -> (n: usize)
        requires
            self.wf(),
        ensures
            n == count(self@),
    {
        self.len
    }

    /// Puts a tile into the set.
    pub fn push(&mut self, pos: (usize, usize))
        requires
            old(self).wf(),
            pos.0 < old(self).shape().0,
            pos.1 < old(self).shape().1,
        ensures
            final(self).wf(),
            final(self).shape() == old(self).shape(),
            final(self)@ == with_flag(old(self)@, (pos.0 as int, pos.1 as int), true),
            count(final(self)@) == count(old(self)@) + (if holds(
                old(self)@,
                (pos.0 as int, pos.1 as int),
            ) {
                0int
            } else {
                1int
            }),
    {
        proof {
            lemma_rows_update(self.tiles@, (pos.0 as int, pos.1 as int), true, self.height as int);
            lemma_rows_bound(
                with_flag(self.tiles@, (pos.0 as int, pos.1 as int), true),
                self.width as int,
                self.height as int,
            );
        }
        if !self.contains(&pos) {
            self.tiles.set(pos.0, pos.1, true);
            self.len += 1;
        } else {
            proof {
                assert(self.tiles@[pos.0 as int].update(pos.1 as int, true) =~= self.tiles@[pos.0 as int]);
                assert(self.tiles@ =~= with_flag(self.tiles@, (pos.0 as int, pos.1 as int), true));
            }
        }
    }

    /// Takes the first tile, row by row, out of the set.
    pub fn pop(&mut self) -> (pos: (usize, usize))
        requires
            old(self).wf(),
            count(old(self)@) > 0,
        ensures
            final(self).wf(),
            final(self).shape() == old(self).shape(),
            is_first(old(self)@, (pos.0 as int, pos.1 as int)),
            final(self)@ == with_flag(old(self)@, (pos.0 as int, pos.1 as int), false),
            count(final(self)@) == count(old(self)@) - 1,
    {
        let mut y: usize = 0;
        while y < self.height
            invariant
                y <= self.height,
                self.wf(),
                *self == *old(self),
                forall|a: int, b: int| 0 <= a < y && 0 <= b < self.width ==> !#[trigger] self.tiles@[a][b],
            decreases self.height - y,
        {
            let mut x: usize = 0;
            while x < self.width
                invariant
                    x <= self.width,
                    y < self.height,
                    self.wf(),
                    *self == *old(self),
                    forall|a: int, b: int|
                        0 <= a < y && 0 <= b < self.width ==> !#[trigger] self.tiles@[a][b],
                    forall|b: int| 0 <= b < x ==> !#[trigger] self.tiles@[y as int][b],
                decreases self.width - x,
            {
                if self.tiles.get(y, x) {
                    proof {
                        let p = (y as int, x as int);
                        lemma_rows_update(self.tiles@, p, false, self.height as int);
                        lemma_rows_none(with_flag(self.tiles@, p, false), self.height as int);
                        assert forall|q: (int, int)| #[trigger] holds(self.tiles@, q) implies !before(
                            q,
                            p,
                        ) by {
                            if before(q, p) {
                                assert(!self.tiles@[q.0][q.1]);
                            }
                        }
                    }
                    self.tiles.set(y, x, false);
                    self.len -= 1;
                    return (y, x);
                }
                x += 1;
            }
            y += 1;
        }
        proof {
            lemma_rows_none(self.tiles@, self.height as int);
            assert(false);
        }
        (0, 0)
    }

    /// Takes a tile out of the set.
    pub fn remove(&mut self, pos: &(usize, usize))
        requires
            old(self).wf(),
            pos.0 < old(self).shape().0,
            pos.1 < old(self).shape().1,
        ensures
            final(self).wf(),
            final(self).shape() == old(self).shape(),
            final(self)@ == with_flag(old(self)@, (pos.0 as int, pos.1 as int), false),
            count(final(self)@) == count(old(self)@) - (if holds(
                old(self)@,
                (pos.0 as int, pos.1 as int),
            ) {
                1int
            } else {
                0int
            }),
    {
        proof {
            lemma_rows_update(self.tiles@, (pos.0 as int, pos.1 as int), false, self.height as int);
            lemma_rows_none(
                with_flag(self.tiles@, (pos.0 as int, pos.1 as int), false),
                self.height as int,
            );
        }
        if self.contains(pos) {
            self.len -= 1;
            self.tiles.set(pos.0, pos.1, false);
        } else {
            proof {
                assert(self.tiles@[pos.0 as int].update(pos.1 as int, false) =~= self.tiles@[pos.0 as int]);
                assert(self.tiles@ =~= with_flag(self.tiles@, (pos.0 as int, pos.1 as int), false));
            }
        }
    }
}

} // verus!
