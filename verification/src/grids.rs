//! Two-dimensional arrays, kept in `ndarray` and seen by their rows.
//!
//! Nothing in this file is proved: each function hands its work to `ndarray`,
//! and its contract says what that crate's source shows of the call.
use vstd::prelude::*;

verus! {

/// What `ndarray` reports when a shape does not fit the number of elements.
#[verifier::external_type_specification]
#[verifier::external_body]
pub struct ExShapeError(ndarray::ShapeError);

/// An `ndarray::Array2<u8>`.
#[verifier::external_body]
pub struct ByteGrid {
    inner: ndarray::Array2<u8>,
}

/// The rows of a [`ByteGrid`], top to bottom, each from left to right.
pub uninterp spec fn byte_grid_rows(g: ByteGrid) -> Seq<Seq<u8>>;

impl View for ByteGrid {
    type V = Seq<Seq<u8>>;

    open spec fn view(&self) -> Seq<Seq<u8>> {
        byte_grid_rows(*self)
    }
}

impl ByteGrid {
    /// `Array::from_iter(cells).into_shape((height, width))`: the cells are laid
    /// out row by row. `ndarray` accepts the shape exactly when it holds as many
    /// cells as were given.
    #[verifier::external_body]
    pub(crate) fn from_cells(height: usize, width: usize, cells: Vec<u8>) -> (r: Result<
        ByteGrid,
        ndarray::ShapeError,
    >)
        requires
            height >= 1,
            width >= 1,
            cells.len() <= isize::MAX,
        ensures
            r is Ok <==> height * width == cells.len(),
            r is Ok ==> byte_grid_rows(r->Ok_0).len() == height && forall|y: int|
                0 <= y < height ==> (#[trigger] byte_grid_rows(r->Ok_0)[y]) == cells@.subrange(
                    y * width,
                    y * width + width,
                ),
    {
        match ndarray::Array::from_iter(cells).into_shape((height, width)) {
            Ok(inner) => Ok(ByteGrid { inner }),
            Err(e) => Err(e),
        }
    }

    /// `Array2::from_elem((height, width), elem)`: every cell holds `elem`.
    #[verifier::external_body]
    pub(crate) fn from_elem(height: usize, width: usize, elem: u8) -> (g: ByteGrid)
        requires
            height >= 1,
            width >= 1,
            height * width <= isize::MAX,
        ensures
            byte_grid_rows(g).len() == height,
            forall|y: int| 0 <= y < height ==> (#[trigger] byte_grid_rows(g)[y]).len() == width,
            forall|y: int, x: int|
                0 <= y < height && 0 <= x < width ==> (#[trigger] byte_grid_rows(g)[y][x]) == elem,
    {
        ByteGrid { inner: ndarray::Array2::from_elem((height, width), elem) }
    }

    /// `shape()[0]`: the number of rows.
    #[verifier::external_body]
    pub(crate) fn height(&self) -> (h: usize)
        ensures
            h == byte_grid_rows(*self).len(),
    {
        self.inner.shape()[0]
    }

    /// `shape()[1]`: the length that every row has.
    #[verifier::external_body]
    pub(crate) fn width(&self) -> (w: usize)
        ensures
            forall|y: int| 0 <= y < byte_grid_rows(*self).len() ==> (#[trigger] byte_grid_rows(*self)[y]).len() == w,
    {
        self.inner.shape()[1]
    }

    /// Indexing with `[(y, x)]`.
    #[verifier::external_body]
    pub(crate) fn get(&self, y: usize, x: usize) -> (v: u8)
        requires
            y < byte_grid_rows(*self).len(),
            x < byte_grid_rows(*self)[y as int].len(),
        ensures
            v == byte_grid_rows(*self)[y as int][x as int],
    {
        self.inner[(y, x)]
    }

    /// `clone`: a grid that holds the same.
    #[verifier::external_body]
    pub(crate) fn copy(&self) -> (g: ByteGrid)
        ensures
            byte_grid_rows(g) == byte_grid_rows(*self),
    {
        ByteGrid { inner: self.inner.clone() }
    }

    /// Assignment through `[(y, x)]`: that cell changes and no other.
    #[verifier::external_body]
    pub(crate) fn set(&mut self, y: usize, x: usize, v: u8)
        requires
            y < byte_grid_rows(*old(self)).len(),
            x < byte_grid_rows(*old(self))[y as int].len(),
        ensures
            byte_grid_rows(*final(self)) == byte_grid_rows(*old(self)).update(y as int, byte_grid_rows(*old(self))[y as int].update(x as int, v)),
    {
        self.inner[(y, x)] = v;
    }
}

/// An `ndarray::Array2<u32>`.
#[verifier::external_body]
pub struct CostGrid {
    inner: ndarray::Array2<u32>,
}

/// The rows of a [`CostGrid`], top to bottom, each from left to right.
pub uninterp spec fn cost_grid_rows(g: CostGrid) -> Seq<Seq<u32>>;

impl View for CostGrid {
    type V = Seq<Seq<u32>>;

    open spec fn view(&self) -> Seq<Seq<u32>> {
        cost_grid_rows(*self)
    }
}

impl CostGrid {
    /// `Array2::from_elem((height, width), elem)`: every cell holds `elem`.
    #[verifier::external_body]
    pub(crate) fn from_elem(height: usize, width: usize, elem: u32) -> (g: CostGrid)
        requires
            height >= 1,
            width >= 1,
            height * width <= isize::MAX,
        ensures
            cost_grid_rows(g).len() == height,
            forall|y: int| 0 <= y < height ==> (#[trigger] cost_grid_rows(g)[y]).len() == width,
            forall|y: int, x: int|
                0 <= y < height && 0 <= x < width ==> (#[trigger] cost_grid_rows(g)[y][x]) == elem,
    {
        CostGrid { inner: ndarray::Array2::from_elem((height, width), elem) }
    }

    /// Indexing with `[(y, x)]`.
    #[verifier::external_body]
    pub(crate) fn get(&self, y: usize, x: usize) -> (v: u32)
        requires
            y < cost_grid_rows(*self).len(),
            x < cost_grid_rows(*self)[y as int].len(),
        ensures
            v == cost_grid_rows(*self)[y as int][x as int],
    {
        self.inner[(y, x)]
    }

    /// Assignment through `[(y, x)]`: that cell changes and no other.
    #[verifier::external_body]
    pub(crate) fn set(&mut self, y: usize, x: usize, v: u32)
        requires
            y < cost_grid_rows(*old(self)).len(),
            x < cost_grid_rows(*old(self))[y as int].len(),
        ensures
            cost_grid_rows(*final(self)) == cost_grid_rows(*old(self)).update(y as int, cost_grid_rows(*old(self))[y as int].update(x as int, v)),
    {
        self.inner[(y, x)] = v;
    }
}

/// An `ndarray::Array2<u64>`.
#[verifier::external_body]
pub struct CountGrid {
    inner: ndarray::Array2<u64>,
}

/// The rows of a [`CountGrid`], top to bottom, each from left to right.
pub uninterp spec fn count_grid_rows(g: CountGrid) -> Seq<Seq<u64>>;

impl View for CountGrid {
    type V = Seq<Seq<u64>>;

    open spec fn view(&self) -> Seq<Seq<u64>> {
        count_grid_rows(*self)
    }
}

impl CountGrid {
    /// `Array2::zeros((height, width))`: every cell holds zero.
    #[verifier::external_body]
    pub(crate) fn zeros(height: usize, width: usize) -> (g: CountGrid)
        requires
            height >= 1,
            width >= 1,
            height * width <= isize::MAX,
        ensures
            count_grid_rows(g).len() == height,
            forall|y: int| 0 <= y < height ==> (#[trigger] count_grid_rows(g)[y]).len() == width,
            forall|y: int, x: int|
                0 <= y < height && 0 <= x < width ==> (#[trigger] count_grid_rows(g)[y][x]) == 0,
    {
        CountGrid { inner: ndarray::Array2::zeros((height, width)) }
    }

    /// Indexing with `[(y, x)]`.
    #[verifier::external_body]
    pub(crate) fn get(&self, y: usize, x: usize) -> (v: u64)
        requires
            y < count_grid_rows(*self).len(),
            x < count_grid_rows(*self)[y as int].len(),
        ensures
            v == count_grid_rows(*self)[y as int][x as int],
    {
        self.inner[(y, x)]
    }

    /// Assignment through `[(y, x)]`: that cell changes and no other.
    #[verifier::external_body]
    pub(crate) fn set(&mut self, y: usize, x: usize, v: u64)
        requires
            y < count_grid_rows(*old(self)).len(),
            x < count_grid_rows(*old(self))[y as int].len(),
        ensures
            count_grid_rows(*final(self)) == count_grid_rows(*old(self)).update(y as int, count_grid_rows(*old(self))[y as int].update(x as int, v)),
    {
        self.inner[(y, x)] = v;
    }
}

/// An `ndarray::Array2<bool>`.
#[verifier::external_body]
pub struct FlagGrid {
    inner: ndarray::Array2<bool>,
}

/// The rows of a [`FlagGrid`], top to bottom, each from left to right.
pub uninterp spec fn flag_grid_rows(g: FlagGrid) -> Seq<Seq<bool>>;

impl View for FlagGrid {
    type V = Seq<Seq<bool>>;

    open spec fn view(&self) -> Seq<Seq<bool>> {
        flag_grid_rows(*self)
    }
}

impl FlagGrid {
    /// `Array2::from_elem((height, width), elem)`: every cell holds `elem`.
    #[verifier::external_body]
    pub(crate) fn from_elem(height: usize, width: usize, elem: bool) -> (g: FlagGrid)
        requires
            height >= 1,
            width >= 1,
            height * width <= isize::MAX,
        ensures
            flag_grid_rows(g).len() == height,
            forall|y: int| 0 <= y < height ==> (#[trigger] flag_grid_rows(g)[y]).len() == width,
            forall|y: int, x: int|
                0 <= y < height && 0 <= x < width ==> (#[trigger] flag_grid_rows(g)[y][x]) == elem,
    {
        FlagGrid { inner: ndarray::Array2::from_elem((height, width), elem) }
    }

    /// Indexing with `[(y, x)]`.
    #[verifier::external_body]
    pub(crate) fn get(&self, y: usize, x: usize) -> (v: bool)
        requires
            y < flag_grid_rows(*self).len(),
            x < flag_grid_rows(*self)[y as int].len(),
        ensures
            v == flag_grid_rows(*self)[y as int][x as int],
    {
        self.inner[(y, x)]
    }

    /// Assignment through `[(y, x)]`: that cell changes and no other.
    #[verifier::external_body]
    pub(crate) fn set(&mut self, y: usize, x: usize, v: bool)
        requires
            y < flag_grid_rows(*old(self)).len(),
            x < flag_grid_rows(*old(self))[y as int].len(),
        ensures
            flag_grid_rows(*final(self)) == flag_grid_rows(*old(self)).update(y as int, flag_grid_rows(*old(self))[y as int].update(x as int, v)),
    {
        self.inner[(y, x)] = v;
    }
}

} // verus!
