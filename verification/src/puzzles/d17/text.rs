//! Reading a grid from text: one line for each row, one digit for each cell.
use super::heuristic::{find_lowest_cost_to_target, MAX_CELLS};
use super::rules::{height, in_bounds, width};
use super::CityMap;
use crate::grids::ByteGrid;
use vstd::prelude::*;
use vstd::string::StringSliceAdditionalSpecFns;

verus! {

/// Why a text is not a grid.
#[derive(Clone, Copy, Debug, PartialEq, Eq, Structural)]
pub enum FormatError {
    /// The text holds no cell: it is empty or made of line ends only.
    Empty,
    /// The text holds a byte that is neither a digit nor a line end.
    InvalidCharacter,
    /// The lines are not equally long, or one of them is empty.
    Ragged,
    /// The grid has more than `MAX_CELLS` cells.
    TooLarge,
}

/// The byte that ends a line.
pub const LINE_END: u8 = 10;

/// The byte of the digit zero.
pub const DIGIT_ZERO: u8 = 48;

/// Whether the byte is one of the digits `0` to `9`.
pub open spec fn is_digit(b: u8) -> bool {
    DIGIT_ZERO <= b <= DIGIT_ZERO + 9
}

/// The byte at column `x` of line `y`, where every line has `w` bytes and a
/// line end.
pub open spec fn byte_at(t: Seq<u8>, w: int, y: int, x: int) -> u8 {
    t[y * (w + 1) + x]
}

/// The text is `h` lines of `w` digits each, every line closed by a line end;
/// the last line end may be missing.
pub open spec fn is_layout(t: Seq<u8>, h: int, w: int) -> bool {
    &&& h >= 1
    &&& w >= 1
    &&& (t.len() == h * (w + 1) || t.len() == h * (w + 1) - 1)
    &&& forall|y: int, x: int| 0 <= y < h && 0 <= x < w ==> is_digit(#[trigger] byte_at(t, w, y, x))
    &&& forall|y: int|
        0 <= y < h && y * (w + 1) + w < t.len() ==> (#[trigger] byte_at(t, w, y, w)) == LINE_END
}

/// The grid that a text of `h` lines of `w` digits stands for.
pub open spec fn layout_grid(t: Seq<u8>, h: int, w: int) -> Seq<Seq<u8>> {
    Seq::new(h as nat, |y: int| Seq::new(w as nat, |x: int| (byte_at(t, w, y, x) - DIGIT_ZERO) as u8))
}

/// Every byte of the text is a line end.
pub open spec fn is_blank(t: Seq<u8>) -> bool {
    forall|i: int| 0 <= i < t.len() ==> (#[trigger] t[i]) == LINE_END
}

/// Some byte of the text is neither a digit nor a line end.
pub open spec fn has_invalid(t: Seq<u8>) -> bool {
    exists|i: int| 0 <= i < t.len() && (#[trigger] t[i]) != LINE_END && !is_digit(t[i])
}

/// The text has the layout of some grid.
pub open spec fn is_block(t: Seq<u8>) -> bool {
    exists|h: int, w: int| #[trigger] is_layout(t, h, w)
}

/// The text has the layout of a grid with more than `MAX_CELLS` cells.
pub open spec fn is_oversized(t: Seq<u8>) -> bool {
    exists|h: int, w: int| #[trigger] is_layout(t, h, w) && h * w > MAX_CELLS
}

/// `w` is where the first line of the text ends.
pub open spec fn is_first_line(t: Seq<u8>, w: int) -> bool {
    &&& 0 <= w <= t.len()
    &&& forall|i: int| 0 <= i < w ==> (#[trigger] t[i]) != LINE_END
    &&& w < t.len() ==> t[w] == LINE_END
}

/// In a layout the width is the length of the first line.
pub proof fn lemma_layout_width(t: Seq<u8>, h: int, w: int, first: int)
    requires
        is_layout(t, h, w),
        is_first_line(t, first),
    ensures
        w == first,
{
    assert(h * (w + 1) >= w + 1) by (nonlinear_arith)
        requires
            h >= 1,
            w >= 0,
    ;
    if first < w {
        assert(is_digit(byte_at(t, w, 0, first)));
        assert(0 * (w + 1) + first == first);
    } else if first > w {
        assert(byte_at(t, w, 0, w) == LINE_END);
        assert(0 * (w + 1) + w == w);
        assert(t[w] != LINE_END);
    }
}

/// In a layout, a line that starts within the text is one of its lines: it has
/// all its digits, and a line end after them unless the text ends there.
pub proof fn lemma_layout_row(t: Seq<u8>, h: int, w: int, y: int)
    requires
        is_layout(t, h, w),
        0 <= y,
        y * (w + 1) < t.len(),
    ensures
        y < h,
        y * (w + 1) + w <= t.len(),
        forall|x: int| 0 <= x < w ==> is_digit(#[trigger] t[y * (w + 1) + x]),
        y * (w + 1) + w < t.len() ==> t[y * (w + 1) + w] == LINE_END,
{
    if y >= h {
        assert(h * (w + 1) <= y * (w + 1)) by (nonlinear_arith)
            requires
                h <= y,
                w >= 0,
        ;
    }
    assert((y + 1) * (w + 1) <= h * (w + 1)) by (nonlinear_arith)
        requires
            y + 1 <= h,
            w >= 0,
    ;
    assert((y + 1) * (w + 1) == y * (w + 1) + w + 1) by (nonlinear_arith);
    assert forall|x: int| 0 <= x < w implies is_digit(#[trigger] t[y * (w + 1) + x]) by {
        assert(is_digit(byte_at(t, w, y, x)));
    }
    assert(byte_at(t, w, y, w) == t[y * (w + 1) + w]);
}

/// A text has at most one layout.
pub proof fn lemma_layout_unique(t: Seq<u8>, h: int, w: int, h2: int, w2: int)
    requires
        is_layout(t, h, w),
        is_layout(t, h2, w2),
    ensures
        h == h2,
        w == w2,
{
    assert(h * (w + 1) >= w + 1) by (nonlinear_arith)
        requires
            h >= 1,
            w >= 0,
    ;
    assert forall|i: int| 0 <= i < w implies (#[trigger] t[i]) != LINE_END by {
        assert(is_digit(byte_at(t, w, 0, i)));
        assert(0 * (w + 1) + i == i);
    }
    assert(w < t.len() ==> t[w] == LINE_END) by {
        assert(0 * (w + 1) + w == w);
        assert(w < t.len() ==> byte_at(t, w, 0, w) == LINE_END);
    }
    lemma_layout_width(t, h2, w2, w);
    if h < h2 {
        assert((h + 1) * (w + 1) <= h2 * (w + 1)) by (nonlinear_arith)
            requires
                h + 1 <= h2,
                w >= 0,
        ;
        assert((h + 1) * (w + 1) == h * (w + 1) + w + 1) by (nonlinear_arith);
    } else if h2 < h {
        assert((h2 + 1) * (w + 1) <= h * (w + 1)) by (nonlinear_arith)
            requires
                h2 + 1 <= h,
                w >= 0,
        ;
        assert((h2 + 1) * (w + 1) == h2 * (w + 1) + w + 1) by (nonlinear_arith);
    }
}

impl CityMap {
    /// Reads a grid from text, one line for each row and one digit for each
    /// cell, and works out its table of least walk costs. The last line may
    /// end with a line end or without one.
    pub fn from_bytes(text: &[u8]) -> (r: Result<CityMap, FormatError>)
        ensures
            r is Ok ==> is_layout(text@, height(r->Ok_0@), width(r->Ok_0@)),
            r is Ok ==> r->Ok_0@ == layout_grid(text@, height(r->Ok_0@), width(r->Ok_0@)),
            r is Ok ==> r->Ok_0.wf(),
            r is Ok <==> is_block(text@) && !is_oversized(text@),
            r == Err::<CityMap, FormatError>(FormatError::Empty) <==> is_blank(text@),
            r == Err::<CityMap, FormatError>(FormatError::InvalidCharacter) <==> !is_blank(text@)
                && has_invalid(text@),
            r == Err::<CityMap, FormatError>(FormatError::Ragged) <==> !is_blank(text@)
                && !has_invalid(text@) && !is_block(text@),
            r == Err::<CityMap, FormatError>(FormatError::TooLarge) <==> is_oversized(text@),
    {
        let ghost t = text@;
        let len = text.len();

        // Is there any cell, and any byte that cannot be one?
        let mut any_cell = false;
        let mut any_invalid = false;
        let mut i: usize = 0;
        while i < len
            invariant
                i <= len,
                len == t.len(),
                t == text@,
                any_cell <==> exists|j: int| 0 <= j < i && (#[trigger] t[j]) != LINE_END,
                any_invalid <==> exists|j: int|
                    0 <= j < i && (#[trigger] t[j]) != LINE_END && !is_digit(t[j]),
            decreases len - i,
        {
            let b = text[i];
            if b != LINE_END {
                any_cell = true;
                if b < DIGIT_ZERO || b > DIGIT_ZERO + 9 {
                    any_invalid = true;
                }
            }
            i += 1;
        }
        proof {
            if is_block(t) {
                let (h, w) = choose|h: int, w: int| #[trigger] is_layout(t, h, w);
                assert(is_digit(byte_at(t, w, 0, 0)));
                assert(0 * (w + 1) + 0 == 0);
                assert(h * (w + 1) >= w + 1) by (nonlinear_arith)
                    requires
                        h >= 1,
                        w >= 0,
                ;
                assert(t[0] != LINE_END);
                assert forall|j: int| 0 <= j < t.len() implies (#[trigger] t[j]) == LINE_END
                    || is_digit(t[j]) by {
                    lemma_layout_bytes(t, h, w, j);
                }
            }
        }
        if !any_cell {
            return Err(FormatError::Empty);
        }
        if any_invalid {
            return Err(FormatError::InvalidCharacter);
        }
        // The length of the first line is the width.

        let mut w: usize = 0;
        while w < len && text[w] != LINE_END
            invariant
                w <= len,
                len == t.len(),
                t == text@,
                forall|j: int| 0 <= j < w ==> (#[trigger] t[j]) != LINE_END,
            decreases len - w,
        {
            w += 1;
        }
        assert(is_first_line(t, w as int));
        if w == 0 {
            proof {
                assert forall|h: int, w2: int| !#[trigger] is_layout(t, h, w2) by {
                    if is_layout(t, h, w2) {
                        lemma_layout_width(t, h, w2, 0);
                    }
                }
            }
            return Err(FormatError::Ragged);
        }
        // Line by line: `w` digits, then a line end or the end of the text.

        let mut cells: Vec<u8> = Vec::new();
        let mut y: usize = 0;
        let mut pos: usize = 0;
        let mut closed = false;
        while pos < len && !closed
            invariant
                len == t.len(),
                t == text@,
                w >= 1,
                is_first_line(t, w as int),
                !has_invalid(t),
                !is_blank(t),
                pos <= len,
                closed ==> pos == len && y >= 1 && len == y * (w + 1) - 1,
                !closed ==> pos == y * (w + 1),
                cells.len() == y * w,
                y <= pos,
                forall|r: int, x: int|
                    0 <= r < y && 0 <= x < w ==> is_digit(#[trigger] byte_at(t, w as int, r, x))
                        && cells@[r * w + x] == byte_at(t, w as int, r, x) - DIGIT_ZERO,
                forall|r: int|
                    0 <= r < y && r * (w + 1) + w < len ==> (#[trigger] byte_at(
                        t,
                        w as int,
                        r,
                        w as int,
                    )) == LINE_END,
            decreases len - pos,
        {
            proof {
                assert forall|h: int, w2: int| #[trigger] is_layout(t, h, w2) implies w2 == w && y
                    < h && pos + w <= len && (forall|x: int|
                    0 <= x < w ==> is_digit(#[trigger] t[pos + x])) && (pos + w < len ==> t[pos
                    + w] == LINE_END) by {
                    lemma_layout_width(t, h, w2, w as int);
                    lemma_layout_row(t, h, w as int, y as int);
                }
                assert((y + 1) * (w + 1) == y * (w + 1) + w + 1) by (nonlinear_arith);
                assert((y + 1) * w == y * w + w) by (nonlinear_arith);
            }
            if len - pos < w {
                return Err(FormatError::Ragged);
            }
            let mut x: usize = 0;
            while x < w
                invariant
                    len == t.len(),
                    t == text@,
                    x <= w,
                    pos + w <= len,
                    pos == y * (w + 1),
                    !has_invalid(t),
                    !is_blank(t),
                    cells.len() == y * w + x,
                    forall|r: int, c: int|
                        0 <= r < y && 0 <= c < w ==> is_digit(
                            #[trigger] byte_at(t, w as int, r, c),
                        ) && cells@[r * w + c] == byte_at(t, w as int, r, c) - DIGIT_ZERO,
                    forall|c: int|
                        0 <= c < x ==> is_digit(#[trigger] byte_at(t, w as int, y as int, c))
                            && cells@[y * w + c] == byte_at(t, w as int, y as int, c) - DIGIT_ZERO,
                    forall|h: int, w2: int| #[trigger]
                        is_layout(t, h, w2) ==> forall|c: int|
                            0 <= c < w ==> is_digit(#[trigger] t[pos + c]),
                decreases w - x,
            {
                let b = text[pos + x];
                if b == LINE_END {
                    proof {
                        assert forall|h: int, w2: int| !#[trigger] is_layout(t, h, w2) by {
                            if is_layout(t, h, w2) {
                                assert(is_digit(t[pos + x]));
                            }
                        }
                    }
                    return Err(FormatError::Ragged);
                }
                proof {
                    assert(is_digit(b)) by {
                        if !is_digit(b) {
                            assert(t[pos + x] != LINE_END && !is_digit(t[pos + x]));
                        }
                    }
                }
                let ghost earlier = cells@;
                cells.push(b - DIGIT_ZERO);
                proof {
                    assert forall|r: int, c: int| 0 <= r < y && 0 <= c < w implies is_digit(
                        #[trigger] byte_at(t, w as int, r, c),
                    ) && cells@[r * w + c] == byte_at(t, w as int, r, c) - DIGIT_ZERO by {
                        lemma_cell_index(r, c, y as int, w as int);
                        assert(earlier[r * w + c] == byte_at(t, w as int, r, c) - DIGIT_ZERO);
                    }
                }
                x += 1;
            }
            y += 1;
            if pos + w == len {
                closed = true;
                pos = len;
            } else {
                if text[pos + w] != LINE_END {
                    return Err(FormatError::Ragged);
                }
                pos = pos + w + 1;
            }
        }
        proof {
            // The text is `y` lines of `w` digits.
            assert(y >= 1);
            assert(is_layout(t, y as int, w as int));
            assert forall|h: int, w2: int| #[trigger] is_layout(t, h, w2) implies h == y && w2
                == w by {
                lemma_layout_unique(t, h, w2, y as int, w as int);
            }
            assert(y * w >= y && y * w >= w) by (nonlinear_arith)
                requires
                    y >= 1,
                    w >= 1,
            ;
        }
        if cells.len() > MAX_CELLS {
            return Err(FormatError::TooLarge);
        }
        let ghost filled = cells@;
        let grid = match ByteGrid::from_cells(y, w, cells) {
            Ok(grid) => grid,
            Err(_) => {
                return Err(FormatError::Ragged);
            },
        };
        proof {
            assert forall|r: int| 0 <= r < y implies (#[trigger] grid@[r]).len() == w by {
                assert(r * w + w <= y * w) by (nonlinear_arith)
                    requires
                        r + 1 <= y,
                        w >= 0,
                ;
                assert(0 <= r * w) by (nonlinear_arith)
                    requires
                        0 <= r,
                        0 <= w,
                ;
            }
            assert forall|r: int, c: int| in_bounds(grid@, r, c) implies (#[trigger] grid@[r][c])
                <= 9 && grid@[r][c] == byte_at(t, w as int, r, c) - DIGIT_ZERO by {
                assert(grid@[r].len() == w);
                assert(is_digit(byte_at(t, w as int, r, c)));
                assert(0 <= r * w) by (nonlinear_arith)
                    requires
                        0 <= r,
                        0 <= w,
                ;
                assert(grid@[0].len() == w);
                lemma_cell_index(r, c, y as int, w as int);
                assert(filled.len() == y * w);
                assert(grid@[r] == filled.subrange(r * w, r * w + w));
                assert(grid@[r][c] == filled[r * w + c]);
            }
            assert(grid@ =~= layout_grid(t, y as int, w as int)) by {
                assert forall|r: int| 0 <= r < y implies #[trigger] grid@[r] =~= layout_grid(
                    t,
                    y as int,
                    w as int,
                )[r] by {
                    assert(grid@[r].len() == w);
                    assert forall|c: int| 0 <= c < w implies grid@[r][c] == layout_grid(
                        t,
                        y as int,
                        w as int,
                    )[r][c] by {
                        assert(in_bounds(grid@, r, c));
                    }
                }
            }
            assert(grid@[0].len() == w);
        }
        let heur_cost_to_target = find_lowest_cost_to_target(&grid);
        Ok(CityMap { grid, heur_cost_to_target })
    }

    /// Reads a grid from a string, as `from_bytes` does from its bytes.
    pub fn parse(s: &str) -> (r: Result<CityMap, FormatError>)
        ensures
            r is Ok ==> is_layout(s.spec_bytes(), height(r->Ok_0@), width(r->Ok_0@)),
            r is Ok ==> r->Ok_0@ == layout_grid(
                s.spec_bytes(),
                height(r->Ok_0@),
                width(r->Ok_0@),
            ),
            r is Ok <==> is_block(s.spec_bytes()) && !is_oversized(s.spec_bytes()),
            r == Err::<CityMap, FormatError>(FormatError::Empty) <==> is_blank(s.spec_bytes()),
            r == Err::<CityMap, FormatError>(FormatError::InvalidCharacter) <==> !is_blank(
                s.spec_bytes(),
            ) && has_invalid(s.spec_bytes()),
            r == Err::<CityMap, FormatError>(FormatError::Ragged) <==> !is_blank(s.spec_bytes())
                && !has_invalid(s.spec_bytes()) && !is_block(s.spec_bytes()),
            r == Err::<CityMap, FormatError>(FormatError::TooLarge) <==> is_oversized(
                s.spec_bytes(),
            ),
    {
        CityMap::from_bytes(s.as_bytes())
    }
}

/// Row by row, the cell at column `c` of row `r` comes before the cells of
/// row `y` and of the rows after it.
pub proof fn lemma_cell_index(r: int, c: int, y: int, w: int)
    requires
        0 <= r < y,
        0 <= c < w,
    ensures
        0 <= r * w + c < y * w,
        0 <= r * w,
        r * w + w <= y * w,
{
    assert(r * w + w <= y * w) by (nonlinear_arith)
        requires
            r + 1 <= y,
            w >= 0,
    ;
    assert(0 <= r * w) by (nonlinear_arith)
        requires
            0 <= r,
            0 <= w,
    ;
}

/// In a layout every byte is a digit or a line end.
pub proof fn lemma_layout_bytes(t: Seq<u8>, h: int, w: int, j: int)
    requires
        is_layout(t, h, w),
        0 <= j < t.len(),
    ensures
        t[j] == LINE_END || is_digit(t[j]),
{
    let y = j / (w + 1);
    let x = j % (w + 1);
    assert(j == y * (w + 1) + x && 0 <= x < w + 1 && 0 <= y) by (nonlinear_arith)
        requires
            y == j / (w + 1),
            x == j % (w + 1),
            w >= 0,
            j >= 0,
    ;
    if y >= h {
        assert(h * (w + 1) <= y * (w + 1)) by (nonlinear_arith)
            requires
                h <= y,
                w >= 0,
        ;
    }
    if x < w {
        assert(is_digit(byte_at(t, w, y, x)));
    } else {
        assert(byte_at(t, w, y, w) == LINE_END);
    }
}

impl std::str::FromStr for CityMap {
    type Err = FormatError;

    fn from_str(s: &str) -> (r: Result<Self, Self::Err>) {
        CityMap::parse(s)
    }
}

} // verus!
