//! Reading a picture into a grid: the bytes of a text, without its line
//! feeds, laid out row by row.
use crate::grids::ByteGrid;
use crate::text::{lemma_lines_len, lines, split_lines, InputError, LINE_FEED};
use vstd::prelude::*;

verus! {

/// The text without its line feeds.
pub open spec fn cells_of(s: Seq<u8>) -> Seq<u8>
    decreases s.len(),
{
    if s.len() == 0 {
        s
    } else if s.last() == LINE_FEED {
        cells_of(s.drop_last())
    } else {
        cells_of(s.drop_last()).push(s.last())
    }
}

/// The length of the first line of a text: the place of its first line feed,
/// or its length if it has none.
pub open spec fn first_line_len(s: Seq<u8>) -> int
    decreases s.len(),
{
    if s.len() == 0 {
        0
    } else if s[0] == LINE_FEED {
        0
    } else {
        1 + first_line_len(s.drop_first())
    }
}

/// The number of rows of the picture: the number of lines of the text, or the
/// number of cells by the width, as the reader is told.
pub open spec fn row_count(s: Seq<u8>, by_lines: bool) -> int {
    if by_lines {
        lines(s).len() as int
    } else if first_line_len(s) > 0 {
        cells_of(s).len() as int / first_line_len(s)
    } else {
        0
    }
}

/// The cells fill that number of rows, each as wide as the first line, and
/// there is at least one cell.
pub open spec fn is_picture(s: Seq<u8>, by_lines: bool) -> bool {
    &&& first_line_len(s) >= 1
    &&& row_count(s, by_lines) >= 1
    &&& row_count(s, by_lines) * first_line_len(s) == cells_of(s).len()
}

/// The rows of a picture.
pub open spec fn picture(s: Seq<u8>, by_lines: bool) -> Seq<Seq<u8>> {
    Seq::new(
        row_count(s, by_lines) as nat,
        |y: int| cells_of(s).subrange(y * first_line_len(s), y * first_line_len(s) + first_line_len(s)),
    )
}

/// A picture has at least one row, and each of its rows is as long as the
/// first line, which has at least one cell.
pub proof fn lemma_picture_shape(s: Seq<u8>, by_lines: bool)
    requires
        is_picture(s, by_lines),
    ensures
        picture(s, by_lines).len() >= 1,
        picture(s, by_lines).len() == row_count(s, by_lines),
        first_line_len(s) >= 1,
        forall|y: int|
            0 <= y < picture(s, by_lines).len() ==> (#[trigger] picture(s, by_lines)[y]).len()
                == first_line_len(s),
{
    let w = first_line_len(s);
    let h = row_count(s, by_lines);
    assert forall|y: int| 0 <= y < picture(s, by_lines).len() implies (#[trigger] picture(
        s,
        by_lines,
    )[y]).len() == w by {
        assert(0 <= y * w && y * w + w <= h * w) by (nonlinear_arith)
            requires
                0 <= y < h,
                w >= 1,
        ;
    }
}

/// There are at most as many cells as bytes.
pub proof fn lemma_cells_len(s: Seq<u8>)
    ensures
        cells_of(s).len() <= s.len(),
    decreases s.len(),
{
    if s.len() > 0 {
        lemma_cells_len(s.drop_last());
    }
}

/// Reads the picture that stands between `from` and `to` of a text. There are
/// as many rows as lines, or as many as the cells fill, as the reader is told.
pub fn read_picture(text: &[u8], from: usize, to: usize, by_lines: bool) -> (r: Result<
    ByteGrid,
    InputError,
>)
    requires
        from <= to <= text.len(),
        to - from <= isize::MAX,
    ensures
        r is Ok <==> is_picture(text@.subrange(from as int, to as int), by_lines),
        r is Ok ==> r->Ok_0@ == picture(text@.subrange(from as int, to as int), by_lines),
        r is Ok ==> r->Ok_0@.len() >= 1 && forall|y: int|
            0 <= y < r->Ok_0@.len() ==> (#[trigger] r->Ok_0@[y]).len() == first_line_len(
                text@.subrange(from as int, to as int),
            ),
        r is Err ==> r == Err::<ByteGrid, InputError>(InputError::Syntax),
{
    let ghost s = text@.subrange(from as int, to as int);
    let mut width: usize = 0;
    proof {
        assert(s.skip(0) =~= s);
    }
    while from + width < to && text[from + width] != LINE_FEED
        invariant
            from + width <= to <= text.len(),
            s == text@.subrange(from as int, to as int),
            first_line_len(s) == width + first_line_len(s.skip(width as int)),
        decreases to - from - width,
    {
        proof {
            assert(s.skip(width as int)[0] == s[width as int]);
            assert(s.skip(width as int).drop_first() =~= s.skip(width + 1));
        }
        width += 1;
    }
    proof {
        if from + width < to {
            assert(s.skip(width as int)[0] == s[width as int]);
        }
        assert(first_line_len(s) == width);
    }
    let mut cells: Vec<u8> = Vec::new();
    let mut i: usize = from;
    while i < to
        invariant
            from <= i <= to <= text.len(),
            s == text@.subrange(from as int, to as int),
            cells@ == cells_of(s.take(i - from)),
            cells.len() <= i - from,
        decreases to - i,
    {
        proof {
            assert(s.take(i - from + 1).drop_last() =~= s.take(i - from));
        }
        if text[i] != LINE_FEED {
            cells.push(text[i]);
        }
        i += 1;
    }
    proof {
        assert(s.take(to - from) =~= s);
    }
    if width == 0 {
        return Err(InputError::Syntax);
    }
    let height = if by_lines {
        let found = split_lines(vstd::slice::slice_subrange(text, from, to));
        proof {
            lemma_lines_len(s);
        }
        found.len()
    } else {
        cells.len() / width
    };
    if height == 0 {
        return Err(InputError::Syntax);
    }
    let ghost filled = cells@;
    match ByteGrid::from_cells(height, width, cells) {
        Ok(grid) => {
            proof {
                assert(grid@ =~= picture(s, by_lines)) by {
                    assert forall|y: int| 0 <= y < height implies #[trigger] grid@[y] == picture(
                        s,
                        by_lines,
                    )[y] by {}
                }
                assert forall|y: int| 0 <= y < grid@.len() implies (#[trigger] grid@[y]).len()
                    == width by {
                    assert(y * width + width <= height * width) by (nonlinear_arith)
                        requires
                            0 <= y < height,
                            width >= 0,
                    ;
                    assert(0 <= y * width) by (nonlinear_arith)
                        requires
                            0 <= y,
                            0 <= width,
                    ;
                }
            }
            Ok(grid)
        },
        Err(_) => Err(InputError::Syntax),
    }
}

} // verus!
