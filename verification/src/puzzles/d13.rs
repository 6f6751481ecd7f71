//! Patterns of ash and rocks in a valley of mirrors: where a pattern is
//! mirrored between two of its rows or of its columns.
use super::blocks::{is_picture, picture, read_picture};
use crate::grids::ByteGrid;
use crate::text::{parts, split_at_each, InputError};
use vstd::array::array_as_slice;
use vstd::prelude::*;
use vstd::string::StringSliceAdditionalSpecFns;

verus! {

/// The patterns of a valley.
pub struct Valley {
    patterns: Vec<Pattern>,
}

/// One pattern.
pub struct Pattern {
    grid: ByteGrid,
}

/// The most rows and the most columns of a pattern.
pub const MAX_SIDE: usize = 40_000_000;

/// A pattern has at least one row, and its rows have one length, which is at
/// least one.
pub open spec fn is_pattern(g: Seq<Seq<u8>>) -> bool {
    &&& 1 <= g.len() <= MAX_SIDE
    &&& 1 <= g[0].len() <= MAX_SIDE
    &&& forall|y: int| 0 <= y < g.len() ==> (#[trigger] g[y]).len() == g[0].len()
}

/// The smaller of two numbers.
pub open spec fn smaller(a: int, b: int) -> int {
    if a <= b {
        a
    } else {
        b
    }
}

/// The rows above the line under row `row_idx` are the mirror image of the
/// rows below it, as far as both reach.
pub open spec fn mirrored_rows(g: Seq<Seq<u8>>, row_idx: int) -> bool {
    forall|delta: int|
        0 <= delta < smaller(row_idx + 1, g.len() - row_idx - 1) ==> (#[trigger] g[row_idx
            - delta]) == g[row_idx + delta + 1]
}

/// Two columns hold the same.
pub open spec fn same_columns(g: Seq<Seq<u8>>, a: int, b: int) -> bool {
    forall|y: int| 0 <= y < g.len() ==> (#[trigger] g[y])[a] == g[y][b]
}

/// The columns left of the line behind column `col_idx` are the mirror image
/// of the columns right of it, as far as both reach.
pub open spec fn mirrored_columns(g: Seq<Seq<u8>>, col_idx: int) -> bool {
    forall|delta: int|
        0 <= delta < smaller(col_idx + 1, g[0].len() - col_idx - 1) ==> #[trigger] same_columns(
            g,
            col_idx - delta,
            col_idx + delta + 1,
        )
}

/// The first row from `from` on with a line of reflection under it, or -1.
pub open spec fn first_row(g: Seq<Seq<u8>>, from: int) -> int
    decreases g.len() - from,
{
    if from < 0 || from >= g.len() - 1 {
        -1
    } else if mirrored_rows(g, from) {
        from
    } else {
        first_row(g, from + 1)
    }
}

/// The first column from `from` on with a line of reflection behind it, or -1.
pub open spec fn first_column(g: Seq<Seq<u8>>, from: int) -> int
    decreases g[0].len() - from,
{
    if from < 0 || from >= g[0].len() - 1 {
        -1
    } else if mirrored_columns(g, from) {
        from
    } else {
        first_column(g, from + 1)
    }
}

/// The score of a pattern: a hundred times the number of rows above its first
/// line of reflection between rows; without such a line, the number of columns
/// left of its first line of reflection between columns; without any, nothing.
pub open spec fn score(g: Seq<Seq<u8>>) -> int {
    if first_row(g, 0) >= 0 {
        100 * (first_row(g, 0) + 1)
    } else if first_column(g, 0) >= 0 {
        first_column(g, 0) + 1
    } else {
        0
    }
}

/// The sum of the scores of the first `k` patterns.
pub open spec fn score_sum(gs: Seq<Seq<Seq<u8>>>, k: int) -> int
    decreases k,
{
    if k <= 0 {
        0
    } else {
        score_sum(gs, k - 1) + score(gs[k - 1])
    }
}

/// What the search for a line of reflection finds is a row or column, or -1.
pub proof fn lemma_first_found(g: Seq<Seq<u8>>, from: int)
    ensures
        first_row(g, from) >= -1,
        first_column(g, from) >= -1,
    decreases smaller(g.len() - from, g[0].len() - from), g.len() + g[0].len() - from,
{
    lemma_first_row(g, from);
    lemma_first_column(g, from);
}

/// What the search among rows finds is a row, or -1.
pub proof fn lemma_first_row(g: Seq<Seq<u8>>, from: int)
    ensures
        first_row(g, from) >= -1,
    decreases g.len() - from,
{
    if 0 <= from < g.len() - 1 && !mirrored_rows(g, from) {
        lemma_first_row(g, from + 1);
    }
}

/// What the search among columns finds is a column, or -1.
pub proof fn lemma_first_column(g: Seq<Seq<u8>>, from: int)
    ensures
        first_column(g, from) >= -1,
    decreases g[0].len() - from,
{
    if 0 <= from < g[0].len() - 1 && !mirrored_columns(g, from) {
        lemma_first_column(g, from + 1);
    }
}

/// A score is not negative, and the sums of scores grow.
pub proof fn lemma_score_sum_grows(gs: Seq<Seq<Seq<u8>>>, a: int, b: int)
    requires
        0 <= a <= b,
    ensures
        score_sum(gs, a) <= score_sum(gs, b),
    decreases b,
{
    if a < b {
        lemma_score_sum_grows(gs, a, b - 1);
        lemma_first_found(gs[b - 1], 0);
    }
}

/// An empty line: what parts the patterns.
pub open spec fn gap() -> Seq<u8> {
    seq![10u8, 10]
}

impl Pattern {
    /// The pattern, row by row.
    pub closed spec fn view(&self) -> Seq<Seq<u8>> {
        self.grid@
    }

    /// The score of the pattern.
    pub fn symmetry_score(&self) -> (r: u32)
        requires
            is_pattern(self.view()),
        ensures
            r == score(self.view()),
            r <= 100 * MAX_SIDE,
    {
        let height = self.grid.height();
        let width = self.grid.width();
        let ghost g = self.view();
        let mut row_idx: usize = 0;
        while row_idx < height - 1
            invariant
                row_idx <= height - 1,
                height == g.len(),
                g == self.view(),
                is_pattern(g),
                first_row(g, 0) == first_row(g, row_idx as int),
            decreases height - row_idx,
        {
            if self.has_horizontal_symmetry_at(row_idx) {
                return 100 * (row_idx as u32 + 1);
            }
            row_idx += 1;
        }
        let mut col_idx: usize = 0;
        while col_idx < width - 1
            invariant
                col_idx <= width - 1,
                width == g[0].len(),
                g == self.view(),
                is_pattern(g),
                first_row(g, 0) == -1,
                first_column(g, 0) == first_column(g, col_idx as int),
            decreases width - col_idx,
        {
            if self.has_vertical_symmetry_at(col_idx) {
                return col_idx as u32 + 1;
            }
            col_idx += 1;
        }
        0
    }

    /// Whether the rows above the line under row `row_idx` mirror those below.
    pub fn has_horizontal_symmetry_at(&self, row_idx: usize) -> (b: bool)
        requires
            is_pattern(self.view()),
            row_idx < self.view().len(),
        ensures
            b == mirrored_rows(self.view(), row_idx as int),
    {
        let height = self.grid.height();
        let width = self.grid.width();
        let ghost g = self.view();
        let reach = if row_idx + 1 < height - row_idx - 1 {
            row_idx + 1
        } else {
            height - row_idx - 1
        };
        let mut delta: usize = 0;
        while delta < reach
            invariant
                delta <= reach,
                reach == smaller(row_idx + 1, height - row_idx - 1),
                height == g.len(),
                width == g[0].len(),
                g == self.view(),
                is_pattern(g),
                row_idx < height,
                forall|d: int| 0 <= d < delta ==> (#[trigger] g[row_idx - d]) == g[row_idx + d + 1],
            decreases reach - delta,
        {
            let ghost above = g[row_idx - delta];
            let ghost below = g[row_idx + delta + 1];
            let mut x: usize = 0;
            while x < width
                invariant
                    x <= width,
                    above == g[row_idx - delta],
                    below == g[row_idx + delta + 1],
                    delta < reach,
                    reach == smaller(row_idx + 1, height - row_idx - 1),
                    height == g.len(),
                    width == g[0].len(),
                    g == self.view(),
                    is_pattern(g),
                    forall|c: int| 0 <= c < x ==> (#[trigger] above[c]) == below[c],
                decreases width - x,
            {
                proof {
                    assert(g[row_idx - delta].len() == width);
                    assert(g[row_idx + delta + 1].len() == width);
                }
                if self.grid.get(row_idx - delta, x) != self.grid.get(row_idx + delta + 1, x) {
                    proof {
                        assert(g[row_idx - delta] != g[row_idx + delta + 1]);
                    }
                    return false;
                }
                x += 1;
            }
            proof {
                assert(g[row_idx - delta].len() == width);
                assert(g[row_idx + delta + 1].len() == width);
                assert(g[row_idx - delta] =~= g[row_idx + delta + 1]);
            }
            delta += 1;
        }
        true
    }

    /// Whether the columns left of the line behind column `col_idx` mirror
    /// those right of it.
    pub fn has_vertical_symmetry_at(&self, col_idx: usize) -> (b: bool)
        requires
            is_pattern(self.view()),
            col_idx < self.view()[0].len(),
        ensures
            b == mirrored_columns(self.view(), col_idx as int),
    {
        let height = self.grid.height();
        let width = self.grid.width();
        let ghost g = self.view();
        let reach = if col_idx + 1 < width - col_idx - 1 {
            col_idx + 1
        } else {
            width - col_idx - 1
        };
        let mut delta: usize = 0;
        while delta < reach
            invariant
                delta <= reach,
                reach == smaller(col_idx + 1, width - col_idx - 1),
                height == g.len(),
                width == g[0].len(),
                g == self.view(),
                is_pattern(g),
                col_idx < width,
                forall|d: int|
                    0 <= d < delta ==> #[trigger] same_columns(g, col_idx - d, col_idx + d + 1),
            decreases reach - delta,
        {
            let mut y: usize = 0;
            while y < height
                invariant
                    y <= height,
                    delta < reach,
                    reach == smaller(col_idx + 1, width - col_idx - 1),
                    height == g.len(),
                    width == g[0].len(),
                    g == self.view(),
                    is_pattern(g),
                    forall|r: int|
                        0 <= r < y ==> (#[trigger] g[r])[col_idx - delta] == g[r][col_idx + delta
                            + 1],
                decreases height - y,
            {
                proof {
                    assert(g[y as int].len() == width);
                }
                if self.grid.get(y, col_idx - delta) != self.grid.get(y, col_idx + delta + 1) {
                    proof {
                        assert(!same_columns(g, col_idx - delta, col_idx + delta + 1));
                    }
                    return false;
                }
                y += 1;
            }
            delta += 1;
        }
        true
    }

    /// Reads a pattern from the text between `from` and `to`: as many rows as
    /// lines, as wide as the first line.
    pub fn from_bytes(text: &[u8], from: usize, to: usize) -> (r: Result<Pattern, InputError>)
        requires
            from <= to <= text.len(),
            to - from <= MAX_SIDE,
        ensures
            r is Ok <==> is_picture(text@.subrange(from as int, to as int), true),
            r is Ok ==> r->Ok_0.view() == picture(text@.subrange(from as int, to as int), true),
            r is Ok ==> is_pattern(r->Ok_0.view()),
    {
        match read_picture(text, from, to, true) {
            Ok(grid) => {
                proof {
                    let s = text@.subrange(from as int, to as int);
                    super::blocks::lemma_cells_len(s);
                    let h = grid@.len() as int;
                    let w = grid@[0].len() as int;
                    assert(h <= h * w && w <= h * w) by (nonlinear_arith)
                        requires
                            h >= 1,
                            w >= 1,
                    ;
                }
                Ok(Pattern { grid })
            },
            Err(e) => Err(e),
        }
    }
}

impl Valley {
    /// The patterns, each row by row.
    pub closed spec fn view(&self) -> Seq<Seq<Seq<u8>>> {
        Seq::new(self.patterns@.len(), |i: int| self.patterns@[i].view())
    }

    /// Every pattern has rows and columns.
    pub closed spec fn wf(&self) -> bool {
        forall|i: int| 0 <= i < self.patterns@.len() ==> is_pattern((#[trigger] self.patterns@[i]).view())
    }

    /// The sum of the scores of the patterns, where it fits in 32 bits.
    pub fn checked_sum_symmetry_score(&self) -> (r: Option<u32>)
        requires
            self.wf(),
        ensures
            0 <= score_sum(self.view(), self.view().len() as int),
            r == (if score_sum(self.view(), self.view().len() as int) <= u32::MAX {
                Some(score_sum(self.view(), self.view().len() as int) as u32)
            } else {
                None
            }),
    {
        let mut total: u64 = 0;
        let mut i: usize = 0;
        proof {
            lemma_score_sum_grows(self.view(), 0, self.view().len() as int);
        }
        while i < self.patterns.len()
            invariant
                i <= self.patterns.len(),
                self.wf(),
                self.patterns.len() == self.view().len(),
                total == score_sum(self.view(), i as int),
                total <= u32::MAX,
            decreases self.patterns.len() - i,
        {
            proof {
                assert(self.view()[i as int] == self.patterns@[i as int].view());
                lemma_score_sum_grows(self.view(), i + 1, self.view().len() as int);
            }
            total = total + self.patterns[i].symmetry_score() as u64;
            if total > 0xffff_ffff {
                return None;
            }
            i += 1;
        }
        Some(total as u32)
    }

    /// The sum of the scores of the patterns.
    pub fn sum_symmetry_score(&self) -> (r: u32)
        requires
            self.wf(),
            score_sum(self.view(), self.view().len() as int) <= u32::MAX,
        ensures
            r == score_sum(self.view(), self.view().len() as int),
    {
        let mut total: u32 = 0;
        let mut i: usize = 0;
        while i < self.patterns.len()
            invariant
                i <= self.patterns.len(),
                self.wf(),
                self.patterns.len() == self.view().len(),
                score_sum(self.view(), self.view().len() as int) <= u32::MAX,
                total == score_sum(self.view(), i as int),
            decreases self.patterns.len() - i,
        {
            proof {
                assert(self.view()[i as int] == self.patterns@[i as int].view());
                lemma_score_sum_grows(self.view(), i + 1, self.view().len() as int);
            }
            total = total + self.patterns[i].symmetry_score();
            i += 1;
        }
        total
    }

    /// Reads a valley: its patterns, parted by empty lines.
    #[verifier::loop_isolation(false)]
    pub fn from_bytes(text: &[u8]) -> (r: Result<Valley, InputError>)
        requires
            text@.len() <= MAX_SIDE,
        ensures
            r is Ok <==> forall|i: int|
                0 <= i < parts(text@, gap()).len() ==> is_picture(
                    #[trigger] parts(text@, gap())[i],
                    true,
                ),
            r is Ok ==> r->Ok_0.wf() && r->Ok_0.view() == Seq::new(
                parts(text@, gap()).len(),
                |i: int| picture(parts(text@, gap())[i], true),
            ),
            r is Err ==> r == Err::<Valley, InputError>(InputError::Syntax),
    {
        let sep: [u8; 2] = [10, 10];
        proof {
            assert(sep@ =~= gap());
            assert(text@.subrange(0, text@.len() as int) =~= text@);
        }
        let spans = split_at_each(text, 0, text.len(), array_as_slice(&sep));
        let ghost ps = parts(text@, gap());
        let mut patterns: Vec<Pattern> = Vec::new();
        let mut i: usize = 0;
        while i < spans.len()
            invariant
                i <= spans.len(),
                patterns.len() == i,
                forall|j: int|
                    0 <= j < i ==> is_picture(#[trigger] ps[j], true) && patterns@[j].view()
                        == picture(ps[j], true) && is_pattern(patterns@[j].view()),
            decreases spans.len() - i,
        {
            let (a, b) = spans[i];
            match Pattern::from_bytes(text, a, b) {
                Ok(p) => {
                    let ghost earlier = patterns@;
                    proof {
                        assert(text@.subrange(a as int, b as int) == ps[i as int]);
                    }
                    patterns.push(p);
                    proof {
                        assert forall|j: int| 0 <= j < i + 1 implies is_picture(
                            #[trigger] ps[j],
                            true,
                        ) && patterns@[j].view() == picture(ps[j], true) && is_pattern(
                            patterns@[j].view(),
                        ) by {
                            if j < i {
                                assert(patterns@[j] == earlier[j]);
                            }
                        }
                    }
                },
                Err(_) => {
                    proof {
                        assert(text@.subrange(a as int, b as int) == ps[i as int]);
                        assert(!is_picture(ps[i as int], true));
                    }
                    return Err(InputError::Syntax);
                },
            }
            i += 1;
        }
        let valley = Valley { patterns };
        proof {
            assert(valley.view() =~= Seq::new(ps.len(), |i: int| picture(ps[i], true))) by {
                assert forall|j: int| 0 <= j < ps.len() implies #[trigger] valley.view()[j]
                    == picture(ps[j], true) by {
                    assert(is_picture(ps[j], true));
                }
            }
            assert forall|j: int| 0 <= j < valley.patterns@.len() implies is_pattern(
                (#[trigger] valley.patterns@[j]).view(),
            ) by {
                assert(is_picture(ps[j], true));
            }
        }
        Ok(valley)
    }

    /// Reads a valley.
    pub fn parse(s: &str) -> (r: Result<Valley, InputError>)
        requires
            s.spec_bytes().len() <= MAX_SIDE,
        ensures
            r is Ok <==> forall|i: int|
                0 <= i < parts(s.spec_bytes(), gap()).len() ==> is_picture(
                    #[trigger] parts(s.spec_bytes(), gap())[i],
                    true,
                ),
    {
        Valley::from_bytes(s.as_bytes())
    }
}

} // verus!
