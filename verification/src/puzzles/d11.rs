//! Galaxies in an expanding universe: the sum of the distances between all
//! pairs of them, where a distance is counted in steps along the grid.
use crate::sorting::{is_sorted, sort_numbers};
use crate::text::{as_ints, lemma_lines_len, lines, split_lines, InputError};
use vstd::prelude::*;
use vstd::string::StringSliceAdditionalSpecFns;

verus! {

/// The galaxies: their columns in rising order, and their rows in rising
/// order. Which column belongs to which row is not kept.
pub struct Galaxies {
    xs: Vec<i64>,
    ys: Vec<i64>,
}

/// The byte that marks a galaxy.
pub const GALAXY: u8 = 35;

/// Whether the number fits in 64 bits with a sign.
pub open spec fn in_i64(v: int) -> bool {
    i64::MIN <= v <= i64::MAX
}

/// Whether the byte starts a character, as opposed to going on with one.
pub open spec fn starts_char(b: u8) -> bool {
    b < 128 || b >= 192
}

/// The number of characters in a line.
pub open spec fn char_count(line: Seq<u8>) -> int
    decreases line.len(),
{
    if line.len() == 0 {
        0
    } else {
        char_count(line.drop_last()) + if starts_char(line.last()) {
            1int
        } else {
            0int
        }
    }
}

/// The columns of the galaxies in a line, from left to right, counted in
/// characters.
pub open spec fn marks(line: Seq<u8>) -> Seq<i64>
    decreases line.len(),
{
    if line.len() == 0 {
        Seq::<i64>::empty()
    } else if line.last() == GALAXY {
        marks(line.drop_last()).push(char_count(line.drop_last()) as i64)
    } else {
        marks(line.drop_last())
    }
}

/// The columns of all galaxies, line by line.
pub open spec fn columns(ls: Seq<Seq<u8>>) -> Seq<i64>
    decreases ls.len(),
{
    if ls.len() == 0 {
        Seq::<i64>::empty()
    } else {
        columns(ls.drop_last()) + marks(ls.last())
    }
}

/// The rows of all galaxies, line by line.
pub open spec fn rows(ls: Seq<Seq<u8>>) -> Seq<i64>
    decreases ls.len(),
{
    if ls.len() == 0 {
        Seq::<i64>::empty()
    } else {
        rows(ls.drop_last()) + Seq::new(marks(ls.last()).len(), |i: int| (ls.len() - 1) as i64)
    }
}

/// The part of the sum that the number at place `i` brings: the number, times
/// how many numbers stand before it less how many stand after it.
pub open spec fn term(s: Seq<i64>, i: int) -> int {
    s[i] * (2 * i - s.len() + 1)
}

/// The sum of the parts that the first `k` numbers bring.
pub open spec fn weighted_sum(s: Seq<i64>, k: int) -> int
    decreases k,
{
    if k <= 0 {
        0
    } else {
        weighted_sum(s, k - 1) + term(s, k - 1)
    }
}

/// The sum, and every part of it, and every sum on the way fits in 64 bits.
pub open spec fn sum_fits(s: Seq<i64>) -> bool {
    &&& 2 * s.len() <= i64::MAX
    &&& forall|i: int| 0 <= i < s.len() ==> in_i64(#[trigger] term(s, i))
    &&& forall|k: int| 0 <= k <= s.len() ==> in_i64(#[trigger] weighted_sum(s, k))
}

/// How many empty lines lie between the number at place `i` and the one
/// before it.
pub open spec fn gap(s: Seq<i64>, i: int) -> int {
    if i <= 0 || s[i] - s[i - 1] - 1 < 0 {
        0
    } else {
        s[i] - s[i - 1] - 1
    }
}

/// By how much the numbers from place `k - 1` on move when every empty line
/// before them grows to `multiplier` lines.
pub open spec fn shift(s: Seq<i64>, multiplier: int, k: int) -> int
    decreases k,
{
    if k <= 0 {
        0
    } else {
        shift(s, multiplier, k - 1) + gap(s, k - 1) * (multiplier - 1)
    }
}

/// The numbers after every empty line has grown to `multiplier` lines.
pub open spec fn expanded(s: Seq<i64>, multiplier: int) -> Seq<int> {
    Seq::new(s.len(), |i: int| s[i] + shift(s, multiplier, i + 1))
}

/// Growing the empty lines keeps every number, and every number on the way,
/// within 64 bits.
pub open spec fn expansion_fits(s: Seq<i64>, multiplier: int) -> bool {
    &&& forall|i: int|
        0 < i < s.len() ==> in_i64(s[i] - #[trigger] s[i - 1]) && in_i64(s[i] - s[i - 1] - 1)
    &&& forall|i: int| 0 <= i < s.len() ==> in_i64(#[trigger] gap(s, i) * (multiplier - 1))
    &&& forall|k: int| 0 <= k <= s.len() ==> in_i64(#[trigger] shift(s, multiplier, k))
    &&& forall|i: int| 0 <= i < s.len() ==> in_i64(s[i] + #[trigger] shift(s, multiplier, i + 1))
}

impl Galaxies {
    /// The columns of the galaxies.
    pub closed spec fn columns(&self) -> Seq<i64> {
        self.xs@
    }

    /// The rows of the galaxies.
    pub closed spec fn rows(&self) -> Seq<i64> {
        self.ys@
    }

    /// The sum over all pairs of galaxies of the distance between the two,
    /// counted in steps along the grid. With the columns `x` in rising order,
    /// the distances along the rows sum to `x[i]` times `2 * i - n + 1`,
    /// summed over the `n` galaxies; likewise for the rows.
    pub fn sum_pairwise_dist(&self) -> (r: i64)
        requires
            sum_fits(self.columns()),
            sum_fits(self.rows()),
            in_i64(
                weighted_sum(self.columns(), self.columns().len() as int) + weighted_sum(
                    self.rows(),
                    self.rows().len() as int,
                ),
            ),
        ensures
            r == weighted_sum(self.columns(), self.columns().len() as int) + weighted_sum(
                self.rows(),
                self.rows().len() as int,
            ),
    {
        Self::sum_abs_diff(&self.xs) + Self::sum_abs_diff(&self.ys)
    }

    /// Lets every empty column and every empty row grow to `multiplier` of
    /// them.
    pub fn expand(&mut self, multiplier: u32)
        requires
            expansion_fits(old(self).columns(), multiplier as int),
            expansion_fits(old(self).rows(), multiplier as int),
        ensures
            as_ints(final(self).columns()) == expanded(old(self).columns(), multiplier as int),
            as_ints(final(self).rows()) == expanded(old(self).rows(), multiplier as int),
    {
        Self::expand_arr(&mut self.xs, multiplier);
        Self::expand_arr(&mut self.ys, multiplier);
    }

    /// The sum of the distances between every two of the numbers, which are
    /// in rising order, where the sum and every number on the way to it fits in
    /// 64 bits.
    pub fn checked_sum_abs_diff(nums: &Vec<i64>) -> (r: Option<i64>)
        ensures
            r == (if sum_fits(nums@) {
                Some(weighted_sum(nums@, nums@.len() as int) as i64)
            } else {
                None
            }),
    {
        if nums.len() as u64 > 0x3fff_ffff_ffff_ffff {
            return None;
        }
        let n: i64 = nums.len() as i64;
        let mut total: i64 = 0;
        let mut i: usize = 0;
        while i < nums.len()
            invariant
                i <= nums.len(),
                n == nums.len(),
                2 * nums@.len() <= i64::MAX,
                forall|j: int| 0 <= j < i ==> in_i64(#[trigger] term(nums@, j)),
                forall|k: int| 0 <= k <= i ==> in_i64(#[trigger] weighted_sum(nums@, k)),
                total == weighted_sum(nums@, i as int),
            decreases nums.len() - i,
        {
            let place = i as i64;
            let factor = 2 * place - n + 1;
            let part = match nums[i].checked_mul(factor) {
                Some(v) => v,
                None => {
                    proof {
                        assert(!in_i64(term(nums@, i as int)));
                    }
                    return None;
                },
            };
            total = match total.checked_add(part) {
                Some(v) => v,
                None => {
                    proof {
                        assert(!in_i64(weighted_sum(nums@, i + 1)));
                    }
                    return None;
                },
            };
            proof {
                assert forall|k: int| 0 <= k <= i + 1 implies in_i64(
                    #[trigger] weighted_sum(nums@, k),
                ) by {
                    if k == i + 1 {
                        assert(weighted_sum(nums@, k) == total);
                    }
                }
            }
            i += 1;
        }
        Some(total)
    }

    /// Lets every empty line between the numbers, which are in rising order,
    /// grow to `multiplier` lines, where every number on the way fits in 64
    /// bits; else the result is `false`, and the numbers are of no use.
    pub fn checked_expand_arr(coords: &mut Vec<i64>, multiplier: u32) -> (done: bool)
        ensures
            done == expansion_fits(old(coords)@, multiplier as int),
            done ==> as_ints(final(coords)@) == expanded(old(coords)@, multiplier as int),
            final(coords)@.len() == old(coords)@.len(),
    {
        if coords.len() == 0 {
            proof {
                assert(as_ints(coords@) =~= expanded(old(coords)@, multiplier as int));
                assert(shift(old(coords)@, multiplier as int, 0) == 0);
            }
            return true;
        }
        let ghost before = coords@;
        let factor: i64 = multiplier as i64 - 1;
        let mut moved: i64 = 0;
        let mut last = coords[0];
        let mut i: usize = 0;
        while i < coords.len()
            invariant
                i <= coords.len(),
                coords.len() == before.len(),
                before == old(coords)@,
                factor == multiplier - 1,
                moved == shift(before, multiplier as int, i as int),
                i > 0 ==> last == before[i - 1],
                i == 0 ==> last == before[0],
                forall|j: int| i <= j < coords.len() ==> coords@[j] == before[j],
                forall|j: int|
                    0 <= j < i ==> coords@[j] == before[j] + shift(before, multiplier as int, j + 1),
                forall|j: int|
                    0 < j < i ==> in_i64(before[j] - #[trigger] before[j - 1]) && in_i64(
                        before[j] - before[j - 1] - 1,
                    ),
                forall|j: int| 0 <= j < i ==> in_i64(#[trigger] gap(before, j) * (multiplier - 1)),
                forall|k: int| 0 <= k <= i ==> in_i64(#[trigger] shift(before, multiplier as int, k)),
                forall|j: int|
                    0 <= j < i ==> in_i64(before[j] + #[trigger] shift(before, multiplier as int, j + 1)),
            decreases coords.len() - i,
        {
            let num = coords[i];
            let ghost at = i as int;
            let step = match num.checked_sub(last) {
                Some(v) => v,
                None => {
                    proof {
                        assert(at > 0);
                        assert(!in_i64(before[at] - before[at - 1]));
                    }
                    return false;
                },
            };
            let less = match step.checked_sub(1) {
                Some(v) => v,
                None => {
                    proof {
                        assert(at > 0);
                        assert(!in_i64(before[at] - before[at - 1] - 1));
                    }
                    return false;
                },
            };
            let empty: i64 = if less > 0 {
                less
            } else {
                0
            };
            proof {
                assert(empty == gap(before, at));
            }
            let grown = match empty.checked_mul(factor) {
                Some(v) => v,
                None => {
                    proof {
                        assert(!in_i64(gap(before, at) * (multiplier - 1)));
                    }
                    return false;
                },
            };
            moved = match moved.checked_add(grown) {
                Some(v) => v,
                None => {
                    proof {
                        assert(!in_i64(shift(before, multiplier as int, at + 1)));
                    }
                    return false;
                },
            };
            last = num;
            let place = match num.checked_add(moved) {
                Some(v) => v,
                None => {
                    proof {
                        assert(!in_i64(before[at] + shift(before, multiplier as int, at + 1)));
                    }
                    return false;
                },
            };
            coords[i] = place;
            proof {
                assert forall|k: int| 0 <= k <= i + 1 implies in_i64(
                    #[trigger] shift(before, multiplier as int, k),
                ) by {
                    if k == i + 1 {
                        assert(shift(before, multiplier as int, k) == moved);
                    }
                }
                assert forall|j: int| 0 < j < i + 1 implies in_i64(
                    before[j] - #[trigger] before[j - 1],
                ) && in_i64(before[j] - before[j - 1] - 1) by {
                    if j == at {
                        assert(before[at] - before[at - 1] == step);
                    }
                }
            }
            i += 1;
        }
        proof {
            assert(as_ints(coords@) =~= expanded(before, multiplier as int));
        }
        true
    }

    /// Lets every empty row and column between the galaxies grow to
    /// `multiplier` rows or columns, where every number on the way fits in 64
    /// bits; else the result is `false`, and the galaxies are of no use.
    pub fn checked_expand(&mut self, multiplier: u32) -> (done: bool)
        ensures
            done == (expansion_fits(old(self).columns(), multiplier as int) && expansion_fits(
                old(self).rows(),
                multiplier as int,
            )),
            done ==> as_ints(final(self).columns()) == expanded(
                old(self).columns(),
                multiplier as int,
            ) && as_ints(final(self).rows()) == expanded(old(self).rows(), multiplier as int),
    {
        let columns_done = Self::checked_expand_arr(&mut self.xs, multiplier);
        let rows_done = Self::checked_expand_arr(&mut self.ys, multiplier);
        columns_done && rows_done
    }

    /// The sum of the distances between every two galaxies, where the sum and
    /// every number on the way to it fits in 64 bits.
    pub fn checked_sum_pairwise_dist(&self) -> (r: Option<i64>)
        ensures
            r == (if sum_fits(self.columns()) && sum_fits(self.rows()) && in_i64(
                weighted_sum(self.columns(), self.columns().len() as int) + weighted_sum(
                    self.rows(),
                    self.rows().len() as int,
                ),
            ) {
                Some(
                    (weighted_sum(self.columns(), self.columns().len() as int) + weighted_sum(
                        self.rows(),
                        self.rows().len() as int,
                    )) as i64,
                )
            } else {
                None
            }),
    {
        let along = Self::checked_sum_abs_diff(&self.xs)?;
        let down = Self::checked_sum_abs_diff(&self.ys)?;
        along.checked_add(down)
    }

    /// The sum over all pairs of the numbers of their difference, for numbers
    /// in rising order.
    pub fn sum_abs_diff(nums: &Vec<i64>) -> (r: i64)
        requires
            sum_fits(nums@),
        ensures
            r == weighted_sum(nums@, nums@.len() as int),
    {
        let n: i64 = nums.len() as i64;
        let mut total: i64 = 0;
        let mut i: usize = 0;
        while i < nums.len()
            invariant
                i <= nums.len(),
                n == nums.len(),
                sum_fits(nums@),
                total == weighted_sum(nums@, i as int),
            decreases nums.len() - i,
        {
            let place = i as i64;
            let factor = 2 * place - n + 1;
            proof {
                assert(in_i64(term(nums@, i as int)));
                assert(in_i64(weighted_sum(nums@, i + 1)));
            }
            total = total + nums[i] * factor;
            i += 1;
        }
        total
    }

    /// Lets every gap between numbers that follow each other grow: of the
    /// numbers that lie between the two, each becomes `multiplier` numbers.
    pub fn expand_arr(coords: &mut Vec<i64>, multiplier: u32)
        requires
            expansion_fits(old(coords)@, multiplier as int),
        ensures
            as_ints(final(coords)@) == expanded(old(coords)@, multiplier as int),
    {
        if coords.len() == 0 {
            proof {
                assert(as_ints(coords@) =~= expanded(old(coords)@, multiplier as int));
            }
            return ;
        }
        let ghost before = coords@;
        let factor: i64 = multiplier as i64 - 1;
        let mut moved: i64 = 0;
        let mut last = coords[0];
        let mut i: usize = 0;
        while i < coords.len()
            invariant
                i <= coords.len(),
                coords.len() == before.len(),
                expansion_fits(before, multiplier as int),
                factor == multiplier - 1,
                moved == shift(before, multiplier as int, i as int),
                i > 0 ==> last == before[i - 1],
                i == 0 ==> last == before[0],
                forall|j: int| i <= j < coords.len() ==> coords@[j] == before[j],
                forall|j: int|
                    0 <= j < i ==> coords@[j] == before[j] + shift(before, multiplier as int, j + 1),
            decreases coords.len() - i,
        {
            let num = coords[i];
            proof {
                if i > 0 {
                    assert(in_i64(before[i as int] - before[i - 1]));
                    assert(in_i64(before[i as int] - before[i - 1] - 1));
                }
                assert(in_i64(gap(before, i as int) * (multiplier - 1)));
                assert(in_i64(shift(before, multiplier as int, i + 1)));
                assert(in_i64(before[i as int] + shift(before, multiplier as int, i + 1)));
            }
            let step = num - last;
            let empty: i64 = if step - 1 > 0 {
                step - 1
            } else {
                0
            };
            moved = moved + empty * factor;
            last = num;
            coords[i] = num + moved;
            i += 1;
        }
        proof {
            assert(as_ints(coords@) =~= expanded(before, multiplier as int));
        }
    }

    /// Reads the galaxies from a picture: one line for each row, a `#` for
    /// each galaxy.
    pub fn from_bytes(text: &[u8]) -> (r: Result<Galaxies, InputError>)
        ensures
            r is Ok <==> text@.len() <= i64::MAX,
            r is Err ==> r == Err::<Galaxies, InputError>(InputError::Number),
            r is Ok ==> r->Ok_0.rows() == rows(lines(text@)),
            r is Ok ==> is_sorted(r->Ok_0.columns()),
            r is Ok ==> r->Ok_0.columns().to_multiset() == columns(lines(text@)).to_multiset(),
    {
        if text.len() as u64 > i64::MAX as u64 {
            return Err(InputError::Number);
        }
        let spans = split_lines(text);
        let ghost ls = lines(text@);
        proof {
            lemma_lines_len(text@);
        }
        let mut xs: Vec<i64> = Vec::new();
        let mut ys: Vec<i64> = Vec::new();
        let mut y: usize = 0;
        while y < spans.len()
            invariant
                y <= spans.len(),
                spans.len() == ls.len(),
                ls.len() <= text@.len(),
                text@.len() <= i64::MAX,
                crate::text::spans_hold(text@, 0, text@.len() as int, spans@, ls),
                xs@ == columns(ls.take(y as int)),
                ys@ == rows(ls.take(y as int)),
            decreases spans.len() - y,
        {
            let (from, to) = spans[y];
            let ghost line = ls[y as int];
            let ghost xs_before = xs@;
            let ghost ys_before = ys@;
            let mut x: usize = 0;
            let mut pos = from;
            while pos < to
                invariant
                    from <= pos <= to <= text.len(),
                    text@.len() <= i64::MAX,
                    line == text@.subrange(from as int, to as int),
                    x == char_count(line.take(pos - from)),
                    x <= pos - from,
                    y < spans.len() <= text@.len(),
                    xs@ == xs_before + marks(line.take(pos - from)),
                    ys@ == ys_before + Seq::new(
                        marks(line.take(pos - from)).len(),
                        |i: int| y as i64,
                    ),
                decreases to - pos,
            {
                let b = text[pos];
                proof {
                    assert(line.take(pos - from + 1).drop_last() =~= line.take(pos - from));
                    assert(line.take(pos - from + 1).last() == b);
                }
                if b == GALAXY {
                    xs.push(x as i64);
                    ys.push(y as i64);
                    proof {
                        assert(xs@ =~= xs_before + marks(line.take(pos - from + 1)));
                        assert(ys@ =~= ys_before + Seq::new(
                            marks(line.take(pos - from + 1)).len(),
                            |i: int| y as i64,
                        ));
                    }
                }
                if b < 128 || b >= 192 {
                    x += 1;
                }
                pos += 1;
            }
            proof {
                assert(line.take(to - from) =~= line);
                assert(ls.take(y + 1).drop_last() =~= ls.take(y as int));
                assert(ls.take(y + 1).last() == line);
                assert(ls.take(y + 1).len() - 1 == y);
            }
            y += 1;
        }
        proof {
            assert(ls.take(spans.len() as int) =~= ls);
        }
        sort_numbers(&mut xs);
        // The rows were met in rising order.
        Ok(Galaxies { xs, ys })
    }

    /// Reads the galaxies from a picture.
    pub fn parse(s: &str) -> (r: Result<Galaxies, InputError>)
        ensures
            r is Ok <==> s.spec_bytes().len() <= i64::MAX,
            r is Ok ==> r->Ok_0.rows() == rows(lines(s.spec_bytes())),
            r is Ok ==> is_sorted(r->Ok_0.columns()),
            r is Ok ==> r->Ok_0.columns().to_multiset() == columns(
                lines(s.spec_bytes()),
            ).to_multiset(),
    {
        Galaxies::from_bytes(s.as_bytes())
    }
}

impl std::str::FromStr for Galaxies {
    type Err = InputError;

    fn from_str(s: &str) -> (r: Result<Self, Self::Err>) {
        Galaxies::parse(s)
    }
}

} // verus!
