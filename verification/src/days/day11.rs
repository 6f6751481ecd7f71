//! The eleventh day: the distances between the galaxies of a universe that
//! has grown.
use crate::puzzles::d11::{
    columns, expanded, expansion_fits, in_i64, rows, sum_fits, weighted_sum, Galaxies,
};
use crate::sorting::is_sorted;
use crate::text::{as_ints, lines};
use vstd::prelude::*;
use vstd::string::StringSliceAdditionalSpecFns;

verus! {

/// The sum of the distances between every two galaxies once every empty row
/// and column has grown to `multiplier` of them; `None` where the text is too
/// long or a number on the way does not fit in 64 bits.
pub fn sum_after_growth(input: &str, multiplier: u32) -> (r: Option<i64>)
    ensures
        input.spec_bytes().len() > i64::MAX ==> r is None,
        input.spec_bytes().len() <= i64::MAX ==> exists|galaxies: Galaxies| #[trigger]
            holds(&galaxies, input.spec_bytes()) && is_sum_after(&galaxies, multiplier, r),
{
    let mut galaxies = match Galaxies::parse(input) {
        Ok(galaxies) => galaxies,
        Err(_) => {
            return None;
        },
    };
    let ghost read = galaxies;
    if !galaxies.checked_expand(multiplier) {
        proof {
            assert(holds(&read, input.spec_bytes()) && is_sum_after(&read, multiplier, None));
        }
        return None;
    }
    let sum = galaxies.checked_sum_pairwise_dist();
    proof {
        assert(is_grown(&read, &galaxies, multiplier, sum));
        assert(holds(&read, input.spec_bytes()) && is_sum_after(&read, multiplier, sum));
    }
    sum
}

/// Whether the galaxies are those of the text: their rows in the order of
/// the text, their columns in rising order.
pub open spec fn holds(galaxies: &Galaxies, text: Seq<u8>) -> bool {
    &&& galaxies.rows() == rows(lines(text))
    &&& is_sorted(galaxies.columns())
    &&& galaxies.columns().to_multiset() == columns(lines(text)).to_multiset()
}

/// The sum of the distances between every two galaxies, where the sum and
/// every number on the way to it fits in 64 bits.
pub open spec fn distances(galaxies: &Galaxies) -> Option<i64> {
    let sum = weighted_sum(galaxies.columns(), galaxies.columns().len() as int) + weighted_sum(
        galaxies.rows(),
        galaxies.rows().len() as int,
    );
    if sum_fits(galaxies.columns()) && sum_fits(galaxies.rows()) && in_i64(sum) {
        Some(sum as i64)
    } else {
        None
    }
}

/// Whether `grown` holds the galaxies of `read` after the growth, and `r` is
/// the sum of the distances between them.
pub open spec fn is_grown(read: &Galaxies, grown: &Galaxies, multiplier: u32, r: Option<i64>) -> bool {
    &&& as_ints(grown.columns()) == expanded(read.columns(), multiplier as int)
    &&& as_ints(grown.rows()) == expanded(read.rows(), multiplier as int)
    &&& r == distances(grown)
}

/// Whether `r` is the sum of the distances between the galaxies once every
/// empty row and column has grown to `multiplier` of them; nothing where a
/// number on the way does not fit in 64 bits.
pub open spec fn is_sum_after(read: &Galaxies, multiplier: u32, r: Option<i64>) -> bool {
    if expansion_fits(read.columns(), multiplier as int) && expansion_fits(
        read.rows(),
        multiplier as int,
    ) {
        exists|grown: Galaxies| #[trigger] is_grown(read, &grown, multiplier, r)
    } else {
        r is None
    }
}

/// The sum of the distances where every empty row and column counts twice.
pub fn part_one(input: &str) -> (r: Option<i64>)
    ensures
        input.spec_bytes().len() > i64::MAX ==> r is None,
        input.spec_bytes().len() <= i64::MAX ==> exists|galaxies: Galaxies| #[trigger]
            holds(&galaxies, input.spec_bytes()) && is_sum_after(&galaxies, 2, r),
{
    sum_after_growth(input, 2)
}

/// The sum of the distances where every empty row and column counts a
/// million times.
pub fn part_two(input: &str) -> (r: Option<i64>)
    ensures
        input.spec_bytes().len() > i64::MAX ==> r is None,
        input.spec_bytes().len() <= i64::MAX ==> exists|galaxies: Galaxies| #[trigger]
            holds(&galaxies, input.spec_bytes()) && is_sum_after(&galaxies, 1_000_000, r),
{
    sum_after_growth(input, 1_000_000)
}

} // verus!
