//! The fifth day: the lowest location that a seed of an almanac is mapped to.
use crate::puzzles::d05::{almanac_fault, location, Almanac};
use vstd::prelude::*;
use vstd::string::StringSliceAdditionalSpecFns;

verus! {

/// The location of a seed.
pub open spec fn place(almanac: &Almanac, seed: int) -> int {
    location(almanac.view(), almanac.view().len() as int, seed)
}

/// Whether the seed numbers are pairs of a start and a length, each of a
/// range of at least one number that ends within 64 bits.
pub open spec fn are_ranges(seeds: Seq<u64>) -> bool {
    seeds.len() % 2 == 0 && forall|i: int| 0 <= i < seeds.len() / 2 ==> #[trigger] is_pair(seeds, i)
}

/// Whether the numbers of pair `i` are the start and the length of a range
/// of at least one number that ends within 64 bits.
pub open spec fn is_pair(seeds: Seq<u64>, i: int) -> bool {
    seeds[2 * i + 1] > 0 && seeds[2 * i] + seeds[2 * i + 1] <= u64::MAX
}

/// Whether the number is in the range of pair `i`.
pub open spec fn in_pair(seeds: Seq<u64>, i: int, x: int) -> bool {
    seeds[2 * i] <= x < seeds[2 * i] + seeds[2 * i + 1]
}

/// Whether the number is in one of the first `k` ranges.
pub open spec fn in_ranges(seeds: Seq<u64>, k: int, x: int) -> bool {
    exists|i: int| 0 <= i < k && #[trigger] in_pair(seeds, i, x)
}

/// The lowest of the locations of the seeds; the greatest number of 64 bits
/// where there is no seed.
pub fn lowest_location(almanac: &Almanac) -> (r: u64)
    requires
        almanac.wf(),
    ensures
        forall|i: int|
            0 <= i < almanac.seed_numbers().len() ==> r <= place(
                almanac,
                #[trigger] almanac.seed_numbers()[i] as int,
            ),
        r == u64::MAX || exists|i: int|
            0 <= i < almanac.seed_numbers().len() && r == place(
                almanac,
                #[trigger] almanac.seed_numbers()[i] as int,
            ),
{
    let seeds = almanac.seeds();
    let mut lowest: u64 = 0xffff_ffff_ffff_ffff;
    let mut k: usize = 0;
    while k < seeds.len()
        invariant
            k <= seeds.len(),
            almanac.wf(),
            seeds@ == almanac.seed_numbers(),
            forall|i: int| 0 <= i < k ==> lowest <= place(almanac, #[trigger] seeds@[i] as int),
            lowest == u64::MAX || exists|i: int|
                0 <= i < k && lowest == place(almanac, #[trigger] seeds@[i] as int),
        decreases seeds.len() - k,
    {
        let found = almanac.get_location_num(seeds[k]);
        if found < lowest {
            lowest = found;
        }
        k += 1;
    }
    lowest
}

/// The lowest of the locations of the seeds in the ranges that the seed
/// numbers give, two by two, as start and length; the greatest number of 64
/// bits where there is no range. `None` where the numbers are no such ranges.
pub fn lowest_location_in_ranges(almanac: &Almanac) -> (r: Option<u64>)
    requires
        almanac.wf(),
    ensures
        r is Some <==> are_ranges(almanac.seed_numbers()),
        r is Some ==> forall|x: int|
            in_ranges(almanac.seed_numbers(), almanac.seed_numbers().len() as int / 2, x)
                ==> r->Some_0 <= #[trigger] place(almanac, x),
        r is Some ==> r->Some_0 == u64::MAX || exists|x: int|
            in_ranges(almanac.seed_numbers(), almanac.seed_numbers().len() as int / 2, x)
                && r->Some_0 == #[trigger] place(almanac, x),
{
    let seeds = almanac.seeds();
    let ghost s = almanac.seed_numbers();
    if seeds.len() % 2 != 0 {
        return None;
    }
    let n = seeds.len() / 2;
    let mut lowest: u64 = 0xffff_ffff_ffff_ffff;
    let mut k: usize = 0;
    while k < n
        invariant
            k <= n,
            n == s.len() / 2,
            s.len() % 2 == 0,
            almanac.wf(),
            seeds@ == s,
            s == almanac.seed_numbers(),
            seeds@.len() <= usize::MAX,
            forall|i: int| 0 <= i < k ==> #[trigger] is_pair(s, i),
            forall|x: int| in_ranges(s, k as int, x) ==> lowest <= #[trigger] place(almanac, x),
            lowest == u64::MAX || exists|x: int|
                in_ranges(s, k as int, x) && lowest == #[trigger] place(almanac, x),
        decreases n - k,
    {
        proof {
            assert(2 * k + 1 < seeds@.len());
        }
        let start = seeds[2 * k];
        let len = seeds[2 * k + 1];
        let ghost at = k as int;
        if len == 0 || start > 0xffff_ffff_ffff_ffff - len {
            proof {
                if are_ranges(s) {
                    assert(is_pair(s, at));
                }
            }
            return None;
        }
        proof {
            assert(is_pair(s, at));
        }
        let found = almanac.get_min_location_for_range((start, start + len));
        let ghost before = lowest;
        if found < lowest {
            lowest = found;
        }
        proof {
            assert forall|x: int| in_ranges(s, k + 1, x) implies lowest <= #[trigger] place(
                almanac,
                x,
            ) by {
                let i = choose|i: int| 0 <= i < k + 1 && #[trigger] in_pair(s, i, x);
                if i < k {
                    assert(in_ranges(s, k as int, x));
                }
            }
            if lowest != u64::MAX {
                if lowest == found {
                    let x = choose|x: int|
                        start <= x < start + len && found == #[trigger] location(
                            almanac.view(),
                            almanac.view().len() as int,
                            x,
                        );
                    assert(in_pair(s, at, x));
                    assert(in_ranges(s, k + 1, x) && lowest == place(almanac, x));
                } else {
                    let x = choose|x: int|
                        in_ranges(s, k as int, x) && before == #[trigger] place(almanac, x);
                    let i = choose|i: int| 0 <= i < k && #[trigger] in_pair(s, i, x);
                    assert(in_pair(s, i, x));
                    assert(in_ranges(s, k + 1, x) && lowest == place(almanac, x));
                }
            }
        }
        k += 1;
    }
    Some(lowest)
}

/// The lowest location of the seeds of the almanac; `None` where the text
/// is no almanac.
pub fn part_one(input: &str) -> (r: Option<u64>)
    ensures
        almanac_fault(input.spec_bytes()) is Some ==> r is None,
        almanac_fault(input.spec_bytes()) is None ==> r is Some && exists|almanac: Almanac| #[trigger]
            almanac.holds(input.spec_bytes()) && is_lowest(&almanac, r->Some_0),
{
    match Almanac::parse(input) {
        Ok(almanac) => {
            let lowest = lowest_location(&almanac);
            proof {
                assert(almanac.holds(input.spec_bytes()) && is_lowest(&almanac, lowest));
            }
            Some(lowest)
        },
        Err(_) => None,
    }
}

/// Whether `v` is the lowest of the locations of the seeds of the almanac,
/// or the greatest number of 64 bits where there is no lower location.
pub open spec fn is_lowest(almanac: &Almanac, v: u64) -> bool {
    &&& forall|i: int|
        0 <= i < almanac.seed_numbers().len() ==> v <= place(
            almanac,
            #[trigger] almanac.seed_numbers()[i] as int,
        )
    &&& v == u64::MAX || exists|i: int|
        0 <= i < almanac.seed_numbers().len() && v == place(
            almanac,
            #[trigger] almanac.seed_numbers()[i] as int,
        )
}

/// Whether `r` is the lowest of the locations of the seeds in the ranges of
/// the almanac, or the greatest number of 64 bits where there is no lower
/// location; nothing where the seed numbers are no ranges.
pub open spec fn is_lowest_in_ranges(almanac: &Almanac, r: Option<u64>) -> bool {
    let seeds = almanac.seed_numbers();
    &&& r is Some <==> are_ranges(seeds)
    &&& r is Some ==> forall|x: int|
        in_ranges(seeds, seeds.len() as int / 2, x) ==> r->Some_0 <= #[trigger] place(almanac, x)
    &&& r is Some ==> r->Some_0 == u64::MAX || exists|x: int|
        in_ranges(seeds, seeds.len() as int / 2, x) && r->Some_0 == #[trigger] place(almanac, x)
}

/// The lowest location of the seeds in the ranges of the almanac; `None`
/// where the text is no almanac or its seed numbers are no ranges.
pub fn part_two(input: &str) -> (r: Option<u64>)
    ensures
        almanac_fault(input.spec_bytes()) is Some ==> r is None,
        almanac_fault(input.spec_bytes()) is None ==> exists|almanac: Almanac| #[trigger]
            almanac.holds(input.spec_bytes()) && is_lowest_in_ranges(&almanac, r),
{
    match Almanac::parse(input) {
        Ok(almanac) => {
            let lowest = lowest_location_in_ranges(&almanac);
            proof {
                assert(almanac.holds(input.spec_bytes()) && is_lowest_in_ranges(&almanac, lowest));
            }
            lowest
        },
        Err(_) => None,
    }
}

} // verus!
