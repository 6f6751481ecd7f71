//! The seventeenth day: the cheapest path of a crucible through a city.
use crate::puzzles::d17::rules::{is_cheapest, Policy};
use crate::puzzles::d17::text::{is_block, is_layout, is_oversized, layout_grid};
use crate::puzzles::d17::CityMap;
use vstd::prelude::*;
use vstd::string::StringSliceAdditionalSpecFns;

verus! {

/// Whether `r` is the answer for a text under a policy: the least cost of a
/// path through the grid that the text lays out, or nothing where the text
/// lays out no grid or the grid has no such path.
pub open spec fn is_answer(policy: Policy, text: Seq<u8>, r: Option<u32>) -> bool {
    if is_block(text) && !is_oversized(text) {
        exists|h: int, w: int| #[trigger]
            is_layout(text, h, w) && is_cheapest(policy, layout_grid(text, h, w), r)
    } else {
        r is None
    }
}

/// The least cost of a path that keeps to the rule of the bounded run.
pub fn part_one(input: &str) -> (r: Option<u32>)
    ensures
        is_answer(Policy::BoundedRun, input.spec_bytes(), r),
{
    match CityMap::parse(input) {
        Ok(map) => {
            let cost = map.cheapest_path_cost_normal();
            proof {
                let h = crate::puzzles::d17::rules::height(map@);
                let w = crate::puzzles::d17::rules::width(map@);
                assert(is_layout(input.spec_bytes(), h, w));
            }
            cost
        },
        Err(_) => None,
    }
}

/// The least cost of a path that keeps to the rule of the minimum run.
pub fn part_two(input: &str) -> (r: Option<u32>)
    ensures
        is_answer(Policy::MinimumRun, input.spec_bytes(), r),
{
    match CityMap::parse(input) {
        Ok(map) => {
            let cost = map.cheapest_path_cost_ultra();
            proof {
                let h = crate::puzzles::d17::rules::height(map@);
                let w = crate::puzzles::d17::rules::width(map@);
                assert(is_layout(input.spec_bytes(), h, w));
            }
            cost
        },
        Err(_) => None,
    }
}

} // verus!
