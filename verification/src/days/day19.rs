//! The nineteenth day: the parts that a system of workflows accepts.
use crate::puzzles::d19::{
    accepted_in, accepted_total, all_parts, first_name, place_of, system_of, System,
};
use vstd::prelude::*;
use vstd::string::StringSliceAdditionalSpecFns;

verus! {

/// The sum of the ratings of the parts of the text that its workflows
/// accept; `None` where the text is no system or the sum does not fit in 32
/// bits.
pub fn part_one(input: &str) -> (r: Option<u32>)
    ensures
        r == (match system_of(input.spec_bytes()) {
            Ok((workflows, parts)) => if accepted_total(workflows, parts, parts.len() as int)
                <= u32::MAX {
                Some(accepted_total(workflows, parts, parts.len() as int) as u32)
            } else {
                None
            },
            Err(_) => None,
        }),
{
    match System::parse(input) {
        Ok(system) => system.checked_sum_accepted(),
        Err(_) => None,
    }
}

/// The number of parts with ratings from 1 to 4000 that the workflows of the
/// text accept; `None` where the text is no system.
pub fn part_two(input: &str) -> (r: Option<u64>)
    ensures
        r == (match system_of(input.spec_bytes()) {
            Ok((workflows, parts)) => Some(
                accepted_in(
                    workflows,
                    place_of(workflows, first_name(), 0),
                    0,
                    all_parts(),
                    workflows.len(),
                ) as u64,
            ),
            Err(_) => None,
        }),
{
    match System::parse(input) {
        Ok(system) => Some(system.n_distinct_accepted()),
        Err(_) => None,
    }
}

} // verus!
