//! The fifteenth day: the hashes of the steps of a sequence, and the lenses
//! that the steps leave in the boxes.
use crate::puzzles::d15::{boxes_after_all, focusing_power, hash_sum, step_of, InitSequence};
use crate::text::fields;
use vstd::prelude::*;
use vstd::string::StringSliceAdditionalSpecFns;

verus! {

/// The steps that a text stands for, where every part of it between commas
/// is a step.
pub open spec fn steps_of(text: Seq<u8>) -> Option<Seq<crate::puzzles::d15::StepModel>> {
    if forall|i: int| 0 <= i < fields(text, 44).len() ==> (#[trigger] step_of(fields(text, 44)[i])) is Ok {
        Some(Seq::new(fields(text, 44).len(), |i: int| step_of(fields(text, 44)[i])->Ok_0))
    } else {
        None
    }
}

/// The sum of the hashes of the steps; `None` where the text is no sequence
/// of steps or the sum does not fit in 32 bits.
pub fn part_one(input: &str) -> (r: Option<u32>)
    ensures
        r == (match steps_of(input.spec_bytes()) {
            Some(steps) => if hash_sum(steps, steps.len() as int) <= u32::MAX {
                Some(hash_sum(steps, steps.len() as int) as u32)
            } else {
                None
            },
            None => None,
        }),
{
    match InitSequence::parse(input) {
        Ok(sequence) => sequence.checked_sum_hashes(),
        Err(_) => None,
    }
}

/// The power of the lenses in the boxes once every step has been taken;
/// `None` where the text is no sequence of steps or the power does not fit in
/// 32 bits.
pub fn part_two(input: &str) -> (r: Option<u32>)
    ensures
        r == (match steps_of(input.spec_bytes()) {
            Some(steps) => if focusing_power(boxes_after_all(steps, 256, steps.len() as int), 256)
                <= u32::MAX {
                Some(focusing_power(boxes_after_all(steps, 256, steps.len() as int), 256) as u32)
            } else {
                None
            },
            None => None,
        }),
{
    match InitSequence::parse(input) {
        Ok(sequence) => sequence.checked_total_resulting_power(),
        Err(_) => None,
    }
}

} // verus!
