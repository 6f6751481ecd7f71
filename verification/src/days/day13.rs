//! The thirteenth day: the mirrors in the patterns of a valley.
use crate::puzzles::blocks::{is_picture, picture};
use crate::puzzles::d13::{gap, score_sum, Valley, MAX_SIDE};
use crate::text::parts;
use vstd::prelude::*;
use vstd::string::StringSliceAdditionalSpecFns;

verus! {

/// Whether the text is a valley that can be read: not too long, and each of
/// its parts a pattern.
pub open spec fn is_readable(text: Seq<u8>) -> bool {
    text.len() <= MAX_SIDE && forall|i: int|
        0 <= i < parts(text, gap()).len() ==> is_picture(#[trigger] parts(text, gap())[i], true)
}

/// The patterns of a text: the pictures of its parts.
pub open spec fn patterns_of(text: Seq<u8>) -> Seq<Seq<Seq<u8>>> {
    Seq::new(parts(text, gap()).len(), |i: int| picture(parts(text, gap())[i], true))
}

/// The sum of the scores of the mirrors of the patterns; `None` where the
/// text is no valley or the sum does not fit in 32 bits.
pub fn part_one(input: &str) -> (r: Option<u32>)
    ensures
        !is_readable(input.spec_bytes()) ==> r is None,
        is_readable(input.spec_bytes()) ==> r == (if score_sum(
            patterns_of(input.spec_bytes()),
            patterns_of(input.spec_bytes()).len() as int,
        ) <= u32::MAX {
            Some(
                score_sum(
                    patterns_of(input.spec_bytes()),
                    patterns_of(input.spec_bytes()).len() as int,
                ) as u32,
            )
        } else {
            None
        }),
{
    if input.as_bytes().len() > MAX_SIDE {
        return None;
    }
    match Valley::from_bytes(input.as_bytes()) {
        Ok(valley) => valley.checked_sum_symmetry_score(),
        Err(_) => None,
    }
}

/// No answer.
pub fn part_two(_input: &str) -> (r: Option<u32>)
    ensures
        r is None,
{
    None
}

} // verus!
