//! The sixteenth day: the tiles that a beam of light passes.
use crate::puzzles::blocks::{is_picture, lemma_picture_shape, picture};
use crate::puzzles::d16::{is_mirror_grid, Direction, MirrorGrid, MAX_TILES};
use vstd::prelude::*;
use vstd::string::StringSliceAdditionalSpecFns;

verus! {

/// Whether the text is a grid of mirrors that can be read.
pub open spec fn is_readable(text: Seq<u8>) -> bool {
    text.len() <= MAX_TILES && is_picture(text, false) && is_mirror_grid(picture(text, false))
}

/// The number of tiles that the beam passes which enters the grid at the
/// top left, heading east; `None` where the text is no grid of mirrors.
pub fn part_one(input: &str) -> (r: Option<u32>)
    ensures
        r is Some <==> is_readable(input.spec_bytes()),
{
    if input.as_bytes().len() > MAX_TILES {
        return None;
    }
    let mirrors = match MirrorGrid::parse(input) {
        Ok(mirrors) => mirrors,
        Err(_) => {
            return None;
        },
    };
    proof {
        lemma_picture_shape(input.spec_bytes(), false);
    }
    if !mirrors.is_sound() {
        return None;
    }
    let path = mirrors.follow_beam((0, 0), Direction::East);
    Some(path.num_energized())
}

/// No answer.
pub fn part_two(_input: &str) -> (r: Option<u32>)
    ensures
        r is None,
{
    None
}

} // verus!
