//! The fourteenth day: the load on a platform of rocks that is tilted.
use crate::puzzles::blocks::{is_picture, picture};
use crate::puzzles::d14::{is_platform, load, spun, tilted, Platform, Tilt};
use vstd::prelude::*;
use vstd::string::StringSliceAdditionalSpecFns;

verus! {

/// The greatest length of a text that is read.
pub const MAX_TEXT: usize = 0x7fff_ffff;

/// The number of rounds of tilts of the second answer.
pub const ROUNDS: usize = 1_000_000_000;

/// The load of a platform.
pub open spec fn load_of(g: Seq<Seq<u8>>) -> int {
    load(g, g.len() as int)
}

/// Whether the text is a platform that can be read: not too long, a picture,
/// and every tile of it a rock or empty ground.
pub open spec fn is_readable(text: Seq<u8>) -> bool {
    text.len() <= MAX_TEXT && is_picture(text, true) && is_platform(picture(text, true))
}

/// A load, where it fits in 32 bits.
pub open spec fn fitting(v: int) -> Option<u32> {
    if v <= u32::MAX {
        Some(v as u32)
    } else {
        None
    }
}

/// The platform of a text, if the text is one.
fn read(input: &str) -> (r: Option<Platform>)
    ensures
        r is Some <==> is_readable(input.spec_bytes()),
        r is Some ==> r->Some_0.view() == picture(input.spec_bytes(), true),
{
    if input.as_bytes().len() > MAX_TEXT {
        return None;
    }
    match Platform::from_bytes(input.as_bytes()) {
        Ok(platform) => {
            if platform.is_sound() {
                Some(platform)
            } else {
                None
            }
        },
        Err(_) => None,
    }
}

/// The load of the platform of the text once it is tilted to the north.
/// `None` where the text is too long or no platform, or the load does not fit
/// in 32 bits.
pub fn part_one(input: &str) -> (r: Option<u32>)
    ensures
        r == (if is_readable(input.spec_bytes()) {
            fitting(load_of(tilted(picture(input.spec_bytes(), true), Tilt::North)))
        } else {
            None
        }),
{
    let mut platform = match read(input) {
        Some(platform) => platform,
        None => {
            return None;
        },
    };
    platform.slide_north();
    platform.checked_total_load()
}

/// The load of the platform of the text after a thousand million rounds of
/// tilts. `None` where the text is too long or no platform, or the load does
/// not fit in 32 bits.
pub fn part_two(input: &str) -> (r: Option<u32>)
    ensures
        r == (if is_readable(input.spec_bytes()) {
            fitting(load_of(spun(picture(input.spec_bytes(), true), ROUNDS as nat)))
        } else {
            None
        }),
{
    let mut platform = match read(input) {
        Some(platform) => platform,
        None => {
            return None;
        },
    };
    platform.spin(ROUNDS);
    proof {
        crate::puzzles::d14::lemma_spun_platform(picture(input.spec_bytes(), true), ROUNDS as nat);
    }
    platform.checked_total_load()
}

} // verus!
