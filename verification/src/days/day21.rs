//! The twenty-first day: the plots of a garden that can be reached.
use crate::puzzles::blocks::{cells_of, is_picture, picture};
use crate::puzzles::d21::{extended, is_garden, last_start, tally, Garden, PERIOD};
use vstd::prelude::*;
use vstd::string::StringSliceAdditionalSpecFns;

verus! {

/// The greatest length of a text that is read.
pub const MAX_TEXT: usize = 0x7fff_ffff;

/// The steps of the first answer.
pub const FEW_STEPS: u64 = 64;

/// The steps of the second answer.
pub const MANY_STEPS: u64 = 26_501_365;

/// Whether the text is a garden that can be read.
pub open spec fn is_readable(text: Seq<u8>) -> bool {
    text.len() <= MAX_TEXT && is_picture(text, false) && is_garden(picture(text, false))
}

/// The number of plots that can be reached in exactly 64 steps without
/// leaving the garden; `None` where the text is no garden.
pub fn part_one(input: &str) -> (r: Option<u64>)
    ensures
        r is Some <==> is_readable(input.spec_bytes()),
        is_readable(input.spec_bytes()) ==> exists|garden: Garden| #[trigger]
            holds(&garden, input.spec_bytes()) && r == Some(
                tally(garden@, garden.start(), false, FEW_STEPS as int, FEW_STEPS as int) as u64,
            ),
{
    if input.as_bytes().len() > MAX_TEXT {
        return None;
    }
    match Garden::from_bytes(input.as_bytes()) {
        Ok(garden) => {
            let n = garden.num_tiles_reacheable_after(FEW_STEPS, false);
            proof {
                assert(holds(&garden, input.spec_bytes()));
            }
            Some(n)
        },
        Err(_) => None,
    }
}

/// Whether the garden is that of the text: its rows are those of the
/// picture, and its start is found from the place of the last `S`.
pub open spec fn holds(garden: &Garden, text: Seq<u8>) -> bool {
    let found = last_start(cells_of(text), cells_of(text).len() as int);
    &&& garden.wf()
    &&& garden@ == picture(text, false)
    &&& garden.start() == (found / (garden@.len() as int), found % (garden@.len() as int))
}

/// The reach after `n` steps as the search by periods gives it: counted where
/// there are fewer than three whole periods, else the value of the quadratic
/// through the counts at the first three periods, where these grow, and grow
/// faster, and the value fits in 64 bits.
pub open spec fn extended_reach(garden: &Garden, n: u64) -> Option<u64> {
    if n / PERIOD < 3 {
        Some(garden.reach(n as int) as u64)
    } else {
        let offset = (n % PERIOD) as int;
        let a0 = garden.reach(offset);
        let a1 = garden.reach(offset + PERIOD);
        let a2 = garden.reach(offset + 2 * PERIOD);
        let value = extended(a0, a1, a2, (n / PERIOD) as int);
        if a0 <= a1 && a1 - a0 <= a2 - a1 && value <= u64::MAX {
            Some(value as u64)
        } else {
            None
        }
    }
}

/// The number of plots that can be reached in exactly 26501365 steps in the
/// garden repeated without end, found from the first three periods of its
/// growth; `None` where the text is no garden or the growth is not such that
/// it can be extended.
pub fn part_two(input: &str) -> (r: Option<u64>)
    ensures
        !is_readable(input.spec_bytes()) ==> r is None,
        is_readable(input.spec_bytes()) ==> exists|garden: Garden| #[trigger]
            holds(&garden, input.spec_bytes()) && r == extended_reach(&garden, MANY_STEPS),
{
    if input.as_bytes().len() > MAX_TEXT {
        return None;
    }
    match Garden::from_bytes(input.as_bytes()) {
        Ok(garden) => {
            let n = garden.num_tiles_reacheable_extrapolated(MANY_STEPS);
            proof {
                assert(holds(&garden, input.spec_bytes()));
            }
            n
        },
        Err(_) => None,
    }
}

} // verus!
