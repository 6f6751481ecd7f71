//! The twentieth day: the pulses that a network of modules sends.
use crate::puzzles::d20::{after_presses, is_readable, line_of, ModuleNetwork};
use crate::text::lines;
use vstd::prelude::*;
use vstd::string::StringSliceAdditionalSpecFns;

verus! {

/// The number of presses of the button.
pub const PRESSES: usize = 1000;

/// The greatest number of pulses that are followed after one press.
pub const MAX_PULSES: u32 = 0xffff_ffff;

/// The number of low pulses times the number of high pulses that arrive
/// when the button is pressed a thousand times. `None` where the text is no
/// network, the pulses of one press do not come to an end, or a number does not
/// fit in 32 bits.
pub fn part_one(input: &str) -> (r: Option<u32>)
    ensures
        (exists|i: int|
            0 <= i < lines(input.spec_bytes()).len() && (#[trigger] line_of(
                lines(input.spec_bytes())[i],
            )) is None) ==> r is None,
        !is_readable(input.spec_bytes()) ==> r is None,
        is_readable(input.spec_bytes()) ==> exists|network: ModuleNetwork| #[trigger]
            network.says(input.spec_bytes()) && r == pulses_of(&network),
{
    let mut network = match ModuleNetwork::from_bytes(input.as_bytes()) {
        Ok(network) => network,
        Err(_) => {
            return None;
        },
    };
    let ghost read = network;
    let product = match network.press_multiple_and_count_pulses(PRESSES, MAX_PULSES) {
        Some((n_low, n_high)) => n_low.checked_mul(n_high),
        None => None,
    };
    proof {
        assert(read.says(input.spec_bytes()) && product == pulses_of(&read));
    }
    product
}

/// The number of low pulses times the number of high pulses that arrive when
/// the button of the network is pressed a thousand times, each time once no
/// pulse is on its way; nothing where the pulses of a press do not come to an
/// end in time, or a number does not fit in 32 bits.
pub open spec fn pulses_of(network: &ModuleNetwork) -> Option<u32> {
    match after_presses(
        network.wiring(),
        network.input(),
        network.state(),
        PRESSES as nat,
        MAX_PULSES as nat,
    ) {
        Some((_, low, high)) => if low <= u32::MAX && high <= u32::MAX && low * high <= u32::MAX {
            Some((low * high) as u32)
        } else {
            None
        },
        None => None,
    }
}

/// No answer.
pub fn part_two(_input: &str) -> (r: Option<u32>)
    ensures
        r is None,
{
    None
}

} // verus!
