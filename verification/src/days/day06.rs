//! The sixth day: the ways to win a boat race.
use crate::puzzles::d06::{doubled, is_shortest_win, race_of, wins, BoatRace};
use vstd::prelude::*;
use vstd::string::StringSliceAdditionalSpecFns;

verus! {

/// The number of ways to win the one race that the text stands for when the
/// blanks among its digits are left out. `None` where the text cannot be read,
/// the time does not fit in 32 bits, or no time of holding that is a power of
/// two beats the record.
pub fn part_two(input: &str) -> (r: Option<u64>)
    ensures
        r is Some <==> (match race_of(input.spec_bytes()) {
            Ok((time, distance)) => time <= u32::MAX && exists|k: nat|
                wins(time as int, distance as int, #[trigger] doubled(k)),
            Err(_) => false,
        }),
        r is Some ==> {
            let (time, distance) = race_of(input.spec_bytes())->Ok_0;
            exists|hold: int|
                #[trigger] is_shortest_win(time as int, distance as int, hold) && r->Some_0 == time - 2
                    * hold + 1
        },
{
    match BoatRace::parse(input) {
        Ok(race) => {
            if race.race_time() > 0xffff_ffff {
                return None;
            }
            if !race.can_win() {
                return None;
            }
            Some(race.n_ways_to_win())
        },
        Err(_) => None,
    }
}

} // verus!
