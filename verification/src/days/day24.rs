//! The twenty-fourth day: the stone that hits every hailstone.
use crate::puzzles::d24::{
    in_i64, is_seen, is_throw, stone_of, throw_of, Hail, HailStone, MAX_PLACE, MAX_SIZE, MAX_SPEED,
};
use crate::text::lines;
use vstd::prelude::*;
use vstd::string::StringSliceAdditionalSpecFns;

verus! {

/// The greatest number of speeds that are tried.
pub const MAX_TRIES: u32 = 999_997;

/// How many of `n` stones the search looks at: the first four.
pub open spec fn looked_at(n: int) -> int {
    if n < 4 {
        n
    } else {
        4
    }
}

/// Whether the stone is near and slow enough to be worked with.
pub fn can_be_seen(s: &HailStone) -> (b: bool)
    ensures
        b == is_seen(*s),
{
    -MAX_PLACE <= s.x && s.x <= MAX_PLACE && -MAX_PLACE <= s.y && s.y <= MAX_PLACE && -MAX_PLACE
        <= s.z && s.z <= MAX_PLACE && -MAX_SPEED + MAX_SIZE <= s.vx && s.vx <= MAX_SPEED - MAX_SIZE
        && -MAX_SPEED + MAX_SIZE <= s.vy && s.vy <= MAX_SPEED - MAX_SIZE && -MAX_SPEED + MAX_SIZE
        <= s.vz && s.vz <= MAX_SPEED - MAX_SIZE
}

/// Whether every line of the text is a stone.
pub open spec fn is_hail(text: Seq<u8>) -> bool {
    forall|i: int| 0 <= i < lines(text).len() ==> (#[trigger] stone_of(lines(text)[i])) is Ok
}

/// The stones of a text that is hail.
pub open spec fn hail_of(text: Seq<u8>) -> Seq<HailStone> {
    Seq::new(lines(text).len(), |i: int| stone_of(lines(text)[i])->Ok_0)
}

/// Whether one of the stones is too far or too fast to be worked with.
pub open spec fn some_unseen(stones: Seq<HailStone>) -> bool {
    exists|k: int| 0 <= k < stones.len() && !is_seen(#[trigger] stones[k])
}

/// The sum of the coordinates of the place of the throw that the search
/// finds for the stones; nothing where there are fewer than two stones, a stone
/// is too far or too fast, no throw is found, or the sum of the first two
/// coordinates or of all three does not fit in 64 bits.
pub open spec fn place_sum_of(stones: Seq<HailStone>) -> Option<i64> {
    if stones.len() < 2 || some_unseen(stones) {
        None
    } else {
        match throw_of(stones, looked_at(stones.len() as int), MAX_TRIES as nat) {
            None => None,
            Some(throw) => if in_i64(throw.0 + throw.1) && in_i64(throw.0 + throw.1 + throw.2) {
                Some((throw.0 + throw.1 + throw.2) as i64)
            } else {
                None
            },
        }
    }
}

/// The sum of the three coordinates of the place from which a stone is
/// thrown that hits the first stones of the hail; `None` where there are fewer
/// than two stones, a stone is too far or too fast, no throw is found, or the
/// sum does not fit in 64 bits.
pub fn throw_place_sum(hail: &Hail) -> (r: Option<i64>)
    ensures
        r is Some ==> exists|throw: (i64, i64, i64, i64, i64, i64)| #[trigger]
            is_throw(hail.view(), looked_at(hail.view().len() as int), throw) && r->Some_0
                == throw.0 + throw.1 + throw.2,
        r == place_sum_of(hail.view()),
{
    let n = hail.len();
    if n < 2 {
        return None;
    }
    let mut i: usize = 0;
    while i < n
        invariant
            i <= n,
            n == hail.view().len(),
            forall|k: int| 0 <= k < i ==> is_seen(#[trigger] hail.view()[k]),
        decreases n - i,
    {
        let stone = hail.stone(i);
        if !can_be_seen(&stone) {
            proof {
                assert(!is_seen(hail.view()[i as int]));
            }
            return None;
        }
        i += 1;
    }
    match hail.find_perfect_throw_velocity_and_position(MAX_TRIES) {
        None => None,
        Some(throw) => {
            proof {
                assert(is_throw(hail.view(), looked_at(hail.view().len() as int), throw));
            }
            match throw.0.checked_add(throw.1) {
                None => None,
                Some(xy) => xy.checked_add(throw.2),
            }
        },
    }
}

/// The sum of the three coordinates of the place of the throw, for the hail
/// of the text; `None` where the text is no hail, or there is no result for
/// it.
pub fn part_two(input: &str) -> (r: Option<i64>)
    ensures
        (exists|i: int|
            0 <= i < lines(input.spec_bytes()).len() && (#[trigger] stone_of(
                lines(input.spec_bytes())[i],
            )) is Err) ==> r is None,
        r == (if is_hail(input.spec_bytes()) {
            place_sum_of(hail_of(input.spec_bytes()))
        } else {
            None
        }),
{
    match Hail::parse(input) {
        Ok(hail) => throw_place_sum(&hail),
        Err(_) => None,
    }
}

} // verus!
