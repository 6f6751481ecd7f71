//! The twenty-second day: the bricks of a pile that can be taken away, and
//! what falls with the others.
use crate::puzzles::d22::{
    bearing_count, brick_of, bricks_of, falling_sum, is_pile_of, lemma_falling_sum, BrickPile,
};
use crate::text::lines;
use vstd::prelude::*;
use vstd::string::StringSliceAdditionalSpecFns;

verus! {

/// The greatest number of bricks for which the falling bricks are summed.
pub const MAX_BRICKS: usize = 65_535;

/// Whether every line of the text is a brick.
pub open spec fn is_pile(text: Seq<u8>) -> bool {
    forall|i: int| 0 <= i < lines(text).len() ==> (#[trigger] brick_of(lines(text)[i])) is Ok
}

/// The number of bricks that can be taken away without another falling;
/// `None` where the text is no pile of bricks or has too many of them.
pub fn part_one(input: &str) -> (r: Option<u32>)
    ensures
        !is_pile(input.spec_bytes()) ==> r is None,
        is_pile(input.spec_bytes()) ==> exists|pile: BrickPile| #[trigger]
            is_answer(&pile, input.spec_bytes(), r, false),
{
    match BrickPile::from_bytes(input.as_bytes()) {
        Ok(pile) => {
            let n = destroyable(&pile);
            proof {
                assert(is_answer(&pile, input.spec_bytes(), n, false));
            }
            n
        },
        Err(_) => None,
    }
}

/// Whether the pile is that of the bricks of the text once they have fallen,
/// and `r` is the answer for it: the number of bricks that can be taken away,
/// or the sum of the numbers of bricks that fall.
pub open spec fn is_answer(pile: &BrickPile, text: Seq<u8>, r: Option<u32>, falling: bool) -> bool {
    let n = pile.view().len() as int;
    &&& is_pile_of(bricks_of(lines(text)), pile.view())
    &&& r == (if falling {
        if n <= MAX_BRICKS {
            Some(falling_sum(pile.view(), n) as u32)
        } else {
            None
        }
    } else {
        if n <= u32::MAX {
            Some((n - bearing_count(pile.view(), n)) as u32)
        } else {
            None
        }
    })
}

/// The number of bricks of a pile that can be taken away; `None` where the
/// pile has more bricks than can be counted in 32 bits.
pub fn destroyable(pile: &BrickPile) -> (r: Option<u32>)
    ensures
        r == (if pile.view().len() <= u32::MAX {
            Some((pile.view().len() - bearing_count(pile.view(), pile.view().len() as int)) as u32)
        } else {
            None
        }),
{
    if pile.len() > 0xffff_ffff {
        return None;
    }
    proof {
        crate::puzzles::d22::lemma_bearing_count(pile.view(), pile.view().len() as int);
    }
    Some(pile.n_bricks_destroyable())
}

/// The sum, over the bricks, of the number of others that fall with each;
/// `None` where the text is no pile of bricks or has more than 65535 of them.
pub fn part_two(input: &str) -> (r: Option<u32>)
    ensures
        !is_pile(input.spec_bytes()) ==> r is None,
        is_pile(input.spec_bytes()) ==> exists|pile: BrickPile| #[trigger]
            is_answer(&pile, input.spec_bytes(), r, true),
{
    match BrickPile::from_bytes(input.as_bytes()) {
        Ok(pile) => {
            let n = falling(&pile);
            proof {
                assert(is_answer(&pile, input.spec_bytes(), n, true));
            }
            n
        },
        Err(_) => None,
    }
}

/// The sum, over the bricks of a pile, of the number of other bricks that
/// fall with each; `None` where the pile has more than 65535 bricks.
pub fn falling(pile: &BrickPile) -> (r: Option<u32>)
    ensures
        r == (if pile.view().len() <= MAX_BRICKS {
            Some(falling_sum(pile.view(), pile.view().len() as int) as u32)
        } else {
            None
        }),
        pile.view().len() <= MAX_BRICKS ==> 0 <= falling_sum(pile.view(), pile.view().len() as int)
            <= u32::MAX,
{
    if pile.len() > MAX_BRICKS {
        return None;
    }
    proof {
        let n = pile.view().len() as int;
        lemma_falling_sum(pile.view(), n);
        assert(n * n <= 65_535 * 65_535) by (nonlinear_arith)
            requires
                0 <= n <= 65_535,
        ;
    }
    Some(pile.sum_falling_count())
}

} // verus!
