//! The seventh day: what a list of hands wins, in both variants of the game.
use crate::puzzles::d07::{entry_of, lemma_winnings_grow, winnings, Card, Card1, Card2, HandsList};
use crate::text::lines;
use vstd::prelude::*;
use vstd::string::StringSliceAdditionalSpecFns;

verus! {

/// What the hands win together; `None` where there are more hands than can
/// be ranked in 32 bits, or the winnings do not fit in 32 bits.
pub fn winnings_of<C: Card>(list: &HandsList<C>) -> (r: Option<u32>)
    requires
        list.wf(),
    ensures
        r == (if list.view().len() <= u32::MAX && winnings(
            list.view(),
            list.bids(),
            list.view().len() as int,
        ) <= u32::MAX {
            Some(winnings(list.view(), list.bids(), list.view().len() as int) as u32)
        } else {
            None
        }),
{
    let n = list.len();
    if n > 0xffff_ffff {
        return None;
    }
    let mut total: u64 = 0;
    let mut i: usize = 0;
    while i < n
        invariant
            i <= n,
            n == list.view().len(),
            n <= u32::MAX,
            list.wf(),
            total == winnings(list.view(), list.bids(), i as int),
            total <= u32::MAX,
        decreases n - i,
    {
        let rank = list.rank_of(i) as u64;
        let bid = list.bid(i) as u64;
        proof {
            lemma_winnings_grow(list.view(), list.bids(), i + 1, n as int);
            assert(rank * bid <= u32::MAX * u32::MAX) by (nonlinear_arith)
                requires
                    rank <= u32::MAX,
                    bid <= u32::MAX,
            ;
        }
        total = total + rank * bid;
        if total > 0xffff_ffff {
            return None;
        }
        i += 1;
    }
    Some(total as u32)
}

/// Whether every line of the text is a hand with its bid.
pub open spec fn is_list(text: Seq<u8>) -> bool {
    forall|i: int| 0 <= i < lines(text).len() ==> (#[trigger] entry_of(lines(text)[i])) is Ok
}

/// What a list of hands wins, where the hands can be ranked and the winnings
/// counted in 32 bits.
pub open spec fn won<C: Card>(list: &HandsList<C>) -> Option<u32> {
    if list.view().len() <= u32::MAX && winnings(
        list.view(),
        list.bids(),
        list.view().len() as int,
    ) <= u32::MAX {
        Some(winnings(list.view(), list.bids(), list.view().len() as int) as u32)
    } else {
        None
    }
}

/// Whether `r` is what the list wins, and the list holds the hands of the
/// text.
pub open spec fn is_won<C: Card>(list: &HandsList<C>, text: Seq<u8>, r: Option<u32>) -> bool {
    list.holds(text) && r == won(list)
}

/// What the hands of the text win where the `J` is a jack; `None` where the
/// text cannot be read or the winnings do not fit in 32 bits.
pub fn part_one(input: &str) -> (r: Option<u32>)
    ensures
        !is_list(input.spec_bytes()) ==> r is None,
        is_list(input.spec_bytes()) ==> exists|list: HandsList<Card1>| #[trigger]
            is_won(&list, input.spec_bytes(), r),
{
    match HandsList::<Card1>::from_bytes(input.as_bytes()) {
        Ok(list) => {
            let sum = winnings_of(&list);
            proof {
                assert(is_won(&list, input.spec_bytes(), sum));
            }
            sum
        },
        Err(_) => None,
    }
}

/// What the hands of the text win where the `J` is a joker; `None` where the
/// text cannot be read or the winnings do not fit in 32 bits.
pub fn part_two(input: &str) -> (r: Option<u32>)
    ensures
        !is_list(input.spec_bytes()) ==> r is None,
        is_list(input.spec_bytes()) ==> exists|list: HandsList<Card2>| #[trigger]
            is_won(&list, input.spec_bytes(), r),
{
    match HandsList::<Card2>::from_bytes(input.as_bytes()) {
        Ok(list) => {
            let sum = winnings_of(&list);
            proof {
                assert(is_won(&list, input.spec_bytes(), sum));
            }
            sum
        },
        Err(_) => None,
    }
}

} // verus!
