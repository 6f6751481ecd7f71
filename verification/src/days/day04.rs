//! The fourth day: the points of scratch cards, and the cards that they win.
use crate::puzzles::d04::{card_of, count_matching, points_for, CardGame};
use crate::text::{lines, spans_hold, split_lines};
use vstd::prelude::*;
use vstd::slice::slice_subrange;
use vstd::string::StringSliceAdditionalSpecFns;

verus! {

/// How many of its numbers win on the card that a line stands for, where the
/// line is a card with no more numbers than can be counted in 32 bits.
pub open spec fn matching_of(line: Seq<u8>) -> Option<nat> {
    match card_of(line) {
        Ok((winning, numbers)) => if numbers.len() <= u32::MAX {
            Some(count_matching(numbers, winning))
        } else {
            None
        },
        Err(_) => None,
    }
}

/// The sum of the points of the cards on the first `k` lines, where every
/// one of them is a card with at most 31 numbers that win.
pub open spec fn points_upto(ls: Seq<Seq<u8>>, k: int) -> Option<int>
    decreases k,
{
    if k <= 0 {
        Some(0int)
    } else {
        match (points_upto(ls, k - 1), matching_of(ls[k - 1])) {
            (Some(sum), Some(n)) => if n <= 31 {
                Some(sum + points_for(n))
            } else {
                None
            },
            _ => None,
        }
    }
}

/// How many numbers win on each of the cards of the first `k` lines, where
/// every one of those lines is a card.
pub open spec fn matching_list(ls: Seq<Seq<u8>>, k: int) -> Option<Seq<u32>>
    decreases k,
{
    if k <= 0 {
        Some(Seq::<u32>::empty())
    } else {
        match (matching_list(ls, k - 1), matching_of(ls[k - 1])) {
            (Some(m), Some(n)) => Some(m.push(n as u32)),
            _ => None,
        }
    }
}

/// Once a line is no card, there is no list.
pub proof fn lemma_matching_list(ls: Seq<Seq<u8>>, k: int, m: int)
    requires
        0 <= k <= m,
        matching_list(ls, k) is None,
    ensures
        matching_list(ls, m) is None,
    decreases m,
{
    if k < m {
        lemma_matching_list(ls, k, m - 1);
    }
}

/// How many there are of card `j` once the first `i` cards have each won a
/// copy of as many of the cards behind them as they have numbers that win.
pub open spec fn copies(m: Seq<u32>, i: int, j: int) -> int
    decreases i,
{
    if i <= 0 {
        1
    } else {
        copies(m, i - 1, j) + if i - 1 < j && j <= i - 1 + m[i - 1] {
            copies(m, i - 1, i - 1)
        } else {
            0int
        }
    }
}

/// How many cards there are among the first `k` in the end.
pub open spec fn total_copies(m: Seq<u32>, k: int) -> int
    decreases k,
{
    if k <= 0 {
        0
    } else {
        total_copies(m, k - 1) + copies(m, m.len() as int, k - 1)
    }
}

/// Once a line is no card, the sum is lost; else it does not fall.
pub proof fn lemma_points_upto(ls: Seq<Seq<u8>>, k: int, m: int)
    requires
        0 <= k <= m,
    ensures
        match (points_upto(ls, k), points_upto(ls, m)) {
            (None, later) => later is None,
            (Some(a), Some(b)) => 0 <= a <= b,
            (Some(a), None) => 0 <= a,
        },
    decreases m,
{
    if m > 0 {
        if k < m {
            lemma_points_upto(ls, k, m - 1);
        } else {
            lemma_points_upto(ls, k - 1, m - 1);
        }
    }
}

/// The number of copies of a card does not fall, and there is at least the
/// card itself.
pub proof fn lemma_copies_grow(m: Seq<u32>, i: int, k: int, j: int)
    requires
        0 <= i <= k,
    ensures
        1 <= copies(m, i, j) <= copies(m, k, j),
    decreases k,
{
    if k > 0 {
        lemma_copies_grow(m, 0, k - 1, k - 1);
        if i < k {
            lemma_copies_grow(m, i, k - 1, j);
        } else {
            lemma_copies_grow(m, i - 1, k - 1, j);
        }
    }
}

/// The cards in all are at least those of any one card, and at least those
/// of the first cards.
pub proof fn lemma_total_copies(m: Seq<u32>, k: int, n: int, j: int)
    requires
        0 <= k <= n,
    ensures
        0 <= total_copies(m, k) <= total_copies(m, n),
        0 <= j < n ==> copies(m, m.len() as int, j) <= total_copies(m, n),
    decreases n,
{
    if n > 0 {
        lemma_copies_grow(m, 0, m.len() as int, n - 1);
        if k < n {
            lemma_total_copies(m, k, n - 1, j);
        } else {
            lemma_total_copies(m, k - 1, n - 1, j);
        }
    }
}

/// The sum of the points of the cards of the text, one on each line. `None`
/// where a line is no card, a card has more than 31 numbers that win, or the
/// sum does not fit in 32 bits.
pub fn part_one(input: &str) -> (r: Option<u32>)
    ensures
        r == (match points_upto(lines(input.spec_bytes()), lines(input.spec_bytes()).len() as int) {
            Some(sum) => if sum <= u32::MAX {
                Some(sum as u32)
            } else {
                None
            },
            None => None,
        }),
{
    let text = input.as_bytes();
    let spans = split_lines(text);
    let ghost ls = lines(text@);
    let mut total: u64 = 0;
    let mut i: usize = 0;
    while i < spans.len()
        invariant
            i <= spans.len(),
            ls == lines(text@),
            text@ == input.spec_bytes(),
            spans_hold(text@, 0, text@.len() as int, spans@, ls),
            points_upto(ls, i as int) == Some(total as int),
            total <= u32::MAX,
        decreases spans.len() - i,
    {
        let (from, to) = spans[i];
        proof {
            lemma_points_upto(ls, i + 1, ls.len() as int);
            assert(text@.subrange(from as int, to as int) == ls[i as int]);
        }
        let game = match CardGame::from_bytes(slice_subrange(text, from, to)) {
            Ok(game) => game,
            Err(_) => {
                return None;
            },
        };
        if game.len() > 0xffff_ffff {
            return None;
        }
        if game.n_matching() > 31 {
            return None;
        }
        total = total + game.points() as u64;
        if total > 0xffff_ffff {
            return None;
        }
        i += 1;
    }
    Some(total as u32)
}

/// How many cards there are in the end, where card `j` has `matching[j]`
/// numbers that win; `None` where the number does not fit in 32 bits.
pub fn count_copies(matching: &Vec<u32>) -> (r: Option<u32>)
    ensures
        r == (if total_copies(matching@, matching@.len() as int) <= u32::MAX {
            Some(total_copies(matching@, matching@.len() as int) as u32)
        } else {
            None
        }),
{
    let ghost m = matching@;
    let n = matching.len();
    let mut counts: Vec<u64> = Vec::new();
    let mut j: usize = 0;
    while j < n
        invariant
            j <= n,
            counts@.len() == j,
            forall|q: int| 0 <= q < j ==> (#[trigger] counts@[q]) == 1,
        decreases n - j,
    {
        counts.push(1);
        j += 1;
    }
    let mut i: usize = 0;
    while i < n
        invariant
            i <= n,
            n == m.len(),
            m == matching@,
            counts@.len() == n,
            forall|q: int| 0 <= q < n ==> (#[trigger] counts@[q]) == copies(m, i as int, q),
            forall|q: int| 0 <= q < n ==> (#[trigger] counts@[q]) <= u32::MAX,
        decreases n - i,
    {
        let count_i = counts[i];
        let n_iter = matching[i] as usize;
        let mut j: usize = i + 1;
        while j < n && j - i <= n_iter
            invariant
                i < j <= n,
                i < n,
                n == m.len(),
                m == matching@,
                n_iter == m[i as int],
                counts@.len() == n,
                count_i == copies(m, i as int, i as int),
                count_i <= u32::MAX,
                forall|q: int|
                    0 <= q < n ==> (#[trigger] counts@[q]) == (if q < j {
                        copies(m, i + 1, q)
                    } else {
                        copies(m, i as int, q)
                    }),
                forall|q: int| 0 <= q < n ==> (#[trigger] counts@[q]) <= u32::MAX,
            decreases n - j,
        {
            let more = counts[j] + count_i;
            if more > 0xffff_ffff {
                proof {
                    assert(copies(m, i + 1, j as int) == more);
                    lemma_copies_grow(m, i + 1, n as int, j as int);
                    lemma_total_copies(m, 0, n as int, j as int);
                }
                return None;
            }
            counts.set(j, more);
            j += 1;
        }
        i += 1;
    }
    let mut total: u64 = 0;
    let mut k: usize = 0;
    while k < n
        invariant
            k <= n,
            n == m.len(),
            m == matching@,
            counts@.len() == n,
            forall|q: int| 0 <= q < n ==> (#[trigger] counts@[q]) == copies(m, n as int, q),
            forall|q: int| 0 <= q < n ==> (#[trigger] counts@[q]) <= u32::MAX,
            total == total_copies(m, k as int),
            total <= u32::MAX,
        decreases n - k,
    {
        proof {
            lemma_total_copies(m, k + 1, n as int, 0);
        }
        total = total + counts[k];
        if total > 0xffff_ffff {
            return None;
        }
        k += 1;
    }
    Some(total as u32)
}

/// How many cards there are in the end, where every card of the text wins a
/// copy of as many of the cards behind it as it has numbers that win. `None`
/// where a line is no card, or the number does not fit in 32 bits.
pub fn part_two(input: &str) -> (r: Option<u32>)
    ensures
        r == (match matching_list(
            lines(input.spec_bytes()),
            lines(input.spec_bytes()).len() as int,
        ) {
            Some(m) => if total_copies(m, m.len() as int) <= u32::MAX {
                Some(total_copies(m, m.len() as int) as u32)
            } else {
                None
            },
            None => None,
        }),
{
    let text = input.as_bytes();
    let spans = split_lines(text);
    let ghost ls = lines(text@);
    let mut matching: Vec<u32> = Vec::new();
    let mut i: usize = 0;
    while i < spans.len()
        invariant
            i <= spans.len(),
            ls == lines(text@),
            text@ == input.spec_bytes(),
            spans_hold(text@, 0, text@.len() as int, spans@, ls),
            matching@.len() == i,
            matching_list(ls, i as int) == Some(matching@),
        decreases spans.len() - i,
    {
        let (from, to) = spans[i];
        proof {
            assert(text@.subrange(from as int, to as int) == ls[i as int]);
        }
        let game = match CardGame::from_bytes(slice_subrange(text, from, to)) {
            Ok(game) => game,
            Err(_) => {
                proof {
                    assert(matching_list(ls, i + 1) is None);
                    lemma_matching_list(ls, i + 1, ls.len() as int);
                }
                return None;
            },
        };
        if game.len() > 0xffff_ffff {
            proof {
                assert(matching_list(ls, i + 1) is None);
                lemma_matching_list(ls, i + 1, ls.len() as int);
            }
            return None;
        }
        matching.push(game.n_matching());
        i += 1;
    }
    count_copies(&matching)
}

} // verus!
