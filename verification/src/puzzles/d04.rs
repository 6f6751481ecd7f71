//! Scratch cards: a card wins with every one of its numbers that is among the
//! winning numbers.
use crate::text::{
    as_nats, lemma_spans_in_text, parse_unsigned_spans, split_once, split_once_spec,
    split_whitespace, unsigned_list, words, InputError,
};
use vstd::array::array_as_slice;
use vstd::prelude::*;
use vstd::string::StringSliceAdditionalSpecFns;

verus! {

/// A card: the numbers that win, and the numbers that the card has.
pub struct CardGame {
    winning_nums: Vec<u8>,
    nums: Vec<u8>,
}

/// A colon and a blank: what stands between a card's name and its numbers.
pub open spec fn name_end() -> Seq<u8> {
    seq![58u8, 32u8]
}

/// A bar between blanks: what stands between the winning numbers and the
/// card's own.
pub open spec fn bar() -> Seq<u8> {
    seq![32u8, 124u8, 32u8]
}

/// How many of `nums` are among `winning`.
pub open spec fn count_matching(nums: Seq<u8>, winning: Seq<u8>) -> nat
    decreases nums.len(),
{
    if nums.len() == 0 {
        0
    } else {
        count_matching(nums.drop_last(), winning) + if winning.contains(nums.last()) {
            1nat
        } else {
            0nat
        }
    }
}

/// Two to the power of `n`.
pub open spec fn two_to(n: nat) -> nat
    decreases n,
{
    if n == 0 {
        1
    } else {
        2 * two_to((n - 1) as nat)
    }
}

/// The points that `n` matching numbers are worth: one for the first, and
/// twice as many with every further one.
pub open spec fn points_for(n: nat) -> nat {
    if n == 0 {
        0
    } else {
        two_to((n - 1) as nat)
    }
}

/// The numbers as bytes.
pub open spec fn as_bytes(v: Seq<nat>) -> Seq<u8> {
    Seq::new(v.len(), |i: int| v[i] as u8)
}

/// The card that a line stands for: a name, a colon, the winning numbers, a
/// bar, and the card's own numbers, each number at most 255.
pub open spec fn card_of(t: Seq<u8>) -> Result<(Seq<u8>, Seq<u8>), InputError> {
    match split_once_spec(t, name_end()) {
        None => Err(InputError::Syntax),
        Some((_, rest)) => match split_once_spec(rest, bar()) {
            None => Err(InputError::Syntax),
            Some((first, second)) => match unsigned_list(words(first), 255) {
                None => Err(InputError::Number),
                Some(winning) => match unsigned_list(words(second), 255) {
                    None => Err(InputError::Number),
                    Some(nums) => Ok((as_bytes(winning), as_bytes(nums))),
                },
            },
        },
    }
}

/// Two to the power of `n` grows with `n`.
pub proof fn lemma_two_to_grows(a: nat, b: nat)
    requires
        a <= b,
    ensures
        two_to(a) <= two_to(b),
        two_to(a) >= 1,
    decreases b,
{
    if a < b {
        lemma_two_to_grows(a, (b - 1) as nat);
    } else if a > 0 {
        lemma_two_to_grows((a - 1) as nat, (a - 1) as nat);
    }
}

/// Two to the power of 30.
pub proof fn lemma_two_to_30()
    ensures
        two_to(30) == 1073741824,
{
    reveal_with_fuel(two_to, 11);
    assert(two_to(10) == 1024);
    assert(two_to(20) == 1024 * two_to(10));
    assert(two_to(30) == 1024 * two_to(20));
}

/// Whether `x` is among `v`.
pub fn contains(v: &Vec<u8>, x: u8) -> (b: bool)
    ensures
        b == v@.contains(x),
{
    let mut i: usize = 0;
    while i < v.len()
        invariant
            i <= v.len(),
            forall|j: int| 0 <= j < i ==> v@[j] != x,
        decreases v.len() - i,
    {
        if v[i] == x {
            return true;
        }
        i += 1;
    }
    false
}

/// The numbers, each of which is at most 255, as bytes.
pub fn narrow(values: &Vec<u64>) -> (r: Vec<u8>)
    requires
        forall|i: int| 0 <= i < values.len() ==> (#[trigger] values@[i]) <= 255,
    ensures
        r@ == as_bytes(as_nats(values@)),
{
    let mut bytes: Vec<u8> = Vec::new();
    let mut i: usize = 0;
    while i < values.len()
        invariant
            i <= values.len(),
            bytes.len() == i,
            forall|j: int| 0 <= j < values.len() ==> (#[trigger] values@[j]) <= 255,
            forall|j: int| 0 <= j < i ==> bytes@[j] == values@[j] as u8,
        decreases values.len() - i,
    {
        bytes.push(values[i] as u8);
        i += 1;
    }
    proof {
        assert(bytes@ =~= as_bytes(as_nats(values@)));
    }
    bytes
}

impl CardGame {
    /// The numbers that win.
    pub closed spec fn winning(&self) -> Seq<u8> {
        self.winning_nums@
    }

    /// The numbers that the card has.
    pub closed spec fn numbers(&self) -> Seq<u8> {
        self.nums@
    }

    /// How many numbers the card has.
    pub fn len(&self) -> (n: usize)
        ensures
            n == self.numbers().len(),
    {
        self.nums.len()
    }

    /// The points that the card is worth.
    pub fn points(&self) -> (p: u32)
        requires
            self.numbers().len() <= u32::MAX,
            count_matching(self.numbers(), self.winning()) <= 31,
        ensures
            p == points_for(count_matching(self.numbers(), self.winning())),
    {
        let n = self.n_matching();
        if n == 0 {
            return 0;
        }
        let mut p: u32 = 1;
        let mut i: u32 = 1;
        while i < n
            invariant
                1 <= i <= n <= 31,
                p == two_to((i - 1) as nat),
            decreases n - i,
        {
            proof {
                lemma_two_to_grows((i - 1) as nat, 30);
                lemma_two_to_30();
            }
            p = p * 2;
            i += 1;
        }
        p
    }

    /// How many of the card's numbers are among the winning numbers.
    pub fn n_matching(&self) -> (n: u32)
        requires
            self.numbers().len() <= u32::MAX,
        ensures
            n == count_matching(self.numbers(), self.winning()),
    {
        let mut n: u32 = 0;
        let mut i: usize = 0;
        while i < self.nums.len()
            invariant
                i <= self.nums.len() <= u32::MAX,
                n <= i,
                n == count_matching(self.nums@.take(i as int), self.winning_nums@),
            decreases self.nums.len() - i,
        {
            proof {
                assert(self.nums@.take(i + 1).drop_last() =~= self.nums@.take(i as int));
            }
            if contains(&self.winning_nums, self.nums[i]) {
                n += 1;
            }
            i += 1;
        }
        proof {
            assert(self.nums@.take(self.nums.len() as int) =~= self.nums@);
        }
        n
    }

    /// Reads a card from a line.
    pub fn from_bytes(text: &[u8]) -> (r: Result<CardGame, InputError>)
        ensures
            match (r, card_of(text@)) {
                (Ok(card), Ok(model)) => card.winning() == model.0 && card.numbers() == model.1,
                (Err(e), Err(f)) => e == f,
                _ => false,
            },
    {
        let ghost t = text@;
        proof {
            assert(t.subrange(0, t.len() as int) =~= t);
        }
        let colon: [u8; 2] = [58, 32];
        let line: [u8; 3] = [32, 124, 32];
        proof {
            assert(colon@ =~= name_end());
            assert(line@ =~= bar());
        }
        let start = match split_once(text, 0, text.len(), array_as_slice(&colon)) {
            Some(at) => at + 2,
            None => {
                return Err(InputError::Syntax);
            },
        };
        let middle = match split_once(text, start, text.len(), array_as_slice(&line)) {
            Some(at) => at,
            None => {
                return Err(InputError::Syntax);
            },
        };
        let first = split_whitespace(text, start, middle);
        let second = split_whitespace(text, middle + 3, text.len());
        proof {
            lemma_spans_in_text(
                t,
                start as int,
                middle as int,
                first@,
                words(t.subrange(start as int, middle as int)),
            );
            lemma_spans_in_text(
                t,
                middle + 3,
                t.len() as int,
                second@,
                words(t.subrange(middle + 3, t.len() as int)),
            );
        }
        let winning = match parse_unsigned_spans(
            text,
            &first,
            255,
            Ghost(words(t.subrange(start as int, middle as int))),
        ) {
            Some(v) => v,
            None => {
                return Err(InputError::Number);
            },
        };
        let nums = match parse_unsigned_spans(
            text,
            &second,
            255,
            Ghost(words(t.subrange(middle + 3, t.len() as int))),
        ) {
            Some(v) => v,
            None => {
                return Err(InputError::Number);
            },
        };
        proof {
            let w = unsigned_list(words(t.subrange(start as int, middle as int)), 255)->Some_0;
            assert forall|i: int| 0 <= i < winning.len() implies (#[trigger] winning@[i]) <= 255 by {
                assert(w[i] == winning@[i] as nat);
            }
            let n = unsigned_list(words(t.subrange(middle + 3, t.len() as int)), 255)->Some_0;
            assert forall|i: int| 0 <= i < nums.len() implies (#[trigger] nums@[i]) <= 255 by {
                assert(n[i] == nums@[i] as nat);
            }
        }
        Ok(CardGame { winning_nums: narrow(&winning), nums: narrow(&nums) })
    }

    /// Reads a card from a line.
    pub fn parse(s: &str) -> (r: Result<CardGame, InputError>)
        ensures
            match (r, card_of(s.spec_bytes())) {
                (Ok(card), Ok(model)) => card.winning() == model.0 && card.numbers() == model.1,
                (Err(e), Err(f)) => e == f,
                _ => false,
            },
    {
        CardGame::from_bytes(s.as_bytes())
    }
}

impl std::str::FromStr for CardGame {
    type Err = InputError;

    fn from_str(s: &str) -> (r: Result<Self, Self::Err>) {
        CardGame::parse(s)
    }
}

} // verus!
