//! Hands of a card game in two variants, their order of strength, and what a
//! list of hands with bids wins.
use crate::text::{lines, split_lines, split_once, split_once_spec, unsigned_value, parse_unsigned, InputError};
use vstd::array::array_as_slice;
use vstd::prelude::*;
use vstd::string::StringSliceAdditionalSpecFns;

verus! {

/// Whether the character names a card: a digit from `2` to `9`, or one of `A`,
/// `K`, `Q`, `J` and `T`.
pub open spec fn is_card(c: char) -> bool {
    ('2' <= c && c <= '9') || c == 'A' || c == 'K' || c == 'Q' || c == 'J' || c == 'T'
}

/// The digit that a character from `0` to `9` stands for.
pub open spec fn digit_value(c: char) -> int {
    c as u32 - '0' as u32
}

/// What a card is worth where the `J` is a jack.
pub open spec fn value_with_jack(c: char) -> int {
    if c == 'A' {
        14
    } else if c == 'K' {
        13
    } else if c == 'Q' {
        12
    } else if c == 'J' {
        11
    } else if c == 'T' {
        10
    } else {
        digit_value(c)
    }
}

/// What a card is worth where the `J` is a joker, the lowest card.
pub open spec fn value_with_joker(c: char) -> int {
    if c == 'J' {
        1
    } else {
        value_with_jack(c)
    }
}

/// A card of the game, in one of its variants.
pub trait Card: Sized + Copy {
    /// The character that names the card.
    spec fn name(&self) -> char;

    /// What the card with the given name is worth in this variant.
    spec fn worth(c: char) -> int;

    /// The card with the given name, if there is such a card.
    fn new(c: char) -> (r: Option<Self>)
        ensures
            r is Some <==> is_card(c),
            r is Some ==> r->Some_0.name() == c,
    ;

    /// What the card is worth.
    fn value(&self) -> (v: u8)
        requires
            is_card(self.name()),
        ensures
            v == Self::worth(self.name()),
    ;
}

/// A card of the game where the `J` is a jack.
#[derive(Clone, Copy, Debug, PartialEq, Eq, Hash, Structural)]
pub struct Card1(char);

/// A card of the game where the `J` is a joker.
#[derive(Clone, Copy, Debug, PartialEq, Eq, Hash, Structural)]
pub struct Card2(char);

impl Card for Card1 {
    closed spec fn name(&self) -> char {
        self.0
    }

    open spec fn worth(c: char) -> int {
        value_with_jack(c)
    }

    fn new(c: char) -> (r: Option<Self>) {
        if ('2' <= c && c <= '9') || c == 'A' || c == 'K' || c == 'Q' || c == 'J' || c == 'T' {
            Some(Card1(c))
        } else {
            None
        }
    }

    fn value(&self) -> (v: u8) {
        match self.0 {
            'A' => 14,
            'K' => 13,
            'Q' => 12,
            'J' => 11,
            'T' => 10,
            d => (d as u32 - '0' as u32) as u8,
        }
    }
}

impl Card for Card2 {
    closed spec fn name(&self) -> char {
        self.0
    }

    open spec fn worth(c: char) -> int {
        value_with_joker(c)
    }

    fn new(c: char) -> (r: Option<Self>) {
        if ('2' <= c && c <= '9') || c == 'A' || c == 'K' || c == 'Q' || c == 'J' || c == 'T' {
            Some(Card2(c))
        } else {
            None
        }
    }

    fn value(&self) -> (v: u8) {
        match self.0 {
            'A' => 14,
            'K' => 13,
            'Q' => 12,
            'T' => 10,
            'J' => 1,
            d => (d as u32 - '0' as u32) as u8,
        }
    }
}

/// The number of cards in a hand.
pub const HAND_SIZE: usize = 5;

/// What a joker is worth: it counts with the most frequent other card of its
/// hand.
pub const JOKER: u8 = 1;

/// A hand: five cards.
pub struct Hand<C: Card> {
    cards: Vec<C>,
    worths: Vec<u8>,
}

/// Hands, each with its bid.
pub struct HandsList<C: Card> {
    hands: Vec<Hand<C>>,
    bids: Vec<u32>,
}

/// How often `x` occurs among the first `k` values.
pub open spec fn occurrences(v: Seq<u8>, x: u8, k: int) -> int
    decreases k,
{
    if k <= 0 {
        0
    } else {
        occurrences(v, x, k - 1) + if v[k - 1] == x {
            1int
        } else {
            0int
        }
    }
}

/// How often `x` occurs in the hand.
pub open spec fn count_of(v: Seq<u8>, x: u8) -> int {
    occurrences(v, x, v.len() as int)
}

/// The most frequent value among the first `k` cards that are no jokers; of
/// several, the one that comes first. Zero where there is none.
pub open spec fn leader(v: Seq<u8>, k: int) -> u8
    decreases k,
{
    if k <= 0 {
        0
    } else {
        let before = leader(v, k - 1);
        if v[k - 1] != JOKER && v[k - 1] != 0 && (before == 0 || count_of(v, v[k - 1]) > count_of(
            v,
            before,
        )) {
            v[k - 1]
        } else {
            before
        }
    }
}

/// The greatest number of equal cards among the first `k` cards that are
/// neither jokers nor worth `best`.
pub open spec fn runner_up(v: Seq<u8>, best: u8, k: int) -> int
    decreases k,
{
    if k <= 0 {
        0
    } else {
        let before = runner_up(v, best, k - 1);
        if v[k - 1] != JOKER && v[k - 1] != best && count_of(v, v[k - 1]) > before {
            count_of(v, v[k - 1])
        } else {
            before
        }
    }
}

/// The kind of a hand, as two numbers: how many cards the largest group of
/// equal cards has, the jokers counted with it; and, where that is two or
/// three, how many the next largest group has, else zero.
pub open spec fn kind_of(v: Seq<u8>) -> (int, int) {
    let best = leader(v, v.len() as int);
    let first = if best == 0 {
        count_of(v, JOKER)
    } else {
        count_of(v, best) + count_of(v, JOKER)
    };
    let second = runner_up(v, best, v.len() as int);
    (
        first,
        if first == 2 || first == 3 {
            second
        } else {
            0
        },
    )
}

/// Whether the values of `a` come before those of `b`, read from the first
/// card on, from position `k`.
pub open spec fn cards_less(a: Seq<u8>, b: Seq<u8>, k: int) -> bool
    decreases a.len() - k,
{
    if k < 0 || k >= a.len() || k >= b.len() {
        false
    } else if a[k] != b[k] {
        a[k] < b[k]
    } else {
        cards_less(a, b, k + 1)
    }
}

/// Whether hand `a` is weaker than hand `b`: by kind, and among hands of one
/// kind by their cards in order.
pub open spec fn weaker(a: Seq<u8>, b: Seq<u8>) -> bool {
    let ka = kind_of(a);
    let kb = kind_of(b);
    if ka.0 != kb.0 {
        ka.0 < kb.0
    } else if ka.1 != kb.1 {
        ka.1 < kb.1
    } else {
        cards_less(a, b, 0)
    }
}

/// Whether hand `j` of the list is ranked below hand `i`: it is weaker, or as
/// strong and earlier in the list.
pub open spec fn ranked_below(hands: Seq<Seq<u8>>, j: int, i: int) -> bool {
    weaker(hands[j], hands[i]) || (!weaker(hands[i], hands[j]) && j < i)
}

/// How many of the first `k` hands are ranked below hand `i`.
pub open spec fn below_count(hands: Seq<Seq<u8>>, i: int, k: int) -> int
    decreases k,
{
    if k <= 0 {
        0
    } else {
        below_count(hands, i, k - 1) + if ranked_below(hands, k - 1, i) {
            1int
        } else {
            0int
        }
    }
}

/// The rank of hand `i`: one for the weakest hand of the list.
pub open spec fn rank(hands: Seq<Seq<u8>>, i: int) -> int {
    1 + below_count(hands, i, hands.len() as int)
}

/// What the first `k` hands win: each its bid times its rank.
pub open spec fn winnings(hands: Seq<Seq<u8>>, bids: Seq<u32>, k: int) -> int
    decreases k,
{
    if k <= 0 {
        0
    } else {
        winnings(hands, bids, k - 1) + rank(hands, k - 1) * bids[k - 1]
    }
}

/// Whether every byte of the text names a card.
pub open spec fn all_cards(t: Seq<u8>) -> bool {
    forall|i: int| 0 <= i < t.len() ==> is_card(#[trigger] t[i] as char)
}

/// What a line of the list holds: five cards, a space, and the bid. `Ok` with
/// the names of the cards and the bid; or the error.
pub open spec fn entry_of(line: Seq<u8>) -> Result<(Seq<u8>, u32), InputError> {
    match split_once_spec(line, seq![32u8]) {
        None => Err(InputError::Syntax),
        Some((hand, bid)) => if !all_cards(hand) {
            Err(InputError::Value)
        } else if hand.len() != HAND_SIZE {
            Err(InputError::Syntax)
        } else {
            match unsigned_value(bid, u32::MAX as nat) {
                None => Err(InputError::Number),
                Some(b) => Ok((hand, b as u32)),
            }
        },
    }
}

/// A count of occurrences is at most the number of cards counted.
pub proof fn lemma_occurrences(v: Seq<u8>, x: u8, k: int)
    requires
        0 <= k,
    ensures
        0 <= occurrences(v, x, k) <= k,
    decreases k,
{
    if k > 0 {
        lemma_occurrences(v, x, k - 1);
    }
}

/// The runner-up group has no more cards than the hand.
pub proof fn lemma_runner_up(v: Seq<u8>, best: u8, k: int)
    requires
        0 <= k,
    ensures
        0 <= runner_up(v, best, k) <= v.len(),
    decreases k,
{
    if k > 0 {
        lemma_runner_up(v, best, k - 1);
        lemma_occurrences(v, v[k - 1], v.len() as int);
    }
}

/// No more hands are ranked below a hand than were counted.
pub proof fn lemma_below_count(hands: Seq<Seq<u8>>, i: int, k: int)
    requires
        0 <= k,
    ensures
        0 <= below_count(hands, i, k) <= k,
    decreases k,
{
    if k > 0 {
        lemma_below_count(hands, i, k - 1);
    }
}

/// What the first hands win is no more than what more of them win.
pub proof fn lemma_winnings_grow(hands: Seq<Seq<u8>>, bids: Seq<u32>, k: int, m: int)
    requires
        0 <= k <= m,
    ensures
        0 <= winnings(hands, bids, k) <= winnings(hands, bids, m),
    decreases m,
{
    if m > 0 {
        lemma_below_count(hands, m - 1, hands.len() as int);
        assert(rank(hands, m - 1) * bids[m - 1] >= 0) by (nonlinear_arith)
            requires
                rank(hands, m - 1) >= 0,
                bids[m - 1] >= 0,
        ;
        if k < m {
            lemma_winnings_grow(hands, bids, k, m - 1);
        } else {
            lemma_winnings_grow(hands, bids, k - 1, m - 1);
        }
    }
}

impl<C: Card> Hand<C> {
    /// What the cards are worth, in order.
    pub closed spec fn view(&self) -> Seq<u8> {
        self.worths@
    }

    /// The names of the cards, in order.
    pub closed spec fn names(&self) -> Seq<char> {
        self.cards@.map_values(|c: C| c.name())
    }

    /// The hand has five cards, each with its worth.
    pub closed spec fn wf(&self) -> bool {
        &&& self.cards@.len() == HAND_SIZE
        &&& self.worths@.len() == HAND_SIZE
        &&& forall|i: int|
            0 <= i < HAND_SIZE ==> is_card((#[trigger] self.cards@[i]).name()) && self.worths@[i]
                == C::worth(self.cards@[i].name())
    }

    /// Reads a hand from the text between `from` and `to`: five bytes, each
    /// the name of a card.
    pub fn from_bytes(text: &[u8], from: usize, to: usize) -> (r: Result<Hand<C>, InputError>)
        requires
            from <= to <= text.len(),
        ensures
            r is Ok <==> all_cards(text@.subrange(from as int, to as int)) && to - from == HAND_SIZE,
            r is Err ==> r->Err_0 == (if all_cards(text@.subrange(from as int, to as int)) {
                InputError::Syntax
            } else {
                InputError::Value
            }),
            r is Ok ==> r->Ok_0.wf() && r->Ok_0.names() == text@.subrange(
                from as int,
                to as int,
            ).map_values(|b: u8| b as char),
    {
        let ghost t = text@.subrange(from as int, to as int);
        let mut cards: Vec<C> = Vec::new();
        let mut worths: Vec<u8> = Vec::new();
        let mut i: usize = from;
        while i < to
            invariant
                from <= i <= to <= text.len(),
                t == text@.subrange(from as int, to as int),
                cards.len() == i - from,
                worths.len() == i - from,
                forall|j: int| 0 <= j < i - from ==> is_card(#[trigger] t[j] as char),
                forall|j: int|
                    0 <= j < i - from ==> (#[trigger] cards@[j]).name() == t[j] as char
                        && worths@[j] == C::worth(cards@[j].name()),
            decreases to - i,
        {
            let c = text[i] as char;
            proof {
                assert(t[i - from] == text@[i as int]);
            }
            match C::new(c) {
                Some(card) => {
                    worths.push(card.value());
                    cards.push(card);
                },
                None => {
                    return Err(InputError::Value);
                },
            }
            i += 1;
        }
        if cards.len() != HAND_SIZE {
            return Err(InputError::Syntax);
        }
        let hand = Hand { cards, worths };
        proof {
            assert(hand.names() =~= t.map_values(|b: u8| b as char));
        }
        Ok(hand)
    }

    /// How often a worth occurs in the hand.
    fn count(&self, x: u8) -> (n: u8)
        requires
            self.wf(),
        ensures
            n == count_of(self.view(), x),
            n <= HAND_SIZE,
    {
        let mut n: u8 = 0;
        let mut k: usize = 0;
        while k < HAND_SIZE
            invariant
                k <= HAND_SIZE,
                self.wf(),
                n == occurrences(self.view(), x, k as int),
                n <= k,
            decreases HAND_SIZE - k,
        {
            if self.worths[k] == x {
                n += 1;
            }
            k += 1;
        }
        n
    }

    /// The sizes of the two largest groups of equal cards, largest first, the
    /// jokers counted with the largest group of other cards.
    pub fn sorted_counts(&self) -> (r: (u8, u8))
        requires
            self.wf(),
        ensures
            r.0 == if leader(self.view(), HAND_SIZE as int) == 0 {
                count_of(self.view(), JOKER)
            } else {
                count_of(self.view(), leader(self.view(), HAND_SIZE as int)) + count_of(
                    self.view(),
                    JOKER,
                )
            },
            r.1 == runner_up(self.view(), leader(self.view(), HAND_SIZE as int), HAND_SIZE as int),
            r.0 <= 2 * HAND_SIZE,
            r.1 <= HAND_SIZE,
    {
        let ghost v = self.view();
        let mut best: u8 = 0;
        let mut best_count: u8 = 0;
        let mut k: usize = 0;
        while k < HAND_SIZE
            invariant
                k <= HAND_SIZE,
                self.wf(),
                v == self.view(),
                best == leader(v, k as int),
                best != 0 ==> best_count == count_of(v, best),
                best == 0 ==> best_count == 0,
                best_count <= HAND_SIZE,
            decreases HAND_SIZE - k,
        {
            let w = self.worths[k];
            if w != JOKER && w != 0 {
                let n = self.count(w);
                if best == 0 || n > best_count {
                    best = w;
                    best_count = n;
                }
            }
            k += 1;
        }
        let mut second: u8 = 0;
        let mut k: usize = 0;
        while k < HAND_SIZE
            invariant
                k <= HAND_SIZE,
                self.wf(),
                v == self.view(),
                second == runner_up(v, best, k as int),
                second <= HAND_SIZE,
            decreases HAND_SIZE - k,
        {
            let w = self.worths[k];
            if w != JOKER && w != best {
                let n = self.count(w);
                if n > second {
                    second = n;
                }
            }
            k += 1;
        }
        let jokers = self.count(JOKER);
        if best == 0 {
            (jokers, second)
        } else {
            (best_count + jokers, second)
        }
    }

    /// The kind of the hand.
    pub fn kind(&self) -> (r: (u8, u8))
        requires
            self.wf(),
        ensures
            (r.0 as int, r.1 as int) == kind_of(self.view()),
    {
        let counts = self.sorted_counts();
        if counts.0 == 2 || counts.0 == 3 {
            counts
        } else {
            (counts.0, 0)
        }
    }

    /// Whether the hand is weaker than another.
    pub fn is_weaker_than(&self, other: &Hand<C>) -> (b: bool)
        requires
            self.wf(),
            other.wf(),
        ensures
            b == weaker(self.view(), other.view()),
    {
        let mine = self.kind();
        let theirs = other.kind();
        if mine.0 != theirs.0 {
            return mine.0 < theirs.0;
        }
        if mine.1 != theirs.1 {
            return mine.1 < theirs.1;
        }
        let mut k: usize = 0;
        while k < HAND_SIZE
            invariant
                k <= HAND_SIZE,
                self.wf(),
                other.wf(),
                weaker(self.view(), other.view()) == cards_less(
                    self.view(),
                    other.view(),
                    k as int,
                ),
            decreases HAND_SIZE - k,
        {
            proof {
                assert(self.view()[k as int] == self.worths@[k as int]);
                assert(other.view()[k as int] == other.worths@[k as int]);
                assert(self.view().len() == HAND_SIZE && other.view().len() == HAND_SIZE);
            }
            if self.worths[k] != other.worths[k] {
                return self.worths[k] < other.worths[k];
            }
            k += 1;
        }
        false
    }
}

impl<C: Card> HandsList<C> {
    /// What the cards of each hand are worth.
    pub closed spec fn view(&self) -> Seq<Seq<u8>> {
        self.hands@.map_values(|h: Hand<C>| h.view())
    }

    /// The names of the cards of each hand.
    pub closed spec fn names(&self) -> Seq<Seq<char>> {
        self.hands@.map_values(|h: Hand<C>| h.names())
    }

    /// The bids, in the order of the hands.
    pub closed spec fn bids(&self) -> Seq<u32> {
        self.bids@
    }

    /// Every hand is sound and has its bid.
    pub closed spec fn wf(&self) -> bool {
        &&& self.hands@.len() == self.bids@.len()
        &&& forall|i: int| 0 <= i < self.hands@.len() ==> (#[trigger] self.hands@[i]).wf()
    }

    /// The number of hands.
    pub fn len(&self) -> (n: usize)
        ensures
            n == self.view().len(),
    {
        self.hands.len()
    }

    /// The bid of hand `i`.
    pub fn bid(&self, i: usize) -> (b: u32)
        requires
            self.wf(),
            i < self.view().len(),
        ensures
            b == self.bids()[i as int],
    {
        self.bids[i]
    }

    /// The rank of hand `i`: one more than the number of hands ranked below
    /// it.
    pub fn rank_of(&self, i: usize) -> (r: usize)
        requires
            self.wf(),
            i < self.view().len(),
        ensures
            r == rank(self.view(), i as int),
            1 <= r <= self.view().len(),
    {
        let ghost hands = self.view();
        let n = self.hands.len();
        let mut below: usize = 0;
        let mut j: usize = 0;
        while j < n
            invariant
                j <= n,
                i < n,
                n == self.hands.len(),
                self.wf(),
                hands == self.view(),
                below == below_count(hands, i as int, j as int),
                below <= j,
                j > i ==> below < j,
            decreases n - j,
        {
            let before = self.hands[j].is_weaker_than(&self.hands[i]) || (!self.hands[i].is_weaker_than(
                &self.hands[j],
            ) && j < i);
            proof {
                if j == i {
                    lemma_not_weaker_than_itself(hands[i as int]);
                }
            }
            if before {
                below += 1;
            }
            j += 1;
        }
        below + 1
    }

    /// What the hands win together: each its bid times its rank, where the
    /// weakest hand has rank one and of two hands of equal strength the earlier
    /// has the lower rank.
    pub fn total_winnings(&self) -> (r: u32)
        requires
            self.wf(),
            self.view().len() <= u32::MAX,
            winnings(self.view(), self.bids(), self.view().len() as int) <= u32::MAX,
        ensures
            r == winnings(self.view(), self.bids(), self.view().len() as int),
    {
        let ghost hands = self.view();
        let n = self.hands.len();
        let mut total: u64 = 0;
        let mut i: usize = 0;
        while i < n
            invariant
                i <= n,
                n == self.hands.len(),
                n <= u32::MAX,
                self.wf(),
                hands == self.view(),
                total == winnings(hands, self.bids(), i as int),
                winnings(hands, self.bids(), n as int) <= u32::MAX,
            decreases n - i,
        {
            let r = self.rank_of(i) as u64;
            let bid = self.bids[i] as u64;
            proof {
                lemma_winnings_grow(hands, self.bids(), i as int, n as int);
                lemma_winnings_grow(hands, self.bids(), i + 1, n as int);
                assert(r * bid <= u32::MAX * u32::MAX) by (nonlinear_arith)
                    requires
                        r <= u32::MAX,
                        bid <= u32::MAX,
                ;
            }
            total = total + r * bid;
            i += 1;
        }
        total as u32
    }

    /// Reads a list: on each line a hand, a space, and the bid.
    #[verifier::loop_isolation(false)]
    pub fn from_bytes(text: &[u8]) -> (r: Result<HandsList<C>, InputError>)
        ensures
            r is Ok <==> forall|i: int|
                0 <= i < lines(text@).len() ==> (#[trigger] entry_of(lines(text@)[i])) is Ok,
            r is Ok ==> {
                let list = r->Ok_0;
                &&& list.wf()
                &&& list.names().len() == lines(text@).len()
                &&& list.bids().len() == lines(text@).len()
                &&& forall|i: int|
                    0 <= i < lines(text@).len() ==> entry_of(#[trigger] lines(text@)[i]) == Ok::<
                        (Seq<u8>, u32),
                        InputError,
                    >((Seq::new(HAND_SIZE as nat, |k: int| list.names()[i][k] as u8), list.bids()[i]))
            },
            r is Ok ==> r->Ok_0.holds(text@),
    {
        let spans = split_lines(text);
        let ghost ls = lines(text@);
        let space: [u8; 1] = [32];
        proof {
            assert(space@ =~= seq![32u8]);
        }
        let mut hands: Vec<Hand<C>> = Vec::new();
        let mut bids: Vec<u32> = Vec::new();
        let mut i: usize = 0;
        while i < spans.len()
            invariant
                i <= spans.len(),
                hands.len() == i,
                bids.len() == i,
                forall|j: int| 0 <= j < i ==> (#[trigger] hands@[j]).wf(),
                forall|j: int| 0 <= j < i ==> (#[trigger] entry_of(ls[j])) is Ok,
                forall|j: int|
                    0 <= j < i ==> entry_of(#[trigger] ls[j]) == Ok::<(Seq<u8>, u32), InputError>(
                        (Seq::new(HAND_SIZE as nat, |k: int| hands@[j].names()[k] as u8), bids@[j]),
                    ),
            decreases spans.len() - i,
        {
            let (from, to) = spans[i];
            let ghost line = ls[i as int];
            let middle = match split_once(text, from, to, array_as_slice(&space)) {
                Some(m) => m,
                None => {
                    proof {
                        assert(entry_of(line) is Err);
                    }
                    return Err(InputError::Syntax);
                },
            };
            let hand = match Hand::<C>::from_bytes(text, from, middle) {
                Ok(h) => h,
                Err(e) => {
                    proof {
                        assert(entry_of(line) is Err);
                    }
                    return Err(e);
                },
            };
            let bid = match parse_unsigned(text, middle + 1, to, 0xffff_ffff) {
                Some(b) => b as u32,
                None => {
                    proof {
                        assert(entry_of(line) is Err);
                    }
                    return Err(InputError::Number);
                },
            };
            proof {
                let t = text@.subrange(from as int, middle as int);
                assert(Seq::new(HAND_SIZE as nat, |k: int| hand.names()[k] as u8) =~= t);
            }
            hands.push(hand);
            bids.push(bid);
            i += 1;
        }
        let list = HandsList { hands, bids };
        proof {
            assert(list.names().len() == ls.len());
            assert forall|j: int| 0 <= j < ls.len() implies entry_of(#[trigger] ls[j]) == Ok::<
                (Seq<u8>, u32),
                InputError,
            >((Seq::new(HAND_SIZE as nat, |k: int| list.names()[j][k] as u8), list.bids()[j])) by {
                assert(list.names()[j] == hands@[j].names());
                assert(Seq::new(HAND_SIZE as nat, |k: int| list.names()[j][k] as u8) =~= Seq::new(
                    HAND_SIZE as nat,
                    |k: int| hands@[j].names()[k] as u8,
                ));
            }
        }
        proof {
            assert forall|j: int| 0 <= j < ls.len() implies (#[trigger] entry_of(ls[j])) is Ok
                && entry_of(ls[j])->Ok_0.1 == list.bids()[j] && list.names()[j]
                == entry_of(ls[j])->Ok_0.0.map_values(|b: u8| b as char) by {
                assert(list.names()[j] == hands@[j].names());
                let hand = entry_of(ls[j])->Ok_0.0;
                assert(hand =~= Seq::new(HAND_SIZE as nat, |k: int| hands@[j].names()[k] as u8));
                assert(hands@[j].names().len() == HAND_SIZE);
                assert(list.names()[j] =~= hand.map_values(|b: u8| b as char));
            }
        }
        Ok(list)
    }

    /// The list holds what the lines of a text say: on each line the names of
    /// the cards of a hand, and its bid.
    pub open spec fn holds(&self, text: Seq<u8>) -> bool {
        &&& self.wf()
        &&& self.names().len() == lines(text).len()
        &&& self.bids().len() == lines(text).len()
        &&& forall|i: int|
            0 <= i < lines(text).len() ==> (#[trigger] entry_of(lines(text)[i])) is Ok && entry_of(
                lines(text)[i],
            )->Ok_0.1 == self.bids()[i] && self.names()[i] == entry_of(
                lines(text)[i],
            )->Ok_0.0.map_values(|b: u8| b as char)
    }

    /// Reads a list.
    pub fn parse(s: &str) -> (r: Result<HandsList<C>, InputError>)
        ensures
            r is Ok <==> forall|i: int|
                0 <= i < lines(s.spec_bytes()).len() ==> (#[trigger] entry_of(
                    lines(s.spec_bytes())[i],
                )) is Ok,
            r is Ok ==> r->Ok_0.wf(),
    {
        HandsList::from_bytes(s.as_bytes())
    }
}

/// From any position on, a hand's cards do not come before themselves.
pub proof fn lemma_cards_not_less(a: Seq<u8>, k: int)
    ensures
        !cards_less(a, a, k),
    decreases a.len() - k,
{
    if 0 <= k < a.len() {
        lemma_cards_not_less(a, k + 1);
    }
}

/// No hand is weaker than itself.
pub proof fn lemma_not_weaker_than_itself(a: Seq<u8>)
    ensures
        !weaker(a, a),
{
    lemma_cards_not_less(a, 0);
}

impl<C: Card> std::str::FromStr for HandsList<C> {
    type Err = InputError;

    fn from_str(s: &str) -> (r: Result<Self, Self::Err>) {
        HandsList::parse(s)
    }
}

} // verus!
