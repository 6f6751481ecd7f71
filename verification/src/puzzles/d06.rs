//! Boat races: a boat that is held for some of the time of a race travels, in
//! the rest of the time, as far as it was held long. The puzzle asks in how many
//! ways a record can be beaten.
use crate::text::{
    as_nats, lemma_spans_in_text, lines, parse_u64, parse_unsigned_spans, split_lines,
    split_whitespace, unsigned_list, unsigned_value, words, InputError,
};
use vstd::prelude::*;
use vstd::string::StringSliceAdditionalSpecFns;

verus! {

/// A table of races: the time of each, and the record distance of each.
pub struct BoatTable {
    times: Vec<u32>,
    distances: Vec<u32>,
}

/// One race: its time, and the record distance.
pub struct BoatRace {
    time: u64,
    distance: u64,
}

/// Whether holding the boat for `hold` beats the record.
pub open spec fn wins(time: int, distance: int, hold: int) -> bool {
    0 <= hold <= time && hold * (time - hold) > distance
}

/// `hold` is the shortest time of holding that beats the record.
pub open spec fn is_shortest_win(time: int, distance: int, hold: int) -> bool {
    wins(time, distance, hold) && forall|h: int| 0 <= h < hold ==> !wins(time, distance, h)
}

/// Two to the power of `k`.
pub open spec fn doubled(k: nat) -> int
    decreases k,
{
    if k == 0 {
        1
    } else {
        2 * doubled((k - 1) as nat)
    }
}

/// The numbers as mathematics.
pub open spec fn nats(v: Seq<u32>) -> Seq<nat> {
    Seq::new(v.len(), |i: int| v[i] as nat)
}

/// All words but the first.
pub open spec fn rest(ws: Seq<Seq<u8>>) -> Seq<Seq<u8>> {
    if ws.len() <= 1 {
        Seq::<Seq<u8>>::empty()
    } else {
        ws.skip(1)
    }
}

/// All words but the first, written one after another.
pub open spec fn joined_tail(ws: Seq<Seq<u8>>) -> Seq<u8>
    decreases ws.len(),
{
    if ws.len() <= 1 {
        Seq::<u8>::empty()
    } else {
        joined_tail(ws.drop_last()) + ws.last()
    }
}

/// The race that a text stands for: on its first line the time and on its
/// second the distance, each after a word that names it, and each written with
/// blanks among its digits that do not count.
pub open spec fn race_of(t: Seq<u8>) -> Result<(nat, nat), InputError> {
    let ls = lines(t);
    if ls.len() < 2 {
        Err(InputError::Syntax)
    } else {
        match (
            unsigned_value(joined_tail(words(ls[1])), u64::MAX as nat),
            unsigned_value(joined_tail(words(ls[0])), u64::MAX as nat),
        ) {
            (Some(distance), Some(time)) => Ok((time, distance)),
            _ => Err(InputError::Number),
        }
    }
}

/// The table that a text stands for: on its first line the times and on its
/// second the distances, each list after a word that names it.
pub open spec fn table_of(t: Seq<u8>) -> Result<(Seq<nat>, Seq<nat>), InputError> {
    let ls = lines(t);
    if ls.len() < 1 {
        Err(InputError::Syntax)
    } else {
        match unsigned_list(rest(words(ls[0])), u32::MAX as nat) {
            None => Err(InputError::Number),
            Some(times) => if ls.len() < 2 {
                Err(InputError::Syntax)
            } else {
                match unsigned_list(rest(words(ls[1])), u32::MAX as nat) {
                    None => Err(InputError::Number),
                    Some(distances) => Ok((times, distances)),
                }
            },
        }
    }
}

/// The distance grows with the time of holding, as long as that is at most
/// half the time of the race.
pub proof fn lemma_distance_grows(time: int, a: int, b: int)
    requires
        0 <= a <= b,
        a + b <= time,
    ensures
        a * (time - a) <= b * (time - b),
{
    assert(b * (time - b) - a * (time - a) == (b - a) * (time - a - b)) by (nonlinear_arith);
    assert((b - a) * (time - a - b) >= 0) by (nonlinear_arith)
        requires
            b - a >= 0,
            time - a - b >= 0,
    ;
}

/// Holding for `hold` and holding for the rest of the time go equally far.
pub proof fn lemma_distance_mirrors(time: int, hold: int)
    ensures
        hold * (time - hold) == (time - hold) * (time - (time - hold)),
{
    assert(hold * (time - hold) == (time - hold) * (time - (time - hold))) by (nonlinear_arith);
}

/// A time of holding that wins while the time before it does not is the
/// shortest that wins; the longest is as far from the end as it is from the
/// start.
pub proof fn lemma_first_win(time: int, distance: int, hold: int)
    requires
        hold >= 1,
        wins(time, distance, hold),
        !wins(time, distance, hold - 1),
    ensures
        is_shortest_win(time, distance, hold),
        2 * hold <= time,
        forall|h: int| hold <= h <= time - hold ==> wins(time, distance, h),
        forall|h: int| time - hold < h ==> !wins(time, distance, h),
{
    assert(hold * (time - hold) - (hold - 1) * (time - (hold - 1)) == time - 2 * hold + 1)
        by (nonlinear_arith);
    assert forall|h: int| 0 <= h < hold implies !wins(time, distance, h) by {
        lemma_distance_grows(time, h, hold - 1);
    }
    assert forall|h: int| hold <= h <= time - hold implies wins(time, distance, h) by {
        if 2 * h <= time {
            lemma_distance_grows(time, hold, h);
        } else {
            lemma_distance_mirrors(time, h);
            lemma_distance_grows(time, hold, time - h);
        }
    }
    assert forall|h: int| time - hold < h implies !wins(time, distance, h) by {
        if h <= time {
            lemma_distance_mirrors(time, h);
            lemma_distance_grows(time, time - h, hold - 1);
        }
    }
}

/// Powers of two grow, each to at least twice the one before.
pub proof fn lemma_doubled_grows(a: nat, b: nat)
    requires
        a < b,
    ensures
        2 * doubled(a) <= doubled(b),
        doubled(a) >= 1,
    decreases b,
{
    if a + 1 < b {
        lemma_doubled_grows(a, (b - 1) as nat);
    } else if a > 0 {
        lemma_doubled_grows((a - 1) as nat, a);
    }
}

impl BoatRace {
    /// The time of the race.
    pub closed spec fn time(&self) -> int {
        self.time as int
    }

    /// The record distance.
    pub closed spec fn distance(&self) -> int {
        self.distance as int
    }

    /// A race of the given time and record.
    pub fn new(time: u64, distance: u64) -> (r: Self)
        ensures
            r.time() == time,
            r.distance() == distance,
    {
        BoatRace { time, distance }
    }

    /// The time of the race.
    pub fn race_time(&self) -> (t: u64)
        ensures
            t == self.time(),
    {
        self.time
    }

    /// Whether holding the boat for some power of two beats the record.
    pub fn can_win(&self) -> (b: bool)
        requires
            self.time() <= u32::MAX,
        ensures
            b == (exists|k: nat| wins(self.time(), self.distance(), #[trigger] doubled(k))),
    {
        let mut max: u64 = 1;
        let ghost mut power: nat = 0;
        while max <= self.time
            invariant
                max == doubled(power),
                max >= 1,
                self.time <= u32::MAX,
                max <= 2 * self.time + 1,
                forall|j: nat| j < power ==> !wins(self.time(), self.distance(), #[trigger] doubled(j)),
            decreases 2 * self.time + 2 - max,
        {
            proof {
                assert(max * (self.time - max) <= u64::MAX) by (nonlinear_arith)
                    requires
                        0 <= max <= self.time,
                        self.time <= u32::MAX,
                ;
            }
            if max * (self.time - max) > self.distance {
                proof {
                    assert(wins(self.time(), self.distance(), doubled(power)));
                }
                return true;
            }
            proof {
                assert forall|j: nat| j < power + 1 implies !wins(
                    self.time(),
                    self.distance(),
                    #[trigger] doubled(j),
                ) by {}
                power = power + 1;
            }
            max = max * 2;
        }
        proof {
            assert forall|k: nat| !wins(self.time(), self.distance(), #[trigger] doubled(k)) by {
                if k >= power {
                    if k > power {
                        lemma_doubled_grows(power, k);
                    }
                    assert(doubled(k) >= max);
                }
            }
        }
        false
    }

    /// The number of ways to win: of whole times of holding that beat the
    /// record. A search that doubles the time of holding finds one that wins,
    /// and a search by halves finds the shortest; from there to the longest, all
    /// win.
    pub fn n_ways_to_win(&self) -> (r: u64)
        requires
            self.time() <= u32::MAX,
            exists|k: nat| wins(self.time(), self.distance(), #[trigger] doubled(k)),
        ensures
            exists|hold: int|
                #[trigger] is_shortest_win(self.time(), self.distance(), hold) && r == self.time()
                    - 2 * hold + 1,
            forall|hold: int|
                #[trigger] is_shortest_win(self.time(), self.distance(), hold) ==> forall|h: int|
                    wins(self.time(), self.distance(), h) <==> hold <= h <= self.time() - hold,
    {
        let ghost top = choose|k: nat| wins(self.time(), self.distance(), #[trigger] doubled(k));
        proof {
            lemma_doubled_grows(top, top + 1);
        }
        // Double the time of holding until it wins.
        let mut max: u64 = 1;
        let ghost mut power: nat = 0;
        while max * (self.time - max) <= self.distance
            invariant
                max == doubled(power),
                power <= top,
                wins(self.time as int, self.distance as int, doubled(top)),
                self.time <= u32::MAX,
                max <= self.time,
                max * (self.time - max) <= u64::MAX,
            decreases top - power,
        {
            proof {
                if power == top {
                    assert(false);
                }
                lemma_doubled_grows(power, top);
                power = power + 1;
                assert((2 * max) * (self.time - 2 * max) <= u64::MAX) by (nonlinear_arith)
                    requires
                        0 <= 2 * max <= self.time,
                        self.time <= u32::MAX,
                ;
            }
            max = max * 2;
        }
        // Halve the gap between a time that does not win and one that does.

        let mut low: u64 = 0;
        let mut high: u64 = max;
        proof {
            assert(0 * (self.time - 0) == 0) by (nonlinear_arith);
        }
        while high - low > 1
            invariant
                low < high <= self.time <= u32::MAX,
                !wins(self.time as int, self.distance as int, low as int),
                wins(self.time as int, self.distance as int, high as int),
            decreases high - low,
        {
            let mid = (high - low) / 2 + low;
            proof {
                assert(mid * (self.time - mid) <= u64::MAX) by (nonlinear_arith)
                    requires
                        0 <= mid <= self.time,
                        self.time <= u32::MAX,
                ;
            }
            if mid * (self.time - mid) > self.distance {
                high = mid;
            } else {
                low = mid;
            }
        }
        proof {
            lemma_first_win(self.time as int, self.distance as int, high as int);
            assert forall|hold: int| #[trigger]
                is_shortest_win(self.time(), self.distance(), hold) implies forall|h: int|
                wins(self.time(), self.distance(), h) <==> hold <= h <= self.time() - hold by {
                assert(hold == high);
            }
        }
        self.time - 2 * high + 1
    }

    /// Reads a race from two lines.
    pub fn from_bytes(text: &[u8]) -> (r: Result<BoatRace, InputError>)
        ensures
            match (r, race_of(text@)) {
                (Ok(race), Ok(model)) => race.time() == model.0 && race.distance() == model.1,
                (Err(e), Err(f)) => e == f,
                _ => false,
            },
    {
        let spans = split_lines(text);
        if spans.len() < 2 {
            return Err(InputError::Syntax);
        }
        let time_str = Self::join_tail(text, spans[0].0, spans[0].1);
        let dist_str = Self::join_tail(text, spans[1].0, spans[1].1);
        proof {
            assert(dist_str@.subrange(0, dist_str@.len() as int) =~= dist_str@);
            assert(time_str@.subrange(0, time_str@.len() as int) =~= time_str@);
        }
        let distance = match parse_u64(dist_str.as_slice(), 0, dist_str.len()) {
            Some(v) => v,
            None => {
                return Err(InputError::Number);
            },
        };
        let time = match parse_u64(time_str.as_slice(), 0, time_str.len()) {
            Some(v) => v,
            None => {
                return Err(InputError::Number);
            },
        };
        Ok(BoatRace { time, distance })
    }

    /// The words of a line but the first, written one after another.
    fn join_tail(text: &[u8], from: usize, to: usize) -> (r: Vec<u8>)
        requires
            from <= to <= text.len(),
        ensures
            r@ == joined_tail(words(text@.subrange(from as int, to as int))),
    {
        let found = split_whitespace(text, from, to);
        let ghost ws = words(text@.subrange(from as int, to as int));
        let mut joined: Vec<u8> = Vec::new();
        let mut i: usize = 1;
        if found.len() <= 1 {
            return joined;
        }
        while i < found.len()
            invariant
                1 <= i <= found.len(),
                crate::text::spans_hold(text@, from as int, to as int, found@, ws),
                to <= text.len(),
                joined@ == joined_tail(ws.take(i as int)),
            decreases found.len() - i,
        {
            let (a, b) = found[i];
            let ghost before = joined@;
            let mut pos = a;
            while pos < b
                invariant
                    a <= pos <= b <= text.len(),
                    joined@ == before + text@.subrange(a as int, pos as int),
                decreases b - pos,
            {
                joined.push(text[pos]);
                proof {
                    assert(text@.subrange(a as int, pos + 1) =~= text@.subrange(
                        a as int,
                        pos as int,
                    ).push(text@[pos as int]));
                }
                pos += 1;
            }
            proof {
                assert(ws.take(i + 1).drop_last() =~= ws.take(i as int));
                assert(ws.take(i + 1).last() == ws[i as int]);
            }
            i += 1;
        }
        proof {
            assert(ws.take(found.len() as int) =~= ws);
        }
        joined
    }

    /// Reads a race from two lines.
    pub fn parse(s: &str) -> (r: Result<BoatRace, InputError>)
        ensures
            match (r, race_of(s.spec_bytes())) {
                (Ok(race), Ok(model)) => race.time() == model.0 && race.distance() == model.1,
                (Err(e), Err(f)) => e == f,
                _ => false,
            },
    {
        BoatRace::from_bytes(s.as_bytes())
    }
}

impl BoatTable {
    /// The times of the races.
    pub closed spec fn times(&self) -> Seq<nat> {
        nats(self.times@)
    }

    /// The record distances of the races.
    pub closed spec fn distances(&self) -> Seq<nat> {
        nats(self.distances@)
    }

    /// The time of race `i`.
    pub fn time(&self, i: usize) -> (r: u32)
        requires
            i < self.times().len(),
        ensures
            r == self.times()[i as int],
    {
        self.times[i]
    }

    /// The record distance of race `i`.
    pub fn distance(&self, i: usize) -> (r: u32)
        requires
            i < self.distances().len(),
        ensures
            r == self.distances()[i as int],
    {
        self.distances[i]
    }

    /// The number of times, and the number of distances.
    pub fn lens(&self) -> (r: (usize, usize))
        ensures
            r.0 == self.times().len(),
            r.1 == self.distances().len(),
    {
        (self.times.len(), self.distances.len())
    }

    /// The numbers of a line, after the word that names them.
    fn numbers(text: &[u8], from: usize, to: usize) -> (r: Option<Vec<u32>>)
        requires
            from <= to <= text.len(),
        ensures
            r is Some <==> unsigned_list(
                rest(words(text@.subrange(from as int, to as int))),
                u32::MAX as nat,
            ) is Some,
            r is Some ==> unsigned_list(
                rest(words(text@.subrange(from as int, to as int))),
                u32::MAX as nat,
            ) == Some(nats(r->Some_0@)),
    {
        let mut found = split_whitespace(text, from, to);
        let ghost ws = words(text@.subrange(from as int, to as int));
        proof {
            lemma_spans_in_text(text@, from as int, to as int, found@, ws);
        }
        let ghost all = found@;
        if found.len() > 0 {
            found.remove(0);
        }
        proof {
            assert forall|i: int| 0 <= i < found@.len() implies 0 <= (#[trigger] found@[i]).0
                <= found@[i].1 <= text@.len() && text@.subrange(
                found@[i].0 as int,
                found@[i].1 as int,
            ) == rest(ws)[i] by {
                assert(found@[i] == all[i + 1]);
            }
            assert(crate::text::spans_hold(text@, 0, text@.len() as int, found@, rest(ws)));
        }
        let values = match parse_unsigned_spans(text, &found, 0xffff_ffff, Ghost(rest(ws))) {
            Some(v) => v,
            None => {
                return None;
            },
        };
        let ghost model = unsigned_list(rest(ws), u32::MAX as nat)->Some_0;
        let mut narrow: Vec<u32> = Vec::new();
        let mut i: usize = 0;
        while i < values.len()
            invariant
                i <= values.len(),
                narrow.len() == i,
                as_nats(values@) == model,
                model.len() == values.len(),
                unsigned_list(rest(ws), u32::MAX as nat) == Some(model),
                forall|j: int| 0 <= j < i ==> narrow@[j] == values@[j],
            decreases values.len() - i,
        {
            proof {
                assert(model[i as int] == values@[i as int]);
                assert(unsigned_value(rest(ws)[i as int], u32::MAX as nat) is Some);
            }
            narrow.push(values[i] as u32);
            i += 1;
        }
        proof {
            assert(nats(narrow@) =~= model);
        }
        Some(narrow)
    }

    /// Reads a table from two lines.
    pub fn from_bytes(text: &[u8]) -> (r: Result<BoatTable, InputError>)
        ensures
            match (r, table_of(text@)) {
                (Ok(table), Ok(model)) => table.times() == model.0 && table.distances() == model.1,
                (Err(e), Err(f)) => e == f,
                _ => false,
            },
    {
        let spans = split_lines(text);
        if spans.len() < 1 {
            return Err(InputError::Syntax);
        }
        let times = match Self::numbers(text, spans[0].0, spans[0].1) {
            Some(v) => v,
            None => {
                return Err(InputError::Number);
            },
        };
        if spans.len() < 2 {
            return Err(InputError::Syntax);
        }
        let distances = match Self::numbers(text, spans[1].0, spans[1].1) {
            Some(v) => v,
            None => {
                return Err(InputError::Number);
            },
        };
        Ok(BoatTable { times, distances })
    }

    /// Reads a table from two lines.
    pub fn parse(s: &str) -> (r: Result<BoatTable, InputError>)
        ensures
            match (r, table_of(s.spec_bytes())) {
                (Ok(table), Ok(model)) => table.times() == model.0 && table.distances() == model.1,
                (Err(e), Err(f)) => e == f,
                _ => false,
            },
    {
        BoatTable::from_bytes(s.as_bytes())
    }
}

impl std::str::FromStr for BoatRace {
    type Err = InputError;

    fn from_str(s: &str) -> (r: Result<Self, Self::Err>) {
        BoatRace::parse(s)
    }
}

impl std::str::FromStr for BoatTable {
    type Err = InputError;

    fn from_str(s: &str) -> (r: Result<Self, Self::Err>) {
        BoatTable::parse(s)
    }
}

} // verus!
