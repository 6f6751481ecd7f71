//! An almanac of seeds: a chain of maps leads from the number of a seed to
//! the number of the place where it is planted.
pub mod map;

use crate::text::{
    as_nats, lemma_spans_in_text, lines, parse_unsigned_spans, parts, split_at_each, split_whitespace,
    unsigned_list, words, InputError,
};
use map::{covers, is_range, lemma_image_of_nothing, RangeMap};
use vstd::array::array_as_slice;
use vstd::prelude::*;
use vstd::string::StringSliceAdditionalSpecFns;

verus! {

/// The seeds, and the maps in the order in which they are applied.
pub struct Almanac {
    seeds: Vec<u64>,
    maps: Vec<RangeMap>,
}

/// The number that the first `k` maps lead to from the number `x`.
pub open spec fn location(maps: Seq<Seq<(int, int, int)>>, k: int, x: int) -> int
    decreases k,
{
    if k <= 0 {
        x
    } else {
        map::transform_spec(maps[k - 1], location(maps, k - 1, x))
    }
}

/// An empty line: what parts the maps.
pub open spec fn gap() -> Seq<u8> {
    seq![10u8, 10]
}

/// All words but the first.
pub open spec fn rest(ws: Seq<Seq<u8>>) -> Seq<Seq<u8>> {
    if ws.len() <= 1 {
        Seq::<Seq<u8>>::empty()
    } else {
        ws.skip(1)
    }
}

/// What is wrong with the first of the maps in the parts of a text before
/// part `k` with which something is wrong; the first part holds the seeds.
pub open spec fn maps_fault(ps: Seq<Seq<u8>>, k: int) -> Option<InputError>
    decreases k,
{
    if k <= 1 {
        None
    } else {
        match maps_fault(ps, k - 1) {
            Some(e) => Some(e),
            None => map::map_fault(lines(ps[k - 1]), lines(ps[k - 1]).len() as int),
        }
    }
}

/// What is wrong with a text, if anything: a seed is no number, or something
/// is wrong with one of its maps.
pub open spec fn almanac_fault(text: Seq<u8>) -> Option<InputError> {
    let ps = parts(text, gap());
    if unsigned_list(rest(words(ps[0])), u64::MAX as nat) is None {
        Some(InputError::Number)
    } else {
        maps_fault(ps, ps.len() as int)
    }
}

/// What is wrong stays wrong when more maps are looked at.
pub proof fn lemma_maps_fault(ps: Seq<Seq<u8>>, k: int, m: int)
    requires
        k <= m,
        maps_fault(ps, k) is Some,
    ensures
        maps_fault(ps, m) == maps_fault(ps, k),
    decreases m,
{
    if k < m {
        lemma_maps_fault(ps, k, m - 1);
    }
}

impl Almanac {
    /// The almanac holds what a text says: the seeds of its first part, and
    /// for each part after that a map with the ranges of its lines.
    pub open spec fn holds(&self, text: Seq<u8>) -> bool {
        &&& self.wf()
        &&& unsigned_list(rest(words(parts(text, gap())[0])), u64::MAX as nat) == Some(
            as_nats(self.seed_numbers()),
        )
        &&& self.view().len() == parts(text, gap()).len() - 1
        &&& forall|i: int|
            0 <= i < self.view().len() ==> map::holds_lines(
                #[trigger] self.view()[i],
                lines(parts(text, gap())[i + 1]),
                lines(parts(text, gap())[i + 1]).len() as int,
            )
    }

    /// The seeds.
    pub closed spec fn seed_numbers(&self) -> Seq<u64> {
        self.seeds@
    }

    /// The maps, each as its ranges: where the range starts, where it ends,
    /// and where it is mapped to.
    pub closed spec fn view(&self) -> Seq<Seq<(int, int, int)>> {
        Seq::new(self.maps@.len(), |i: int| self.maps@[i]@)
    }

    /// Every map is sound.
    pub closed spec fn wf(&self) -> bool {
        forall|i: int| 0 <= i < self.maps@.len() ==> (#[trigger] self.maps@[i]).wf()
    }

    /// The seeds.
    pub fn seeds(&self) -> (r: &Vec<u64>)
        ensures
            r@ == self.seed_numbers(),
    {
        &self.seeds
    }

    /// The number of the place of a seed: what the maps, one after the other,
    /// lead to from the number of the seed.
    pub fn get_location_num(&self, seed_num: u64) -> (r: u64)
        requires
            self.wf(),
        ensures
            r == location(self.view(), self.view().len() as int, seed_num as int),
    {
        let mut x = seed_num;
        let mut i: usize = 0;
        while i < self.maps.len()
            invariant
                i <= self.maps.len(),
                self.wf(),
                self.maps.len() == self.view().len(),
                x == location(self.view(), i as int, seed_num as int),
            decreases self.maps.len() - i,
        {
            proof {
                assert(self.view()[i as int] == self.maps@[i as int]@);
            }
            x = self.maps[i].transform(x);
            i += 1;
        }
        x
    }

    /// The least number of a place among those of the seeds of a range: of
    /// the seeds from `range.0` up to, not including, `range.1`.
    pub fn get_min_location_for_range(&self, range: (u64, u64)) -> (r: u64)
        requires
            self.wf(),
            range.0 < range.1,
        ensures
            exists|x: int|
                range.0 <= x < range.1 && r == #[trigger] location(
                    self.view(),
                    self.view().len() as int,
                    x,
                ),
            forall|x: int|
                range.0 <= x < range.1 ==> r <= #[trigger] location(
                    self.view(),
                    self.view().len() as int,
                    x,
                ),
    {
        let ghost maps = self.view();
        let mut ranges: Vec<(u64, u64)> = Vec::new();
        ranges.push(range);
        proof {
            assert forall|y: int| covers(ranges@, y) <==> exists|x: int|
                range.0 <= x < range.1 && #[trigger] location(maps, 0, x) == y by {
                if covers(ranges@, y) {
                    let k = choose|k: int|
                        0 <= k < ranges@.len() && (#[trigger] ranges@[k]).0 <= y < ranges@[k].1;
                    assert(location(maps, 0, y) == y);
                }
                if exists|x: int| range.0 <= x < range.1 && #[trigger] location(maps, 0, x) == y {
                    assert(ranges@[0].0 <= y < ranges@[0].1);
                }
            }
        }
        let mut i: usize = 0;
        while i < self.maps.len()
            invariant
                i <= self.maps.len(),
                self.wf(),
                maps == self.view(),
                self.maps.len() == maps.len(),
                range.0 < range.1,
                ranges@.len() >= 1,
                forall|k: int| 0 <= k < ranges@.len() ==> is_range(#[trigger] ranges@[k]),
                forall|y: int|
                    covers(ranges@, y) <==> exists|x: int|
                        range.0 <= x < range.1 && #[trigger] location(maps, i as int, x) == y,
            decreases self.maps.len() - i,
        {
            let ghost before = ranges@;
            let mut transformed_ranges: Vec<(u64, u64)> = Vec::new();
            let mut j: usize = 0;
            proof {
                assert(maps[i as int] == self.maps@[i as int]@);
                lemma_image_of_nothing(maps[i as int], transformed_ranges@, before, 0);
            }
            while j < ranges.len()
                invariant
                    j <= ranges.len(),
                    i < self.maps.len(),
                    self.wf(),
                    maps == self.view(),
                    self.maps.len() == maps.len(),
                    before == ranges@,
                    j > 0 ==> transformed_ranges@.len() >= 1,
                    forall|k: int| 0 <= k < ranges@.len() ==> is_range(#[trigger] ranges@[k]),
                    forall|k: int|
                        0 <= k < transformed_ranges@.len() ==> is_range(
                            #[trigger] transformed_ranges@[k],
                        ),
                    forall|y: int|
                        covers(transformed_ranges@, y) <==> exists|x: int|
                            covers(before.take(j as int), x) && #[trigger] map::transform_spec(
                                maps[i as int],
                                x,
                            ) == y,
                decreases ranges.len() - j,
            {
                let ghost done = transformed_ranges@;
                let mut more = self.maps[i].transform_range(ranges[j]);
                let ghost added = more@;
                transformed_ranges.append(&mut more);
                proof {
                    assert(maps[i as int] == self.maps@[i as int]@);
                    map::lemma_image_of_more(maps[i as int], done, added, before, j as int);
                    assert(transformed_ranges@ =~= done + added);
                    assert forall|k: int| 0 <= k < transformed_ranges@.len() implies is_range(
                        #[trigger] transformed_ranges@[k],
                    ) by {
                        if k >= done.len() {
                            assert(transformed_ranges@[k] == added[k - done.len()]);
                        }
                    }
                }
                j += 1;
            }
            proof {
                assert(before.take(before.len() as int) =~= before);
                assert forall|y: int| covers(transformed_ranges@, y) <==> exists|x: int|
                    range.0 <= x < range.1 && #[trigger] location(maps, i + 1, x) == y by {
                    if covers(transformed_ranges@, y) {
                        let z = choose|z: int|
                            covers(before, z) && #[trigger] map::transform_spec(maps[i as int], z)
                                == y;
                        let x = choose|x: int|
                            range.0 <= x < range.1 && #[trigger] location(maps, i as int, x) == z;
                        assert(location(maps, i + 1, x) == y);
                    }
                    if exists|x: int|
                        range.0 <= x < range.1 && #[trigger] location(maps, i + 1, x) == y {
                        let x = choose|x: int|
                            range.0 <= x < range.1 && #[trigger] location(maps, i + 1, x) == y;
                        let z = location(maps, i as int, x);
                        assert(covers(before, z));
                        assert(map::transform_spec(maps[i as int], z) == y);
                    }
                }
            }
            ranges = transformed_ranges;
            i += 1;
        }
        // Every range starts with its least number.
        let mut min = ranges[0].0;
        let mut k: usize = 1;
        while k < ranges.len()
            invariant
                1 <= k <= ranges.len(),
                forall|n: int| 0 <= n < k ==> min <= (#[trigger] ranges@[n]).0,
                exists|n: int| 0 <= n < k && min == (#[trigger] ranges@[n]).0,
            decreases ranges.len() - k,
        {
            if ranges[k].0 < min {
                min = ranges[k].0;
            }
            k += 1;
        }
        proof {
            let n = choose|n: int| 0 <= n < ranges@.len() && min == (#[trigger] ranges@[n]).0;
            assert(is_range(ranges@[n]));
            assert(covers(ranges@, min as int));
            assert forall|x: int| range.0 <= x < range.1 implies min <= #[trigger] location(
                maps,
                maps.len() as int,
                x,
            ) by {
                let y = location(maps, maps.len() as int, x);
                assert(covers(ranges@, y));
                let m = choose|m: int|
                    0 <= m < ranges@.len() && (#[trigger] ranges@[m]).0 <= y < ranges@[m].1;
            }
        }
        min
    }

    /// Reads an almanac: the seeds, and then the maps, each after an empty
    /// line.
    #[verifier::loop_isolation(false)]
    pub fn from_bytes(text: &[u8]) -> (r: Result<Almanac, InputError>)
        ensures
            r is Ok ==> r->Ok_0.wf(),
            r is Ok ==> unsigned_list(rest(words(parts(text@, gap())[0])), u64::MAX as nat) == Some(
                as_nats(r->Ok_0.seed_numbers()),
            ),
            r is Ok ==> r->Ok_0.view().len() == parts(text@, gap()).len() - 1,
            r is Ok ==> forall|i: int|
                0 <= i < r->Ok_0.view().len() ==> map::holds_lines(
                    #[trigger] r->Ok_0.view()[i],
                    lines(parts(text@, gap())[i + 1]),
                    lines(parts(text@, gap())[i + 1]).len() as int,
                ),
            match r {
                Ok(almanac) => almanac_fault(text@) is None && almanac.holds(text@),
                Err(e) => almanac_fault(text@) == Some(e),
            },
    {
        let sep: [u8; 2] = [10, 10];
        proof {
            assert(sep@ =~= gap());
            assert(text@.subrange(0, text@.len() as int) =~= text@);
        }
        let spans = split_at_each(text, 0, text.len(), array_as_slice(&sep));
        let ghost ps = parts(text@, gap());
        let mut found = split_whitespace(text, spans[0].0, spans[0].1);
        let ghost ws = words(ps[0]);
        proof {
            lemma_spans_in_text(text@, spans[0].0 as int, spans[0].1 as int, found@, ws);
        }
        let ghost all = found@;
        // The first word names the seeds.
        if found.len() > 0 {
            found.remove(0);
        }
        proof {
            assert forall|i: int| 0 <= i < found@.len() implies 0 <= (#[trigger] found@[i]).0
                <= found@[i].1 <= text@.len() && text@.subrange(
                found@[i].0 as int,
                found@[i].1 as int,
            ) == rest(ws)[i] by {
                assert(found@[i] == all[i + 1]);
            }
        }
        let max: u64 = u64::MAX;
        let seeds = match parse_unsigned_spans(text, &found, max, Ghost(rest(ws))) {
            Some(v) => v,
            None => {
                return Err(InputError::Number);
            },
        };
        let mut maps: Vec<RangeMap> = Vec::new();
        let mut i: usize = 1;
        while i < spans.len()
            invariant
                1 <= i <= spans.len(),
                maps.len() == i - 1,
                forall|k: int| 0 <= k < maps.len() ==> (#[trigger] maps@[k]).wf(),
                maps_fault(ps, i as int) is None,
                forall|k: int|
                    0 <= k < i - 1 ==> map::holds_lines(
                        (#[trigger] maps@[k])@,
                        lines(ps[k + 1]),
                        lines(ps[k + 1]).len() as int,
                    ),
            decreases spans.len() - i,
        {
            match RangeMap::from_bytes(text, spans[i].0, spans[i].1) {
                Ok(m) => {
                    let ghost earlier = maps@;
                    maps.push(m);
                    proof {
                        assert forall|k: int| 0 <= k < i implies map::holds_lines(
                            (#[trigger] maps@[k])@,
                            lines(ps[k + 1]),
                            lines(ps[k + 1]).len() as int,
                        ) by {
                            if k < i - 1 {
                                assert(maps@[k] == earlier[k]);
                            }
                        }
                        assert forall|k: int| 0 <= k < maps.len() implies (#[trigger] maps@[k]).wf() by {
                            if k < i - 1 {
                                assert(maps@[k] == earlier[k]);
                            }
                        }
                    }
                },
                Err(e) => {
                    proof {
                        assert(maps_fault(ps, i + 1) == Some(e));
                        lemma_maps_fault(ps, i + 1, ps.len() as int);
                    }
                    return Err(e);
                },
            }
            i += 1;
        }
        let almanac = Almanac { seeds, maps };
        proof {
            assert forall|k: int| 0 <= k < almanac.view().len() implies map::holds_lines(
                #[trigger] almanac.view()[k],
                lines(ps[k + 1]),
                lines(ps[k + 1]).len() as int,
            ) by {
                assert(almanac.view()[k] == almanac.maps@[k]@);
            }
        }
        Ok(almanac)
    }

    /// Reads an almanac.
    pub fn parse(s: &str) -> (r: Result<Almanac, InputError>)
        ensures
            r is Ok ==> r->Ok_0.wf(),
            match r {
                Ok(almanac) => almanac_fault(s.spec_bytes()) is None && almanac.holds(s.spec_bytes()),
                Err(e) => almanac_fault(s.spec_bytes()) == Some(e),
            },
    {
        Almanac::from_bytes(s.as_bytes())
    }
}

impl std::str::FromStr for Almanac {
    type Err = InputError;

    fn from_str(s: &str) -> (r: Result<Self, Self::Err>) {
        Almanac::parse(s)
    }
}

} // verus!
