//! One map of an almanac: ranges of numbers, each moved as a whole.
use crate::text::{
    lines, parse_u64, split_lines, split_whitespace, unsigned_value, words,
    InputError,
};
use vstd::prelude::*;

verus! {

/// The ranges of a map, in the order of the numbers that they start with. No
/// number lies in two of them.
pub struct RangeMap {
    ranges: Vec<MapRange>,
}

/// A range of numbers, from `from.0` up to, not including, `from.1`, which is
/// moved so that it starts at `to_start`. There is at least one number in it.
pub struct MapRange {
    from: (u64, u64),
    to_start: u64,
}

/// A range as mathematics: where it starts, where it ends, and where it is
/// moved to.
pub open spec fn range_ok(r: (int, int, int)) -> bool {
    0 <= r.0 < r.1 && 0 <= r.2 && r.2 + r.1 <= u64::MAX
}

/// The ranges are sound, they are in rising order, and no two of them overlap.
pub open spec fn ranges_ok(rs: Seq<(int, int, int)>) -> bool {
    &&& forall|i: int| 0 <= i < rs.len() ==> range_ok(#[trigger] rs[i])
    &&& forall|i: int, j: int| 0 <= i < j < rs.len() ==> (#[trigger] rs[i]).1 <= (#[trigger] rs[j]).0
}

/// What a number is mapped to: a number in one of the ranges moves with its
/// range, and any other number stays.
pub open spec fn transform_spec(rs: Seq<(int, int, int)>, x: int) -> int
    decreases rs.len(),
{
    if rs.len() == 0 {
        x
    } else if rs[0].0 <= x < rs[0].1 {
        rs[0].2 + x - rs[0].0
    } else {
        transform_spec(rs.drop_first(), x)
    }
}

/// A pair of numbers that is a range with at least one number in it.
pub open spec fn is_range(r: (u64, u64)) -> bool {
    r.0 < r.1
}

/// Whether the number lies in one of the ranges, each from its first number
/// up to, not including, its second.
pub open spec fn covers(rs: Seq<(u64, u64)>, y: int) -> bool {
    exists|k: int| 0 <= k < rs.len() && (#[trigger] rs[k]).0 <= y < rs[k].1
}

/// Whether two ranges have a number in common.
pub open spec fn overlap(a: (int, int, int), b: (int, int, int)) -> bool {
    a.0 < b.1 && b.0 < a.1
}

/// Whether a range has a number in common with one of the ranges.
pub open spec fn clashes(rs: Seq<(int, int, int)>, v: (int, int, int)) -> bool {
    exists|k: int| 0 <= k < rs.len() && overlap(#[trigger] rs[k], v)
}

/// Whether the range of line `k` has a number in common with the range of a
/// line before it; the first line holds a name and no range.
pub open spec fn clashes_before(ls: Seq<Seq<u8>>, k: int) -> bool {
    exists|n: int| 1 <= n < k && overlap((#[trigger] range_of(ls[n]))->Ok_0, range_of(ls[k])->Ok_0)
}

/// What is wrong with the first of the first `k` lines of a map with which
/// something is wrong: it stands for no range, or its range has a number in
/// common with the range of a line before it.
pub open spec fn map_fault(ls: Seq<Seq<u8>>, k: int) -> Option<InputError>
    decreases k,
{
    if k <= 1 {
        None
    } else {
        match map_fault(ls, k - 1) {
            Some(e) => Some(e),
            None => match range_of(ls[k - 1]) {
                Err(e) => Some(e),
                Ok(_) => if clashes_before(ls, k - 1) {
                    Some(InputError::Value)
                } else {
                    None
                },
            },
        }
    }
}

/// What is wrong stays wrong when more lines are looked at.
pub proof fn lemma_map_fault(ls: Seq<Seq<u8>>, k: int, m: int)
    requires
        k <= m,
        map_fault(ls, k) is Some,
    ensures
        map_fault(ls, m) == map_fault(ls, k),
    decreases m,
{
    if k < m {
        lemma_map_fault(ls, k, m - 1);
    }
}

/// The ranges hold what the lines of a text after the first stand for: a
/// range for every line, and no other range.
pub open spec fn holds_lines(rs: Seq<(int, int, int)>, ls: Seq<Seq<u8>>, upto: int) -> bool {
    &&& forall|i: int|
        1 <= i < upto ==> (#[trigger] range_of(ls[i])) is Ok && rs.contains(range_of(ls[i])->Ok_0)
    &&& forall|k: int|
        0 <= k < rs.len() ==> exists|i: int|
            1 <= i < upto && #[trigger] range_of(ls[i]) == Ok::<(int, int, int), InputError>(
                #[trigger] rs[k],
            )
    &&& rs.len() == (if upto >= 1 {
        upto - 1
    } else {
        0
    })
}

/// The range that a line stands for.
pub open spec fn range_of(t: Seq<u8>) -> Result<(int, int, int), InputError> {
    let ws = words(t);
    if ws.len() < 1 {
        Err(InputError::Syntax)
    } else {
        match unsigned_value(ws[0], u64::MAX as nat) {
            None => Err(InputError::Number),
            Some(to) => if ws.len() < 2 {
                Err(InputError::Syntax)
            } else {
                match unsigned_value(ws[1], u64::MAX as nat) {
                    None => Err(InputError::Number),
                    Some(from) => if ws.len() < 3 {
                        Err(InputError::Syntax)
                    } else {
                        match unsigned_value(ws[2], u64::MAX as nat) {
                            None => Err(InputError::Number),
                            Some(len) => if len > 0 && from + len <= u64::MAX && to + from + len <= u64::MAX {
                                Ok((from as int, (from + len) as int, to as int))
                            } else {
                                Err(InputError::Value)
                            },
                        }
                    },
                }
            },
        }
    }
}

/// A number that lies in range `i` moves with that range.
pub proof fn lemma_moves(rs: Seq<(int, int, int)>, i: int, x: int)
    requires
        ranges_ok(rs),
        0 <= i < rs.len(),
        rs[i].0 <= x < rs[i].1,
    ensures
        transform_spec(rs, x) == rs[i].2 + x - rs[i].0,
    decreases i,
{
    if i > 0 {
        assert(rs[0].1 <= rs[i].0);
        let tail = rs.drop_first();
        assert(ranges_ok(tail)) by {
            assert forall|a: int| 0 <= a < tail.len() implies range_ok(#[trigger] tail[a]) by {
                assert(tail[a] == rs[a + 1]);
            }
            assert forall|a: int, b: int| 0 <= a < b < tail.len() implies (#[trigger] tail[a]).1 <= (
            #[trigger] tail[b]).0 by {
                assert(tail[a] == rs[a + 1]);
                assert(tail[b] == rs[b + 1]);
            }
        }
        assert(tail[i - 1] == rs[i]);
        lemma_moves(tail, i - 1, x);
    }
}

/// A number that lies in no range from `i` on, and before which no range
/// ends earlier, stays.
pub proof fn lemma_stays(rs: Seq<(int, int, int)>, x: int)
    requires
        forall|i: int| 0 <= i < rs.len() ==> !((#[trigger] rs[i]).0 <= x < rs[i].1),
    ensures
        transform_spec(rs, x) == x,
    decreases rs.len(),
{
    if rs.len() > 0 {
        let tail = rs.drop_first();
        assert forall|i: int| 0 <= i < tail.len() implies !((#[trigger] tail[i]).0 <= x
            < tail[i].1) by {
            assert(tail[i] == rs[i + 1]);
        }
        lemma_stays(tail, x);
    }
}

/// No ranges cover no numbers: what was done of nothing is nothing.
pub proof fn lemma_image_of_nothing(
    rs: Seq<(int, int, int)>,
    done: Seq<(u64, u64)>,
    before: Seq<(u64, u64)>,
    j: int,
)
    requires
        done.len() == 0,
        j == 0,
    ensures
        forall|y: int|
            covers(done, y) <==> exists|x: int|
                covers(before.take(j), x) && #[trigger] transform_spec(rs, x) == y,
{
    assert forall|y: int| covers(done, y) <==> exists|x: int|
        covers(before.take(j), x) && #[trigger] transform_spec(rs, x) == y by {
        if exists|x: int| covers(before.take(j), x) && #[trigger] transform_spec(rs, x) == y {
            let x = choose|x: int| covers(before.take(j), x) && #[trigger] transform_spec(rs, x) == y;
            assert(before.take(j).len() == 0);
        }
    }
}

/// What `done` covers is what the first `j` ranges are mapped to, and `added`
/// covers what range `j` is mapped to: together they cover what the first
/// `j + 1` ranges are mapped to.
pub proof fn lemma_image_of_more(
    rs: Seq<(int, int, int)>,
    done: Seq<(u64, u64)>,
    added: Seq<(u64, u64)>,
    before: Seq<(u64, u64)>,
    j: int,
)
    requires
        0 <= j < before.len(),
        forall|y: int|
            covers(done, y) <==> exists|x: int|
                covers(before.take(j), x) && #[trigger] transform_spec(rs, x) == y,
        forall|y: int|
            covers(added, y) <==> exists|x: int|
                before[j].0 <= x < before[j].1 && #[trigger] transform_spec(rs, x) == y,
    ensures
        forall|y: int|
            covers(done + added, y) <==> exists|x: int|
                covers(before.take(j + 1), x) && #[trigger] transform_spec(rs, x) == y,
{
    let both = done + added;
    assert forall|y: int| covers(both, y) <==> exists|x: int|
        covers(before.take(j + 1), x) && #[trigger] transform_spec(rs, x) == y by {
        if covers(both, y) {
            let k = choose|k: int| 0 <= k < both.len() && (#[trigger] both[k]).0 <= y < both[k].1;
            if k < done.len() {
                assert(done[k] == both[k]);
                assert(covers(done, y));
                let x = choose|x: int|
                    covers(before.take(j), x) && #[trigger] transform_spec(rs, x) == y;
                let m = choose|m: int|
                    0 <= m < before.take(j).len() && (#[trigger] before.take(j)[m]).0 <= x
                        < before.take(j)[m].1;
                assert(before.take(j + 1)[m] == before.take(j)[m]);
                assert(covers(before.take(j + 1), x));
            } else {
                assert(added[k - done.len()] == both[k]);
                assert(covers(added, y));
                let x = choose|x: int|
                    before[j].0 <= x < before[j].1 && #[trigger] transform_spec(rs, x) == y;
                assert(before.take(j + 1)[j] == before[j]);
                assert(covers(before.take(j + 1), x));
            }
        }
        if exists|x: int| covers(before.take(j + 1), x) && #[trigger] transform_spec(rs, x) == y {
            let x = choose|x: int|
                covers(before.take(j + 1), x) && #[trigger] transform_spec(rs, x) == y;
            let m = choose|m: int|
                0 <= m < before.take(j + 1).len() && (#[trigger] before.take(j + 1)[m]).0 <= x
                    < before.take(j + 1)[m].1;
            if m < j {
                assert(before.take(j)[m] == before.take(j + 1)[m]);
                assert(covers(before.take(j), x));
                assert(covers(done, y));
                let k = choose|k: int| 0 <= k < done.len() && (#[trigger] done[k]).0 <= y < done[k].1;
                assert(both[k] == done[k]);
            } else {
                assert(before.take(j + 1)[m] == before[j]);
                assert(covers(added, y));
                let k = choose|k: int|
                    0 <= k < added.len() && (#[trigger] added[k]).0 <= y < added[k].1;
                assert(both[done.len() + k] == added[k]);
            }
        }
    }
}

/// The ranges as mathematics.
pub open spec fn models(rs: Seq<MapRange>) -> Seq<(int, int, int)> {
    Seq::new(rs.len(), |i: int| rs[i].view())
}

impl MapRange {
    /// The range as mathematics.
    pub closed spec fn view(&self) -> (int, int, int) {
        (self.from.0 as int, self.from.1 as int, self.to_start as int)
    }

    /// The number of numbers in the range.
    pub fn len(&self) -> (r: u64)
        requires
            range_ok(self.view()),
        ensures
            r == self.view().1 - self.view().0,
    {
        self.from.1 - self.from.0
    }

    /// Reads a range from the text between `from` and `to`.
    pub fn from_bytes(text: &[u8], from: usize, to: usize) -> (r: Result<MapRange, InputError>)
        requires
            from <= to <= text.len(),
        ensures
            match (r, range_of(text@.subrange(from as int, to as int))) {
                (Ok(range), Ok(model)) => range.view() == model && range_ok(model),
                (Err(e), Err(f)) => e == f,
                _ => false,
            },
    {
        let str_nums = split_whitespace(text, from, to);
        if str_nums.len() < 1 {
            return Err(InputError::Syntax);
        }
        let to_start = match parse_u64(text, str_nums[0].0, str_nums[0].1) {
            Some(v) => v,
            None => {
                return Err(InputError::Number);
            },
        };
        if str_nums.len() < 2 {
            return Err(InputError::Syntax);
        }
        let from_start = match parse_u64(text, str_nums[1].0, str_nums[1].1) {
            Some(v) => v,
            None => {
                return Err(InputError::Number);
            },
        };
        if str_nums.len() < 3 {
            return Err(InputError::Syntax);
        }
        let len = match parse_u64(text, str_nums[2].0, str_nums[2].1) {
            Some(v) => v,
            None => {
                return Err(InputError::Number);
            },
        };
        if len == 0 || len > u64::MAX - from_start || to_start > u64::MAX - (from_start + len) {
            return Err(InputError::Value);
        }
        Ok(MapRange { from: (from_start, from_start + len), to_start })
    }
}

impl View for RangeMap {
    type V = Seq<(int, int, int)>;

    /// The ranges as mathematics.
    closed spec fn view(&self) -> Seq<(int, int, int)> {
        Seq::new(self.ranges@.len(), |i: int| self.ranges@[i].view())
    }
}

impl RangeMap {
    /// The ranges are sound, in rising order and apart.
    pub open spec fn wf(&self) -> bool {
        ranges_ok(self@)
    }

    /// What a number is mapped to.
    pub fn transform(&self, x: u64) -> (r: u64)
        requires
            self.wf(),
        ensures
            r == transform_spec(self@, x as int),
    {
        let ghost rs = self@;
        let mut i: usize = 0;
        while i < self.ranges.len()
            invariant
                i <= self.ranges.len(),
                rs == self@,
                ranges_ok(rs),
                self.ranges.len() == rs.len(),
                forall|k: int| 0 <= k < i ==> !((#[trigger] rs[k]).0 <= x < rs[k].1),
            decreases self.ranges.len() - i,
        {
            let rn = &self.ranges[i];
            proof {
                assert(rs[i as int] == rn.view());
                assert(range_ok(rs[i as int]));
            }
            if rn.from.0 <= x && x < rn.from.1 {
                proof {
                    lemma_moves(rs, i as int, x as int);
                }
                return rn.to_start + x - rn.from.0;
            }
            i += 1;
        }
        proof {
            lemma_stays(rs, x as int);
        }
        x
    }

    /// What the numbers of a range are mapped to, as ranges: the parts of the
    /// range that lie in a range of the map move with it, and the parts between
    /// stay.
    pub fn transform_range(&self, range: (u64, u64)) -> (r: Vec<(u64, u64)>)
        requires
            self.wf(),
            is_range(range),
        ensures
            r@.len() >= 1,
            forall|k: int| 0 <= k < r@.len() ==> is_range(#[trigger] r@[k]),
            forall|y: int|
                covers(r@, y) <==> exists|x: int|
                    range.0 <= x < range.1 && #[trigger] transform_spec(self@, x) == y,
    {
        let ghost rs = self@;
        let ghost whole = range;
        let mut cur = range;
        let mut transformed: Vec<(u64, u64)> = Vec::new();
        proof {
            assert forall|y: int| covers(transformed@, y) <==> exists|x: int|
                whole.0 <= x < cur.0 && #[trigger] transform_spec(rs, x) == y by {}
        }
        let mut i: usize = 0;
        while i < self.ranges.len()
            invariant
                i <= self.ranges.len(),
                rs == self@,
                ranges_ok(rs),
                self.ranges.len() == rs.len(),
                whole == range,
                whole.0 <= cur.0 < cur.1 == whole.1,
                forall|k: int| 0 <= k < i ==> (#[trigger] rs[k]).1 <= cur.0,
                forall|k: int| 0 <= k < transformed@.len() ==> is_range(#[trigger] transformed@[k]),
                forall|y: int|
                    covers(transformed@, y) <==> exists|x: int|
                        whole.0 <= x < cur.0 && #[trigger] transform_spec(rs, x) == y,
            decreases self.ranges.len() - i,
        {
            let mr = &self.ranges[i];
            let ghost done = transformed@;
            let ghost start = cur.0;
            proof {
                assert(rs[i as int] == mr.view());
                assert(range_ok(rs[i as int]));
                // Numbers before this cur of the map stay, numbers in it move.
                assert forall|x: int| start <= x < mr.from.0 implies #[trigger] transform_spec(rs, x)
                    == x by {
                    assert forall|k: int| 0 <= k < rs.len() implies !((#[trigger] rs[k]).0 <= x
                        < rs[k].1) by {
                        if k > i {
                            assert(rs[i as int].1 <= rs[k].0);
                        }
                    }
                    lemma_stays(rs, x);
                }
                assert forall|x: int| mr.from.0 <= x < mr.from.1 implies #[trigger] transform_spec(
                    rs,
                    x,
                ) == mr.to_start + x - mr.from.0 by {
                    lemma_moves(rs, i as int, x);
                }
            }
            if cur.1 <= mr.from.0 {
                transformed.push(cur);
                proof {
                    lemma_covers_more(rs, done, transformed@, whole.0 as int, start as int, cur.1 as int, cur, 0);
                }
                return transformed;
            } else if cur.0 < mr.from.0 && cur.1 <= mr.from.1 {
                let stay = (cur.0, mr.from.0);
                let moved = (mr.to_start, mr.to_start + cur.1 - mr.from.0);
                transformed.push(stay);
                proof {
                    lemma_covers_more(rs, done, transformed@, whole.0 as int, start as int, mr.from.0 as int, stay, 0);
                }
                let ghost half = transformed@;
                transformed.push(moved);
                proof {
                    lemma_covers_more(rs, half, transformed@, whole.0 as int, mr.from.0 as int, cur.1 as int, moved, mr.to_start - mr.from.0);
                }
                return transformed;
            } else if cur.0 < mr.from.0 {
                // and the cur ends behind this cur of the map
                let stay = (cur.0, mr.from.0);
                let moved = (mr.to_start, mr.to_start + mr.len());
                transformed.push(stay);
                proof {
                    lemma_covers_more(rs, done, transformed@, whole.0 as int, start as int, mr.from.0 as int, stay, 0);
                }
                let ghost half = transformed@;
                transformed.push(moved);
                proof {
                    lemma_covers_more(rs, half, transformed@, whole.0 as int, mr.from.0 as int, mr.from.1 as int, moved, mr.to_start - mr.from.0);
                }
                cur = (mr.from.1, cur.1);
            } else if cur.0 < mr.from.1 && cur.1 <= mr.from.1 {
                let moved = (
                    mr.to_start + cur.0 - mr.from.0,
                    mr.to_start + cur.1 - mr.from.0,
                );
                transformed.push(moved);
                proof {
                    lemma_covers_more(rs, done, transformed@, whole.0 as int, start as int, cur.1 as int, moved, mr.to_start - mr.from.0);
                }
                return transformed;
            } else if cur.0 < mr.from.1 {
                // and the cur ends behind this cur of the map
                let moved = (mr.to_start + cur.0 - mr.from.0, mr.to_start + mr.len());
                transformed.push(moved);
                proof {
                    lemma_covers_more(rs, done, transformed@, whole.0 as int, start as int, mr.from.1 as int, moved, mr.to_start - mr.from.0);
                }
                cur = (mr.from.1, cur.1);
            }
            i += 1;
        }
        let ghost done = transformed@;
        proof {
            assert forall|x: int| cur.0 <= x < cur.1 implies #[trigger] transform_spec(rs, x)
                == x by {
                lemma_stays(rs, x);
            }
        }
        transformed.push(cur);
        proof {
            lemma_covers_more(rs, done, transformed@, whole.0 as int, cur.0 as int, cur.1 as int, cur, 0);
        }
        transformed
    }

    /// Puts a range where the numbers that it starts with put it, unless it
    /// overlaps with a range that is there: the result tells whether it was put.
    fn place(ranges: &mut Vec<MapRange>, new: MapRange) -> (placed: bool)
        requires
            ranges_ok(models(old(ranges)@)),
            range_ok(new.view()),
        ensures
            ranges_ok(models(final(ranges)@)),
            placed == !clashes(models(old(ranges)@), new.view()),
            placed ==> exists|at: int|
                0 <= at <= old(ranges)@.len() && #[trigger] models(old(ranges)@).insert(
                    at,
                    new.view(),
                ) == models(final(ranges)@),
            !placed ==> final(ranges)@ == old(ranges)@,
    {
        let ghost before = models(ranges@);
        let ghost v = new.view();
        let mut at: usize = 0;
        while at < ranges.len() && ranges[at].from.1 <= new.from.0
            invariant
                at <= ranges.len(),
                before == models(ranges@),
                v == new.view(),
                forall|k: int| 0 <= k < at ==> (#[trigger] before[k]).1 <= v.0,
            decreases ranges.len() - at,
        {
            proof {
                assert(before[at as int] == ranges@[at as int].view());
            }
            at += 1;
        }
        if at < ranges.len() && ranges[at].from.0 < new.from.1 {
            proof {
                assert(before[at as int] == ranges@[at as int].view());
                assert(overlap(before[at as int], v));
            }
            return false;
        }
        proof {
            if at < ranges.len() {
                assert(before[at as int] == ranges@[at as int].view());
            }
            assert forall|k: int| 0 <= k < before.len() implies !overlap(#[trigger] before[k], v) by {
                if k > at {
                    assert(before[at as int].1 <= before[k].0);
                    assert(range_ok(before[at as int]));
                }
            }
        }
        ranges.insert(at, new);
        proof {
            let now = models(ranges@);
            assert(now =~= before.insert(at as int, v));
            assert forall|k: int| 0 <= k < now.len() implies range_ok(#[trigger] now[k]) by {
                if k < at {
                    assert(now[k] == before[k]);
                } else if k > at {
                    assert(now[k] == before[k - 1]);
                }
            }
            assert forall|a: int, b: int| 0 <= a < b < now.len() implies (#[trigger] now[a]).1 <= (
            #[trigger] now[b]).0 by {
                let ia = if a < at {
                    a
                } else {
                    a - 1
                };
                let ib = if b < at {
                    b
                } else {
                    b - 1
                };
                if a != at && b != at {
                    assert(now[a] == before[ia] && now[b] == before[ib]);
                } else if a == at {
                    assert(now[b] == before[ib]);
                    if ib > at {
                        assert(before[at as int].1 <= before[ib].0);
                    }
                } else {
                    assert(now[a] == before[ia]);
                }
            }
        }
        true
    }

    /// Reads a map from the text between `from` and `to`: a line that names
    /// it, and a line for each range. The ranges must not overlap.
    pub fn from_bytes(text: &[u8], from: usize, to: usize) -> (r: Result<RangeMap, InputError>)
        requires
            from <= to <= text.len(),
        ensures
            r is Ok ==> r->Ok_0.wf(),
            r is Ok ==> holds_lines(
                r->Ok_0@,
                lines(text@.subrange(from as int, to as int)),
                lines(text@.subrange(from as int, to as int)).len() as int,
            ),
            match r {
                Ok(_) => map_fault(
                    lines(text@.subrange(from as int, to as int)),
                    lines(text@.subrange(from as int, to as int)).len() as int,
                ) is None,
                Err(e) => map_fault(
                    lines(text@.subrange(from as int, to as int)),
                    lines(text@.subrange(from as int, to as int)).len() as int,
                ) == Some(e),
            },
    {
        let part = vstd::slice::slice_subrange(text, from, to);
        let spans = split_lines(part);
        let ghost ls = lines(part@);
        let mut ranges: Vec<MapRange> = Vec::new();
        // The first line names the map.
        let mut i: usize = 1;
        proof {
            assert(models(ranges@) =~= Seq::<(int, int, int)>::empty());
        }
        while i < spans.len()
            invariant
                1 <= i,
                i <= spans.len() || i == 1,
                ls == lines(part@),
                part@ == text@.subrange(from as int, to as int),
                crate::text::spans_hold(part@, 0, part@.len() as int, spans@, ls),
                ranges_ok(models(ranges@)),
                holds_lines(models(ranges@), ls, i as int),
                map_fault(ls, i as int) is None,
                spans.len() == ls.len(),
            decreases spans.len() - i,
        {
            let new = match MapRange::from_bytes(part, spans[i].0, spans[i].1) {
                Ok(range) => range,
                Err(e) => {
                    proof {
                        assert(map_fault(ls, i + 1) == Some(e));
                        lemma_map_fault(ls, i + 1, ls.len() as int);
                    }
                    return Err(e);
                },
            };
            let ghost before = models(ranges@);
            let ghost v = new.view();
            proof {
                if clashes(before, v) {
                    let k = choose|k: int| 0 <= k < before.len() && overlap(#[trigger] before[k], v);
                    let n = choose|n: int|
                        1 <= n < i && #[trigger] range_of(ls[n]) == Ok::<(int, int, int), InputError>(
                            #[trigger] before[k],
                        );
                    assert(overlap(range_of(ls[n])->Ok_0, range_of(ls[i as int])->Ok_0));
                    assert(clashes_before(ls, i as int));
                }
                if clashes_before(ls, i as int) {
                    let n = choose|n: int|
                        1 <= n < i && overlap(
                            (#[trigger] range_of(ls[n]))->Ok_0,
                            range_of(ls[i as int])->Ok_0,
                        );
                    assert(before.contains(range_of(ls[n])->Ok_0));
                    let k = choose|k: int| 0 <= k < before.len() && before[k] == range_of(ls[n])->Ok_0;
                    assert(overlap(before[k], v));
                }
            }
            if !Self::place(&mut ranges, new) {
                proof {
                    assert(map_fault(ls, i + 1) == Some(InputError::Value));
                    lemma_map_fault(ls, i + 1, ls.len() as int);
                }
                return Err(InputError::Value);
            }
            proof {
                let at = choose|at: int|
                    0 <= at <= before.len() && #[trigger] before.insert(at, v) == models(ranges@);
                lemma_holds_more(before, models(ranges@), at, v, ls, i as int);
            }
            i += 1;
        }
        let r = RangeMap { ranges };
        proof {
            assert(r@ =~= models(r.ranges@));
            if spans.len() == 0 {
                assert(models(r.ranges@).len() == 0);
            }
        }
        Ok(r)
    }
}

/// With the range of one more line put among them, the ranges hold one more
/// line.
pub proof fn lemma_holds_more(
    before: Seq<(int, int, int)>,
    now: Seq<(int, int, int)>,
    at: int,
    v: (int, int, int),
    ls: Seq<Seq<u8>>,
    i: int,
)
    requires
        1 <= i,
        0 <= at <= before.len(),
        now == before.insert(at, v),
        holds_lines(before, ls, i),
        range_of(ls[i]) == Ok::<(int, int, int), InputError>(v),
    ensures
        holds_lines(now, ls, i + 1),
{
    assert forall|n: int| 1 <= n < i + 1 implies (#[trigger] range_of(ls[n])) is Ok && now.contains(
        range_of(ls[n])->Ok_0,
    ) by {
        if n < i {
            assert(before.contains(range_of(ls[n])->Ok_0));
            let k = choose|k: int| 0 <= k < before.len() && before[k] == range_of(ls[n])->Ok_0;
            if k < at {
                assert(now[k] == before[k]);
            } else {
                assert(now[k + 1] == before[k]);
            }
        } else {
            assert(now[at] == v);
        }
    }
    assert forall|k: int| 0 <= k < now.len() implies exists|n: int|
        1 <= n < i + 1 && #[trigger] range_of(ls[n]) == Ok::<(int, int, int), InputError>(
            #[trigger] now[k],
        ) by {
        if k == at {
            assert(range_of(ls[i]) == Ok::<(int, int, int), InputError>(now[k]));
        } else {
            let j = if k < at {
                k
            } else {
                k - 1
            };
            assert(now[k] == before[j]);
            let n = choose|n: int|
                1 <= n < i && #[trigger] range_of(ls[n]) == Ok::<(int, int, int), InputError>(
                    before[j],
                );
            assert(range_of(ls[n]) == Ok::<(int, int, int), InputError>(now[k]));
        }
    }
}

/// Where the numbers from `from` up to `to` all move by `shift`, and `piece`
/// is what they move to, the ranges with `piece` at their end cover what the
/// numbers up to `to` are mapped to, given that the ranges without it cover
/// what the numbers up to `from` are mapped to.
pub proof fn lemma_covers_more(
    rs: Seq<(int, int, int)>,
    done: Seq<(u64, u64)>,
    more: Seq<(u64, u64)>,
    first: int,
    from: int,
    to: int,
    piece: (u64, u64),
    shift: int,
)
    requires
        first <= from <= to,
        more == done.push(piece),
        piece.0 == from + shift,
        piece.1 == to + shift,
        forall|x: int| from <= x < to ==> #[trigger] transform_spec(rs, x) == x + shift,
        forall|y: int|
            covers(done, y) <==> exists|x: int|
                first <= x < from && #[trigger] transform_spec(rs, x) == y,
    ensures
        forall|y: int|
            covers(more, y) <==> exists|x: int|
                first <= x < to && #[trigger] transform_spec(rs, x) == y,
{
    assert forall|y: int| covers(more, y) <==> exists|x: int|
        first <= x < to && #[trigger] transform_spec(rs, x) == y by {
        if covers(more, y) {
            let k = choose|k: int| 0 <= k < more.len() && (#[trigger] more[k]).0 <= y < more[k].1;
            if k < done.len() {
                assert(done[k] == more[k]);
                assert(covers(done, y));
                let x = choose|x: int| first <= x < from && #[trigger] transform_spec(rs, x) == y;
                assert(first <= x < to);
            } else {
                let x = y - shift;
                assert(transform_spec(rs, x) == y);
            }
        }
        if exists|x: int| first <= x < to && #[trigger] transform_spec(rs, x) == y {
            let x = choose|x: int| first <= x < to && #[trigger] transform_spec(rs, x) == y;
            if x < from {
                assert(covers(done, y));
                let k = choose|k: int| 0 <= k < done.len() && (#[trigger] done[k]).0 <= y < done[k].1;
                assert(more[k] == done[k]);
            } else {
                assert(more[done.len() as int] == piece);
            }
        }
    }
}

} // verus!
