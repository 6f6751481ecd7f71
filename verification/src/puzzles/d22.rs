//! A pile of bricks that have fallen as far as they can: which bricks carry
//! others, and what falls when one is taken away.
use crate::sorting::{is_sorted_by_key, sort_by_first};
use crate::text::{fields, lines, parse_unsigned, split, split_lines, split_once, InputError};
use vstd::array::array_as_slice;
use vstd::prelude::*;
use vstd::string::StringSliceAdditionalSpecFns;

verus! {

/// The bricks, in rising order of the height of their bottoms.
pub struct BrickPile(Vec<Brick>);

/// A brick: its left front bottom corner and its right back top corner, each
/// as (x, y, z).
#[derive(Clone, Copy, Debug)]
pub struct Brick {
    pub lfb: (u32, u32, u32),
    pub rbt: (u32, u32, u32),
}

/// Whether two bricks share a coordinate in `x`.
pub open spec fn overlaps_x_spec(a: Brick, b: Brick) -> bool {
    a.lfb.0 <= b.rbt.0 && b.lfb.0 <= a.rbt.0
}

/// Whether two bricks share a coordinate in `y`.
pub open spec fn overlaps_y_spec(a: Brick, b: Brick) -> bool {
    a.lfb.1 <= b.rbt.1 && b.lfb.1 <= a.rbt.1
}

/// Whether one brick stands over the other.
pub open spec fn over(a: Brick, b: Brick) -> bool {
    overlaps_x_spec(a, b) && overlaps_y_spec(a, b)
}

/// A brick is sound: no corner coordinate of the first corner is greater than
/// that of the second, and the brick lies above the ground.
pub open spec fn brick_ok(b: Brick) -> bool {
    b.lfb.0 <= b.rbt.0 && b.lfb.1 <= b.rbt.1 && 1 <= b.lfb.2 <= b.rbt.2
}

/// The height to which a brick falls on the first `k` bricks of a pile: one
/// above the highest top among those of them that it stands over and that lie
/// below its bottom; onto the ground where there is none.
pub open spec fn rest_height(below: Seq<Brick>, k: int, brick: Brick) -> int
    decreases k,
{
    if k <= 0 {
        1
    } else {
        let lower = rest_height(below, k - 1, brick);
        let b = below[k - 1];
        if b.rbt.2 < brick.lfb.2 && over(brick, b) && b.rbt.2 + 1 > lower {
            b.rbt.2 + 1
        } else {
            lower
        }
    }
}

/// A brick moved so that its bottom is at height `z`.
pub open spec fn moved_to(b: Brick, z: int) -> Brick {
    Brick { lfb: (b.lfb.0, b.lfb.1, z as u32), rbt: (b.rbt.0, b.rbt.1, (b.rbt.2 - (b.lfb.2 - z)) as u32) }
}

/// The first `k` bricks after they have fallen, one after the other.
pub open spec fn fallen(bricks: Seq<Brick>, k: int) -> Seq<Brick>
    decreases k,
{
    if k <= 0 {
        Seq::<Brick>::empty()
    } else {
        let before = fallen(bricks, k - 1);
        before.push(moved_to(bricks[k - 1], rest_height(before, k - 1, bricks[k - 1])))
    }
}

/// Whether brick `b` carries brick `a`: `a` comes later in the pile, stands
/// over `b`, and neither `a` nor a brick between the two has its bottom more
/// than one above the top of `b`.
pub open spec fn carries(bricks: Seq<Brick>, b: int, a: int) -> bool {
    &&& 0 <= b < a < bricks.len()
    &&& over(bricks[a], bricks[b])
    &&& forall|m: int| b < m <= a ==> (#[trigger] bricks[m]).lfb.2 <= bricks[b].rbt.2 + 1
}

/// The bricks that carry brick `a`, among the first `k` bricks, in order.
pub open spec fn carriers(bricks: Seq<Brick>, a: int, k: int) -> Seq<int>
    decreases k,
{
    if k <= 0 {
        Seq::<int>::empty()
    } else if carries(bricks, k - 1, a) {
        carriers(bricks, a, k - 1).push(k - 1)
    } else {
        carriers(bricks, a, k - 1)
    }
}

/// Whether brick `b` alone carries one of the first `k` bricks.
pub open spec fn bears_alone(bricks: Seq<Brick>, b: int, k: int) -> bool
    decreases k,
{
    if k <= 0 {
        false
    } else {
        bears_alone(bricks, b, k - 1) || carriers(bricks, k - 1, bricks.len() as int) == seq![b]
    }
}

/// How many of the first `k` bricks carry some brick alone.
pub open spec fn bearing_count(bricks: Seq<Brick>, k: int) -> int
    decreases k,
{
    if k <= 0 {
        0
    } else {
        bearing_count(bricks, k - 1) + if bears_alone(bricks, k - 1, bricks.len() as int) {
            1int
        } else {
            0int
        }
    }
}

/// Whether some brick carries brick `b`.
pub open spec fn is_held(bricks: Seq<Brick>, b: int) -> bool {
    carriers(bricks, b, bricks.len() as int).len() > 0
}

/// Whether one of the first `j` carriers of brick `a` is itself carried.
pub open spec fn some_held(bricks: Seq<Brick>, a: int, j: int) -> bool
    decreases j,
{
    j > 0 && (some_held(bricks, a, j - 1) || is_held(
        bricks,
        carriers(bricks, a, bricks.len() as int)[j - 1],
    ))
}

/// Whether each of the first `j` carriers of brick `a` that is itself carried
/// falls when brick `d` is taken away.
pub open spec fn all_held_fall(bricks: Seq<Brick>, d: int, a: int, j: int) -> bool
    decreases a, 0int, j,
{
    if j <= 0 {
        true
    } else {
        let b = carriers(bricks, a, bricks.len() as int)[j - 1];
        all_held_fall(bricks, d, a, j - 1) && ((0 <= b < a && is_held(bricks, b)) ==> falls_with(
            bricks,
            d,
            b,
        ))
    }
}

/// Whether brick `a` falls when brick `d` is taken away: `a` is carried, and
/// either `d` alone carries it, or some of its carriers are themselves carried
/// and all of those fall with `d`.
pub open spec fn falls_with(bricks: Seq<Brick>, d: int, a: int) -> bool
    decreases a, 1int, 0int,
{
    let c = carriers(bricks, a, bricks.len() as int);
    c.len() > 0 && ((c.len() == 1 && c[0] == d) || (some_held(bricks, a, c.len() as int)
        && all_held_fall(bricks, d, a, c.len() as int)))
}

/// How many of the first `k` bricks, taken away, make brick `a` fall.
pub open spec fn fall_count(bricks: Seq<Brick>, a: int, k: int) -> int
    decreases k,
{
    if k <= 0 {
        0
    } else {
        fall_count(bricks, a, k - 1) + if falls_with(bricks, k - 1, a) {
            1int
        } else {
            0int
        }
    }
}

/// The sum, over the first `k` bricks, of the number of bricks that make
/// each of them fall; which is the sum, over all bricks, of the number of those
/// first `k` bricks that fall with it.
pub open spec fn falling_sum(bricks: Seq<Brick>, k: int) -> int
    decreases k,
{
    if k <= 0 {
        0
    } else {
        falling_sum(bricks, k - 1) + fall_count(bricks, k - 1, bricks.len() as int)
    }
}

/// No more bricks fall than there are pairs of bricks.
pub proof fn lemma_falling_sum(bricks: Seq<Brick>, k: int)
    requires
        0 <= k,
    ensures
        0 <= falling_sum(bricks, k) <= k * bricks.len(),
    decreases k,
{
    if k > 0 {
        lemma_falling_sum(bricks, k - 1);
        lemma_fall_count(bricks, k - 1, bricks.len() as int);
        assert(k * bricks.len() == (k - 1) * bricks.len() + bricks.len()) by (nonlinear_arith);
    } else {
        assert(0 * bricks.len() == 0);
    }
}

/// No more bricks make a brick fall than were counted.
pub proof fn lemma_fall_count(bricks: Seq<Brick>, a: int, k: int)
    requires
        0 <= k,
    ensures
        0 <= fall_count(bricks, a, k) <= k,
    decreases k,
{
    if k > 0 {
        lemma_fall_count(bricks, a, k - 1);
    }
}

/// The bricks that the lines stand for.
pub open spec fn bricks_of(ls: Seq<Seq<u8>>) -> Seq<Brick> {
    Seq::new(ls.len(), |i: int| brick_of(ls[i])->Ok_0)
}

/// Whether `to` holds as many bricks as `from`, each of them a brick of
/// `from`, in rising order of their bottoms.
pub open spec fn is_sorted_pick(from: Seq<Brick>, to: Seq<Brick>) -> bool {
    &&& to.len() == from.len()
    &&& forall|i: int, j: int| 0 <= i <= j < to.len() ==> to[i].lfb.2 <= to[j].lfb.2
    &&& forall|i: int| 0 <= i < to.len() ==> from.contains(#[trigger] to[i])
}

/// Whether `pile` is what the bricks make: they are put in rising order of
/// their bottoms, fall one after the other, and are put in that order again.
pub open spec fn is_pile_of(bricks: Seq<Brick>, pile: Seq<Brick>) -> bool {
    exists|in_order: Seq<Brick>| #[trigger]
        is_sorted_pick(bricks, in_order) && is_sorted_pick(
            fallen(in_order, in_order.len() as int),
            pile,
        )
}

/// The brick that a line stands for: two corners, parted by `~`, each of
/// three coordinates, parted by commas.
pub open spec fn brick_of(t: Seq<u8>) -> Result<Brick, InputError> {
    match crate::text::split_once_spec(t, seq![126u8]) {
        None => Err(InputError::Syntax),
        Some((first, second)) => match corner_of(first) {
            Err(e) => Err(e),
            Ok(lfb) => match corner_of(second) {
                Err(e) => Err(e),
                Ok(rbt) => if lfb.0 > rbt.0 || lfb.1 > rbt.1 || lfb.2 > rbt.2 || lfb.2 < 1 {
                    Err(InputError::Value)
                } else {
                    Ok(Brick { lfb, rbt })
                },
            },
        },
    }
}

/// The corner that a text stands for.
pub open spec fn corner_of(t: Seq<u8>) -> Result<(u32, u32, u32), InputError> {
    let fs = fields(t, 44);
    if fs.len() < 3 {
        Err(InputError::Syntax)
    } else {
        match (
            crate::text::unsigned_value(fs[0], u32::MAX as nat),
            crate::text::unsigned_value(fs[1], u32::MAX as nat),
            crate::text::unsigned_value(fs[2], u32::MAX as nat),
        ) {
            (Some(x), Some(y), Some(z)) => if fs.len() > 3 {
                Err(InputError::Syntax)
            } else {
                Ok((x as u32, y as u32, z as u32))
            },
            _ => Err(InputError::Number),
        }
    }
}

/// A brick rests above the ground, and no higher than it was.
pub proof fn lemma_rest_height(below: Seq<Brick>, k: int, brick: Brick)
    requires
        brick_ok(brick),
    ensures
        1 <= rest_height(below, k, brick) <= brick.lfb.2,
    decreases k,
{
    if k > 0 {
        lemma_rest_height(below, k - 1, brick);
    }
}

/// The count of bearing bricks is at most the number of bricks counted.
pub proof fn lemma_bearing_count(bricks: Seq<Brick>, k: int)
    requires
        0 <= k,
    ensures
        0 <= bearing_count(bricks, k) <= k,
    decreases k,
{
    if k > 0 {
        lemma_bearing_count(bricks, k - 1);
    }
}

impl Brick {
    /// Whether the brick and another share a coordinate in `x`.
    pub fn overlaps_x(&self, other: &Brick) -> (b: bool)
        ensures
            b == overlaps_x_spec(*self, *other),
    {
        self.lfb.0 <= other.rbt.0 && other.lfb.0 <= self.rbt.0
    }

    /// Whether the brick and another share a coordinate in `y`.
    pub fn overlaps_y(&self, other: &Brick) -> (b: bool)
        ensures
            b == overlaps_y_spec(*self, *other),
    {
        self.lfb.1 <= other.rbt.1 && other.lfb.1 <= self.rbt.1
    }

    /// Reads a corner from the text between `from` and `to`.
    fn read_corner(text: &[u8], from: usize, to: usize) -> (r: Result<(u32, u32, u32), InputError>)
        requires
            from <= to <= text.len(),
        ensures
            r == corner_of(text@.subrange(from as int, to as int)),
    {
        let spans = split(text, from, to, 44);
        if spans.len() < 3 {
            return Err(InputError::Syntax);
        }
        let x = parse_unsigned(text, spans[0].0, spans[0].1, 0xffff_ffff);
        let y = parse_unsigned(text, spans[1].0, spans[1].1, 0xffff_ffff);
        let z = parse_unsigned(text, spans[2].0, spans[2].1, 0xffff_ffff);
        if x.is_none() || y.is_none() || z.is_none() {
            return Err(InputError::Number);
        }
        if spans.len() > 3 {
            return Err(InputError::Syntax);
        }
        Ok((x.unwrap() as u32, y.unwrap() as u32, z.unwrap() as u32))
    }

    /// Reads a brick from the text between `from` and `to`.
    pub fn from_bytes(text: &[u8], from: usize, to: usize) -> (r: Result<Brick, InputError>)
        requires
            from <= to <= text.len(),
        ensures
            match (r, brick_of(text@.subrange(from as int, to as int))) {
                (Ok(b), Ok(m)) => b == m && brick_ok(b),
                (Err(e), Err(f)) => e == f,
                _ => false,
            },
    {
        let tilde: [u8; 1] = [126];
        proof {
            assert(tilde@ =~= seq![126u8]);
        }
        let middle = match split_once(text, from, to, array_as_slice(&tilde)) {
            Some(m) => m,
            None => {
                return Err(InputError::Syntax);
            },
        };
        let lfb = match Self::read_corner(text, from, middle) {
            Ok(c) => c,
            Err(e) => {
                return Err(e);
            },
        };
        let rbt = match Self::read_corner(text, middle + 1, to) {
            Ok(c) => c,
            Err(e) => {
                return Err(e);
            },
        };
        if lfb.0 > rbt.0 || lfb.1 > rbt.1 || lfb.2 > rbt.2 || lfb.2 < 1 {
            return Err(InputError::Value);
        }
        Ok(Brick { lfb, rbt })
    }
}

impl BrickPile {
    /// The bricks.
    pub closed spec fn view(&self) -> Seq<Brick> {
        self.0@
    }

    /// A pile of the given bricks, as they lie.
    pub fn new(bricks: Vec<Brick>) -> (r: Self)
        ensures
            r.view() == bricks@,
    {
        BrickPile(bricks)
    }

    /// The number of bricks.
    pub fn len(&self) -> (n: usize)
        ensures
            n == self.view().len(),
    {
        self.0.len()
    }

    /// The bricks that carry brick `a`.
    pub fn supported_by(&self, a: usize) -> (r: Vec<usize>)
        requires
            a < self.view().len(),
        ensures
            r@.len() == carriers(self.view(), a as int, self.view().len() as int).len(),
            forall|i: int|
                0 <= i < r@.len() ==> (#[trigger] r@[i]) as int == carriers(
                    self.view(),
                    a as int,
                    self.view().len() as int,
                )[i],
    {
        let ghost bricks = self.view();
        let mut found: Vec<usize> = Vec::new();
        let mut b: usize = 0;
        while b < self.0.len()
            invariant
                b <= self.0.len(),
                a < self.0.len(),
                bricks == self.view(),
                found@.len() == carriers(bricks, a as int, b as int).len(),
                forall|i: int|
                    0 <= i < found@.len() ==> (#[trigger] found@[i]) as int == carriers(
                        bricks,
                        a as int,
                        b as int,
                    )[i],
            decreases self.0.len() - b,
        {
            let mut carried = b < a && self.0[a].overlaps_x(&self.0[b]) && self.0[a].overlaps_y(
                &self.0[b],
            );
            if carried {
                // No brick from the next to brick `a` may start higher than one
                // above the top of this brick.
                let top = self.0[b].rbt.2;
                let mut m: usize = b + 1;
                while m <= a && carried
                    invariant
                        b < m <= a + 1,
                        a < self.0.len(),
                        bricks == self.view(),
                        top == bricks[b as int].rbt.2,
                        carried ==> forall|j: int|
                            b < j < m ==> (#[trigger] bricks[j]).lfb.2 <= bricks[b as int].rbt.2 + 1,
                        !carried ==> !carries(bricks, b as int, a as int),
                    decreases a + 1 - m,
                {
                    if self.0[m].lfb.2 as u64 > top as u64 + 1 {
                        carried = false;
                    }
                    m += 1;
                }
            }
            if carried {
                found.push(b);
            }
            b += 1;
        }
        found
    }

    /// The number of bricks that can be taken away without another brick
    /// falling: those that carry no brick alone.
    pub fn n_bricks_destroyable(&self) -> (r: u32)
        requires
            self.view().len() <= u32::MAX,
        ensures
            r == self.view().len() - bearing_count(self.view(), self.view().len() as int),
    {
        let ghost bricks = self.view();
        let n = self.0.len();
        // For every brick, whether it carries some brick alone.
        let mut load_bearing: Vec<bool> = Vec::new();
        let mut i: usize = 0;
        while i < n
            invariant
                i <= n,
                load_bearing.len() == i,
                forall|j: int| 0 <= j < i ==> !(#[trigger] load_bearing@[j]),
            decreases n - i,
        {
            load_bearing.push(false);
            i += 1;
        }
        let mut a: usize = 0;
        while a < n
            invariant
                a <= n,
                n == self.0.len(),
                bricks == self.view(),
                load_bearing.len() == n,
                forall|b: int|
                    0 <= b < n ==> (#[trigger] load_bearing@[b]) == bears_alone(bricks, b, a as int),
            decreases n - a,
        {
            let supporting = self.supported_by(a);
            let ghost model = carriers(bricks, a as int, n as int);
            proof {
                lemma_carriers(bricks, a as int, n as int);
            }
            if supporting.len() == 1 {
                let b = supporting[0];
                proof {
                    assert(model =~= seq![b as int]);
                }
                load_bearing.set(b, true);
            }
            proof {
                assert forall|b: int| 0 <= b < n implies (#[trigger] load_bearing@[b]) == bears_alone(
                    bricks,
                    b,
                    a + 1,
                ) by {
                    if model.len() == 1 {
                        assert(model =~= seq![model[0]]);
                    } else {
                        assert(model != seq![b]);
                    }
                }
            }
            a += 1;
        }
        let mut count: usize = 0;
        let mut b: usize = 0;
        while b < n
            invariant
                b <= n,
                n == self.0.len(),
                bricks == self.view(),
                load_bearing.len() == n,
                count == bearing_count(bricks, b as int),
                count <= b,
                forall|j: int|
                    0 <= j < n ==> (#[trigger] load_bearing@[j]) == bears_alone(bricks, j, n as int),
            decreases n - b,
        {
            if load_bearing[b] {
                count += 1;
            }
            b += 1;
        }
        (n - count) as u32
    }

    /// The sum, over all bricks, of the number of other bricks that fall when
    /// the brick is taken away.
    pub fn sum_falling_count(&self) -> (r: u32)
        requires
            self.view().len() <= u32::MAX,
            falling_sum(self.view(), self.view().len() as int) <= u32::MAX,
        ensures
            r == falling_sum(self.view(), self.view().len() as int),
    {
        let ghost bricks = self.view();
        let n = self.0.len();
        // For each brick, which bricks make it fall, and whether it is carried.
        let mut doomed: Vec<Vec<bool>> = Vec::new();
        let mut held: Vec<bool> = Vec::new();
        let mut sum: u64 = 0;
        let mut a: usize = 0;
        proof {
            assert(0 * n == 0);
        }
        while a < n
            invariant
                a <= n,
                n == self.0.len(),
                n <= u32::MAX,
                bricks == self.view(),
                doomed.len() == a,
                held.len() == a,
                forall|b: int| 0 <= b < a ==> (#[trigger] held@[b]) == is_held(bricks, b),
                forall|b: int| 0 <= b < a ==> (#[trigger] doomed@[b]).len() == n,
                forall|b: int, d: int|
                    0 <= b < a && 0 <= d < n ==> (#[trigger] doomed@[b]@[d]) == falls_with(bricks, d, b),
                sum == falling_sum(bricks, a as int),
                sum <= a * n,
            decreases n - a,
        {
            let supporting = self.supported_by(a);
            let ghost c = carriers(bricks, a as int, n as int);
            proof {
                lemma_carriers(bricks, a as int, n as int);
            }
            let mut any = false;
            let mut j: usize = 0;
            while j < supporting.len()
                invariant
                    j <= supporting.len(),
                    a < n,
                    n == bricks.len(),
                    held.len() == a,
                    c == carriers(bricks, a as int, n as int),
                    supporting@.len() == c.len(),
                    forall|i: int| 0 <= i < c.len() ==> (#[trigger] supporting@[i]) as int == c[i],
                    forall|i: int| 0 <= i < c.len() ==> 0 <= (#[trigger] c[i]) < a,
                    forall|b: int| 0 <= b < a ==> (#[trigger] held@[b]) == is_held(bricks, b),
                    any == some_held(bricks, a as int, j as int),
                decreases supporting.len() - j,
            {
                proof {
                    assert(supporting@[j as int] as int == c[j as int]);
                    assert(0 <= c[j as int] < a);
                }
                if held[supporting[j]] {
                    any = true;
                }
                j += 1;
            }
            let mut row: Vec<bool> = Vec::new();
            let mut count: u64 = 0;
            let mut d: usize = 0;
            while d < n
                invariant
                    d <= n,
                    a < n,
                    n == bricks.len(),
                    n <= u32::MAX,
                    held.len() == a,
                    doomed.len() == a,
                    row.len() == d,
                    c == carriers(bricks, a as int, n as int),
                    supporting@.len() == c.len(),
                    forall|i: int| 0 <= i < c.len() ==> (#[trigger] supporting@[i]) as int == c[i],
                    forall|i: int| 0 <= i < c.len() ==> 0 <= (#[trigger] c[i]) < a,
                    forall|b: int| 0 <= b < a ==> (#[trigger] held@[b]) == is_held(bricks, b),
                    forall|b: int| 0 <= b < a ==> (#[trigger] doomed@[b]).len() == n,
                    forall|b: int, e: int|
                        0 <= b < a && 0 <= e < n ==> (#[trigger] doomed@[b]@[e]) == falls_with(
                            bricks,
                            e,
                            b,
                        ),
                    any == some_held(bricks, a as int, c.len() as int),
                    forall|e: int| 0 <= e < d ==> (#[trigger] row@[e]) == falls_with(bricks, e, a as int),
                    count == fall_count(bricks, a as int, d as int),
                    count <= d,
                decreases n - d,
            {
                let mut falls = false;
                if supporting.len() == 1 && supporting[0] == d {
                    falls = true;
                } else if supporting.len() > 0 && any {
                    let mut all = true;
                    let mut j: usize = 0;
                    while j < supporting.len()
                        invariant
                            j <= supporting.len(),
                            d < n,
                            a < n,
                            n == bricks.len(),
                            held.len() == a,
                            doomed.len() == a,
                            c == carriers(bricks, a as int, n as int),
                            supporting@.len() == c.len(),
                            forall|i: int|
                                0 <= i < c.len() ==> (#[trigger] supporting@[i]) as int == c[i],
                            forall|i: int| 0 <= i < c.len() ==> 0 <= (#[trigger] c[i]) < a,
                            forall|b: int| 0 <= b < a ==> (#[trigger] held@[b]) == is_held(bricks, b),
                            forall|b: int| 0 <= b < a ==> (#[trigger] doomed@[b]).len() == n,
                            forall|b: int, e: int|
                                0 <= b < a && 0 <= e < n ==> (#[trigger] doomed@[b]@[e]) == falls_with(
                                    bricks,
                                    e,
                                    b,
                                ),
                            all == all_held_fall(bricks, d as int, a as int, j as int),
                        decreases supporting.len() - j,
                    {
                        let b = supporting[j];
                        proof {
                            assert(supporting@[j as int] as int == c[j as int]);
                            assert(0 <= c[j as int] < a);
                            assert(doomed@[b as int].len() == n);
                        }
                        if held[b] && !doomed[b][d] {
                            all = false;
                        }
                        j += 1;
                    }
                    falls = all;
                }
                proof {
                    if c.len() == 1 {
                        assert(supporting@[0] as int == c[0]);
                    }
                    assert(falls == falls_with(bricks, d as int, a as int));
                }
                row.push(falls);
                if falls {
                    count += 1;
                }
                d += 1;
            }
            proof {
                assert((a + 1) * n == a * n + n) by (nonlinear_arith);
                assert(a * n <= u32::MAX * u32::MAX) by (nonlinear_arith)
                    requires
                        a <= u32::MAX,
                        n <= u32::MAX,
                ;
            }
            doomed.push(row);
            held.push(supporting.len() > 0);
            sum += count;
            a += 1;
        }
        sum as u32
    }

    /// Lets the bricks fall, one after the other, as far as they can; the
    /// bricks must be in rising order of their bottoms for the result to be a
    /// pile at rest.
    pub fn drop_bricks(bricks: &mut Vec<Brick>)
        requires
            forall|i: int| 0 <= i < old(bricks)@.len() ==> brick_ok(#[trigger] old(bricks)@[i]),
        ensures
            final(bricks)@ == fallen(old(bricks)@, old(bricks)@.len() as int),
            final(bricks)@.len() == old(bricks)@.len(),
            forall|i: int| 0 <= i < final(bricks)@.len() ==> brick_ok(#[trigger] final(bricks)@[i]),
    {
        let ghost before = bricks@;
        let mut idx: usize = 0;
        proof {
            assert(bricks@.take(0) =~= fallen(before, 0));
        }
        while idx < bricks.len()
            invariant
                idx <= bricks.len(),
                bricks.len() == before.len(),
                forall|i: int| 0 <= i < before.len() ==> brick_ok(#[trigger] before[i]),
                bricks@.take(idx as int) == fallen(before, idx as int),
                forall|i: int| idx <= i < bricks.len() ==> bricks@[i] == before[i],
                forall|i: int| 0 <= i < idx ==> brick_ok(#[trigger] bricks@[i]),
            decreases bricks.len() - idx,
        {
            let brick = bricks[idx];
            proof {
                assert(brick_ok(before[idx as int]));
            }
            let mut new_z: u32 = 1;
            let ghost below = bricks@.take(idx as int);
            let mut k: usize = 0;
            while k < idx
                invariant
                    k <= idx < bricks.len(),
                    below == bricks@.take(idx as int),
                    brick == bricks@[idx as int],
                    brick_ok(brick),
                    forall|i: int| 0 <= i < idx ==> brick_ok(#[trigger] bricks@[i]),
                    new_z == rest_height(below, k as int, brick),
                decreases idx - k,
            {
                let brick_below = bricks[k];
                proof {
                    assert(below[k as int] == brick_below);
                    lemma_rest_height(below, k as int, brick);
                    lemma_rest_height(below, k + 1, brick);
                }
                if brick_below.rbt.2 < brick.lfb.2 && brick.overlaps_x(&brick_below)
                    && brick.overlaps_y(&brick_below) && brick_below.rbt.2 + 1 > new_z {
                    new_z = brick_below.rbt.2 + 1;
                }
                k += 1;
            }
            proof {
                lemma_rest_height(below, idx as int, brick);
            }
            let moved = Brick {
                lfb: (brick.lfb.0, brick.lfb.1, new_z),
                rbt: (brick.rbt.0, brick.rbt.1, brick.rbt.2 - (brick.lfb.2 - new_z)),
            };
            let ghost earlier = bricks@;
            bricks.set(idx, moved);
            proof {
                assert(bricks@.take(idx + 1) =~= earlier.take(idx as int).push(moved));
                assert(moved == moved_to(before[idx as int], rest_height(below, idx as int, before[idx as int])));
            }
            idx += 1;
        }
        proof {
            assert(bricks@.take(bricks.len() as int) =~= bricks@);
        }
    }

    /// Puts the bricks in rising order of their bottoms.
    pub fn sort_by_bottom(bricks: &Vec<Brick>) -> (r: Vec<Brick>)
        ensures
            r@.len() == bricks@.len(),
            forall|i: int, j: int| 0 <= i <= j < r@.len() ==> r@[i].lfb.2 <= r@[j].lfb.2,
            forall|i: int| 0 <= i < r@.len() ==> bricks@.contains(#[trigger] r@[i]),
    {
        let mut keyed: Vec<(u32, usize)> = Vec::new();
        let mut i: usize = 0;
        while i < bricks.len()
            invariant
                i <= bricks.len(),
                keyed.len() == i,
                forall|j: int|
                    0 <= j < i ==> (#[trigger] keyed@[j]).1 < bricks.len() && keyed@[j].0
                        == bricks@[keyed@[j].1 as int].lfb.2,
            decreases bricks.len() - i,
        {
            keyed.push((bricks[i].lfb.2, i));
            i += 1;
        }
        let ghost unsorted = keyed@;
        sort_by_first(&mut keyed);
        proof {
            broadcast use vstd::seq_lib::group_to_multiset_ensures;

            keyed@.to_multiset_ensures();
            unsorted.to_multiset_ensures();
            assert(keyed@.len() == unsorted.len());
            assert forall|j: int| 0 <= j < keyed@.len() implies (#[trigger] keyed@[j]).1
                < bricks.len() && keyed@[j].0 == bricks@[keyed@[j].1 as int].lfb.2 by {
                assert(keyed@.contains(keyed@[j]));
                assert(keyed@.to_multiset().count(keyed@[j]) > 0);
                assert(unsorted.contains(keyed@[j]));
                let m = choose|m: int| 0 <= m < unsorted.len() && unsorted[m] == keyed@[j];
            }
        }
        let mut sorted: Vec<Brick> = Vec::new();
        let mut i: usize = 0;
        while i < keyed.len()
            invariant
                i <= keyed.len(),
                sorted.len() == i,
                keyed@.len() == bricks@.len(),
                is_sorted_by_key(keyed@),
                forall|j: int|
                    0 <= j < keyed@.len() ==> (#[trigger] keyed@[j]).1 < bricks.len() && keyed@[j].0
                        == bricks@[keyed@[j].1 as int].lfb.2,
                forall|j: int| 0 <= j < i ==> (#[trigger] sorted@[j]) == bricks@[keyed@[j].1 as int],
            decreases keyed.len() - i,
        {
            sorted.push(bricks[keyed[i].1]);
            i += 1;
        }
        proof {
            assert forall|a: int, b: int| 0 <= a <= b < sorted@.len() implies sorted@[a].lfb.2
                <= sorted@[b].lfb.2 by {
                assert(keyed@[a].0 <= keyed@[b].0);
            }
            assert forall|j: int| 0 <= j < sorted@.len() implies bricks@.contains(
                #[trigger] sorted@[j],
            ) by {
                assert(bricks@[keyed@[j].1 as int] == sorted@[j]);
            }
        }
        sorted
    }

    /// Reads a pile: one brick on each line. The bricks are put in rising
    /// order of their bottoms and fall as far as they can.
    #[verifier::loop_isolation(false)]
    pub fn from_bytes(text: &[u8]) -> (r: Result<BrickPile, InputError>)
        ensures
            r is Ok <==> forall|i: int|
                0 <= i < lines(text@).len() ==> (#[trigger] brick_of(lines(text@)[i])) is Ok,
            r is Ok ==> r->Ok_0.view().len() == lines(text@).len(),
            r is Ok ==> is_pile_of(bricks_of(lines(text@)), r->Ok_0.view()),
    {
        let spans = split_lines(text);
        let ghost ls = lines(text@);
        let mut bricks: Vec<Brick> = Vec::new();
        let mut i: usize = 0;
        while i < spans.len()
            invariant
                i <= spans.len(),
                bricks.len() == i,
                forall|j: int| 0 <= j < i ==> (#[trigger] brick_of(ls[j])) is Ok,
                forall|j: int| 0 <= j < i ==> brick_ok(#[trigger] bricks@[j]),
                forall|j: int| 0 <= j < i ==> (#[trigger] bricks@[j]) == brick_of(ls[j])->Ok_0,
            decreases spans.len() - i,
        {
            match Brick::from_bytes(text, spans[i].0, spans[i].1) {
                Ok(b) => {
                    proof {
                        assert(brick_of(ls[i as int]) == Ok::<Brick, InputError>(b));
                    }
                    bricks.push(b);
                },
                Err(e) => {
                    proof {
                        assert(brick_of(ls[i as int]) is Err);
                    }
                    return Err(e);
                },
            }
            i += 1;
        }
        let mut sorted = Self::sort_by_bottom(&bricks);
        proof {
            assert forall|j: int| 0 <= j < sorted@.len() implies brick_ok(#[trigger] sorted@[j]) by {
                assert(bricks@.contains(sorted@[j]));
                let m = choose|m: int| 0 <= m < bricks@.len() && bricks@[m] == sorted@[j];
            }
        }
        let ghost in_order = sorted@;
        Self::drop_bricks(&mut sorted);
        let pile = Self::sort_by_bottom(&sorted);
        proof {
            assert(bricks@ =~= bricks_of(ls));
            assert(is_sorted_pick(bricks_of(ls), in_order));
            assert(is_sorted_pick(fallen(in_order, in_order.len() as int), pile@));
        }
        Ok(BrickPile(pile))
    }

    /// Reads a pile.
    pub fn parse(s: &str) -> (r: Result<BrickPile, InputError>)
        ensures
            r is Ok <==> forall|i: int|
                0 <= i < lines(s.spec_bytes()).len() ==> (#[trigger] brick_of(
                    lines(s.spec_bytes())[i],
                )) is Ok,
    {
        BrickPile::from_bytes(s.as_bytes())
    }
}

/// The carriers of a brick are bricks of the pile.
pub proof fn lemma_carriers(bricks: Seq<Brick>, a: int, k: int)
    requires
        0 <= k <= bricks.len(),
    ensures
        forall|i: int|
            0 <= i < carriers(bricks, a, k).len() ==> 0 <= (#[trigger] carriers(bricks, a, k)[i]) < k
                && carriers(bricks, a, k)[i] < a,
    decreases k,
{
    if k > 0 {
        lemma_carriers(bricks, a, k - 1);
        let shorter = carriers(bricks, a, k - 1);
        assert forall|i: int| 0 <= i < carriers(bricks, a, k).len() implies 0 <= (#[trigger] carriers(
            bricks,
            a,
            k,
        )[i]) < k && carriers(bricks, a, k)[i] < a by {
            if i < shorter.len() {
                assert(carriers(bricks, a, k)[i] == shorter[i]);
            }
        }
    }
}

impl std::str::FromStr for BrickPile {
    type Err = InputError;

    fn from_str(s: &str) -> (r: Result<Self, Self::Err>) {
        BrickPile::parse(s)
    }
}

} // verus!
