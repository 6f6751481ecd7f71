//! Hailstones that move in straight lines: from where, and how fast, a stone
//! must be thrown to hit every one of them.
use crate::text::{
    lines, parse_i64, signed_value, split_lines, split_once, InputError,
};
use vstd::array::array_as_slice;
use vstd::prelude::*;
use vstd::string::StringSliceAdditionalSpecFns;

verus! {

/// The hailstones.
pub struct Hail(Vec<HailStone>);

/// A hailstone: where it is at time zero, and how far it moves in a unit of
/// time.
#[derive(Clone, Copy, Debug, PartialEq, Eq, Structural)]
pub struct HailStone {
    pub x: i64,
    pub y: i64,
    pub z: i64,
    pub vx: i64,
    pub vy: i64,
    pub vz: i64,
}

/// A walk through all points of the plane with whole coordinates, in a spiral
/// around the origin.
#[derive(Clone, Copy, Debug, PartialEq, Eq, Structural)]
pub struct SpiralCoords {
    pub x: i64,
    pub y: i64,
    pub dx: i64,
    pub dy: i64,
    pub radius: i64,
}

/// The largest size of a coordinate of a stone that can be worked with.
pub const MAX_PLACE: i64 = 1_000_000_000_000_000;

/// The largest size of a speed of a stone that can be worked with.
pub const MAX_SPEED: i64 = 1_000_000_000;

/// The largest size of a coordinate of the spiral.
pub const MAX_SIZE: i64 = 1_000_000;

/// Whether the number fits in 64 bits with a sign.
pub open spec fn in_i64(v: int) -> bool {
    i64::MIN <= v <= i64::MAX
}

/// Whether the coordinates of a stone are of a size of at most `MAX_PLACE`,
/// and its speeds of at most `MAX_SPEED`.
pub open spec fn is_small(s: HailStone) -> bool {
    &&& -MAX_PLACE <= s.x <= MAX_PLACE
    &&& -MAX_PLACE <= s.y <= MAX_PLACE
    &&& -MAX_PLACE <= s.z <= MAX_PLACE
    &&& -MAX_SPEED <= s.vx <= MAX_SPEED
    &&& -MAX_SPEED <= s.vy <= MAX_SPEED
    &&& -MAX_SPEED <= s.vz <= MAX_SPEED
}

/// The square of the speed of a stone in the plane of `x` and `y`.
pub open spec fn speed_squared(s: HailStone) -> int {
    s.vx * s.vx + s.vy * s.vy
}

/// Whether two stones move along parallel lines in the plane of `x` and `y`:
/// the square of the inner product of their speeds is the product of the
/// squares of their speeds.
pub open spec fn parallel(a: HailStone, b: HailStone) -> bool {
    (a.vx * b.vx + a.vy * b.vy) * (a.vx * b.vx + a.vy * b.vy) == speed_squared(a) * speed_squared(
        b,
    )
}

/// The stone with a velocity added to its own.
pub open spec fn with_velocity(s: HailStone, v: (i64, i64, i64)) -> HailStone {
    HailStone { vx: (s.vx + v.0) as i64, vy: (s.vy + v.1) as i64, vz: (s.vz + v.2) as i64, ..s }
}

/// What the number of steps of the first stone to the crossing is a fraction
/// of: the numerator and the denominator.
pub open spec fn steps_fraction(a: HailStone, b: HailStone) -> (int, int) {
    if b.vx == 0 {
        (b.x - a.x, a.vx as int)
    } else {
        ((b.x - a.x) * b.vy - (b.y - a.y) * b.vx, a.vx * b.vy - b.vx * a.vy)
    }
}

/// What the number of steps of the second stone to the crossing is a
/// fraction of.
pub open spec fn other_steps_fraction(a: HailStone, b: HailStone) -> (int, int) {
    if a.vx == 0 {
        (-(b.x - a.x), b.vx as int)
    } else {
        ((b.y - a.y) * a.vx - (b.x - a.x) * a.vy, b.vx * a.vy - a.vx * b.vy)
    }
}

/// The size of a number, without its sign.
pub open spec fn size(a: int) -> int {
    if a < 0 {
        -a
    } else {
        a
    }
}

/// Whether a number is a whole multiple of another, which is not zero.
pub open spec fn divides(b: int, a: int) -> bool {
    size(a) % size(b) == 0
}

/// The quotient of a division that rounds towards zero.
pub open spec fn quotient(a: int, b: int) -> int {
    if (a < 0) == (b < 0) {
        size(a) / size(b)
    } else {
        -(size(a) / size(b))
    }
}

/// Where the lines of two stones cross in the plane of `x` and `y`, if they
/// are not parallel and each stone reaches the crossing after a whole number
/// of steps, forwards or backwards.
pub open spec fn crossing(a: HailStone, b: HailStone) -> Option<(int, int)> {
    let n = steps_fraction(a, b);
    let m = other_steps_fraction(a, b);
    if parallel(a, b) || n.1 == 0 || m.1 == 0 || !divides(n.1, n.0) || !divides(m.1, m.0) {
        None
    } else {
        Some((a.x + quotient(n.0, n.1) * a.vx, a.y + quotient(n.0, n.1) * a.vy))
    }
}

/// The state of the spiral after one more point: the walk goes on in its
/// direction, and turns to the right where it has come to a corner; the first
/// corner of every round lies one further out.
pub open spec fn spiral_after(s: SpiralCoords) -> SpiralCoords {
    let x = s.x + s.dx;
    let y = s.y + s.dy;
    if s.dx == 1 && x == s.radius + 1 {
        SpiralCoords { x: x as i64, y: y as i64, dx: s.dy, dy: (-s.dx) as i64, radius: (s.radius + 1) as i64 }
    } else if (s.dx == -1 && x == -s.radius) || s.dy * y == s.radius {
        SpiralCoords { x: x as i64, y: y as i64, dx: s.dy, dy: (-s.dx) as i64, radius: s.radius }
    } else {
        SpiralCoords { x: x as i64, y: y as i64, ..s }
    }
}

/// The state of a spiral is sound: it walks one step at a time along an axis,
/// and is not too far out.
pub open spec fn spiral_ok(s: SpiralCoords) -> bool {
    &&& -MAX_SIZE < s.x < MAX_SIZE
    &&& -MAX_SIZE < s.y < MAX_SIZE
    &&& 0 <= s.radius < MAX_SIZE
    &&& ((s.dx == 1 || s.dx == -1) && s.dy == 0) || (s.dx == 0 && (s.dy == 1 || s.dy == -1))
}

/// The stone that a line stands for: three coordinates, an `@`, and three
/// speeds, none of which is zero.
pub open spec fn stone_of(t: Seq<u8>) -> Result<HailStone, InputError> {
    match crate::text::split_once_spec(t, seq![32u8, 64u8, 32u8]) {
        None => Err(InputError::Syntax),
        Some((pos, vel)) => match (triple_of(pos), triple_of(vel)) {
            (Err(e), _) => Err(e),
            (Ok(_), Err(e)) => Err(e),
            (Ok(p), Ok(v)) => if v.0 == 0 || v.1 == 0 || v.2 == 0 {
                Err(InputError::Value)
            } else {
                Ok(HailStone { x: p.0, y: p.1, z: p.2, vx: v.0, vy: v.1, vz: v.2 })
            },
        },
    }
}

/// The text without the white space at its start and at its end.
pub open spec fn trimmed(t: Seq<u8>) -> Seq<u8>
    decreases t.len(),
{
    if t.len() > 0 && crate::text::is_space(t[0]) {
        trimmed(t.drop_first())
    } else if t.len() > 0 && crate::text::is_space(t.last()) {
        trimmed(t.drop_last())
    } else {
        t
    }
}

/// The three numbers that a text stands for, parted by a comma and a blank.
pub open spec fn triple_of(t: Seq<u8>) -> Result<(i64, i64, i64), InputError> {
    let ps = crate::text::parts(t, seq![44u8, 32u8]);
    if ps.len() < 3 {
        Err(InputError::Syntax)
    } else {
        match (
            signed_value(trimmed(ps[0]), i64::MIN as int, i64::MAX as int),
            signed_value(trimmed(ps[1]), i64::MIN as int, i64::MAX as int),
            signed_value(trimmed(ps[2]), i64::MIN as int, i64::MAX as int),
        ) {
            (Some(a), Some(b), Some(c)) => if ps.len() > 3 {
                Err(InputError::Syntax)
            } else {
                Ok((a as i64, b as i64, c as i64))
            },
            _ => Err(InputError::Number),
        }
    }
}

impl SpiralCoords {
    /// The start of the spiral: at the origin, heading along the `x` axis.
    pub fn new() -> (r: Self)
        ensures
            r == (SpiralCoords { x: 0, y: 0, dx: 1, dy: 0, radius: 0 }),
            spiral_ok(r),
    {
        SpiralCoords { x: 0, y: 0, dx: 1, dy: 0, radius: 0 }
    }

    /// The point that the spiral is at, after which it goes on to its next
    /// point.
    pub fn next(&mut self) -> (r: (i64, i64))
        requires
            spiral_ok(*old(self)),
            -MAX_SIZE + 1 < old(self).x < MAX_SIZE - 1,
            -MAX_SIZE + 1 < old(self).y < MAX_SIZE - 1,
            old(self).radius < MAX_SIZE - 1,
        ensures
            r == (old(self).x, old(self).y),
            *final(self) == spiral_after(*old(self)),
            spiral_ok(*final(self)),
    {
        let ret_x = self.x;
        let ret_y = self.y;

        // spiral round (0, 0). Turn on the corners.
        self.x = self.x + self.dx;
        self.y = self.y + self.dy;
        proof {
            assert(-MAX_SIZE <= self.dy * self.y <= MAX_SIZE) by (nonlinear_arith)
                requires
                    -1 <= self.dy <= 1,
                    -MAX_SIZE <= self.y <= MAX_SIZE,
            ;
        }
        if self.dx == 1 && self.x == self.radius + 1 {
            self.radius = self.radius + 1;
            // dx -> dy, dy -> -dx: a turn by a quarter
            let turned = self.dy;
            self.dy = -self.dx;
            self.dx = turned;
        } else if (self.dx == -1 && self.x == -self.radius) || self.dy * self.y == self.radius {
            let turned = self.dy;
            self.dy = -self.dx;
            self.dx = turned;
        }
        (ret_x, ret_y)
    }
}

impl HailStone {
    /// The square of the speed in the plane of `x` and `y`.
    pub fn speed_squared_xy(&self) -> (r: i64)
        requires
            in_i64(self.vx * self.vx),
            in_i64(self.vy * self.vy),
            in_i64(speed_squared(*self)),
        ensures
            r == speed_squared(*self),
    {
        self.vx * self.vx + self.vy * self.vy
    }

    /// Whether the stone and another move along parallel lines in the plane
    /// of `x` and `y`.
    pub fn is_parallel_to_xy(&self, other: &HailStone) -> (b: bool)
        requires
            is_small(*self),
            is_small(*other),
        ensures
            b == parallel(*self, *other),
    {
        let (a, b, c, d) = (self.vx as i128, self.vy as i128, other.vx as i128, other.vy as i128);
        proof {
            let v = MAX_SPEED as int;
            lemma_product(self.vx as int, other.vx as int, v, v);
            lemma_product(self.vy as int, other.vy as int, v, v);
            lemma_product(self.vx as int, self.vx as int, v, v);
            lemma_product(self.vy as int, self.vy as int, v, v);
            lemma_product(other.vx as int, other.vx as int, v, v);
            lemma_product(other.vy as int, other.vy as int, v, v);
            let dot = self.vx * other.vx + self.vy * other.vy;
            lemma_product(dot, dot, 2 * v * v, 2 * v * v);
            lemma_product(speed_squared(*self), speed_squared(*other), 2 * v * v, 2 * v * v);
            assert(v * v == 1_000_000_000_000_000_000) by (nonlinear_arith)
                requires
                    v == 1_000_000_000,
            ;
            assert((2 * v * v) * (2 * v * v) == 4_000_000_000_000_000_000_000_000_000_000_000_000)
                by (nonlinear_arith)
                requires
                    v * v == 1_000_000_000_000_000_000,
            ;
        }
        let dotprod = a * c + b * d;
        let left = dotprod * dotprod;
        let right = (a * a + b * b) * (c * c + d * d);
        left == right
    }

    /// The stone with a velocity added to its own.
    pub fn add_velocity(&self, velocity: &(i64, i64, i64)) -> (r: Self)
        requires
            in_i64(self.vx + velocity.0),
            in_i64(self.vy + velocity.1),
            in_i64(self.vz + velocity.2),
        ensures
            r == with_velocity(*self, *velocity),
    {
        HailStone {
            vx: self.vx + velocity.0,
            vy: self.vy + velocity.1,
            vz: self.vz + velocity.2,
            x: self.x,
            y: self.y,
            z: self.z,
        }
    }

    /// Where the lines of the stone and another cross in the plane of `x` and
    /// `y`, if they cross at a point that both stones reach after a whole
    /// number of steps.
    pub fn intersection_at_integer_xy(&self, other: &HailStone) -> (r: Option<(i64, i64)>)
        requires
            is_small(*self),
            is_small(*other),
        ensures
            r is Some <==> crossing(*self, *other) is Some && in_i64(crossing(*self, *other)->Some_0.0)
                && in_i64(crossing(*self, *other)->Some_0.1),
            r is Some ==> crossing(*self, *other) == Some((r->Some_0.0 as int, r->Some_0.1 as int)),
    {
        if self.is_parallel_to_xy(other) {
            return None;
        }
        let dx = other.x as i128 - self.x as i128;
        let dy = other.y as i128 - self.y as i128;
        proof {
            let v = MAX_SPEED as int;
            let p = 2 * MAX_PLACE as int;
            lemma_product(other.x - self.x, other.vy as int, p, v);
            lemma_product(other.y - self.y, other.vx as int, p, v);
            lemma_product(self.vx as int, other.vy as int, v, v);
            lemma_product(other.vx as int, self.vy as int, v, v);
            lemma_product(other.y - self.y, self.vx as int, p, v);
            lemma_product(other.x - self.x, self.vy as int, p, v);
            assert(p * v == 2_000_000_000_000_000_000_000_000) by (nonlinear_arith)
                requires
                    p == 2_000_000_000_000_000,
                    v == 1_000_000_000,
            ;
            assert(v * v == 1_000_000_000_000_000_000) by (nonlinear_arith)
                requires
                    v == 1_000_000_000,
            ;
            lemma_not_parallel(*self, *other);
        }
        let (nom_n, denom_n): (i128, i128) = if other.vx == 0 {
            (dx, self.vx as i128)
        } else {
            (
                dx * other.vy as i128 - dy * other.vx as i128,
                self.vx as i128 * other.vy as i128 - other.vx as i128 * self.vy as i128,
            )
        };
        let n = match Self::whole_quotient(nom_n, denom_n) {
            Some(n) => n,
            None => {
                return None;
            },
        };
        let (nom_m, denom_m): (i128, i128) = if self.vx == 0 {
            (-dx, other.vx as i128)
        } else {
            (
                dy * self.vx as i128 - dx * self.vy as i128,
                other.vx as i128 * self.vy as i128 - self.vx as i128 * other.vy as i128,
            )
        };
        if Self::whole_quotient(nom_m, denom_m).is_none() {
            return None;
        }
        proof {
            let q = 4_000_000_000_000_000_000_000_000int;
            let v = MAX_SPEED as int;
            lemma_product(n as int, self.vx as int, q, v);
            lemma_product(n as int, self.vy as int, q, v);
            assert(q * v == 4_000_000_000_000_000_000_000_000_000_000_000) by (nonlinear_arith)
                requires
                    q == 4_000_000_000_000_000_000_000_000,
                    v == 1_000_000_000,
            ;
        }
        let x = self.x as i128 + n * self.vx as i128;
        let y = self.y as i128 + n * self.vy as i128;
        if x < i64::MIN as i128 || x > i64::MAX as i128 || y < i64::MIN as i128 || y
            > i64::MAX as i128 {
            return None;
        }
        Some((x as i64, y as i64))
    }
}

/// Two stones whose lines are not parallel have a crossing that can be worked
/// out: what the steps to it are a fraction of is not zero.
pub proof fn lemma_not_parallel(a: HailStone, b: HailStone)
    requires
        !parallel(a, b),
    ensures
        steps_fraction(a, b).1 != 0,
        other_steps_fraction(a, b).1 != 0,
{
    let (p, q, r, t) = (a.vx as int, a.vy as int, b.vx as int, b.vy as int);
    let (a1, b1, c1, d1) = (p * t, r * q, p * r, q * t);
    assert(a1 * b1 == c1 * d1) by (nonlinear_arith)
        requires
            a1 == p * t,
            b1 == r * q,
            c1 == p * r,
            d1 == q * t,
    ;
    assert((a1 - b1) * (a1 - b1) == a1 * a1 - 2 * (a1 * b1) + b1 * b1) by (nonlinear_arith);
    assert((c1 + d1) * (c1 + d1) == c1 * c1 + 2 * (c1 * d1) + d1 * d1) by (nonlinear_arith);
    assert((p * p) * (r * r) == c1 * c1) by (nonlinear_arith)
        requires
            c1 == p * r,
    ;
    assert((p * p) * (t * t) == a1 * a1) by (nonlinear_arith)
        requires
            a1 == p * t,
    ;
    assert((q * q) * (r * r) == b1 * b1) by (nonlinear_arith)
        requires
            b1 == r * q,
    ;
    assert((q * q) * (t * t) == d1 * d1) by (nonlinear_arith)
        requires
            d1 == q * t,
    ;
    assert((p * p + q * q) * (r * r + t * t) == (p * p) * (r * r) + (p * p) * (t * t) + (q * q) * (
    r * r) + (q * q) * (t * t)) by (nonlinear_arith);
    if a1 - b1 == 0 {
        assert((c1 + d1) * (c1 + d1) == (p * p + q * q) * (r * r + t * t));
        assert(false);
    }
    assert(r * q - p * t != 0);
    if r == 0 && p == 0 {
        assert(p * t - r * q == 0) by (nonlinear_arith)
            requires
                r == 0,
                p == 0,
        ;
    }
}

impl HailStone {
    /// The quotient of two numbers, if the first is a whole multiple of the
    /// second.
    pub fn whole_quotient(a: i128, b: i128) -> (r: Option<i128>)
        requires
            b != 0,
            -4_000_000_000_000_000_000_000_000 <= a <= 4_000_000_000_000_000_000_000_000,
            -4_000_000_000_000_000_000_000_000 <= b <= 4_000_000_000_000_000_000_000_000,
        ensures
            r is Some <==> divides(b as int, a as int),
            r is Some ==> r->Some_0 == quotient(a as int, b as int),
            r is Some ==> -4_000_000_000_000_000_000_000_000 <= r->Some_0
                <= 4_000_000_000_000_000_000_000_000,
    {
        let size_a: u128 = if a < 0 {
            (-a) as u128
        } else {
            a as u128
        };
        let size_b: u128 = if b < 0 {
            (-b) as u128
        } else {
            b as u128
        };
        if size_a % size_b != 0 {
            return None;
        }
        let q = size_a / size_b;
        proof {
            assert(0 <= q <= size_a) by (nonlinear_arith)
                requires
                    q == size_a / size_b,
                    size_b > 0,
                    size_a >= 0,
            ;
        }
        if (a < 0) == (b < 0) {
            Some(q as i128)
        } else {
            Some(-(q as i128))
        }
    }
}

/// The size of a product is at most the product of the sizes.
pub proof fn lemma_product(a: int, b: int, most_a: int, most_b: int)
    requires
        -most_a <= a <= most_a,
        -most_b <= b <= most_b,
    ensures
        -(most_a * most_b) <= a * b <= most_a * most_b,
{
    assert(-(most_a * most_b) <= a * b <= most_a * most_b) by (nonlinear_arith)
        requires
            -most_a <= a <= most_a,
            -most_b <= b <= most_b,
    ;
}

impl Hail {
    /// The stones.
    pub closed spec fn view(&self) -> Seq<HailStone> {
        self.0@
    }

    /// Hail of the given stones.
    pub fn new(stones: Vec<HailStone>) -> (r: Self)
        ensures
            r.view() == stones@,
    {
        Hail(stones)
    }

    /// The stone at place `i`.
    pub fn stone(&self, i: usize) -> (r: HailStone)
        requires
            i < self.view().len(),
        ensures
            r == self.view()[i as int],
    {
        self.0[i]
    }

    /// The number of stones.
    pub fn len(&self) -> (n: usize)
        ensures
            n == self.view().len(),
    {
        self.0.len()
    }
}

/// The velocity turned round.
pub open spec fn opposite(v: (i64, i64, i64)) -> (i64, i64, i64) {
    ((-v.0) as i64, (-v.1) as i64, (-v.2) as i64)
}

/// Whether the stone can be seen from a thrown stone of any speed that is
/// tried: its coordinates are of a size of at most `MAX_PLACE`, and its speeds
/// stay so with a speed of the spiral taken from them.
pub open spec fn is_seen(s: HailStone) -> bool {
    &&& -MAX_PLACE <= s.x <= MAX_PLACE
    &&& -MAX_PLACE <= s.y <= MAX_PLACE
    &&& -MAX_PLACE <= s.z <= MAX_PLACE
    &&& -MAX_SPEED + MAX_SIZE <= s.vx <= MAX_SPEED - MAX_SIZE
    &&& -MAX_SPEED + MAX_SIZE <= s.vy <= MAX_SPEED - MAX_SIZE
    &&& -MAX_SPEED + MAX_SIZE <= s.vz <= MAX_SPEED - MAX_SIZE
}

/// Where stone `i` and the stone after it cross, seen from a thrown stone of
/// velocity `v`.
pub open spec fn seen_crossing(stones: Seq<HailStone>, i: int, v: (i64, i64, i64)) -> Option<
    (int, int),
> {
    crossing(with_velocity(stones[i], opposite(v)), with_velocity(stones[i + 1], opposite(v)))
}

/// Seen from a thrown stone of velocity `v`, each of the first `n` stones
/// crosses the next at the point `p`.
pub open spec fn all_cross_at(stones: Seq<HailStone>, n: int, v: (i64, i64, i64), p: (int, int)) -> bool {
    forall|i: int| 0 <= i < n - 1 ==> #[trigger] seen_crossing(stones, i, v) == Some(p)
}

/// The number of steps after which a stone, seen from a thrown stone of
/// velocity `v`, has the coordinate `x`; zero where it does not move in `x`.
pub open spec fn steps_to(s: HailStone, v: (i64, i64, i64), x: int) -> int {
    let seen = with_velocity(s, opposite(v));
    if seen.vx != 0 {
        quotient(x - seen.x, seen.vx as int)
    } else {
        0
    }
}

/// The height of a stone, seen from a thrown stone of velocity `v`, when it
/// has the coordinate `x`.
pub open spec fn height_at(s: HailStone, v: (i64, i64, i64), x: int) -> int {
    steps_to(s, v, x) * with_velocity(s, opposite(v)).vz + s.z
}

/// Seen from a thrown stone of velocity `v`, the first `n` stones all have one
/// height when they have the coordinate `x`.
pub open spec fn all_level_at(stones: Seq<HailStone>, n: int, v: (i64, i64, i64), x: int) -> bool {
    forall|k: int| 0 <= k < n ==> #[trigger] height_at(stones[k], v, x) == height_at(stones[0], v, x)
}

/// A throw hits the first `n` stones as far as the search looks: seen from
/// the thrown stone, the stones cross each other in one point, at one height,
/// and the throw starts where the first stone is then.
pub open spec fn is_throw(
    stones: Seq<HailStone>,
    n: int,
    throw: (i64, i64, i64, i64, i64, i64),
) -> bool {
    let v = (throw.3, throw.4, throw.5);
    exists|p: (int, int)| #[trigger]
        all_cross_at(stones, n, (throw.3, throw.4, 0i64), p) && all_level_at(stones, n, v, p.0) && {
            let seen = with_velocity(stones[0], opposite(v));
            let steps = steps_to(stones[0], v, p.0);
            &&& throw.0 == seen.x + steps * seen.vx
            &&& throw.1 == seen.y + steps * seen.vy
            &&& throw.2 == seen.z + steps * seen.vz
        }
}

/// The state of the spiral after `k` points.
pub open spec fn spiral_at(k: nat) -> SpiralCoords
    decreases k,
{
    if k == 0 {
        SpiralCoords { x: 0, y: 0, dx: 1, dy: 0, radius: 0 }
    } else {
        spiral_after(spiral_at((k - 1) as nat))
    }
}

/// The point in which each of the first `n` stones crosses the next, seen
/// from a thrown stone of the speeds `v` in `x` and `y`, if there is one and
/// its coordinates fit in 64 bits.
pub open spec fn meeting(stones: Seq<HailStone>, n: int, v: (i64, i64)) -> Option<(i64, i64)> {
    match seen_crossing(stones, 0, (v.0, v.1, 0i64)) {
        Some(p) => if all_cross_at(stones, n, (v.0, v.1, 0i64), p) && in_i64(p.0) && in_i64(p.1) {
            Some((p.0 as i64, p.1 as i64))
        } else {
            None
        },
        None => None,
    }
}

/// The first of the points `k` to `most - 1` of the spiral that is a pair of
/// speeds with a meeting.
pub open spec fn first_meeting(stones: Seq<HailStone>, n: int, k: nat, most: nat) -> Option<nat>
    decreases most - k,
{
    if k >= most {
        None
    } else if meeting(stones, n, (spiral_at(k).x, spiral_at(k).y)) is Some {
        Some(k)
    } else {
        first_meeting(stones, n, k + 1, most)
    }
}

/// The speed in `z` that is tried as number `i`: nothing, one down, one up,
/// two down, two up, and so on.
pub open spec fn speed_tried(i: nat) -> i64 {
    if i % 2 == 1 {
        (-(i / 2)) as i64
    } else {
        (i / 2) as i64
    }
}

/// The first of the speeds in `z` with the numbers `i` to `most` at which,
/// seen from a thrown stone of the speeds `v` in `x` and `y`, the first `n`
/// stones have one height when they have the coordinate `x`.
pub open spec fn first_level(
    stones: Seq<HailStone>,
    n: int,
    v: (i64, i64),
    x: int,
    i: nat,
    most: nat,
) -> Option<i64>
    decreases most + 1 - i,
{
    if i > most {
        None
    } else if all_level_at(stones, n, (v.0, v.1, speed_tried(i)), x) {
        Some(speed_tried(i))
    } else {
        first_level(stones, n, v, x, i + 1, most)
    }
}

/// The throw that the search finds for the first `n` stones with at most
/// `most` tries: the speeds in `x` and `y` are the first point of the spiral
/// with a meeting, the speed in `z` is the first that is tried at which the
/// stones are level at the meeting, and the place is where the first stone is
/// then. There is none where no such speeds are among those tried, or a
/// coordinate of the place does not fit in 64 bits.
pub open spec fn throw_of(stones: Seq<HailStone>, n: int, most: nat) -> Option<
    (i64, i64, i64, i64, i64, i64),
> {
    match first_meeting(stones, n, 0, most) {
        None => None,
        Some(k) => {
            let vxy = (spiral_at(k).x, spiral_at(k).y);
            let p = meeting(stones, n, vxy)->Some_0;
            match first_level(stones, n, vxy, p.0 as int, 1, most) {
                None => None,
                Some(vz) => {
                    let v = (vxy.0, vxy.1, vz);
                    let seen = with_velocity(stones[0], opposite(v));
                    let steps = steps_to(stones[0], v, p.0 as int);
                    let x = seen.x + steps * seen.vx;
                    let y = seen.y + steps * seen.vy;
                    let z = seen.z + steps * seen.vz;
                    if in_i64(x) && in_i64(y) && in_i64(z) {
                        Some((x as i64, y as i64, z as i64, vxy.0, vxy.1, vz))
                    } else {
                        None
                    }
                },
            }
        },
    }
}

impl Hail {
    /// Looks for the velocity and the place of a throw that hits all stones;
    /// the first four stones are looked at. The speeds in `x` and `y` are tried
    /// along a spiral, at most `max_tries` of them, and then at most as many
    /// speeds in `z`. The result holds the place and then the velocity.
    pub fn find_perfect_throw_velocity_and_position(&self, max_tries: u32) -> (r: Option<
        (i64, i64, i64, i64, i64, i64),
    >)
        requires
            self.view().len() >= 2,
            max_tries < MAX_SIZE - 2,
            forall|i: int| 0 <= i < self.view().len() ==> is_seen(#[trigger] self.view()[i]),
        ensures
            r is Some ==> is_throw(
                self.view(),
                if self.view().len() < 4 {
                    self.view().len() as int
                } else {
                    4
                },
                r->Some_0,
            ),
            r == throw_of(
                self.view(),
                if self.view().len() < 4 {
                    self.view().len() as int
                } else {
                    4
                },
                max_tries as nat,
            ),
    {
        let ghost stones = self.view();
        let ghost most = max_tries as nat;
        let ghost at: nat = 0;
        let n = if self.0.len() < 4 {
            self.0.len()
        } else {
            4
        };
        // In the plane of x and y first: seen from the thrown stone, the paths
        // of the other stones must all cross in one point.
        let mut spiral = SpiralCoords::new();
        let mut tries: u32 = 0;
        let mut found: Option<(i64, i64, i64, i64)> = None;
        while tries < max_tries && found.is_none()
            invariant
                tries <= max_tries < MAX_SIZE - 2,
                stones == self.view(),
                n >= 2,
                n <= stones.len(),
                forall|i: int| 0 <= i < stones.len() ==> is_seen(#[trigger] stones[i]),
                spiral_ok(spiral),
                -tries <= spiral.x <= tries,
                -tries <= spiral.y <= tries,
                spiral.radius <= tries,
                most == max_tries,
                spiral == spiral_at(tries as nat),
                found is None ==> first_meeting(stones, n as int, 0, most) == first_meeting(
                    stones,
                    n as int,
                    tries as nat,
                    most,
                ),
                found is Some ==> first_meeting(stones, n as int, 0, most) == Some(at) && spiral_at(at).x
                    == found->Some_0.0 && spiral_at(at).y == found->Some_0.1 && meeting(
                    stones,
                    n as int,
                    (found->Some_0.0, found->Some_0.1),
                ) == Some((found->Some_0.2, found->Some_0.3)),
                found is Some ==> all_cross_at(
                    stones,
                    n as int,
                    (found->Some_0.0, found->Some_0.1, 0i64),
                    (found->Some_0.2 as int, found->Some_0.3 as int),
                ) && -MAX_SIZE < found->Some_0.0 < MAX_SIZE && -MAX_SIZE < found->Some_0.1
                    < MAX_SIZE,
            decreases max_tries - tries,
        {
            let ghost here = tries as nat;
            let (vx, vy) = spiral.next();
            tries = tries + 1;
            proof {
                assert(spiral_at(tries as nat) == spiral_after(spiral_at(here)));
            }
            let back = (-vx, -vy, 0i64);
            proof {
                assert(back == opposite((vx, vy, 0i64)));
            }
            let mut coords: Option<(i64, i64)> = None;
            let mut all = true;
            let mut i: usize = 0;
            while i + 1 < n && all
                invariant
                    i + 1 <= n <= stones.len(),
                    stones == self.view(),
                    -MAX_SIZE < vx < MAX_SIZE,
                    -MAX_SIZE < vy < MAX_SIZE,
                    back == opposite((vx, vy, 0i64)),
                    forall|k: int| 0 <= k < stones.len() ==> is_seen(#[trigger] stones[k]),
                    all && i > 0 ==> coords is Some,
                    n >= 2,
                    !all ==> meeting(stones, n as int, (vx, vy)) is None,
                    all ==> forall|k: int|
                        0 <= k < i ==> #[trigger] seen_crossing(stones, k, (vx, vy, 0i64)) == Some(
                            (coords->Some_0.0 as int, coords->Some_0.1 as int),
                        ),
                decreases n - i,
            {
                proof {
                    assert(is_seen(stones[i as int]));
                    assert(is_seen(stones[i + 1]));
                }
                let stone_i = self.0[i].add_velocity(&back);
                let stone_j = self.0[i + 1].add_velocity(&back);
                proof {
                    assert(seen_crossing(stones, i as int, (vx, vy, 0i64)) == crossing(stone_i, stone_j));
                }
                match stone_i.intersection_at_integer_xy(&stone_j) {
                    None => {
                        all = false;
                    },
                    Some(xy) => {
                        if i == 0 {
                            coords = Some(xy);
                        } else if xy.0 != coords.unwrap().0 || xy.1 != coords.unwrap().1 {
                            proof {
                                assert(seen_crossing(stones, 0, (vx, vy, 0i64)) == Some(
                                    (coords->Some_0.0 as int, coords->Some_0.1 as int),
                                ));
                            }
                            all = false;
                        }
                    },
                }
                i += 1;
            }
            if all {
                // n >= 2, so that a first pair was looked at
                let xy = coords.unwrap();
                proof {
                    assert(seen_crossing(stones, 0, (vx, vy, 0i64)) == Some((xy.0 as int, xy.1 as int)));
                    assert(all_cross_at(stones, n as int, (vx, vy, 0i64), (xy.0 as int, xy.1 as int)));
                    assert(meeting(stones, n as int, (vx, vy)) == Some(xy));
                    at = here;
                }
                found = Some((vx, vy, xy.0, xy.1));
            }
        }
        let (vthrow_x, vthrow_y, x_throw, y_throw) = match found {
            Some(f) => f,
            None => {
                return None;
            },
        };
        // Then the speed in z that makes the stones pass at one height.
        let mut i: u32 = 0;
        let mut vthrow_z: Option<i64> = None;
        while i < max_tries && vthrow_z.is_none()
            invariant
                i <= max_tries < MAX_SIZE - 2,
                stones == self.view(),
                2 <= n <= stones.len(),
                -MAX_SIZE < vthrow_x < MAX_SIZE,
                -MAX_SIZE < vthrow_y < MAX_SIZE,
                forall|k: int| 0 <= k < stones.len() ==> is_seen(#[trigger] stones[k]),
                most == max_tries,
                vthrow_z is None ==> first_level(
                    stones,
                    n as int,
                    (vthrow_x, vthrow_y),
                    x_throw as int,
                    1,
                    most,
                ) == first_level(
                    stones,
                    n as int,
                    (vthrow_x, vthrow_y),
                    x_throw as int,
                    (i + 1) as nat,
                    most,
                ),
                vthrow_z is Some ==> first_level(
                    stones,
                    n as int,
                    (vthrow_x, vthrow_y),
                    x_throw as int,
                    1,
                    most,
                ) == vthrow_z,
                vthrow_z is Some ==> -MAX_SIZE < vthrow_z->Some_0 < MAX_SIZE && all_level_at(
                    stones,
                    n as int,
                    (vthrow_x, vthrow_y, vthrow_z->Some_0),
                    x_throw as int,
                ),
            decreases max_tries - i,
        {
            i = i + 1;
            let half = (i / 2) as i64;
            let vz: i64 = if i % 2 == 1 {
                -half
            } else {
                half
            };
            let v = (vthrow_x, vthrow_y, vz);
            proof {
                assert(vz == speed_tried(i as nat));
            }
            let mut first: i128 = 0;
            let mut level = true;
            let mut k: usize = 0;
            while k < n && level
                invariant
                    k <= n <= stones.len(),
                    stones == self.view(),
                    v == (vthrow_x, vthrow_y, vz),
                    -MAX_SIZE < vthrow_x < MAX_SIZE,
                    -MAX_SIZE < vthrow_y < MAX_SIZE,
                    -MAX_SIZE < vz < MAX_SIZE,
                    forall|j: int| 0 <= j < stones.len() ==> is_seen(#[trigger] stones[j]),
                    level && k > 0 ==> first == height_at(stones[0], v, x_throw as int),
                    !level ==> !all_level_at(stones, n as int, v, x_throw as int),
                    level ==> forall|j: int|
                        0 <= j < k ==> #[trigger] height_at(stones[j], v, x_throw as int)
                            == height_at(stones[0], v, x_throw as int),
                decreases n - k,
            {
                proof {
                    assert(is_seen(stones[k as int]));
                }
                let z = Self::height_seen(&self.0[k], v, x_throw);
                if k == 0 {
                    first = z;
                } else if z != first {
                    level = false;
                }
                k += 1;
            }
            if level {
                proof {
                    assert(all_level_at(stones, n as int, v, x_throw as int));
                }
                vthrow_z = Some(vz);
            }
        }
        let vthrow_z = match vthrow_z {
            Some(vz) => vz,
            None => {
                return None;
            },
        };
        // Where the first stone is when it is hit.
        let v = (vthrow_x, vthrow_y, vthrow_z);
        let back = (-vthrow_x, -vthrow_y, -vthrow_z);
        proof {
            assert(back == opposite(v));
            assert(is_seen(stones[0]));
        }
        let stone0 = self.0[0].add_velocity(&back);
        let t0 = Self::steps_seen(&self.0[0], v, x_throw);
        proof {
            let q = 20_000_000_000_000_000_000int;
            let sp = MAX_SPEED as int;
            lemma_product(t0 as int, stone0.vx as int, q, sp);
            lemma_product(t0 as int, stone0.vy as int, q, sp);
            lemma_product(t0 as int, stone0.vz as int, q, sp);
            assert(q * sp == 20_000_000_000_000_000_000_000_000_000) by (nonlinear_arith)
                requires
                    q == 20_000_000_000_000_000_000,
                    sp == 1_000_000_000,
            ;
        }
        let x = stone0.x as i128 + t0 * stone0.vx as i128;
        let y = stone0.y as i128 + t0 * stone0.vy as i128;
        let z = stone0.z as i128 + t0 * stone0.vz as i128;
        let low = i64::MIN as i128;
        let high = i64::MAX as i128;
        if x < low || x > high || y < low || y > high || z < low || z > high {
            return None;
        }
        let throw = (x as i64, y as i64, z as i64, vthrow_x, vthrow_y, vthrow_z);
        proof {
            let p = (x_throw as int, y_throw as int);
            assert(all_cross_at(stones, n as int, (throw.3, throw.4, 0i64), p));
            assert(all_level_at(stones, n as int, v, p.0));
        }
        Some(throw)
    }

    /// The number of steps after which a stone, seen from a thrown stone of
    /// velocity `v`, has the coordinate `x`.
    fn steps_seen(stone: &HailStone, v: (i64, i64, i64), x: i64) -> (r: i128)
        requires
            is_seen(*stone),
            -MAX_SIZE < v.0 < MAX_SIZE,
        ensures
            r == steps_to(*stone, v, x as int),
            -20_000_000_000_000_000_000 <= r <= 20_000_000_000_000_000_000,
    {
        let seen_vx = stone.vx as i128 - v.0 as i128;
        if seen_vx == 0 {
            return 0;
        }
        let away = x as i128 - stone.x as i128;
        let size_a: u128 = if away < 0 {
            (-away) as u128
        } else {
            away as u128
        };
        let size_b: u128 = if seen_vx < 0 {
            (-seen_vx) as u128
        } else {
            seen_vx as u128
        };
        let q = size_a / size_b;
        proof {
            assert(0 <= q <= size_a) by (nonlinear_arith)
                requires
                    q == size_a / size_b,
                    size_b > 0,
                    size_a >= 0,
            ;
        }
        if (away < 0) == (seen_vx < 0) {
            q as i128
        } else {
            -(q as i128)
        }
    }

    /// The height of a stone, seen from a thrown stone of velocity `v`, when
    /// it has the coordinate `x`.
    fn height_seen(stone: &HailStone, v: (i64, i64, i64), x: i64) -> (r: i128)
        requires
            is_seen(*stone),
            -MAX_SIZE < v.0 < MAX_SIZE,
            -MAX_SIZE < v.2 < MAX_SIZE,
        ensures
            r == height_at(*stone, v, x as int),
    {
        let t = Self::steps_seen(stone, v, x);
        let seen_vz = stone.vz as i128 - v.2 as i128;
        proof {
            lemma_product(t as int, seen_vz as int, 20_000_000_000_000_000_000, MAX_SPEED as int);
            assert(20_000_000_000_000_000_000 * MAX_SPEED == 20_000_000_000_000_000_000_000_000_000)
                by (nonlinear_arith)
                requires
                    MAX_SPEED == 1_000_000_000,
            ;
        }
        t * seen_vz + stone.z as i128
    }
}

/// The part of the text between `from` and `to` without the white space at
/// its start and at its end.
pub fn trim(text: &[u8], from: usize, to: usize) -> (r: (usize, usize))
    requires
        from <= to <= text.len(),
    ensures
        from <= r.0 <= r.1 <= to,
        text@.subrange(r.0 as int, r.1 as int) == trimmed(text@.subrange(from as int, to as int)),
{
    let mut a = from;
    let mut b = to;
    while a < b && (text[a] == 32 || (9 <= text[a] && text[a] <= 13))
        invariant
            from <= a <= b <= to <= text.len(),
            b == to,
            trimmed(text@.subrange(from as int, to as int)) == trimmed(
                text@.subrange(a as int, b as int),
            ),
        decreases b - a,
    {
        proof {
            let t = text@.subrange(a as int, b as int);
            assert(t[0] == text@[a as int]);
            assert(t.drop_first() =~= text@.subrange(a + 1, b as int));
        }
        a += 1;
    }
    while a < b && (text[b - 1] == 32 || (9 <= text[b - 1] && text[b - 1] <= 13))
        invariant
            from <= a <= b <= to <= text.len(),
            a < b ==> !crate::text::is_space(text@[a as int]),
            trimmed(text@.subrange(from as int, to as int)) == trimmed(
                text@.subrange(a as int, b as int),
            ),
        decreases b - a,
    {
        proof {
            let t = text@.subrange(a as int, b as int);
            assert(t[0] == text@[a as int]);
            assert(t.last() == text@[b - 1]);
            assert(t.drop_last() =~= text@.subrange(a as int, b - 1));
        }
        b -= 1;
    }
    proof {
        let t = text@.subrange(a as int, b as int);
        if a < b {
            assert(t[0] == text@[a as int]);
            assert(t.last() == text@[b - 1]);
        }
    }
    (a, b)
}

impl HailStone {
    /// Reads three numbers from the text between `from` and `to`.
    fn read_triple(text: &[u8], from: usize, to: usize) -> (r: Result<(i64, i64, i64), InputError>)
        requires
            from <= to <= text.len(),
        ensures
            r == triple_of(text@.subrange(from as int, to as int)),
    {
        let sep: [u8; 2] = [44, 32];
        proof {
            assert(sep@ =~= seq![44u8, 32u8]);
        }
        let spans = crate::text::split_at_each(text, from, to, array_as_slice(&sep));
        if spans.len() < 3 {
            return Err(InputError::Syntax);
        }
        let (a0, b0) = trim(text, spans[0].0, spans[0].1);
        let (a1, b1) = trim(text, spans[1].0, spans[1].1);
        let (a2, b2) = trim(text, spans[2].0, spans[2].1);
        let x = parse_i64(text, a0, b0);
        let y = parse_i64(text, a1, b1);
        let z = parse_i64(text, a2, b2);
        if x.is_none() || y.is_none() || z.is_none() {
            return Err(InputError::Number);
        }
        if spans.len() > 3 {
            return Err(InputError::Syntax);
        }
        Ok((x.unwrap(), y.unwrap(), z.unwrap()))
    }

    /// Reads a stone from the text between `from` and `to`.
    pub fn from_bytes(text: &[u8], from: usize, to: usize) -> (r: Result<HailStone, InputError>)
        requires
            from <= to <= text.len(),
        ensures
            r == stone_of(text@.subrange(from as int, to as int)),
    {
        let at: [u8; 3] = [32, 64, 32];
        proof {
            assert(at@ =~= seq![32u8, 64u8, 32u8]);
        }
        let middle = match split_once(text, from, to, array_as_slice(&at)) {
            Some(m) => m,
            None => {
                return Err(InputError::Syntax);
            },
        };
        let p = match Self::read_triple(text, from, middle) {
            Ok(p) => p,
            Err(e) => {
                return Err(e);
            },
        };
        let v = match Self::read_triple(text, middle + 3, to) {
            Ok(v) => v,
            Err(e) => {
                return Err(e);
            },
        };
        if v.0 == 0 || v.1 == 0 || v.2 == 0 {
            return Err(InputError::Value);
        }
        Ok(HailStone { x: p.0, y: p.1, z: p.2, vx: v.0, vy: v.1, vz: v.2 })
    }
}

impl Hail {
    /// Reads the hail: one stone on each line.
    #[verifier::loop_isolation(false)]
    pub fn from_bytes(text: &[u8]) -> (r: Result<Hail, InputError>)
        ensures
            r is Ok <==> forall|i: int|
                0 <= i < lines(text@).len() ==> (#[trigger] stone_of(lines(text@)[i])) is Ok,
            r is Ok ==> r->Ok_0.view() == Seq::new(
                lines(text@).len(),
                |i: int| stone_of(lines(text@)[i])->Ok_0,
            ),
    {
        let spans = split_lines(text);
        let ghost ls = lines(text@);
        let mut stones: Vec<HailStone> = Vec::new();
        let mut i: usize = 0;
        while i < spans.len()
            invariant
                i <= spans.len(),
                stones.len() == i,
                forall|j: int|
                    0 <= j < i ==> (#[trigger] stone_of(ls[j])) == Ok::<HailStone, InputError>(
                        stones@[j],
                    ),
            decreases spans.len() - i,
        {
            match HailStone::from_bytes(text, spans[i].0, spans[i].1) {
                Ok(s) => {
                    stones.push(s);
                },
                Err(e) => {
                    proof {
                        assert(stone_of(ls[i as int]) is Err);
                    }
                    return Err(e);
                },
            }
            i += 1;
        }
        proof {
            assert(stones@ =~= Seq::new(
                lines(text@).len(),
                |i: int| stone_of(lines(text@)[i])->Ok_0,
            ));
        }
        Ok(Hail(stones))
    }

    /// Reads the hail.
    pub fn parse(s: &str) -> (r: Result<Hail, InputError>)
        ensures
            r is Ok <==> forall|i: int|
                0 <= i < lines(s.spec_bytes()).len() ==> (#[trigger] stone_of(
                    lines(s.spec_bytes())[i],
                )) is Ok,
            r is Ok ==> r->Ok_0.view() == Seq::new(
                lines(s.spec_bytes()).len(),
                |i: int| stone_of(lines(s.spec_bytes())[i])->Ok_0,
            ),
    {
        Hail::from_bytes(s.as_bytes())
    }
}

impl std::str::FromStr for Hail {
    type Err = InputError;

    fn from_str(s: &str) -> (r: Result<Self, Self::Err>) {
        Hail::parse(s)
    }
}

} // verus!
