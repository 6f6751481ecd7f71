//! A garden of plots and rocks, and the plots that can be reached from the
//! start in a given number of steps.
use crate::grids::ByteGrid;
use crate::hashing::{key_set_contains, key_set_insert, key_set_new};
use crate::puzzles::blocks::{cells_of, first_line_len, is_picture, picture, read_picture, row_count};
use crate::puzzles::d17::search::lemma_keys_below;
use crate::text::{InputError, LINE_FEED};
use vstd::arithmetic::div_mod::{lemma_fundamental_div_mod, lemma_fundamental_div_mod_converse};
use vstd::prelude::*;
use vstd::string::StringSliceAdditionalSpecFns;

verus! {

/// The garden: its plots and rocks, and the place of the start, as line and
/// column.
pub struct Garden {
    grid: ByteGrid,
    start_pos: (usize, usize),
}

/// A place in the garden, or in one of its repetitions: its line and column,
/// and the line and column of the garden that stand there.
#[derive(Clone, Copy)]
pub struct Spot {
    pub y: i32,
    pub x: i32,
    pub wy: usize,
    pub wx: usize,
}

/// The byte that stands for a rock.
pub const ROCK: u8 = 35;

/// The byte that stands for the start.
pub const START: u8 = 83;

/// The greatest height and width of a garden.
pub const MAX_SIDE: usize = 1_048_576;

/// The greatest number of steps that can be followed.
pub const MAX_STEPS: u64 = 1_073_741_824;

/// The length of the period after which the reach of the real gardens grows
/// evenly.
pub const PERIOD: u64 = 131;

/// Half of the number of values that a coordinate may take.
pub open spec fn half_span() -> int {
    2_147_483_648
}

/// The rows are as many and as long as a garden may have.
pub open spec fn is_garden(g: Seq<Seq<u8>>) -> bool {
    &&& 1 <= g.len() <= MAX_SIDE
    &&& 1 <= g[0].len() <= MAX_SIDE
    &&& forall|y: int| 0 <= y < g.len() ==> (#[trigger] g[y]).len() == g[0].len()
}

/// Whether one can stand on a place: it holds no rock. With wrapping the
/// garden repeats without end in every direction; without, there is nothing
/// outside it.
pub open spec fn free(g: Seq<Seq<u8>>, wrap: bool, p: (int, int)) -> bool {
    let h = g.len() as int;
    let w = g[0].len() as int;
    if wrap {
        g[p.0 % h][p.1 % w] != ROCK
    } else {
        0 <= p.0 < h && 0 <= p.1 < w && g[p.0][p.1] != ROCK
    }
}

/// The place next to `p` in direction `d`: east, north, west, south.
pub open spec fn beside(p: (int, int), d: int) -> (int, int) {
    if d == 0 {
        (p.0, p.1 + 1)
    } else if d == 1 {
        (p.0 - 1, p.1)
    } else if d == 2 {
        (p.0, p.1 - 1)
    } else {
        (p.0 + 1, p.1)
    }
}

/// Whether `q` is one step from `p`.
pub open spec fn next_to(p: (int, int), q: (int, int)) -> bool {
    exists|d: int| 0 <= d < 4 && q == #[trigger] beside(p, d)
}

/// The places that are reached for the first time by step `n`.
pub open spec fn layer(g: Seq<Seq<u8>>, s: (int, int), wrap: bool, n: int) -> Set<(int, int)>
    decreases n, 0int,
{
    if n <= 0 {
        set![s]
    } else {
        Set::new(
            |q: (int, int)|
                !seen(g, s, wrap, n - 1).contains(q) && free(g, wrap, q) && exists|p: (int, int)|
                    #[trigger] layer(g, s, wrap, n - 1).contains(p) && next_to(p, q),
        )
    }
}

/// The places that are reached by step `n` or earlier.
pub open spec fn seen(g: Seq<Seq<u8>>, s: (int, int), wrap: bool, n: int) -> Set<(int, int)>
    decreases n, 1int,
{
    if n <= 0 {
        set![s]
    } else {
        seen(g, s, wrap, n - 1).union(layer(g, s, wrap, n))
    }
}

/// How many places are reached for the first time by one of the steps up to
/// `m` that is even, or odd, as `parity` is.
pub open spec fn tally(g: Seq<Seq<u8>>, s: (int, int), wrap: bool, parity: int, m: int) -> int
    decreases m + 1,
{
    if m < 0 {
        0
    } else {
        tally(g, s, wrap, parity, m - 1) + if m % 2 == parity % 2 {
            layer(g, s, wrap, m).len() as int
        } else {
            0int
        }
    }
}

/// The number that stands for a place in the table of the places seen.
pub open spec fn key(p: (int, int)) -> int {
    (p.0 + half_span()) * (2 * half_span()) + (p.1 + half_span())
}

/// Whether a place is no further from the start than `n` steps in either
/// direction.
pub open spec fn within(s: (int, int), p: (int, int), n: int) -> bool {
    s.0 - n <= p.0 <= s.0 + n && s.1 - n <= p.1 <= s.1 + n
}

/// The place of a spot.
pub open spec fn place(spot: Spot) -> (int, int) {
    (spot.y as int, spot.x as int)
}

/// The places of the spots.
pub open spec fn places(spots: Seq<Spot>) -> Seq<(int, int)> {
    spots.map_values(|s: Spot| place(s))
}

/// A spot knows which line and column of the garden stand at its place.
pub open spec fn spot_ok(g: Seq<Seq<u8>>, spot: Spot) -> bool {
    spot.wy == spot.y as int % (g.len() as int) && spot.wx == spot.x as int % (g[0].len() as int)
}

/// The value that the quadratic through three values at periods 0, 1 and 2
/// takes at period `p`.
pub open spec fn extended(a0: int, a1: int, a2: int, p: int) -> int
    decreases p,
{
    if p <= 2 {
        a2
    } else {
        extended(a0, a1, a2, p - 1) + growth(a0, a1, a2, p)
    }
}

/// By how much the quadratic grows from period `p - 1` to period `p`.
pub open spec fn growth(a0: int, a1: int, a2: int, p: int) -> int {
    (a2 - a1) + (p - 2) * ((a2 - a1) - (a1 - a0))
}

/// The place of the last start mark among the first `k` cells; zero where
/// there is none.
pub open spec fn last_start(cells: Seq<u8>, k: int) -> int
    decreases k,
{
    if k <= 0 {
        0
    } else if cells[k - 1] == START {
        k - 1
    } else {
        last_start(cells, k - 1)
    }
}

/// No two places near enough to the origin have the same key, and the keys
/// fit in 64 bits.
pub proof fn lemma_key(p: (int, int), q: (int, int))
    requires
        -half_span() < p.0 < half_span() - 1,
        -half_span() < p.1 < half_span() - 1,
        -half_span() < q.0 < half_span() - 1,
        -half_span() < q.1 < half_span() - 1,
    ensures
        0 <= key(p) < 0xffff_ffff_0000_0000,
        key(p) == key(q) ==> p == q,
{
    let m = 2 * half_span();
    assert(m == 0x1_0000_0000);
    let a = p.0 + half_span();
    let b = p.1 + half_span();
    let c = q.0 + half_span();
    let e = q.1 + half_span();
    assert(0 <= a * m && a * m <= 0xffff_fffe * m) by (nonlinear_arith)
        requires
            0 <= a <= 0xffff_fffe,
            m == 0x1_0000_0000,
    ;
    if key(p) == key(q) {
        lemma_fundamental_div_mod_converse(key(p), m, a, b);
        lemma_fundamental_div_mod_converse(key(q), m, c, e);
    }
}

/// The line of the garden that stands one step further.
pub proof fn lemma_step_mod(v: int, m: int)
    requires
        m > 0,
    ensures
        (v + 1) % m == (if v % m + 1 == m {
            0
        } else {
            v % m + 1
        }),
        (v - 1) % m == (if v % m == 0 {
            m - 1
        } else {
            v % m - 1
        }),
        0 <= v % m < m,
{
    lemma_fundamental_div_mod(v, m);
    let q = v / m;
    let r = v % m;
    assert(0 <= r < m) by {
        vstd::arithmetic::div_mod::lemma_mod_bound(v, m);
    }
    assert(m * q == q * m) by (nonlinear_arith);
    if r + 1 == m {
        assert(v + 1 == (q + 1) * m + 0) by (nonlinear_arith)
            requires
                v == q * m + r,
                r + 1 == m,
        ;
        lemma_fundamental_div_mod_converse(v + 1, m, q + 1, 0);
    } else {
        lemma_fundamental_div_mod_converse(v + 1, m, q, r + 1);
    }
    if r == 0 {
        assert(v - 1 == (q - 1) * m + (m - 1)) by (nonlinear_arith)
            requires
                v == q * m + r,
                r == 0,
        ;
        lemma_fundamental_div_mod_converse(v - 1, m, q - 1, m - 1);
    } else {
        lemma_fundamental_div_mod_converse(v - 1, m, q, r - 1);
    }
}

impl Garden {
    /// The rows of the garden.
    pub closed spec fn view(&self) -> Seq<Seq<u8>> {
        self.grid@
    }

    /// The start, as line and column.
    pub closed spec fn start(&self) -> (int, int) {
        (self.start_pos.0 as int, self.start_pos.1 as int)
    }

    /// The garden is a garden, and the start is not too far out.
    pub open spec fn wf(&self) -> bool {
        is_garden(self@) && 0 <= self.start().0 < MAX_SIDE && 0 <= self.start().1 < MAX_SIDE
    }

    /// The spot one step from `spot` in direction `d`, if one can stand
    /// there.
    fn step_to(&self, spot: Spot, d: usize, with_wrapping: bool) -> (r: Option<Spot>)
        requires
            self.wf(),
            spot_ok(self@, spot),
            d < 4,
            -half_span() + 1 < spot.y < half_span() - 2,
            -half_span() + 1 < spot.x < half_span() - 2,
        ensures
            match r {
                Some(q) => place(q) == beside(place(spot), d as int) && spot_ok(self@, q) && free(
                    self@,
                    with_wrapping,
                    place(q),
                ),
                None => !free(self@, with_wrapping, beside(place(spot), d as int)),
            },
    {
        let h = self.grid.height();
        let w = self.grid.width();
        proof {
            lemma_step_mod(spot.y as int, h as int);
            lemma_step_mod(spot.x as int, w as int);
        }
        let q = if d == 0 {
            Spot {
                y: spot.y,
                x: spot.x + 1,
                wy: spot.wy,
                wx: if spot.wx + 1 == w {
                    0
                } else {
                    spot.wx + 1
                },
            }
        } else if d == 1 {
            Spot {
                y: spot.y - 1,
                x: spot.x,
                wy: if spot.wy == 0 {
                    h - 1
                } else {
                    spot.wy - 1
                },
                wx: spot.wx,
            }
        } else if d == 2 {
            Spot {
                y: spot.y,
                x: spot.x - 1,
                wy: spot.wy,
                wx: if spot.wx == 0 {
                    w - 1
                } else {
                    spot.wx - 1
                },
            }
        } else {
            Spot {
                y: spot.y + 1,
                x: spot.x,
                wy: if spot.wy + 1 == h {
                    0
                } else {
                    spot.wy + 1
                },
                wx: spot.wx,
            }
        };
        let open = if with_wrapping {
            self.grid.get(q.wy, q.wx) != ROCK
        } else {
            q.y >= 0 && (q.y as usize) < h && q.x >= 0 && (q.x as usize) < w && self.grid.get(
                q.y as usize,
                q.x as usize,
            ) != ROCK
        };
        if open {
            Some(q)
        } else {
            None
        }
    }

    /// The key of a spot.
    fn key_of(spot: Spot) -> (k: u64)
        requires
            -half_span() < spot.y < half_span() - 1,
            -half_span() < spot.x < half_span() - 1,
        ensures
            k == key(place(spot)),
            k < 0xffff_ffff_0000_0000,
    {
        proof {
            lemma_key(place(spot), place(spot));
        }
        let a = (spot.y as i64 + 2_147_483_648) as u64;
        let b = (spot.x as i64 + 2_147_483_648) as u64;
        assert(a * 4_294_967_296 <= 0xffff_fffe * 4_294_967_296) by (nonlinear_arith)
            requires
                a <= 0xffff_fffe,
        ;
        a * 4_294_967_296 + b
    }

    /// The number of places on which one can be after exactly `n_steps`
    /// steps from the start: those reached for the first time by a step whose
    /// number is even if `n_steps` is even, odd if it is odd.
    #[verifier::loop_isolation(false)]
    #[verifier::rlimit(60)]
    pub fn num_tiles_reacheable_after(&self, n_steps: u64, with_wrapping: bool) -> (r: u64)
        requires
            self.wf(),
            n_steps <= MAX_STEPS,
        ensures
            r == tally(self@, self.start(), with_wrapping, n_steps as int, n_steps as int),
    {
        let ghost g = self@;
        let ghost s = self.start();
        let wrap = with_wrapping;
        let h = self.grid.height();
        let w = self.grid.width();
        let start = Spot {
            y: self.start_pos.0 as i32,
            x: self.start_pos.1 as i32,
            wy: self.start_pos.0 % h,
            wx: self.start_pos.1 % w,
        };
        let mut table = key_set_new();
        let start_key = Self::key_of(start);
        key_set_insert(&mut table, start_key);
        let mut current: Vec<Spot> = Vec::new();
        current.push(start);
        let mut even: u64 = 1;
        let mut odd: u64 = 0;
        let mut n: u64 = 0;
        proof {
            assert(place(start) == s);
            assert(places(current@) =~= seq![s]);
            assert(layer(g, s, wrap, 0) =~= set![s]);
            assert(seen(g, s, wrap, 0) =~= set![s]);
            assert(table@ =~= set![start_key]);
            assert(tally(g, s, wrap, 0, 0) == 1) by {
                assert(tally(g, s, wrap, 0, -1) == 0);
                assert(set![s].len() == 1);
            }
            assert(tally(g, s, wrap, 1, 0) == 0) by {
                assert(tally(g, s, wrap, 1, -1) == 0);
            }
            assert forall|k: u64| #[trigger] table@.contains(k) implies has_place(
                seen(g, s, wrap, 0),
                Seq::<(int, int)>::empty(),
                k,
            ) by {
                assert(known(seen(g, s, wrap, 0), Seq::<(int, int)>::empty(), s) && key(s) == k);
            }
            assert forall|p: (int, int)| #[trigger]
                layer(g, s, wrap, 0).contains(p) <==> places(current@).contains(p) by {
                assert(places(current@)[0] == s);
            }
        }
        while n < n_steps
            invariant
                n <= n_steps,
                table@.finite(),
                even + odd == table@.len(),
                even == tally(g, s, wrap, 0, n as int),
                odd == tally(g, s, wrap, 1, n as int),
                places(current@).no_duplicates(),
                forall|i: int|
                    0 <= i < current@.len() ==> spot_ok(g, #[trigger] current@[i]) && within(
                        s,
                        place(current@[i]),
                        n as int,
                    ),
                forall|p: (int, int)| #[trigger]
                    layer(g, s, wrap, n as int).contains(p) <==> places(current@).contains(p),
                forall|p: (int, int)| #[trigger]
                    seen(g, s, wrap, n as int).contains(p) ==> within(s, p, n as int)
                        && table@.contains(key(p) as u64),
                forall|k: u64|
                    #[trigger] table@.contains(k) ==> k < 0xffff_ffff_0000_0000 && has_place(
                        seen(g, s, wrap, n as int),
                        Seq::<(int, int)>::empty(),
                        k,
                    ),
            decreases n_steps - n,
        {
            let ghost before = seen(g, s, wrap, n as int);
            let ghost front = layer(g, s, wrap, n as int);
            let next_even = (n + 1) % 2 == 0;
            let ghost even_before = even;
            let ghost odd_before = odd;
            let mut next: Vec<Spot> = Vec::new();
            let mut a: usize = 0;
            proof {
                assert(places(next@) =~= Seq::<(int, int)>::empty());
            }
            while a < current.len()
                invariant
                    a <= current.len(),
                    table@.finite(),
                    even + odd == table@.len(),
                    next_even ==> even == even_before + next@.len() && odd == odd_before,
                    !next_even ==> odd == odd_before + next@.len() && even == even_before,
                    places(next@).no_duplicates(),
                    forall|j: int|
                        0 <= j < next@.len() ==> spot_ok(g, #[trigger] next@[j]) && within(
                            s,
                            place(next@[j]),
                            n + 1,
                        ) && layer(g, s, wrap, n + 1).contains(place(next@[j])),
                    forall|i: int, d: int|
                        0 <= i < a && 0 <= d < 4 && free(
                            g,
                            wrap,
                            #[trigger] beside(place(current@[i]), d),
                        ) && !before.contains(beside(place(current@[i]), d)) ==> places(
                            next@,
                        ).contains(beside(place(current@[i]), d)),
                    forall|p: (int, int)| #[trigger]
                        known(before, places(next@), p) ==> within(s, p, n + 1) && table@.contains(
                            key(p) as u64,
                        ),
                    forall|k: u64|
                        #[trigger] table@.contains(k) ==> k < 0xffff_ffff_0000_0000 && has_place(
                            before,
                            places(next@),
                            k,
                        ),
                decreases current.len() - a,
            {
                let spot = current[a];
                proof {
                    assert(spot_ok(g, current@[a as int]));
                    assert(places(current@)[a as int] == place(spot));
                    assert(places(current@).contains(place(spot)));
                    assert(front.contains(place(spot)));
                }
                let mut d: usize = 0;
                while d < 4
                    invariant
                        d <= 4,
                        a < current.len(),
                        spot == current@[a as int],
                        table@.finite(),
                        even + odd == table@.len(),
                        next_even ==> even == even_before + next@.len() && odd == odd_before,
                        !next_even ==> odd == odd_before + next@.len() && even == even_before,
                        places(next@).no_duplicates(),
                        forall|j: int|
                            0 <= j < next@.len() ==> spot_ok(g, #[trigger] next@[j]) && within(
                                s,
                                place(next@[j]),
                                n + 1,
                            ) && layer(g, s, wrap, n + 1).contains(place(next@[j])),
                        forall|i: int, e: int|
                            0 <= i < a && 0 <= e < 4 && free(
                                g,
                                wrap,
                                #[trigger] beside(place(current@[i]), e),
                            ) && !before.contains(beside(place(current@[i]), e)) ==> places(
                                next@,
                            ).contains(beside(place(current@[i]), e)),
                        forall|e: int|
                            0 <= e < d && free(g, wrap, #[trigger] beside(place(spot), e))
                                && !before.contains(beside(place(spot), e)) ==> places(
                                next@,
                            ).contains(beside(place(spot), e)),
                        forall|p: (int, int)| #[trigger]
                            known(before, places(next@), p) ==> within(s, p, n + 1)
                                && table@.contains(key(p) as u64),
                        forall|k: u64|
                            #[trigger] table@.contains(k) ==> k < 0xffff_ffff_0000_0000 && has_place(
                                before,
                                places(next@),
                                k,
                            ),
                    decreases 4 - d,
                {
                    let ghost q_place = beside(place(spot), d as int);
                    let ghost old_next = places(next@);
                    let ghost old_table = table@;
                    match self.step_to(spot, d, wrap) {
                        None => {},
                        Some(q) => {
                            let k = Self::key_of(q);
                            if !key_set_contains(&table, k) {
                                proof {
                                    assert(!known(before, old_next, q_place));
                                    assert(next_to(place(spot), q_place));
                                    assert(layer(g, s, wrap, n + 1).contains(q_place));
                                    assert forall|z: u64| #[trigger]
                                        table@.insert(k).contains(z) implies z
                                        < 0xffff_ffff_0000_0000 by {
                                        if z != k {
                                            assert(table@.contains(z));
                                        }
                                    }
                                    lemma_keys_below(table@.insert(k), 0xffff_ffff_0000_0000);
                                }
                                key_set_insert(&mut table, k);
                                next.push(q);
                                if next_even {
                                    even += 1;
                                } else {
                                    odd += 1;
                                }
                                proof {
                                    assert(places(next@) =~= old_next.push(q_place));
                                    assert forall|p: (int, int)| #[trigger]
                                        known(before, places(next@), p) implies within(s, p, n + 1)
                                        && table@.contains(key(p) as u64) by {
                                        if p != q_place {
                                            if places(next@).contains(p) {
                                                let j = choose|j: int|
                                                    0 <= j < places(next@).len() && places(next@)[j]
                                                        == p;
                                                assert(old_next[j] == p);
                                            }
                                            assert(known(before, old_next, p));
                                        }
                                    }
                                    assert forall|z: u64| #[trigger] table@.contains(z) implies z
                                        < 0xffff_ffff_0000_0000 && has_place(
                                        before,
                                        places(next@),
                                        z,
                                    ) by {
                                        if z == k {
                                            assert(places(next@)[old_next.len() as int] == q_place);
                                            assert(known(before, places(next@), q_place));
                                        } else {
                                            assert(has_place(before, old_next, z));
                                            let p = choose|p: (int, int)|
                                                known(before, old_next, p) && key(p) == z;
                                            if old_next.contains(p) {
                                                let j = choose|j: int|
                                                    0 <= j < old_next.len() && old_next[j] == p;
                                                assert(places(next@)[j] == p);
                                            }
                                            assert(known(before, places(next@), p));
                                        }
                                    }
                                    assert forall|i: int, e: int|
                                        0 <= i < a && 0 <= e < 4 && free(
                                            g,
                                            wrap,
                                            #[trigger] beside(place(current@[i]), e),
                                        ) && !before.contains(
                                            beside(place(current@[i]), e),
                                        ) implies places(next@).contains(
                                        beside(place(current@[i]), e),
                                    ) by {
                                        let t = beside(place(current@[i]), e);
                                        assert(old_next.contains(t));
                                        let j = choose|j: int| 0 <= j < old_next.len() && old_next[j] == t;
                                        assert(places(next@)[j] == t);
                                    }
                                    assert forall|e: int|
                                        0 <= e < d + 1 && free(
                                            g,
                                            wrap,
                                            #[trigger] beside(place(spot), e),
                                        ) && !before.contains(
                                            beside(place(spot), e),
                                        ) implies places(next@).contains(beside(place(spot), e)) by {
                                        let t = beside(place(spot), e);
                                        if e < d {
                                            assert(old_next.contains(t));
                                            let j = choose|j: int|
                                                0 <= j < old_next.len() && old_next[j] == t;
                                            assert(places(next@)[j] == t);
                                        } else {
                                            assert(places(next@)[old_next.len() as int] == t);
                                        }
                                    }
                                }
                            } else {
                                proof {
                                    assert(has_place(before, old_next, k));
                                    let p = choose|p: (int, int)|
                                        known(before, old_next, p) && key(p) == k;
                                    lemma_key(p, q_place);
                                    assert(p == q_place);
                                }
                            }
                        },
                    }
                    d += 1;
                }
                a += 1;
            }
            proof {
                let after = places(next@);
                assert forall|p: (int, int)| #[trigger]
                    layer(g, s, wrap, n + 1).contains(p) <==> after.contains(p) by {
                    if after.contains(p) {
                        let j = choose|j: int| 0 <= j < after.len() && after[j] == p;
                        assert(place(next@[j]) == p);
                    }
                    if layer(g, s, wrap, n + 1).contains(p) {
                        let o = choose|o: (int, int)| #[trigger]
                            layer(g, s, wrap, n as int).contains(o) && next_to(o, p);
                        assert(places(current@).contains(o));
                        let i = choose|i: int| 0 <= i < current@.len() && places(current@)[i] == o;
                        let e = choose|e: int| 0 <= e < 4 && p == #[trigger] beside(o, e);
                        assert(beside(place(current@[i]), e) == p);
                    }
                }
                assert(layer(g, s, wrap, n + 1) =~= after.to_set());
                after.unique_seq_to_set();
                assert(layer(g, s, wrap, n + 1).len() == next@.len());
                assert forall|p: (int, int)| #[trigger]
                    seen(g, s, wrap, n + 1).contains(p) implies within(s, p, n + 1)
                    && table@.contains(key(p) as u64) by {
                    assert(known(before, after, p));
                }
                assert forall|k: u64| #[trigger] table@.contains(k) implies k < 0xffff_ffff_0000_0000
                    && has_place(seen(g, s, wrap, n + 1), Seq::<(int, int)>::empty(), k) by {
                    assert(has_place(before, after, k));
                    let p = choose|p: (int, int)| known(before, after, p) && key(p) == k;
                    assert(seen(g, s, wrap, n + 1).contains(p));
                    assert(known(seen(g, s, wrap, n + 1), Seq::<(int, int)>::empty(), p));
                }
            }
            current = next;
            n += 1;
        }
        proof {
            lemma_tally_parity(g, s, wrap, n_steps as int, n_steps as int % 2, n_steps as int);
        }
        if n_steps % 2 == 0 {
            even
        } else {
            odd
        }
    }
}

/// Where the values grow, and grow faster from period to period, the
/// quadratic does not fall.
pub proof fn lemma_extended_grows(a0: int, a1: int, a2: int, p: int, q: int)
    requires
        0 <= a0 <= a1,
        a1 - a0 <= a2 - a1,
        2 <= p <= q,
    ensures
        0 <= extended(a0, a1, a2, p) <= extended(a0, a1, a2, q),
        0 <= growth(a0, a1, a2, q),
    decreases q,
{
    assert(0 <= growth(a0, a1, a2, q)) by (nonlinear_arith)
        requires
            a1 - a0 <= a2 - a1,
            0 <= a1 - a0,
            2 <= q,
            growth(a0, a1, a2, q) == (a2 - a1) + (q - 2) * ((a2 - a1) - (a1 - a0)),
    ;
    if q > 2 {
        if p < q {
            lemma_extended_grows(a0, a1, a2, p, q - 1);
        } else {
            lemma_extended_grows(a0, a1, a2, p - 1, q - 1);
        }
    }
}

/// The start mark, if there is one, is among the cells.
pub proof fn lemma_last_start(cells: Seq<u8>, k: int)
    requires
        0 <= k,
    ensures
        0 <= last_start(cells, k),
        k > 0 ==> last_start(cells, k) < k,
    decreases k,
{
    if k > 0 {
        lemma_last_start(cells, k - 1);
    }
}

/// The count depends only on whether `parity` is even or odd.
pub proof fn lemma_tally_parity(g: Seq<Seq<u8>>, s: (int, int), wrap: bool, a: int, b: int, m: int)
    requires
        a % 2 == b % 2,
    ensures
        tally(g, s, wrap, a, m) == tally(g, s, wrap, b, m),
    decreases m + 1,
{
    if m >= 0 {
        lemma_tally_parity(g, s, wrap, a, b, m - 1);
    }
}

/// Whether a place was seen before or is among the places found since.
pub open spec fn known(before: Set<(int, int)>, found: Seq<(int, int)>, p: (int, int)) -> bool {
    before.contains(p) || found.contains(p)
}

/// Whether a key is that of a place that is known.
pub open spec fn has_place(before: Set<(int, int)>, found: Seq<(int, int)>, k: u64) -> bool {
    exists|p: (int, int)| known(before, found, p) && key(p) == k
}

impl Garden {
    /// What `num_tiles_reacheable_after` gives with wrapping.
    pub open spec fn reach(&self, n: int) -> int {
        tally(self@, self.start(), true, n, n)
    }

    /// The number of places on which one can be after exactly `n_steps`
    /// steps, with wrapping, for a garden whose reach grows as a quadratic from
    /// one period of 131 steps to the next: with fewer than three whole periods
    /// it is counted; else it is the value at the last period of the quadratic
    /// through the counts at the first three. `None` where the three counts do
    /// not grow, or not faster from period to period, or the value does not fit
    /// in 64 bits.
    #[verifier::loop_isolation(false)]
    pub fn num_tiles_reacheable_extrapolated(&self, n_steps: u64) -> (r: Option<u64>)
        requires
            self.wf(),
        ensures
            n_steps / PERIOD < 3 ==> r == Some(self.reach(n_steps as int) as u64) && self.reach(
                n_steps as int,
            ) <= u64::MAX,
            n_steps / PERIOD >= 3 ==> {
                let offset = (n_steps % PERIOD) as int;
                let a0 = self.reach(offset);
                let a1 = self.reach(offset + PERIOD);
                let a2 = self.reach(offset + 2 * PERIOD);
                let value = extended(a0, a1, a2, (n_steps / PERIOD) as int);
                if a0 <= a1 && a1 - a0 <= a2 - a1 && value <= u64::MAX {
                    r == Some(value as u64)
                } else {
                    r is None
                }
            },
    {
        let offset = n_steps % PERIOD;
        let n_periods = (n_steps - offset) / PERIOD;
        if n_periods < 3 {
            return Some(self.num_tiles_reacheable_after(n_steps, true));
        }
        let first = self.num_tiles_reacheable_after(offset, true);
        let second = self.num_tiles_reacheable_after(offset + PERIOD, true);
        let third = self.num_tiles_reacheable_after(offset + 2 * PERIOD, true);
        if first > second || second > third || second - first > third - second {
            return None;
        }
        let diffdiff = (third - second) - (second - first);
        let ghost a0 = first as int;
        let ghost a1 = second as int;
        let ghost a2 = third as int;
        let mut step: u64 = third - second;
        let mut total: u64 = third;
        let mut p: u64 = 2;
        proof {
            assert(growth(a0, a1, a2, 2) == a2 - a1) by (nonlinear_arith)
                requires
                    growth(a0, a1, a2, 2) == (a2 - a1) + (2 - 2) * ((a2 - a1) - (a1 - a0)),
            ;
        }
        while p < n_periods
            invariant
                2 <= p <= n_periods,
                0 <= a0 <= a1,
                a1 - a0 <= a2 - a1,
                a0 == first,
                a1 == second,
                a2 == third,
                diffdiff == (a2 - a1) - (a1 - a0),
                total == extended(a0, a1, a2, p as int),
                step == growth(a0, a1, a2, p as int),
            decreases n_periods - p,
        {
            proof {
                lemma_extended_grows(a0, a1, a2, p as int + 1, n_periods as int);
                assert(growth(a0, a1, a2, p + 1) == growth(a0, a1, a2, p as int) + diffdiff)
                    by (nonlinear_arith)
                    requires
                        growth(a0, a1, a2, p + 1) == (a2 - a1) + (p + 1 - 2) * ((a2 - a1) - (a1 - a0)),
                        growth(a0, a1, a2, p as int) == (a2 - a1) + (p - 2) * ((a2 - a1) - (a1 - a0)),
                        diffdiff == (a2 - a1) - (a1 - a0),
                ;
                lemma_extended_grows(a0, a1, a2, p as int, p as int);
            }
            let grown = match step.checked_add(diffdiff) {
                Some(v) => v,
                None => {
                    return None;
                },
            };
            total = match total.checked_add(grown) {
                Some(v) => v,
                None => {
                    return None;
                },
            };
            step = grown;
            p += 1;
        }
        Some(total)
    }

    /// Reads a garden: the cells of the text, without its line feeds, in rows
    /// as wide as the first line. The start is found from the place of the last
    /// `S` among the cells, divided by the height: the quotient is its line, the
    /// remainder its column.
    pub fn from_bytes(text: &[u8]) -> (r: Result<Garden, InputError>)
        requires
            text@.len() <= isize::MAX,
        ensures
            r is Ok <==> is_picture(text@, false) && is_garden(picture(text@, false)),
            r is Ok ==> {
                let garden = r->Ok_0;
                let found = last_start(cells_of(text@), cells_of(text@).len() as int);
                &&& garden.wf()
                &&& garden@ == picture(text@, false)
                &&& garden.start() == (found / (garden@.len() as int), found % (garden@.len() as int))
            },
    {
        proof {
            assert(text@.subrange(0, text@.len() as int) =~= text@);
        }
        let grid = match read_picture(text, 0, text.len(), false) {
            Ok(grid) => grid,
            Err(e) => {
                return Err(e);
            },
        };
        let height = grid.height();
        let width = grid.width();
        if height > MAX_SIDE || width > MAX_SIDE {
            return Err(InputError::Value);
        }
        let mut start_idx: usize = 0;
        let mut count: usize = 0;
        let mut i: usize = 0;
        proof {
            assert(text@.take(0) =~= Seq::<u8>::empty());
        }
        while i < text.len()
            invariant
                i <= text.len(),
                count <= i,
                count == cells_of(text@.take(i as int)).len(),
                start_idx == last_start(cells_of(text@.take(i as int)), count as int),
                start_idx <= count,
            decreases text.len() - i,
        {
            proof {
                assert(text@.take(i + 1).drop_last() =~= text@.take(i as int));
                assert(text@.take(i + 1).last() == text@[i as int]);
                let before = cells_of(text@.take(i as int));
                if text@[i as int] != LINE_FEED {
                    lemma_same_start(before, text@[i as int], count as int);
                }
            }
            if text[i] != LINE_FEED {
                if text[i] == START {
                    start_idx = count;
                }
                count += 1;
            }
            i += 1;
        }
        proof {
            assert(text@.take(text@.len() as int) =~= text@);
            lemma_last_start(cells_of(text@), count as int);
            assert(is_picture(text@, false));
            assert(height == row_count(text@, false));
            assert(grid@[0].len() == first_line_len(text@));
            assert(width == first_line_len(text@));
            assert(count == height * width);
            assert(start_idx / height < width) by (nonlinear_arith)
                requires
                    start_idx < height * width,
                    height > 0,
            ;
        }
        Ok(Garden { grid, start_pos: (start_idx / height, start_idx % height) })
    }

    /// Reads a garden.
    pub fn parse(s: &str) -> (r: Result<Garden, InputError>)
        requires
            s.spec_bytes().len() <= isize::MAX,
        ensures
            r is Ok <==> is_picture(s.spec_bytes(), false) && is_garden(
                picture(s.spec_bytes(), false),
            ),
            r is Ok ==> r->Ok_0.wf(),
    {
        Garden::from_bytes(s.as_bytes())
    }
}

/// The last start mark among cells is where it was before another cell came
/// behind them.
pub proof fn lemma_same_start(cells: Seq<u8>, b: u8, k: int)
    requires
        0 <= k <= cells.len(),
    ensures
        last_start(cells.push(b), k) == last_start(cells, k),
    decreases k,
{
    if k > 0 {
        lemma_same_start(cells, b, k - 1);
    }
}

} // verus!
