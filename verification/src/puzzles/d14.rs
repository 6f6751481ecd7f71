//! A platform with rocks: round rocks roll when the platform is tilted, cube
//! rocks stay where they are.
use super::blocks::{is_picture, picture, read_picture};
use crate::grids::ByteGrid;
use crate::text::InputError;
use vstd::prelude::*;
use vstd::string::StringSliceAdditionalSpecFns;

verus! {

/// The platform, tile by tile: `O` for a round rock, `#` for a cube rock and
/// `.` for empty ground.
pub struct Platform {
    grid: ByteGrid,
}

/// A round rock.
pub const ROUND: u8 = 79;

/// A cube rock.
pub const CUBE: u8 = 35;

/// Empty ground.
pub const EMPTY: u8 = 46;

/// The most rows and the most columns of a platform.
pub const MAX_SIDE: usize = 60_000;

/// The side towards which the platform is tilted.
#[derive(Clone, Copy, Debug, PartialEq, Eq, Structural)]
pub enum Tilt {
    North,
    West,
    South,
    East,
}

/// Every tile is a rock or empty ground, the rows are equally long, and there
/// is at least one tile.
pub open spec fn is_platform(g: Seq<Seq<u8>>) -> bool {
    &&& 1 <= g.len() <= MAX_SIDE
    &&& 1 <= g[0].len() <= MAX_SIDE
    &&& forall|y: int| 0 <= y < g.len() ==> (#[trigger] g[y]).len() == g[0].len()
    &&& forall|y: int, x: int|
        0 <= y < g.len() && 0 <= x < g[0].len() ==> is_ground(#[trigger] g[y][x])
}

/// Whether the byte is a rock or empty ground.
pub open spec fn is_ground(b: u8) -> bool {
    b == ROUND || b == CUBE || b == EMPTY
}

/// The number of lines along which rocks roll when the platform is tilted.
pub open spec fn line_count(g: Seq<Seq<u8>>, t: Tilt) -> int {
    match t {
        Tilt::North | Tilt::South => g[0].len() as int,
        Tilt::West | Tilt::East => g.len() as int,
    }
}

/// The number of tiles of such a line.
pub open spec fn line_len(g: Seq<Seq<u8>>, t: Tilt) -> int {
    match t {
        Tilt::North | Tilt::South => g.len() as int,
        Tilt::West | Tilt::East => g[0].len() as int,
    }
}

/// The row and the column of tile `i` of line `k`, counted from the side
/// towards which the platform is tilted.
pub open spec fn tile_at(g: Seq<Seq<u8>>, t: Tilt, k: int, i: int) -> (int, int) {
    match t {
        Tilt::North => (i, k),
        Tilt::West => (k, i),
        Tilt::South => (g.len() - 1 - i, k),
        Tilt::East => (k, g[0].len() - 1 - i),
    }
}

/// Line `k` of the platform, from the side towards which it is tilted.
pub open spec fn line(g: Seq<Seq<u8>>, t: Tilt, k: int) -> Seq<u8> {
    Seq::new(line_len(g, t) as nat, |i: int| g[tile_at(g, t, k, i).0][tile_at(g, t, k, i).1])
}

/// A line after its round rocks from tile `i` on have rolled towards its
/// start, where the first of them may roll as far as tile `to`: a cube rock
/// stops what comes after it, and a round rock comes to rest at the first free
/// tile.
pub open spec fn settle(l: Seq<u8>, i: int, to: int) -> Seq<u8>
    decreases l.len() - i,
{
    if i < 0 || i >= l.len() {
        l
    } else if l[i] == CUBE {
        settle(l, i + 1, i + 1)
    } else if l[i] == ROUND {
        if 0 <= to <= i {
            settle(l.update(i, EMPTY).update(to, ROUND), i + 1, to + 1)
        } else {
            l
        }
    } else {
        settle(l, i + 1, to)
    }
}

/// The platform after it was tilted has, along every line, the rocks that have
/// rolled.
pub open spec fn is_tilted(before: Seq<Seq<u8>>, after: Seq<Seq<u8>>, t: Tilt) -> bool {
    &&& after.len() == before.len()
    &&& forall|y: int| 0 <= y < after.len() ==> (#[trigger] after[y]).len() == before[0].len()
    &&& forall|k: int|
        0 <= k < line_count(before, t) ==> #[trigger] line(after, t, k) == settle(
            line(before, t, k),
            0,
            0,
        )
}

/// The platform after a tilt.
pub open spec fn tilted(before: Seq<Seq<u8>>, t: Tilt) -> Seq<Seq<u8>> {
    Seq::new(
        before.len(),
        |y: int|
            Seq::new(
                before[0].len(),
                |x: int|
                    match t {
                        Tilt::North => settle(line(before, t, x), 0, 0)[y],
                        Tilt::West => settle(line(before, t, y), 0, 0)[x],
                        Tilt::South => settle(line(before, t, x), 0, 0)[before.len() - 1 - y],
                        Tilt::East => settle(line(before, t, y), 0, 0)[before[0].len() - 1 - x],
                    },
            ),
    )
}

/// The platform after a round of tilts: to the North, the West, the South and
/// the East.
pub open spec fn cycled(g: Seq<Seq<u8>>) -> Seq<Seq<u8>> {
    tilted(tilted(tilted(tilted(g, Tilt::North), Tilt::West), Tilt::South), Tilt::East)
}

/// The platform after `n` rounds of tilts.
pub open spec fn spun(g: Seq<Seq<u8>>, n: nat) -> Seq<Seq<u8>>
    decreases n,
{
    if n == 0 {
        g
    } else {
        cycled(spun(g, (n - 1) as nat))
    }
}

/// The load of the round rocks among the first `k` tiles of row `y`: each
/// weighs as many as there are rows from its own to the south edge.
pub open spec fn row_load(g: Seq<Seq<u8>>, y: int, k: int) -> int
    decreases k,
{
    if k <= 0 {
        0
    } else {
        row_load(g, y, k - 1) + if g[y][k - 1] == ROUND {
            g.len() - y
        } else {
            0
        }
    }
}

/// The load of the round rocks of the first `k` rows.
pub open spec fn load(g: Seq<Seq<u8>>, k: int) -> int
    decreases k,
{
    if k <= 0 {
        0
    } else {
        load(g, k - 1) + row_load(g, k - 1, g[0].len() as int)
    }
}

/// Rocks that roll stay rocks, and the line keeps its length.
pub proof fn lemma_settle(l: Seq<u8>, i: int, to: int)
    requires
        0 <= to <= i,
        forall|j: int| 0 <= j < l.len() ==> is_ground(#[trigger] l[j]),
    ensures
        settle(l, i, to).len() == l.len(),
        forall|j: int| 0 <= j < l.len() ==> is_ground(#[trigger] settle(l, i, to)[j]),
    decreases l.len() - i,
{
    if 0 <= i < l.len() {
        if l[i] == CUBE {
            lemma_settle(l, i + 1, i + 1);
        } else if l[i] == ROUND {
            lemma_settle(l.update(i, EMPTY).update(to, ROUND), i + 1, to + 1);
        } else {
            lemma_settle(l, i + 1, to);
        }
    }
}

/// A platform that was tilted is a platform, and it is what `tilted` says.
pub proof fn lemma_tilted(before: Seq<Seq<u8>>, after: Seq<Seq<u8>>, t: Tilt)
    requires
        is_platform(before),
        is_tilted(before, after, t),
    ensures
        after == tilted(before, t),
        is_platform(after),
{
    assert forall|y: int, x: int| 0 <= y < after.len() && 0 <= x < after[0].len() implies (
    #[trigger] after[y][x]) == tilted(before, t)[y][x] && is_ground(after[y][x]) by {
        let (k, i) = match t {
            Tilt::North => (x, y),
            Tilt::West => (y, x),
            Tilt::South => (x, before.len() - 1 - y),
            Tilt::East => (y, before[0].len() - 1 - x),
        };
        assert(line(after, t, k) == settle(line(before, t, k), 0, 0));
        lemma_settle(line(before, t, k), 0, 0);
        assert(line(after, t, k)[i] == after[y][x]);
    }
    assert(after =~= tilted(before, t)) by {
        assert forall|y: int| 0 <= y < after.len() implies #[trigger] after[y] =~= tilted(
            before,
            t,
        )[y] by {}
    }
}

/// Where the platform after `a` rounds is the one after `b` rounds, with `a`
/// before `b`, the platform after any later round is one of those between.
pub proof fn lemma_spun_again(g: Seq<Seq<u8>>, a: nat, b: nat, n: nat)
    requires
        a < b <= n,
        spun(g, a) == spun(g, b),
    ensures
        spun(g, n) == spun(g, (a + (n - a) % (b - a)) as nat),
    decreases n,
{
    let p = (b - a) as int;
    if n - a < p {
        assert(n == b);
        assert((n - a) % p == 0) by (nonlinear_arith)
            requires
                n - a == p,
                p > 0,
        ;
    } else if n == b {
        assert((n - a) % p == 0) by (nonlinear_arith)
            requires
                n - a == p,
                p > 0,
        ;
    } else {
        lemma_spun_again(g, a, b, (n - 1) as nat);
        let r = (n - 1 - a) % p;
        vstd::arithmetic::div_mod::lemma_fundamental_div_mod(n - 1 - a, p);
        let q = (n - 1 - a) / p;
        assert(p * q == q * p) by (nonlinear_arith);
        if r + 1 < p {
            vstd::arithmetic::div_mod::lemma_fundamental_div_mod_converse(n - a, p, q, r + 1);
            assert(spun(g, n) == cycled(spun(g, (n - 1) as nat)));
            assert(spun(g, (a + r + 1) as nat) == cycled(spun(g, (a + r) as nat)));
        } else {
            assert((q + 1) * p + 0 == q * p + p) by (nonlinear_arith);
            vstd::arithmetic::div_mod::lemma_fundamental_div_mod_converse(n - a, p, q + 1, 0);
            assert(a + r + 1 == b);
            assert(spun(g, n) == cycled(spun(g, (n - 1) as nat)));
            assert(spun(g, b) == cycled(spun(g, (b - 1) as nat)));
        }
    }
}

/// A platform that is spun stays a platform.
pub proof fn lemma_spun_platform(g: Seq<Seq<u8>>, n: nat)
    requires
        is_platform(g),
    ensures
        is_platform(spun(g, n)),
    decreases n,
{
    if n > 0 {
        lemma_spun_platform(g, (n - 1) as nat);
        let g0 = spun(g, (n - 1) as nat);
        lemma_tilt_platform(g0, Tilt::North);
        let g1 = tilted(g0, Tilt::North);
        lemma_tilt_platform(g1, Tilt::West);
        let g2 = tilted(g1, Tilt::West);
        lemma_tilt_platform(g2, Tilt::South);
        let g3 = tilted(g2, Tilt::South);
        lemma_tilt_platform(g3, Tilt::East);
    }
}

/// A platform that is tilted stays a platform.
pub proof fn lemma_tilt_platform(g: Seq<Seq<u8>>, t: Tilt)
    requires
        is_platform(g),
    ensures
        is_platform(tilted(g, t)),
        is_tilted(g, tilted(g, t), t),
{
    let after = tilted(g, t);
    assert forall|k: int| 0 <= k < line_count(g, t) implies #[trigger] line(after, t, k) == settle(
        line(g, t, k),
        0,
        0,
    ) by {
        lemma_settle(line(g, t, k), 0, 0);
        assert(line(after, t, k) =~= settle(line(g, t, k), 0, 0));
    }
    lemma_tilted(g, after, t);
}

/// The loads grow.
pub proof fn lemma_load(g: Seq<Seq<u8>>, k: int)
    requires
        0 <= k <= g.len(),
        forall|y: int| 0 <= y < g.len() ==> (#[trigger] g[y]).len() == g[0].len(),
    ensures
        0 <= load(g, k) <= k * (g[0].len() * g.len()),
    decreases k,
{
    if k > 0 {
        lemma_load(g, k - 1);
        lemma_row_load(g, k - 1, g[0].len() as int);
        assert(k * (g[0].len() * g.len()) == (k - 1) * (g[0].len() * g.len()) + g[0].len() * g.len())
            by (nonlinear_arith);
    } else {
        assert(0 * (g[0].len() * g.len()) == 0);
    }
}

/// The loads of a row grow.
pub proof fn lemma_row_load(g: Seq<Seq<u8>>, y: int, k: int)
    requires
        0 <= y < g.len(),
        0 <= k,
    ensures
        0 <= row_load(g, y, k) <= k * g.len(),
    decreases k,
{
    if k > 0 {
        lemma_row_load(g, y, k - 1);
        assert(k * g.len() == (k - 1) * g.len() + g.len()) by (nonlinear_arith);
    } else {
        assert(0 * g.len() == 0);
    }
}

impl Platform {
    /// The tiles, row by row.
    pub closed spec fn view(&self) -> Seq<Seq<u8>> {
        self.grid@
    }

    /// Tilts the platform to the North.
    pub fn slide_north(&mut self)
        requires
            is_platform(old(self).view()),
        ensures
            final(self).view() == tilted(old(self).view(), Tilt::North),
            is_platform(final(self).view()),
    {
        self.slide(Tilt::North);
    }

    /// Tilts the platform to the East.
    pub fn slide_east(&mut self)
        requires
            is_platform(old(self).view()),
        ensures
            final(self).view() == tilted(old(self).view(), Tilt::East),
            is_platform(final(self).view()),
    {
        self.slide(Tilt::East);
    }

    /// Tilts the platform to the South.
    pub fn slide_south(&mut self)
        requires
            is_platform(old(self).view()),
        ensures
            final(self).view() == tilted(old(self).view(), Tilt::South),
            is_platform(final(self).view()),
    {
        self.slide(Tilt::South);
    }

    /// Tilts the platform to the West.
    pub fn slide_west(&mut self)
        requires
            is_platform(old(self).view()),
        ensures
            final(self).view() == tilted(old(self).view(), Tilt::West),
            is_platform(final(self).view()),
    {
        self.slide(Tilt::West);
    }

    /// The row and the column of tile `i` of line `k`.
    fn place(height: usize, width: usize, t: Tilt, k: usize, i: usize) -> (r: (usize, usize))
        requires
            match t {
                Tilt::North | Tilt::South => k < width && i < height,
                Tilt::West | Tilt::East => k < height && i < width,
            },
        ensures
            r.0 < height,
            r.1 < width,
            match t {
                Tilt::North => r == (i, k),
                Tilt::West => r == (k, i),
                Tilt::South => r == ((height - 1 - i) as usize, k),
                Tilt::East => r == (k, (width - 1 - i) as usize),
            },
    {
        match t {
            Tilt::North => (i, k),
            Tilt::West => (k, i),
            Tilt::South => (height - 1 - i, k),
            Tilt::East => (k, width - 1 - i),
        }
    }

    /// Tilts the platform: along every line the round rocks roll.
    pub fn slide(&mut self, t: Tilt)
        requires
            is_platform(old(self).view()),
        ensures
            final(self).view() == tilted(old(self).view(), t),
            is_platform(final(self).view()),
    {
        let ghost before = self.view();
        let height = self.grid.height();
        let width = self.grid.width();
        let (n_lines, n_tiles) = match t {
            Tilt::North | Tilt::South => (width, height),
            Tilt::West | Tilt::East => (height, width),
        };
        let mut k: usize = 0;
        while k < n_lines
            invariant
                k <= n_lines,
                is_platform(before),
                height == before.len(),
                width == before[0].len(),
                n_lines == line_count(before, t),
                n_tiles == line_len(before, t),
                self.view().len() == height,
                forall|y: int| 0 <= y < height ==> (#[trigger] self.view()[y]).len() == width,
                forall|j: int|
                    0 <= j < k ==> #[trigger] line(self.view(), t, j) == settle(
                        line(before, t, j),
                        0,
                        0,
                    ),
                forall|j: int|
                    k <= j < n_lines ==> #[trigger] line(self.view(), t, j) == line(before, t, j),
            decreases n_lines - k,
        {
            let ghost start = self.view();
            let mut to_idx: usize = 0;
            let mut i: usize = 0;
            while i < n_tiles
                invariant
                    to_idx <= i <= n_tiles,
                    k < n_lines,
                    is_platform(before),
                    height == before.len(),
                    width == before[0].len(),
                    n_lines == line_count(before, t),
                    n_tiles == line_len(before, t),
                    self.view().len() == height,
                    forall|y: int| 0 <= y < height ==> (#[trigger] self.view()[y]).len() == width,
                    forall|j: int| 0 <= j < n_tiles ==> is_ground(#[trigger] line(self.view(), t, k as int)[j]),
                    settle(line(before, t, k as int), 0, 0) == settle(
                        line(self.view(), t, k as int),
                        i as int,
                        to_idx as int,
                    ),
                    forall|j: int|
                        0 <= j < n_lines && j != k ==> #[trigger] line(self.view(), t, j) == line(
                            start,
                            t,
                            j,
                        ),
                decreases n_tiles - i,
            {
                let ghost now = self.view();
                let ghost l = line(now, t, k as int);
                let here = Self::place(height, width, t, k, i);
                let tile = self.grid.get(here.0, here.1);
                proof {
                    assert(l[i as int] == tile);
                    assert(is_ground(l[i as int]));
                }
                if tile == CUBE {
                    to_idx = i + 1;
                } else if tile == ROUND {
                    let there = Self::place(height, width, t, k, to_idx);
                    self.grid.set(here.0, here.1, EMPTY);
                    self.grid.set(there.0, there.1, ROUND);
                    proof {
                        let after = self.view();
                        assert(line(after, t, k as int) =~= l.update(i as int, EMPTY).update(
                            to_idx as int,
                            ROUND,
                        ));
                        assert forall|j: int| 0 <= j < n_lines && j != k implies #[trigger] line(
                            after,
                            t,
                            j,
                        ) == line(start, t, j) by {
                            assert(line(now, t, j) == line(start, t, j));
                            assert(line(after, t, j) =~= line(now, t, j));
                        }
                    }
                    to_idx = to_idx + 1;
                }
                i += 1;
            }
            proof {
                assert forall|j: int| 0 <= j < k + 1 implies #[trigger] line(self.view(), t, j)
                    == settle(line(before, t, j), 0, 0) by {
                    if j < k {
                        assert(line(start, t, j) == settle(line(before, t, j), 0, 0));
                    }
                }
                assert forall|j: int| k + 1 <= j < n_lines implies #[trigger] line(
                    self.view(),
                    t,
                    j,
                ) == line(before, t, j) by {
                    assert(line(start, t, j) == line(before, t, j));
                }
            }
            k += 1;
        }
        proof {
            lemma_tilted(before, self.view(), t);
        }
    }

    /// A round of tilts: to the North, the West, the South and the East.
    pub fn cycle(&mut self)
        requires
            is_platform(old(self).view()),
        ensures
            final(self).view() == cycled(old(self).view()),
            is_platform(final(self).view()),
    {
        self.slide_north();
        self.slide_west();
        self.slide_south();
        self.slide_east();
    }

    /// Whether two grids hold the same.
    fn same(a: &ByteGrid, b: &ByteGrid) -> (r: bool)
        requires
            is_platform(a@),
            is_platform(b@),
            a@.len() == b@.len(),
            a@[0].len() == b@[0].len(),
        ensures
            r == (a@ == b@),
    {
        let height = a.height();
        let width = a.width();
        let mut y: usize = 0;
        while y < height
            invariant
                y <= height,
                height == a@.len(),
                width == a@[0].len(),
                is_platform(a@),
                is_platform(b@),
                a@.len() == b@.len(),
                a@[0].len() == b@[0].len(),
                forall|j: int| 0 <= j < y ==> (#[trigger] a@[j]) == b@[j],
            decreases height - y,
        {
            let mut x: usize = 0;
            let ghost ra = a@[y as int];
            let ghost rb = b@[y as int];
            while x < width
                invariant
                    x <= width,
                    y < height,
                    height == a@.len(),
                    width == a@[0].len(),
                    is_platform(a@),
                    is_platform(b@),
                    a@.len() == b@.len(),
                    a@[0].len() == b@[0].len(),
                    ra == a@[y as int],
                    rb == b@[y as int],
                    forall|c: int| 0 <= c < x ==> (#[trigger] ra[c]) == rb[c],
                decreases width - x,
            {
                if a.get(y, x) != b.get(y, x) {
                    return false;
                }
                x += 1;
            }
            proof {
                assert(ra =~= rb);
            }
            y += 1;
        }
        proof {
            assert(a@ =~= b@);
        }
        true
    }

    /// As many rounds of tilts as `n_iter` says. Once the platform looks as it
    /// did after an earlier round, the rounds that are left need not be made:
    /// the platform will look as it did after one of the rounds between.
    pub fn spin(&mut self, n_iter: usize)
        requires
            is_platform(old(self).view()),
        ensures
            final(self).view() == spun(old(self).view(), n_iter as nat),
    {
        let ghost first = self.view();
        // What the platform looked like after each round.
        let mut history: Vec<ByteGrid> = Vec::new();
        let mut i: usize = 0;
        while i < n_iter
            invariant
                i <= n_iter,
                first == old(self).view(),
                is_platform(first),
                is_platform(self.view()),
                self.view() == spun(first, i as nat),
                self.view().len() == first.len(),
                self.view()[0].len() == first[0].len(),
                history.len() == i,
                forall|j: int| 0 <= j < i ==> (#[trigger] history@[j])@ == spun(first, (j + 1) as nat),
            decreases n_iter - i,
        {
            self.cycle();
            proof {
                lemma_spun_platform(first, (i + 1) as nat);
            }
            let mut n: usize = 0;
            while n < history.len()
                invariant
                    n <= history.len(),
                    history.len() == i,
                    i < n_iter,
                    first == old(self).view(),
                    is_platform(first),
                    is_platform(self.view()),
                    self.view() == spun(first, (i + 1) as nat),
                    forall|j: int|
                        0 <= j < i ==> (#[trigger] history@[j])@ == spun(first, (j + 1) as nat),
                decreases history.len() - n,
            {
                proof {
                    lemma_spun_platform(first, (n + 1) as nat);
                    assert(history@[n as int]@ == spun(first, (n + 1) as nat));
                    lemma_same_shape(first, (n + 1) as nat);
                    lemma_same_shape(first, (i + 1) as nat);
                }
                if Self::same(&history[n], &self.grid) {
                    // It will look the same again every i - n rounds.
                    let period = i - n;
                    let value_final = (n_iter - 1 - n) % period + n;
                    proof {
                        lemma_spun_again(first, (n + 1) as nat, (i + 1) as nat, n_iter as nat);
                        assert(n_iter - (n + 1) == n_iter - 1 - n);
                        assert((i + 1) - (n + 1) == period);
                        assert(0 <= (n_iter - 1 - n) % (period as int) < period);
                        assert(((n + 1) + (n_iter - (n + 1)) % ((i + 1) - (n + 1))) as nat == (
                        value_final + 1) as nat);
                        assert(history@[value_final as int]@ == spun(first, (value_final + 1) as nat));
                    }
                    let ghost target = history@[value_final as int]@;
                    self.grid = history[value_final].copy();
                    proof {
                        assert(self.view() == target);
                        assert(target == spun(first, (value_final + 1) as nat));
                        assert(spun(first, n_iter as nat) == spun(first, (value_final + 1) as nat));
                    }
                    return ;
                }
                n += 1;
            }
            let ghost earlier = history@;
            history.push(self.grid.copy());
            proof {
                assert forall|j: int| 0 <= j < i + 1 implies (#[trigger] history@[j])@ == spun(
                    first,
                    (j + 1) as nat,
                ) by {
                    if j < i {
                        assert(history@[j] == earlier[j]);
                    }
                }
                lemma_same_shape(first, (i + 1) as nat);
            }
            i += 1;
        }
    }

    /// The load on the north side: every round rock weighs as many as there
    /// are rows from its own to the south edge.
    pub fn total_load(&self) -> (r: u32)
        requires
            is_platform(self.view()),
            load(self.view(), self.view().len() as int) <= u32::MAX,
        ensures
            r == load(self.view(), self.view().len() as int),
    {
        self.wide_load() as u32
    }

    /// The load on the north side, where it fits in 32 bits.
    pub fn checked_total_load(&self) -> (r: Option<u32>)
        requires
            is_platform(self.view()),
        ensures
            0 <= load(self.view(), self.view().len() as int),
            r == (if load(self.view(), self.view().len() as int) <= u32::MAX {
                Some(load(self.view(), self.view().len() as int) as u32)
            } else {
                None
            }),
    {
        let wide = self.wide_load();
        if wide <= 0xffff_ffff {
            Some(wide as u32)
        } else {
            None
        }
    }

    /// The load on the north side, in 64 bits.
    fn wide_load(&self) -> (r: u64)
        requires
            is_platform(self.view()),
        ensures
            r == load(self.view(), self.view().len() as int),
    {
        let height = self.grid.height();
        let width = self.grid.width();
        let ghost g = self.view();
        let mut total: u64 = 0;
        let mut y: usize = 0;
        while y < height
            invariant
                y <= height,
                height == g.len(),
                width == g[0].len(),
                g == self.view(),
                is_platform(g),
                total == load(g, y as int),
            decreases height - y,
        {
            let mut in_row: u64 = 0;
            let mut x: usize = 0;
            proof {
                lemma_load(g, y as int);
                lemma_load(g, y + 1);
                assert((y + 1) * (g[0].len() * g.len()) <= 60_000 * (60_000 * 60_000))
                    by (nonlinear_arith)
                    requires
                        0 <= y + 1 <= 60_000,
                        0 <= g[0].len() <= 60_000,
                        0 <= g.len() <= 60_000,
                ;
            }
            while x < width
                invariant
                    x <= width,
                    y < height,
                    height == g.len(),
                    width == g[0].len(),
                    g == self.view(),
                    is_platform(g),
                    in_row == row_load(g, y as int, x as int),
                decreases width - x,
            {
                proof {
                    lemma_row_load(g, y as int, x as int);
                    lemma_row_load(g, y as int, x + 1);
                    assert((x + 1) * g.len() <= 60_000 * 60_000) by (nonlinear_arith)
                        requires
                            0 <= x + 1 <= 60_000,
                            0 <= g.len() <= 60_000,
                    ;
                }
                if self.grid.get(y, x) == ROUND {
                    in_row = in_row + (height - y) as u64;
                }
                x += 1;
            }
            total = total + in_row;
            y += 1;
        }
        proof {
            lemma_load(g, g.len() as int);
        }
        total
    }

    /// Reads a platform from a picture: as many rows as lines, as wide as the
    /// first line.
    pub fn from_bytes(text: &[u8]) -> (r: Result<Platform, InputError>)
        requires
            text@.len() <= isize::MAX,
        ensures
            r is Ok <==> is_picture(text@, true),
            r is Ok ==> r->Ok_0.view() == picture(text@, true),
            r is Ok ==> r->Ok_0.view().len() >= 1 && r->Ok_0.view()[0].len() >= 1 && forall|y: int|
                0 <= y < r->Ok_0.view().len() ==> (#[trigger] r->Ok_0.view()[y]).len()
                    == r->Ok_0.view()[0].len(),
    {
        proof {
            assert(text@.subrange(0, text@.len() as int) =~= text@);
        }
        match read_picture(text, 0, text.len(), true) {
            Ok(grid) => Ok(Platform { grid }),
            Err(e) => Err(e),
        }
    }

    /// Whether every tile is a rock or empty ground, and the platform is not
    /// too large.
    pub fn is_sound(&self) -> (b: bool)
        requires
            self.view().len() >= 1,
            self.view()[0].len() >= 1,
            forall|y: int|
                0 <= y < self.view().len() ==> (#[trigger] self.view()[y]).len()
                    == self.view()[0].len(),
        ensures
            b == is_platform(self.view()),
    {
        let height = self.grid.height();
        let width = self.grid.width();
        let ghost g = self.view();
        if height > MAX_SIDE || width > MAX_SIDE {
            return false;
        }
        let mut y: usize = 0;
        while y < height
            invariant
                y <= height,
                height == g.len(),
                width == g[0].len(),
                g == self.view(),
                forall|r: int| 0 <= r < g.len() ==> (#[trigger] g[r]).len() == g[0].len(),
                forall|r: int, c: int| 0 <= r < y && 0 <= c < width ==> is_ground(#[trigger] g[r][c]),
            decreases height - y,
        {
            let mut x: usize = 0;
            while x < width
                invariant
                    x <= width,
                    y < height,
                    height == g.len(),
                    width == g[0].len(),
                    g == self.view(),
                    forall|r: int| 0 <= r < g.len() ==> (#[trigger] g[r]).len() == g[0].len(),
                    forall|r: int, c: int|
                        0 <= r < y && 0 <= c < width ==> is_ground(#[trigger] g[r][c]),
                    forall|c: int| 0 <= c < x ==> is_ground(#[trigger] g[y as int][c]),
                decreases width - x,
            {
                let b = self.grid.get(y, x);
                if !(b == ROUND || b == CUBE || b == EMPTY) {
                    return false;
                }
                x += 1;
            }
            y += 1;
        }
        true
    }
}

/// A platform that is spun keeps its numbers of rows and columns.
pub proof fn lemma_same_shape(g: Seq<Seq<u8>>, n: nat)
    requires
        is_platform(g),
    ensures
        spun(g, n).len() == g.len(),
        spun(g, n)[0].len() == g[0].len(),
    decreases n,
{
    if n > 0 {
        lemma_same_shape(g, (n - 1) as nat);
        lemma_spun_platform(g, (n - 1) as nat);
        let g0 = spun(g, (n - 1) as nat);
        lemma_tilt_platform(g0, Tilt::North);
        let g1 = tilted(g0, Tilt::North);
        lemma_tilt_platform(g1, Tilt::West);
        let g2 = tilted(g1, Tilt::West);
        lemma_tilt_platform(g2, Tilt::South);
        let g3 = tilted(g2, Tilt::South);
        lemma_tilt_platform(g3, Tilt::East);
    }
}

} // verus!
