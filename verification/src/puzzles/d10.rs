//! A maze of pipes with one loop through the start: the length of the loop
//! and the number of tiles that it encloses.
use crate::grids::ByteGrid;
use crate::text::InputError;
use fill::{enclosed, enclosed_ground, is_field, open_flags};
use vstd::prelude::*;
use vstd::string::StringSliceAdditionalSpecFns;

pub mod fill;
pub mod tile_set;

verus! {

/// A square maze of pipes, and the place of the start as column and row.
pub struct Maze {
    tiles: ByteGrid,
    s_pos: (usize, usize),
}

/// Where a walk through the pipes stands, and where it is heading.
#[derive(Clone, Copy)]
pub struct Walker {
    pub y: usize,
    pub x: usize,
    pub dy: i32,
    pub dx: i32,
}

/// The greatest side of a maze.
pub const MAX_SIDE: usize = 23_170;

pub const GROUND: u8 = 46;

pub const FILLER: u8 = 42;

pub const START: u8 = 83;

pub const NORTH_SOUTH: u8 = 124;

pub const EAST_WEST: u8 = 45;

pub const NORTH_EAST: u8 = 76;

pub const NORTH_WEST: u8 = 74;

pub const SOUTH_WEST: u8 = 55;

pub const SOUTH_EAST: u8 = 70;

/// Whether the byte is white space, which parts the tiles of a text.
pub open spec fn is_blank(b: u8) -> bool {
    b == 32 || (9 <= b <= 13)
}

/// The tiles of a text: its bytes but for white space.
pub open spec fn tiles_of(t: Seq<u8>) -> Seq<u8>
    decreases t.len(),
{
    if t.len() == 0 {
        t
    } else if is_blank(t.last()) {
        tiles_of(t.drop_last())
    } else {
        tiles_of(t.drop_last()).push(t.last())
    }
}

/// The place of the first line feed at or after `k`.
pub open spec fn line_feed_at(t: Seq<u8>, k: int) -> Option<int>
    decreases t.len() - k,
{
    if k < 0 || k >= t.len() {
        None
    } else if t[k] == 10 {
        Some(k)
    } else {
        line_feed_at(t, k + 1)
    }
}

/// The place of the last start among the first `k` tiles; zero where there
/// is none.
pub open spec fn last_start(cells: Seq<u8>, k: int) -> int
    decreases k,
{
    if k <= 0 {
        0
    } else if cells[k - 1] == START {
        k - 1
    } else {
        last_start(cells, k - 1)
    }
}

/// The rows form a square of at least one and not too many tiles a side.
pub open spec fn is_square(g: Seq<Seq<u8>>) -> bool {
    &&& 1 <= g.len() <= MAX_SIDE
    &&& forall|y: int| 0 <= y < g.len() ==> (#[trigger] g[y]).len() == g.len()
}

/// Whether the byte is one of the pipes that lead to the south.
pub open spec fn leads_south(c: u8) -> bool {
    c == NORTH_SOUTH || c == SOUTH_WEST || c == SOUTH_EAST
}

/// Whether the byte is one of the pipes that lead to the west.
pub open spec fn leads_west(c: u8) -> bool {
    c == EAST_WEST || c == NORTH_WEST || c == SOUTH_WEST
}

/// Whether the byte is one of the pipes that lead to the north.
pub open spec fn leads_north(c: u8) -> bool {
    c == NORTH_SOUTH || c == NORTH_EAST || c == NORTH_WEST
}

/// Whether the byte is one of the pipes that lead to the east.
pub open spec fn leads_east(c: u8) -> bool {
    c == EAST_WEST || c == NORTH_EAST || c == SOUTH_EAST
}

/// Where the walk starts and heads first: up if the tile above leads south,
/// else right if the tile to the right leads west, else down if the tile below
/// leads north, else left.
pub open spec fn start_of(g: Seq<Seq<u8>>, s: (usize, usize)) -> Walker {
    let n = g.len() as int;
    let (x, y) = (s.0 as int, s.1 as int);
    if y > 0 && leads_south(g[y - 1][x]) {
        Walker { y: s.1, x: s.0, dy: -1i32, dx: 0 }
    } else if x < n - 1 && leads_west(g[y][x + 1]) {
        Walker { y: s.1, x: s.0, dy: 0, dx: 1 }
    } else if y < n - 1 && leads_north(g[y + 1][x]) {
        Walker { y: s.1, x: s.0, dy: 1, dx: 0 }
    } else {
        Walker { y: s.1, x: s.0, dy: 0, dx: -1i32 }
    }
}

/// Whether the next step of the walker stays in the maze.
pub open spec fn can_step(g: Seq<Seq<u8>>, w: Walker) -> bool {
    0 <= w.y + w.dy < g.len() && 0 <= w.x + w.dx < g.len() && -MAX_SIDE <= w.dy <= MAX_SIDE
        && -MAX_SIDE <= w.dx <= MAX_SIDE
}

/// The tile that the walker steps on next.
pub open spec fn next_tile(g: Seq<Seq<u8>>, w: Walker) -> u8 {
    g[w.y + w.dy][w.x + w.dx]
}

/// The walker after its next step, where that step stays in the maze and
/// leads onto a pipe: a straight pipe leaves the heading as it is, a bend adds
/// its own two directions to it.
pub open spec fn stepped(g: Seq<Seq<u8>>, w: Walker) -> Option<Walker> {
    if !can_step(g, w) {
        None
    } else {
        let y = (w.y + w.dy) as usize;
        let x = (w.x + w.dx) as usize;
        let c = next_tile(g, w);
        if c == NORTH_SOUTH || c == EAST_WEST {
            Some(Walker { y, x, dy: w.dy, dx: w.dx })
        } else if c == NORTH_EAST {
            Some(Walker { y, x, dy: (w.dy - 1) as i32, dx: (w.dx + 1) as i32 })
        } else if c == NORTH_WEST {
            Some(Walker { y, x, dy: (w.dy - 1) as i32, dx: (w.dx - 1) as i32 })
        } else if c == SOUTH_WEST {
            Some(Walker { y, x, dy: (w.dy + 1) as i32, dx: (w.dx - 1) as i32 })
        } else if c == SOUTH_EAST {
            Some(Walker { y, x, dy: (w.dy + 1) as i32, dx: (w.dx + 1) as i32 })
        } else {
            None
        }
    }
}

/// The walker after `k` steps from the start, if the walk leads that far
/// over pipes.
pub open spec fn walker_at(g: Seq<Seq<u8>>, s: (usize, usize), k: nat) -> Option<Walker>
    decreases k,
{
    if k == 0 {
        Some(start_of(g, s))
    } else {
        match walker_at(g, s, (k - 1) as nat) {
            None => None,
            Some(w) => stepped(g, w),
        }
    }
}

/// Whether the walk is back at a start after exactly `k` steps.
pub open spec fn closes_at(g: Seq<Seq<u8>>, s: (usize, usize), k: nat) -> bool {
    k >= 1 && match walker_at(g, s, (k - 1) as nat) {
        None => false,
        Some(w) => can_step(g, w) && next_tile(g, w) == START,
    }
}

/// Whether the walk stands on the tile after `i` steps.
pub open spec fn stands_at(g: Seq<Seq<u8>>, s: (usize, usize), i: nat, y: int, x: int) -> bool {
    match walker_at(g, s, i) {
        None => false,
        Some(w) => w.y == y && w.x == x,
    }
}

/// Whether the walk passes the tile before its step `k`.
pub open spec fn on_walk(g: Seq<Seq<u8>>, s: (usize, usize), k: nat, y: int, x: int) -> bool {
    exists|i: nat| i < k && #[trigger] stands_at(g, s, i, y, x)
}

/// The ground that the loop of `k` steps encloses: the maze is cleaned of
/// what is not the loop and drawn twice as large, and the ground in the areas
/// that do not reach the edge is counted.
pub open spec fn enclosed_by(g: Seq<Seq<u8>>, s: (usize, usize), k: nat) -> int {
    let big = enlarged_rows(cleaned_rows(g, s, k));
    enclosed(big, open_flags(big), (big.len() * big.len()) as nat)
}

/// The maze with ground in place of every tile that the loop of `k` steps
/// does not pass.
pub open spec fn cleaned_rows(g: Seq<Seq<u8>>, s: (usize, usize), k: nat) -> Seq<Seq<u8>> {
    Seq::new(
        g.len(),
        |y: int|
            Seq::new(
                g.len(),
                |x: int|
                    if on_walk(g, s, k, y, x) {
                        g[y][x]
                    } else {
                        GROUND
                    },
            ),
    )
}

/// A tile of the maze, or ground outside it.
pub open spec fn tile_or_ground(g: Seq<Seq<u8>>, y: int, x: int) -> u8 {
    if 0 <= y < g.len() && 0 <= x < g.len() {
        g[y][x]
    } else {
        GROUND
    }
}

/// What stands at a place of the maze drawn twice as large: every tile
/// becomes four, the tile itself at the top left, filler elsewhere, but pipes
/// where the tile leads east (to its right) or south (below it), so that
/// neighbouring pipes stay joined.
pub open spec fn enlarged_at(g: Seq<Seq<u8>>, big_y: int, big_x: int) -> u8 {
    let y = big_y / 2;
    let x = big_x / 2;
    let c = g[y][x];
    if big_y % 2 == 0 && big_x % 2 == 0 {
        c
    } else if big_y % 2 == 0 {
        // To the right of the tile.
        let right = tile_or_ground(g, y, x + 1);
        if right == START && leads_east(c) {
            EAST_WEST
        } else if c == EAST_WEST {
            NORTH_SOUTH
        } else if c == NORTH_EAST || c == SOUTH_EAST {
            EAST_WEST
        } else if c == START && leads_west(right) {
            EAST_WEST
        } else {
            FILLER
        }
    } else if big_x % 2 == 0 {
        // Below the tile.
        let below = tile_or_ground(g, y + 1, x);
        if below == START && leads_south(c) {
            NORTH_SOUTH
        } else if c == NORTH_SOUTH || c == SOUTH_WEST || c == SOUTH_EAST {
            NORTH_SOUTH
        } else if c == START && leads_north(below) {
            NORTH_SOUTH
        } else {
            FILLER
        }
    } else {
        FILLER
    }
}

/// The maze drawn twice as large.
pub open spec fn enlarged_rows(g: Seq<Seq<u8>>) -> Seq<Seq<u8>> {
    Seq::new(2 * g.len(), |y: int| Seq::new(2 * g.len(), |x: int| enlarged_at(g, y, x)))
}

impl Maze {
    /// The rows of the maze.
    pub closed spec fn view(&self) -> Seq<Seq<u8>> {
        self.tiles@
    }

    /// The start, as column and row.
    pub closed spec fn start(&self) -> (usize, usize) {
        self.s_pos
    }

    /// The maze is a square, and the start is a place in it.
    pub open spec fn wf(&self) -> bool {
        is_square(self@) && self.start().0 < self@.len() && self.start().1 < self@.len()
    }

    /// The side of the maze.
    pub fn side(&self) -> (n: usize)
        requires
            self.wf(),
        ensures
            n == self@.len(),
    {
        self.tiles.height()
    }

    /// Where the walk starts and heads first.
    pub fn first_walker(&self) -> (w: Walker)
        requires
            self.wf(),
        ensures
            w == start_of(self@, self.start()),
    {
        let n = self.tiles.height();
        let (x, y) = self.s_pos;
        if y > 0 && Self::is_in(self.tiles.get(y - 1, x), NORTH_SOUTH, SOUTH_WEST, SOUTH_EAST) {
            Walker { y, x, dy: -1, dx: 0 }
        } else if x < n - 1 && Self::is_in(
            self.tiles.get(y, x + 1),
            EAST_WEST,
            NORTH_WEST,
            SOUTH_WEST,
        ) {
            Walker { y, x, dy: 0, dx: 1 }
        } else if y < n - 1 && Self::is_in(
            self.tiles.get(y + 1, x),
            NORTH_SOUTH,
            NORTH_EAST,
            NORTH_WEST,
        ) {
            Walker { y, x, dy: 1, dx: 0 }
        } else {
            Walker { y, x, dy: 0, dx: -1 }
        }
    }

    /// Whether a byte is one of three.
    fn is_in(c: u8, a: u8, b: u8, d: u8) -> (r: bool)
        ensures
            r == (c == a || c == b || c == d),
    {
        c == a || c == b || c == d
    }

    /// The place that the walker steps on next, if it is in the maze.
    pub fn ahead(&self, w: Walker) -> (r: Option<(usize, usize)>)
        requires
            self.wf(),
            w.y < self@.len(),
            w.x < self@.len(),
        ensures
            r is Some <==> can_step(self@, w),
            r is Some ==> r->Some_0.0 == w.y + w.dy && r->Some_0.1 == w.x + w.dx,
    {
        let n = self.tiles.height();
        let limit: i32 = 23_170;
        if w.dy < -limit || w.dy > limit || w.dx < -limit || w.dx > limit {
            return None;
        }
        let y = w.y as i32 + w.dy;
        let x = w.x as i32 + w.dx;
        if y < 0 || x < 0 || y as usize >= n || x as usize >= n {
            return None;
        }
        Some((y as usize, x as usize))
    }

    /// The walker after its next step, where that leads onto a pipe.
    pub fn step(&self, w: Walker) -> (r: Option<Walker>)
        requires
            self.wf(),
            w.y < self@.len(),
            w.x < self@.len(),
        ensures
            r == stepped(self@, w),
            r is Some ==> r->Some_0.y < self@.len() && r->Some_0.x < self@.len(),
    {
        let (y, x) = match self.ahead(w) {
            Some(p) => p,
            None => {
                return None;
            },
        };
        let c = self.tiles.get(y, x);
        if c == NORTH_SOUTH || c == EAST_WEST {
            Some(Walker { y, x, dy: w.dy, dx: w.dx })
        } else if c == NORTH_EAST {
            Some(Walker { y, x, dy: w.dy - 1, dx: w.dx + 1 })
        } else if c == NORTH_WEST {
            Some(Walker { y, x, dy: w.dy - 1, dx: w.dx - 1 })
        } else if c == SOUTH_WEST {
            Some(Walker { y, x, dy: w.dy + 1, dx: w.dx - 1 })
        } else if c == SOUTH_EAST {
            Some(Walker { y, x, dy: w.dy + 1, dx: w.dx + 1 })
        } else {
            None
        }
    }

    /// The number of steps after which the walk from the start is back at a
    /// start; `None` where it leaves the maze or the pipes, or is not back after
    /// as many steps as the maze has tiles.
    pub fn loop_len(&self) -> (r: Option<u32>)
        requires
            self.wf(),
        ensures
            match r {
                Some(k) => closes_at(self@, self.start(), k as nat) && k <= self@.len() * self@.len(),
                None => forall|k: nat|
                    k <= self@.len() * self@.len() ==> !#[trigger] closes_at(self@, self.start(), k),
            },
    {
        let n = self.tiles.height();
        let ghost g = self@;
        let ghost s = self.start();
        proof {
            assert(n * n <= MAX_SIDE * MAX_SIDE) by (nonlinear_arith)
                requires
                    n <= MAX_SIDE,
            ;
        }
        let fuel: u32 = (n * n) as u32;
        let mut w = self.first_walker();
        let mut k: u32 = 0;
        while k < fuel
            invariant
                k <= fuel,
                fuel == n * n,
                n == g.len(),
                g == self@,
                s == self.start(),
                self.wf(),
                w.y < n,
                w.x < n,
                walker_at(g, s, k as nat) == Some(w),
                forall|j: nat| j <= k ==> !#[trigger] closes_at(g, s, j),
            decreases fuel - k,
        {
            match self.ahead(w) {
                Some((y, x)) => {
                    if self.tiles.get(y, x) == START {
                        proof {
                            assert(closes_at(g, s, (k + 1) as nat));
                        }
                        return Some(k + 1);
                    }
                },
                None => {},
            }
            match self.step(w) {
                Some(next) => {
                    proof {
                        assert(walker_at(g, s, (k + 1) as nat) == Some(next));
                        assert(!closes_at(g, s, (k + 1) as nat));
                    }
                    w = next;
                },
                None => {
                    proof {
                        assert(walker_at(g, s, (k + 1) as nat) is None);
                        assert forall|j: nat| j <= n * n implies !#[trigger] closes_at(g, s, j) by {
                            if j > k + 1 {
                                lemma_walk_ends(g, s, (k + 1) as nat, (j - 1) as nat);
                            }
                        }
                    }
                    return None;
                },
            }
            k += 1;
        }
        None
    }
}

/// A walk that has ended does not go on.
pub proof fn lemma_walk_ends(g: Seq<Seq<u8>>, s: (usize, usize), k: nat, j: nat)
    requires
        walker_at(g, s, k) is None,
        k <= j,
    ensures
        walker_at(g, s, j) is None,
    decreases j,
{
    if j > k {
        lemma_walk_ends(g, s, k, (j - 1) as nat);
    }
}

impl Maze {
    /// The maze with ground in place of every tile that the loop does not
    /// pass; `None` where the walk from the start does not come back.
    fn cleaned(&self) -> (r: Option<(ByteGrid, Ghost<nat>)>)
        requires
            self.wf(),
        ensures
            match r {
                Some((grid, k)) => closes_at(self@, self.start(), k@) && k@ <= self@.len()
                    * self@.len() && grid@ == cleaned_rows(self@, self.start(), k@),
                None => forall|k: nat|
                    k <= self@.len() * self@.len() ==> !#[trigger] closes_at(self@, self.start(), k),
            },
    {
        let n = self.tiles.height();
        let ghost g = self@;
        let ghost s = self.start();
        proof {
            assert(n * n <= MAX_SIDE * MAX_SIDE) by (nonlinear_arith)
                requires
                    n <= MAX_SIDE,
            ;
            assert(self.tiles@[0].len() == n);
        }
        let fuel: u32 = (n * n) as u32;
        let mut grid = ByteGrid::from_elem(n, n, GROUND);
        let mut w = self.first_walker();
        let mut k: u32 = 0;
        while k < fuel
            invariant
                k <= fuel,
                fuel == n * n,
                n == g.len(),
                g == self@,
                s == self.start(),
                self.wf(),
                w.y < n,
                w.x < n,
                walker_at(g, s, k as nat) == Some(w),
                forall|j: nat| j <= k ==> !#[trigger] closes_at(g, s, j),
                grid@.len() == n,
                forall|y: int| 0 <= y < n ==> (#[trigger] grid@[y]).len() == n,
                forall|y: int, x: int|
                    0 <= y < n && 0 <= x < n ==> (#[trigger] grid@[y][x]) == (if on_walk(
                        g,
                        s,
                        k as nat,
                        y,
                        x,
                    ) {
                        g[y][x]
                    } else {
                        GROUND
                    }),
            decreases fuel - k,
        {
            let ghost before = grid@;
            grid.set(w.y, w.x, self.tiles.get(w.y, w.x));
            proof {
                assert(stands_at(g, s, k as nat, w.y as int, w.x as int));
                assert forall|y: int, x: int| 0 <= y < n && 0 <= x < n implies (#[trigger] grid@[y][x])
                    == (if on_walk(g, s, (k + 1) as nat, y, x) {
                    g[y][x]
                } else {
                    GROUND
                }) by {
                    if on_walk(g, s, k as nat, y, x) {
                        let i = choose|i: nat| i < k && #[trigger] stands_at(g, s, i, y, x);
                        assert(i < k + 1 && stands_at(g, s, i, y, x));
                    }
                    if on_walk(g, s, (k + 1) as nat, y, x) && !on_walk(g, s, k as nat, y, x) {
                        let i = choose|i: nat| i < k + 1 && #[trigger] stands_at(g, s, i, y, x);
                        assert(i == k);
                    }
                }
            }
            match self.ahead(w) {
                Some((y, x)) => {
                    if self.tiles.get(y, x) == START {
                        proof {
                            assert(closes_at(g, s, (k + 1) as nat));
                            assert(grid@ =~= cleaned_rows(g, s, (k + 1) as nat)) by {
                                assert forall|y: int| 0 <= y < n implies grid@[y] =~= cleaned_rows(
                                    g,
                                    s,
                                    (k + 1) as nat,
                                )[y] by {}
                            }
                        }
                        return Some((grid, Ghost((k + 1) as nat)));
                    }
                },
                None => {},
            }
            match self.step(w) {
                Some(next) => {
                    proof {
                        assert(walker_at(g, s, (k + 1) as nat) == Some(next));
                        assert(!closes_at(g, s, (k + 1) as nat));
                    }
                    w = next;
                },
                None => {
                    proof {
                        assert(walker_at(g, s, (k + 1) as nat) is None);
                        assert forall|j: nat| j <= n * n implies !#[trigger] closes_at(g, s, j) by {
                            if j > k + 1 {
                                lemma_walk_ends(g, s, (k + 1) as nat, (j - 1) as nat);
                            }
                        }
                    }
                    return None;
                },
            }
            k += 1;
        }
        None
    }

    /// What stands at a place of the maze drawn twice as large.
    fn enlarged_tile(grid: &ByteGrid, big_y: usize, big_x: usize) -> (c: u8)
        requires
            is_square(grid@),
            big_y < 2 * grid@.len(),
            big_x < 2 * grid@.len(),
        ensures
            c == enlarged_at(grid@, big_y as int, big_x as int),
    {
        let n = grid.height();
        proof {
            assert(grid@[0].len() == n);
        }
        let y = big_y / 2;
        let x = big_x / 2;
        let c = grid.get(y, x);
        if big_y % 2 == 0 && big_x % 2 == 0 {
            c
        } else if big_y % 2 == 0 {
            let right = if x + 1 < n {
                grid.get(y, x + 1)
            } else {
                GROUND
            };
            if right == START && (c == EAST_WEST || c == NORTH_EAST || c == SOUTH_EAST) {
                EAST_WEST
            } else if c == EAST_WEST {
                NORTH_SOUTH
            } else if c == NORTH_EAST || c == SOUTH_EAST {
                EAST_WEST
            } else if c == START && (right == EAST_WEST || right == NORTH_WEST || right == SOUTH_WEST) {
                EAST_WEST
            } else {
                FILLER
            }
        } else if big_x % 2 == 0 {
            let below = if y + 1 < n {
                grid.get(y + 1, x)
            } else {
                GROUND
            };
            if below == START && (c == NORTH_SOUTH || c == SOUTH_WEST || c == SOUTH_EAST) {
                NORTH_SOUTH
            } else if c == NORTH_SOUTH || c == SOUTH_WEST || c == SOUTH_EAST {
                NORTH_SOUTH
            } else if c == START && (below == NORTH_SOUTH || below == NORTH_EAST || below
                == NORTH_WEST) {
                NORTH_SOUTH
            } else {
                FILLER
            }
        } else {
            FILLER
        }
    }

    /// The maze drawn twice as large.
    fn enlarged(grid: &ByteGrid) -> (r: ByteGrid)
        requires
            is_square(grid@),
        ensures
            r@ == enlarged_rows(grid@),
            is_field(r@),
    {
        let n = grid.height();
        let ghost g = grid@;
        let m = 2 * n;
        proof {
            assert(m * m <= 46_340 * 46_340) by (nonlinear_arith)
                requires
                    m <= 46_340,
            ;
        }
        let mut big = ByteGrid::from_elem(m, m, FILLER);
        let mut y: usize = 0;
        while y < m
            invariant
                y <= m,
                m == 2 * n,
                n == g.len(),
                g == grid@,
                is_square(g),
                big@.len() == m,
                forall|a: int| 0 <= a < m ==> (#[trigger] big@[a]).len() == m,
                forall|a: int, b: int|
                    0 <= a < y && 0 <= b < m ==> (#[trigger] big@[a][b]) == enlarged_at(g, a, b),
            decreases m - y,
        {
            let mut x: usize = 0;
            while x < m
                invariant
                    x <= m,
                    y < m,
                    m == 2 * n,
                    n == g.len(),
                    g == grid@,
                    is_square(g),
                    big@.len() == m,
                    forall|a: int| 0 <= a < m ==> (#[trigger] big@[a]).len() == m,
                    forall|a: int, b: int|
                        0 <= a < y && 0 <= b < m ==> (#[trigger] big@[a][b]) == enlarged_at(g, a, b),
                    forall|b: int| 0 <= b < x ==> (#[trigger] big@[y as int][b]) == enlarged_at(
                        g,
                        y as int,
                        b,
                    ),
                decreases m - x,
            {
                let c = Self::enlarged_tile(grid, y, x);
                big.set(y, x, c);
                x += 1;
            }
            y += 1;
        }
        proof {
            let want = enlarged_rows(g);
            assert forall|a: int| 0 <= a < m implies big@[a] =~= want[a] by {}
            assert(big@ =~= want);
        }
        big
    }

    /// The number of ground tiles that the loop through the start encloses;
    /// `None` where the walk from the start does not come back.
    pub fn enclosed_area(&self) -> (r: Option<u32>)
        requires
            self.wf(),
        ensures
            match r {
                Some(v) => exists|k: nat|
                    k <= self@.len() * self@.len() && #[trigger] closes_at(self@, self.start(), k)
                        && v == enclosed_by(self@, self.start(), k),
                None => forall|k: nat|
                    k <= self@.len() * self@.len() ==> !#[trigger] closes_at(self@, self.start(), k),
            },
    {
        let (cleaned, k) = match self.cleaned() {
            Some(found) => found,
            None => {
                return None;
            },
        };
        proof {
            let c = cleaned_rows(self@, self.start(), k@);
            assert(is_square(c));
        }
        let big = Self::enlarged(&cleaned);
        let area = enclosed_ground(&big);
        proof {
            assert(closes_at(self@, self.start(), k@) && area == enclosed_by(
                self@,
                self.start(),
                k@,
            ));
        }
        Some(area)
    }

    /// Reads a maze: a square of tiles, as wide and as high as the first
    /// line is long; white space parts the tiles and is none of them. The start
    /// is the last tile `S`, or the first tile of all where there is none.
    pub fn from_bytes(text: &[u8]) -> (r: Result<Maze, InputError>)
        requires
            text@.len() <= isize::MAX,
        ensures
            r is Ok <==> maze_side(text@) is Some,
            r is Ok ==> {
                let maze = r->Ok_0;
                let n = maze_side(text@)->Some_0;
                let found = last_start(tiles_of(text@), tiles_of(text@).len() as int);
                &&& maze.wf()
                &&& maze@.len() == n
                &&& forall|y: int|
                    0 <= y < n ==> (#[trigger] maze@[y]) == tiles_of(text@).subrange(y * n, y * n + n)
                &&& maze.start() == ((found % n) as usize, (found / n) as usize)
            },
    {
        let mut n: usize = 0;
        while n < text.len() && text[n] != 10
            invariant
                n <= text.len(),
                line_feed_at(text@, 0) == line_feed_at(text@, n as int),
            decreases text.len() - n,
        {
            n += 1;
        }
        if n == text.len() {
            return Err(InputError::Syntax);
        }
        if n == 0 {
            return Err(InputError::Syntax);
        }
        if n > MAX_SIDE {
            return Err(InputError::Value);
        }
        let mut cells: Vec<u8> = Vec::new();
        let mut start_idx: usize = 0;
        let mut i: usize = 0;
        proof {
            assert(text@.take(0) =~= Seq::<u8>::empty());
        }
        while i < text.len()
            invariant
                i <= text.len(),
                cells@ == tiles_of(text@.take(i as int)),
                cells@.len() <= i,
                start_idx == last_start(cells@, cells@.len() as int),
                start_idx <= cells@.len(),
                cells@.len() > 0 ==> start_idx < cells@.len(),
            decreases text.len() - i,
        {
            let b = text[i];
            proof {
                assert(text@.take(i + 1).drop_last() =~= text@.take(i as int));
                assert(text@.take(i + 1).last() == b);
            }
            if !(b == 32 || (b >= 9 && b <= 13)) {
                let ghost before = cells@;
                if b == START {
                    start_idx = cells.len();
                }
                cells.push(b);
                proof {
                    lemma_same_start(before, b, before.len() as int);
                }
            }
            i += 1;
        }
        proof {
            assert(text@.take(text@.len() as int) =~= text@);
        }
        let ghost tiles = cells@;
        let count = cells.len();
        let tiles_grid = match ByteGrid::from_cells(n, n, cells) {
            Ok(grid) => grid,
            Err(_) => {
                return Err(InputError::Syntax);
            },
        };
        proof {
            assert(count == n * n);
            assert(n * n >= 1) by (nonlinear_arith)
                requires
                    n >= 1,
            ;
            assert(start_idx < count);
            assert(start_idx / n < n) by (nonlinear_arith)
                requires
                    start_idx < n * n,
                    n > 0,
            ;
            assert forall|y: int| 0 <= y < n implies (#[trigger] tiles_grid@[y]).len() == n by {
                assert(y * n + n <= n * n) by (nonlinear_arith)
                    requires
                        0 <= y < n,
                ;
            }
        }
        Ok(Maze { tiles: tiles_grid, s_pos: (start_idx % n, start_idx / n) })
    }

    /// Reads a maze.
    pub fn parse(s: &str) -> (r: Result<Maze, InputError>)
        requires
            s.spec_bytes().len() <= isize::MAX,
        ensures
            r is Ok <==> maze_side(s.spec_bytes()) is Some,
            r is Ok ==> r->Ok_0.wf(),
    {
        Maze::from_bytes(s.as_bytes())
    }
}

/// The side of the maze that a text holds: the length of its first line,
/// where the text has a line feed, the line is not empty nor too long, and the
/// tiles fill a square of that side.
pub open spec fn maze_side(t: Seq<u8>) -> Option<int> {
    match line_feed_at(t, 0) {
        None => None,
        Some(n) => if 1 <= n <= MAX_SIDE && tiles_of(t).len() == n * n {
            Some(n)
        } else {
            None
        },
    }
}

/// The last start among tiles is where it was before another tile came
/// behind them.
pub proof fn lemma_same_start(cells: Seq<u8>, b: u8, k: int)
    requires
        0 <= k <= cells.len(),
    ensures
        last_start(cells.push(b), k) == last_start(cells, k),
    decreases k,
{
    if k > 0 {
        lemma_same_start(cells, b, k - 1);
    }
}

} // verus!
