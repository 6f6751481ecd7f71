//! The trails of a forest as a picture: which cells are crossings, and where
//! a walk from a crossing leads.
use crate::grids::ByteGrid;
use vstd::prelude::*;

verus! {

/// The bytes of the picture.
pub const FOREST: u8 = 35;

pub const PATH: u8 = 46;

pub const UP: u8 = 94;

pub const RIGHT: u8 = 62;

pub const DOWN: u8 = 118;

pub const LEFT: u8 = 60;

/// The greatest number of cells of a picture.
pub const MAX_CELLS: usize = 16_777_216;

/// Whether the byte stands for a cell that one can walk on.
pub open spec fn is_trail(c: u8) -> bool {
    c == PATH || c == UP || c == RIGHT || c == DOWN || c == LEFT
}

/// Whether the byte may stand in a picture.
pub open spec fn is_tile(c: u8) -> bool {
    c == FOREST || is_trail(c)
}

/// The rows are of one length, there are at least two of them, each with at
/// least three cells, and not too many cells in all.
pub open spec fn is_forest(g: Seq<Seq<u8>>) -> bool {
    &&& g.len() >= 2
    &&& g[0].len() >= 3
    &&& g.len() * g[0].len() <= MAX_CELLS
    &&& forall|y: int| 0 <= y < g.len() ==> (#[trigger] g[y]).len() == g[0].len()
    &&& forall|y: int, x: int|
        0 <= y < g.len() && 0 <= x < g[0].len() ==> is_tile(#[trigger] g[y][x])
}

/// The cell next to `p` in direction `d`: east, south, west, north.
pub open spec fn moved(p: (int, int), d: int) -> (int, int) {
    if d == 0 {
        (p.0, p.1 + 1)
    } else if d == 1 {
        (p.0 + 1, p.1)
    } else if d == 2 {
        (p.0, p.1 - 1)
    } else {
        (p.0 - 1, p.1)
    }
}

/// The direction against `d`.
pub open spec fn against(d: int) -> int {
    (d + 2) % 4
}

/// Whether the cell is in the picture.
pub open spec fn inside(g: Seq<Seq<u8>>, p: (int, int)) -> bool {
    0 <= p.0 < g.len() && 0 <= p.1 < g[0].len()
}

/// Whether the cell is in the picture and one can walk on it.
pub open spec fn open_at(g: Seq<Seq<u8>>, p: (int, int)) -> bool {
    inside(g, p) && is_trail(g[p.0][p.1])
}

/// How many of the first `k` directions lead from `p` to a cell that one can
/// walk on.
pub open spec fn ways(g: Seq<Seq<u8>>, p: (int, int), k: int) -> int
    decreases k,
{
    if k <= 0 {
        0
    } else {
        ways(g, p, k - 1) + if open_at(g, moved(p, k - 1)) {
            1int
        } else {
            0int
        }
    }
}

/// Where the walk starts.
pub open spec fn entrance() -> (int, int) {
    (0, 1)
}

/// Where the walk ends.
pub open spec fn exit(g: Seq<Seq<u8>>) -> (int, int) {
    (g.len() - 1, g[0].len() - 2)
}

/// Whether the cell is a crossing: a cell off the border that is no forest
/// and from which more than two ways lead.
pub open spec fn is_crossing(g: Seq<Seq<u8>>, p: (int, int)) -> bool {
    1 <= p.0 < g.len() - 1 && 1 <= p.1 < g[0].len() - 1 && g[p.0][p.1] != FOREST && ways(g, p, 4)
        > 2
}

/// Whether the cell is a vertex of the graph of trails: the entrance, the
/// exit, or a crossing.
pub open spec fn is_vertex(g: Seq<Seq<u8>>, p: (int, int)) -> bool {
    p == entrance() || p == exit(g) || is_crossing(g, p)
}

/// The crossings among the first `k` cells, row by row.
pub open spec fn crossings(g: Seq<Seq<u8>>, k: int) -> Seq<(usize, usize)>
    decreases k,
{
    if k <= 0 {
        Seq::<(usize, usize)>::empty()
    } else {
        let w = g[0].len() as int;
        let p = ((k - 1) / w, (k - 1) % w);
        if is_crossing(g, p) {
            crossings(g, k - 1).push((p.0 as usize, p.1 as usize))
        } else {
            crossings(g, k - 1)
        }
    }
}

/// The vertices: the entrance, the exit, and the crossings row by row.
pub open spec fn vertex_list(g: Seq<Seq<u8>>) -> Seq<(usize, usize)> {
    seq![(0usize, 1usize), ((g.len() - 1) as usize, (g[0].len() - 2) as usize)] + crossings(
        g,
        (g.len() * g[0].len()) as int,
    )
}

/// The first direction, other than back, in which one can walk on from `p`
/// when the way ahead in direction `d` is closed.
pub open spec fn turn(g: Seq<Seq<u8>>, p: (int, int), d: int, k: int) -> Option<int>
    decreases 4 - k,
{
    if k < 0 || k >= 4 {
        None
    } else if open_at(g, moved(p, k)) && k != against(d) {
        Some(k)
    } else {
        turn(g, p, d, k + 1)
    }
}

/// Whether a cell may be entered in direction `d`: a slope only downhill.
pub open spec fn may_enter(c: u8, d: int) -> bool {
    c == PATH || (c == UP && d == 3) || (c == RIGHT && d == 0) || (c == DOWN && d == 1) || (c == LEFT
        && d == 2)
}

/// Where a walk from `p` in direction `d` ends, after `steps` steps so far:
/// the next vertex and the number of steps to it. The walk goes on through the
/// cells of the trail, turns where the way ahead is forest, and ends without a
/// result at a slope that goes uphill, at a dead end, at the border of the
/// picture, or when it has moved or turned `fuel` times.
pub open spec fn walk(g: Seq<Seq<u8>>, p: (int, int), d: int, steps: int, fuel: nat) -> Option<
    ((int, int), int),
>
    decreases fuel,
{
    let next = moved(p, d);
    if fuel == 0 || !inside(g, next) {
        None
    } else if g[next.0][next.1] == FOREST {
        match turn(g, p, d, 0) {
            None => None,
            Some(d2) => walk(g, p, d2, steps, (fuel - 1) as nat),
        }
    } else if !may_enter(g[next.0][next.1], d) {
        None
    } else if is_vertex(g, next) {
        Some((next, steps + 1))
    } else {
        walk(g, next, d, steps + 1, (fuel - 1) as nat)
    }
}

/// A cell as a pair of machine numbers.
pub open spec fn cell(y: int, x: int) -> (usize, usize) {
    (y as usize, x as usize)
}

/// Every crossing among the first `k` cells is in the list of those
/// crossings, and every cell of that list is a crossing in the picture.
pub proof fn lemma_crossings(g: Seq<Seq<u8>>, k: int)
    requires
        is_forest(g),
        0 <= k <= g.len() * g[0].len(),
    ensures
        forall|i: int|
            0 <= i < crossings(g, k).len() ==> is_crossing(
                g,
                ((#[trigger] crossings(g, k)[i]).0 as int, crossings(g, k)[i].1 as int),
            ),
        forall|y: int, x: int|
            0 <= y < g.len() && 0 <= x < g[0].len() && y * g[0].len() + x < k && is_crossing(g, (y, x))
                ==> crossings(g, k).contains(#[trigger] cell(y, x)),
    decreases k,
{
    if k > 0 {
        lemma_crossings(g, k - 1);
        let w = g[0].len() as int;
        let p = ((k - 1) / w, (k - 1) % w);
        let before = crossings(g, k - 1);
        vstd::arithmetic::div_mod::lemma_fundamental_div_mod(k - 1, w);
        vstd::arithmetic::div_mod::lemma_mod_bound(k - 1, w);
        assert(w * p.0 == p.0 * w) by (nonlinear_arith);
        assert(0 <= p.0) by (nonlinear_arith)
            requires
                k - 1 >= 0,
                w > 0,
                p.0 == (k - 1) / w,
        ;
        assert forall|y: int, x: int|
            0 <= y < g.len() && 0 <= x < g[0].len() && y * g[0].len() + x < k && is_crossing(
                g,
                (y, x),
            ) implies crossings(g, k).contains(#[trigger] cell(y, x)) by {
            if y * w + x < k - 1 {
                assert(before.contains(cell(y, x)));
                let i = choose|i: int| 0 <= i < before.len() && before[i] == cell(y, x);
                assert(crossings(g, k)[i] == cell(y, x));
            } else {
                vstd::arithmetic::div_mod::lemma_fundamental_div_mod_converse(k - 1, w, y, x);
                assert(crossings(g, k)[before.len() as int] == cell(y, x));
            }
        }
        assert forall|i: int| 0 <= i < crossings(g, k).len() implies is_crossing(
            g,
            ((#[trigger] crossings(g, k)[i]).0 as int, crossings(g, k)[i].1 as int),
        ) by {
            if i < before.len() {
                assert(crossings(g, k)[i] == before[i]);
            }
        }
    }
}

/// The cell next to a cell in a direction, if it is in the picture.
pub fn step(grid: &ByteGrid, pos: (usize, usize), d: usize) -> (r: Option<(usize, usize)>)
    requires
        is_forest(grid@),
        d < 4,
        inside(grid@, (pos.0 as int, pos.1 as int)),
    ensures
        match r {
            Some(q) => (q.0 as int, q.1 as int) == moved((pos.0 as int, pos.1 as int), d as int)
                && inside(grid@, (q.0 as int, q.1 as int)),
            None => !inside(grid@, moved((pos.0 as int, pos.1 as int), d as int)),
        },
{
    let h = grid.height();
    let w = grid.width();
    proof {
        assert(grid@[0].len() == w);
    }
    if d == 0 {
        if pos.1 + 1 < w {
            Some((pos.0, pos.1 + 1))
        } else {
            None
        }
    } else if d == 1 {
        if pos.0 + 1 < h {
            Some((pos.0 + 1, pos.1))
        } else {
            None
        }
    } else if d == 2 {
        if pos.1 > 0 {
            Some((pos.0, pos.1 - 1))
        } else {
            None
        }
    } else {
        if pos.0 > 0 {
            Some((pos.0 - 1, pos.1))
        } else {
            None
        }
    }
}

/// The cell next to a cell in a direction, if one can walk on it.
pub fn neighbour(grid: &ByteGrid, pos: (usize, usize), d: usize) -> (r: Option<(usize, usize)>)
    requires
        is_forest(grid@),
        d < 4,
        inside(grid@, (pos.0 as int, pos.1 as int)),
    ensures
        match r {
            Some(q) => (q.0 as int, q.1 as int) == moved((pos.0 as int, pos.1 as int), d as int)
                && open_at(grid@, (q.0 as int, q.1 as int)),
            None => !open_at(grid@, moved((pos.0 as int, pos.1 as int), d as int)),
        },
{
    match step(grid, pos, d) {
        None => None,
        Some(q) => {
            let c = grid.get(q.0, q.1);
            if c == PATH || c == UP || c == RIGHT || c == DOWN || c == LEFT {
                Some(q)
            } else {
                None
            }
        },
    }
}

/// Whether the cell is a vertex.
pub fn vertex_at(grid: &ByteGrid, pos: (usize, usize)) -> (b: bool)
    requires
        is_forest(grid@),
        inside(grid@, (pos.0 as int, pos.1 as int)),
    ensures
        b == is_vertex(grid@, (pos.0 as int, pos.1 as int)),
{
    let h = grid.height();
    let w = grid.width();
    proof {
        assert(grid@[0].len() == w);
    }
    if pos.0 == 0 && pos.1 == 1 {
        return true;
    }
    if pos.0 == h - 1 && pos.1 == w - 2 {
        return true;
    }
    if pos.0 < 1 || pos.0 >= h - 1 || pos.1 < 1 || pos.1 >= w - 1 {
        return false;
    }
    if grid.get(pos.0, pos.1) == FOREST {
        return false;
    }
    let ghost p = (pos.0 as int, pos.1 as int);
    let mut n: usize = 0;
    let mut d: usize = 0;
    while d < 4
        invariant
            d <= 4,
            n <= d,
            is_forest(grid@),
            inside(grid@, p),
            p == (pos.0 as int, pos.1 as int),
            n == ways(grid@, p, d as int),
        decreases 4 - d,
    {
        if neighbour(grid, pos, d).is_some() {
            n += 1;
        }
        d += 1;
    }
    n > 2
}

/// The vertices of the picture.
pub fn find_vertices(grid: &ByteGrid) -> (r: Vec<(usize, usize)>)
    requires
        is_forest(grid@),
    ensures
        r@ == vertex_list(grid@),
        r@.len() <= MAX_CELLS + 2,
{
    let h = grid.height();
    let w = grid.width();
    let ghost g = grid@;
    proof {
        assert(g[0].len() == w);
    }
    let mut found: Vec<(usize, usize)> = Vec::new();
    found.push((0, 1));
    found.push((h - 1, w - 2));
    let mut y: usize = 0;
    proof {
        assert(found@ =~= seq![(0usize, 1usize), ((g.len() - 1) as usize, (g[0].len() - 2) as usize)]
            + crossings(g, 0));
        assert(0 * w == 0);
    }
    while y < h
        invariant
            y <= h,
            h == g.len(),
            w == g[0].len(),
            g == grid@,
            is_forest(g),
            found@ == seq![(0usize, 1usize), ((g.len() - 1) as usize, (g[0].len() - 2) as usize)]
                + crossings(g, y * w),
            found@.len() <= 2 + y * w,
        decreases h - y,
    {
        let mut x: usize = 0;
        proof {
            assert(y * w + w == (y + 1) * w) by (nonlinear_arith);
            assert((y + 1) * w <= h * w) by (nonlinear_arith)
                requires
                    y + 1 <= h,
            ;
        }
        while x < w
            invariant
                x <= w,
                y < h,
                h == g.len(),
                w == g[0].len(),
                g == grid@,
                is_forest(g),
                y * w + w <= h * w,
                found@ == seq![(0usize, 1usize), ((g.len() - 1) as usize, (g[0].len() - 2) as usize)]
                    + crossings(g, y * w + x),
                found@.len() <= 2 + y * w + x,
            decreases w - x,
        {
            let ghost k = y * w + x;
            proof {
                vstd::arithmetic::div_mod::lemma_fundamental_div_mod_converse(
                    k as int,
                    w as int,
                    y as int,
                    x as int,
                );
            }
            let inner = y >= 1 && y < h - 1 && x >= 1 && x < w - 1;
            if inner && vertex_at(grid, (y, x)) {
                found.push((y, x));
                proof {
                    assert(is_crossing(g, (y as int, x as int)));
                    assert(found@ =~= seq![
                        (0usize, 1usize),
                        ((g.len() - 1) as usize, (g[0].len() - 2) as usize),
                    ] + crossings(g, k + 1));
                }
            } else {
                proof {
                    assert(!is_crossing(g, (y as int, x as int)));
                }
            }
            x += 1;
        }
        y += 1;
    }
    found
}

/// The first direction, other than back, in which one can walk on.
pub fn find_turn(grid: &ByteGrid, pos: (usize, usize), d: usize) -> (r: Option<usize>)
    requires
        is_forest(grid@),
        d < 4,
        inside(grid@, (pos.0 as int, pos.1 as int)),
    ensures
        match r {
            Some(k) => k < 4 && turn(grid@, (pos.0 as int, pos.1 as int), d as int, 0) == Some(
                k as int,
            ),
            None => turn(grid@, (pos.0 as int, pos.1 as int), d as int, 0) is None,
        },
{
    let back = (d + 2) % 4;
    let ghost p = (pos.0 as int, pos.1 as int);
    let mut k: usize = 0;
    while k < 4
        invariant
            k <= 4,
            d < 4,
            back == against(d as int),
            is_forest(grid@),
            inside(grid@, p),
            p == (pos.0 as int, pos.1 as int),
            turn(grid@, p, d as int, 0) == turn(grid@, p, d as int, k as int),
        decreases 4 - k,
    {
        if k != back && neighbour(grid, pos, k).is_some() {
            return Some(k);
        }
        k += 1;
    }
    None
}

/// Walks from a cell in a direction to the next vertex.
#[verifier::loop_isolation(false)]
pub fn walk_to_next_vertex(grid: &ByteGrid, start_pos: (usize, usize), start_direction: usize, fuel: u32) -> (r:
    Option<((usize, usize), u32)>)
    requires
        is_forest(grid@),
        start_direction < 4,
        inside(grid@, (start_pos.0 as int, start_pos.1 as int)),
    ensures
        match walk(
            grid@,
            (start_pos.0 as int, start_pos.1 as int),
            start_direction as int,
            0,
            fuel as nat,
        ) {
            Some((q, steps)) => r == Some(((q.0 as usize, q.1 as usize), steps as u32)) && inside(
                grid@,
                q,
            ) && is_vertex(grid@, q) && 1 <= steps <= fuel,
            None => r is None,
        },
{
    let ghost g = grid@;
    let ghost first = (start_pos.0 as int, start_pos.1 as int);
    let mut direction = start_direction;
    let mut pos = start_pos;
    let mut n_steps: u32 = 0;
    let mut left = fuel;
    while left > 0
        invariant
            g == grid@,
            is_forest(g),
            direction < 4,
            inside(g, (pos.0 as int, pos.1 as int)),
            n_steps + left <= fuel,
            walk(g, first, start_direction as int, 0, fuel as nat) == walk(
                g,
                (pos.0 as int, pos.1 as int),
                direction as int,
                n_steps as int,
                left as nat,
            ),
        decreases left,
    {
        let next_pos = match step(grid, pos, direction) {
            Some(q) => q,
            None => {
                return None;
            },
        };
        let c = grid.get(next_pos.0, next_pos.1);
        if c == FOREST {
            match find_turn(grid, pos, direction) {
                None => {
                    return None;
                },
                Some(d2) => {
                    direction = d2;
                },
            }
        } else {
            let allowed = c == PATH || (c == UP && direction == 3) || (c == RIGHT && direction == 0)
                || (c == DOWN && direction == 1) || (c == LEFT && direction == 2);
            if !allowed {
                return None;
            }
            pos = next_pos;
            n_steps += 1;
            if vertex_at(grid, pos) {
                return Some((pos, n_steps));
            }
        }
        left -= 1;
    }
    None
}

} // verus!
