//! The table of least walk costs, filled from the bottom right cell outwards
//! by Dijkstra's algorithm.
use super::rules::{entry_cost, height, in_bounds, is_grid, neighbour, width, Direction};
use super::walks::{
    is_heuristic, is_least_walk_cost, lemma_direct_walk, lemma_walk_first_step, lemma_walk_ok,
    walk_arrives, walk_cost,
};
use crate::frontier::Frontier;
use crate::grids::{ByteGrid, CostGrid, FlagGrid};
use vstd::multiset::*;
use vstd::prelude::*;
use vstd::set_lib::*;

verus! {

/// The most cells that a grid may have: with entry costs of at most nine, the
/// cost of any path that a search looks at then fits in 32 bits.
pub const MAX_CELLS: usize = 10_000_000;

/// Every cell holds an entry cost of at most nine.
pub open spec fn is_digits(g: Seq<Seq<u8>>) -> bool {
    forall|y: int, x: int| in_bounds(g, y, x) ==> (#[trigger] g[y][x]) <= 9
}

/// The cell one step from `pos` in direction `d`, on a grid of the given size.
pub fn neighbour_pos(height: usize, width: usize, pos: (usize, usize), d: Direction) -> (r: Option<
    (usize, usize),
>)
    requires
        pos.0 < height,
        pos.1 < width,
    ensures
        r is Some <==> 0 <= pos.0 + d.dy_spec() < height && 0 <= pos.1 + d.dx_spec() < width,
        r is Some ==> r->Some_0.0 == pos.0 + d.dy_spec() && r->Some_0.1 == pos.1 + d.dx_spec(),
{
    match d {
        Direction::North => if pos.0 > 0 {
            Some((pos.0 - 1, pos.1))
        } else {
            None
        },
        Direction::South => if pos.0 + 1 < height {
            Some((pos.0 + 1, pos.1))
        } else {
            None
        },
        Direction::West => if pos.1 > 0 {
            Some((pos.0, pos.1 - 1))
        } else {
            None
        },
        Direction::East => if pos.1 + 1 < width {
            Some((pos.0, pos.1 + 1))
        } else {
            None
        },
    }
}

/// The state of the sweep: the costs found so far, the cells that are settled,
/// the queue, a walk for every cost found, and the settled cells by number.
pub struct Sweep {
    pub lowest: Seq<Seq<u32>>,
    pub visited: Seq<Seq<bool>>,
    pub frontier: Multiset<(u32, (usize, usize))>,
    pub walks: Map<(int, int), Seq<Direction>>,
    pub done: Set<int>,
}

/// No walk from `(y, x)` to the bottom right cell costs less than `c`.
pub open spec fn is_walk_floor(g: Seq<Seq<u8>>, y: int, x: int, c: int) -> bool {
    forall|ds: Seq<Direction>| #[trigger] walk_arrives(g, y, x, ds) ==> c <= walk_cost(g, y, x, ds)
}

/// The cost found for the neighbour in direction `d` is at most the cost
/// found for `(y, x)` plus the cost of entering `(y, x)`.
pub open spec fn relaxed(g: Seq<Seq<u8>>, lowest: Seq<Seq<u32>>, y: int, x: int, d: Direction) -> bool {
    match neighbour(g, y, x, d) {
        Some(cell) => lowest[cell.0][cell.1] <= lowest[y][x] + entry_cost(g, y, x),
        None => true,
    }
}

/// What holds of one cell during the sweep.
pub open spec fn cell_ok(g: Seq<Seq<u8>>, s: Sweep, cap: int, hole: Option<(int, int)>, y: int, x: int) -> bool {
    let c = s.lowest[y][x];
    &&& c < u32::MAX ==> {
        &&& s.walks.contains_key((y, x))
        &&& walk_arrives(g, y, x, s.walks[(y, x)])
        &&& walk_cost(g, y, x, s.walks[(y, x)]) == c
        &&& c <= cap
    }
    &&& c < u32::MAX && !s.visited[y][x] && hole != Some((y, x)) ==> s.frontier.count(
        (c, (y as usize, x as usize)),
    ) > 0
    &&& s.visited[y][x] ==> {
        &&& c < u32::MAX
        &&& is_walk_floor(g, y, x, c as int)
        &&& forall|d: Direction| #[trigger] relaxed(g, s.lowest, y, x, d)
    }
    &&& s.visited[y][x] <==> s.done.contains(y * width(g) + x)
}

/// What holds of one entry of the queue during the sweep.
pub open spec fn entry_ok(g: Seq<Seq<u8>>, s: Sweep, cap: int, e: (u32, (usize, usize))) -> bool {
    &&& in_bounds(g, e.1.0 as int, e.1.1 as int)
    &&& s.lowest[e.1.0 as int][e.1.1 as int] <= e.0
    &&& e.0 <= cap
}

/// The tables have the shape of the grid.
pub open spec fn tables_fit(g: Seq<Seq<u8>>, s: Sweep) -> bool {
    &&& s.lowest.len() == g.len()
    &&& s.visited.len() == g.len()
    &&& forall|y: int| 0 <= y < g.len() ==> (#[trigger] s.lowest[y]).len() == g[0].len()
    &&& forall|y: int| 0 <= y < g.len() ==> (#[trigger] s.visited[y]).len() == g[0].len()
}

/// What holds between two steps of the sweep. Costs found are at most `cap`;
/// the cell `hole`, if any, is being settled and has left the queue.
pub open spec fn sweep_inv(g: Seq<Seq<u8>>, s: Sweep, cap: int, hole: Option<(int, int)>) -> bool {
    &&& tables_fit(g, s)
    &&& s.lowest[height(g) - 1][width(g) - 1] == 0
    &&& forall|y: int, x: int| in_bounds(g, y, x) ==> #[trigger] cell_ok(g, s, cap, hole, y, x)
    &&& forall|e: (u32, (usize, usize))| s.frontier.count(e) > 0 ==> #[trigger] entry_ok(g, s, cap, e)
    &&& s.done.finite()
    &&& forall|i: int| #[trigger] s.done.contains(i) ==> 0 <= i < height(g) * width(g)
}

/// The number of a cell, row by row.
pub proof fn lemma_cell_number(g: Seq<Seq<u8>>, y: int, x: int, y2: int, x2: int)
    requires
        is_grid(g),
        in_bounds(g, y, x),
        in_bounds(g, y2, x2),
    ensures
        0 <= y * width(g) + x < height(g) * width(g),
        y * width(g) + x == y2 * width(g) + x2 ==> y == y2 && x == x2,
{
    let w = width(g);
    let h = height(g);
    assert(0 <= y * w + x < h * w) by (nonlinear_arith)
        requires
            0 <= y < h,
            0 <= x < w,
    ;
    if y * w + x == y2 * w + x2 {
        assert(y == y2) by (nonlinear_arith)
            requires
                y * w + x == y2 * w + x2,
                0 <= x < w,
                0 <= x2 < w,
        ;
    }
}

/// On every walk to the bottom right cell that starts at a cell that is not
/// settled, or passes one, some such cell has a cost found that is at most the
/// cost of the walk.
pub proof fn lemma_open_cell_on_walk(
    g: Seq<Seq<u8>>,
    s: Sweep,
    cap: int,
    y: int,
    x: int,
    ds: Seq<Direction>,
) -> (q: (int, int))
    requires
        is_grid(g),
        sweep_inv(g, s, cap, None),
        in_bounds(g, y, x),
        walk_arrives(g, y, x, ds),
    ensures
        s.visited[y][x] || (in_bounds(g, q.0, q.1) && !s.visited[q.0][q.1] && s.lowest[q.0][q.1]
            <= walk_cost(g, y, x, ds)),
    decreases ds.len(),
{
    assert(cell_ok(g, s, cap, None, y, x));
    if s.visited[y][x] {
        (y, x)
    } else if ds.len() == 0 {
        (y, x)
    } else {
        let d = ds[0];
        let rest = ds.drop_first();
        assert(ds =~= seq![d] + rest);
        lemma_walk_first_step(g, y, x, d, rest);
        assert(neighbour(g, y, x, d) is Some);
        let cell = neighbour(g, y, x, d)->Some_0;
        assert(in_bounds(g, cell.0, cell.1));
        assert(walk_arrives(g, cell.0, cell.1, rest));
        assert(walk_cost(g, y, x, ds) == entry_cost(g, cell.0, cell.1) + walk_cost(
            g,
            cell.0,
            cell.1,
            rest,
        ));
        let q = lemma_open_cell_on_walk(g, s, cap, cell.0, cell.1, rest);
        lemma_walk_ok(g, cell.0, cell.1, rest);
        assert(cell_ok(g, s, cap, None, cell.0, cell.1));
        if s.visited[cell.0][cell.1] {
            assert(is_walk_floor(g, cell.0, cell.1, s.lowest[cell.0][cell.1] as int));
            assert(s.lowest[cell.0][cell.1] <= walk_cost(g, cell.0, cell.1, rest));
            assert(neighbour(g, cell.0, cell.1, d.opposite_spec()) == Some((y, x)));
            assert(relaxed(g, s.lowest, cell.0, cell.1, d.opposite_spec()));
            (y, x)
        } else {
            q
        }
    }
}

/// When the queue has run empty, the costs found are the least walk costs.
pub proof fn lemma_sweep_done(g: Seq<Seq<u8>>, s: Sweep, cap: int)
    requires
        is_grid(g),
        is_digits(g),
        height(g) * width(g) <= MAX_CELLS,
        sweep_inv(g, s, cap, None),
        s.frontier.len() == 0,
    ensures
        is_heuristic(g, s.lowest),
{
    broadcast use group_multiset_axioms;

    let h = height(g);
    let w = width(g);
    assert(h <= h * w && w <= h * w) by (nonlinear_arith)
        requires
            h >= 1,
            w >= 1,
    ;
    assert forall|y: int, x: int| in_bounds(g, y, x) implies is_least_walk_cost(
        g,
        y,
        x,
        (#[trigger] s.lowest[y][x]) as int,
    ) by {
        assert(cell_ok(g, s, cap, None, y, x));
        assert forall|ds: Seq<Direction>| #[trigger] walk_arrives(g, y, x, ds) implies s.lowest[y][x]
            <= walk_cost(g, y, x, ds) by {
            let q = lemma_open_cell_on_walk(g, s, cap, y, x, ds);
            if !s.visited[y][x] {
                assert(cell_ok(g, s, cap, None, q.0, q.1));
                assert(s.frontier.count((s.lowest[q.0][q.1], (q.0 as usize, q.1 as usize))) == 0);
            }
        }
        let direct = lemma_direct_walk(g, y, x);
        assert(walk_arrives(g, y, x, direct));
        assert(s.lowest[y][x] < u32::MAX);
        assert(walk_arrives(g, y, x, s.walks[(y, x)]));
    }
}

/// Looks at the neighbour of `pos` in direction `d`: a walk from there through
/// `pos` costs `cost` plus the cost of entering `pos`. Where that is less than
/// the cost found so far, it takes its place. The neighbour joins the queue.
fn relax(
    grid: &ByteGrid,
    lowest: &mut CostGrid,
    frontier: &mut Frontier<(usize, usize)>,
    cost: u32,
    pos: (usize, usize),
    d: Direction,
    Ghost(visited): Ghost<Seq<Seq<bool>>>,
    Ghost(walks): Ghost<Map<(int, int), Seq<Direction>>>,
    Ghost(done): Ghost<Set<int>>,
    Ghost(cap): Ghost<int>,
) -> (new_walks: Ghost<Map<(int, int), Seq<Direction>>>)
    requires
        is_grid(grid@),
        is_digits(grid@),
        old(frontier).wf(),
        sweep_inv(
            grid@,
            Sweep { lowest: old(lowest)@, visited, frontier: old(frontier)@, walks, done },
            cap,
            Some((pos.0 as int, pos.1 as int)),
        ),
        in_bounds(grid@, pos.0 as int, pos.1 as int),
        cost == old(lowest)@[pos.0 as int][pos.1 as int],
        cost + 9 <= cap,
        cap < u32::MAX,
    ensures
        final(frontier).wf(),
        sweep_inv(
            grid@,
            Sweep {
                lowest: final(lowest)@,
                visited,
                frontier: final(frontier)@,
                walks: new_walks@,
                done,
            },
            cap,
            Some((pos.0 as int, pos.1 as int)),
        ),
        relaxed(grid@, final(lowest)@, pos.0 as int, pos.1 as int, d),
        final(lowest)@[pos.0 as int][pos.1 as int] == cost,
        forall|y: int, x: int|
            in_bounds(grid@, y, x) ==> (#[trigger] final(lowest)@[y][x]) <= old(lowest)@[y][x],
{
    broadcast use group_multiset_axioms;

    let ghost g = grid@;
    let ghost hole = Some((pos.0 as int, pos.1 as int));
    let ghost before = Sweep { lowest: lowest@, visited, frontier: frontier@, walks, done };
    let rows = grid.height();
    let cols = grid.width();
    let step_cost = grid.get(pos.0, pos.1);
    assert(g[pos.0 as int][pos.1 as int] <= 9);
    let near = neighbour_pos(rows, cols, pos, d);
    let ghost mut now_walks = walks;
    if let Some(cell) = near {
        let through: u32 = cost + step_cost as u32;
        proof {
            assert(cell_ok(g, before, cap, hole, cell.0 as int, cell.1 as int));
            assert(cell_ok(g, before, cap, hole, pos.0 as int, pos.1 as int));
        }
        let found = lowest.get(cell.0, cell.1);
        let ghost walk = seq![d.opposite_spec()] + walks[(pos.0 as int, pos.1 as int)];
        proof {
            lemma_walk_first_step(
                g,
                cell.0 as int,
                cell.1 as int,
                d.opposite_spec(),
                walks[(pos.0 as int, pos.1 as int)],
            );
            assert(neighbour(g, cell.0 as int, cell.1 as int, d.opposite_spec()) == Some(
                (pos.0 as int, pos.1 as int),
            ));
            assert(walk_arrives(g, cell.0 as int, cell.1 as int, walk));
            assert(walk_cost(g, cell.0 as int, cell.1 as int, walk) == through);
        }
        if through < found {
            lowest.set(cell.0, cell.1, through);
            proof {
                now_walks = walks.insert((cell.0 as int, cell.1 as int), walk);
            }
        }
        let queued = lowest.get(cell.0, cell.1);
        frontier.push(queued, cell);
        proof {
            let after = Sweep {
                lowest: lowest@,
                visited,
                frontier: frontier@,
                walks: now_walks,
                done,
            };
            assert(!visited[cell.0 as int][cell.1 as int] || found <= through);
            assert forall|y: int, x: int| in_bounds(g, y, x) implies #[trigger] cell_ok(
                g,
                after,
                cap,
                hole,
                y,
                x,
            ) by {
                assert(cell_ok(g, before, cap, hole, y, x));
                if before.visited[y][x] {
                    assert forall|e: Direction| #[trigger] relaxed(g, after.lowest, y, x, e) by {
                        assert(relaxed(g, before.lowest, y, x, e));
                    }
                }
            }
            assert forall|e: (u32, (usize, usize))| after.frontier.count(e) > 0 implies #[trigger] entry_ok(
                g,
                after,
                cap,
                e,
            ) by {
                if e != (queued, cell) {
                    assert(entry_ok(g, before, cap, e));
                }
            }
        }
    }
    Ghost(now_walks)
}

/// Finds for every cell the least cost of a walk from it to the bottom right
/// cell, where a walk pays the entry cost of each cell that it moves into and
/// no rule limits its runs or turns.
pub fn find_lowest_cost_to_target(grid: &ByteGrid) -> (table: CostGrid)
    requires
        is_grid(grid@),
        is_digits(grid@),
        height(grid@) * width(grid@) <= MAX_CELLS,
    ensures
        is_heuristic(grid@, table@),
{
    broadcast use group_multiset_axioms;

    let ghost g = grid@;
    let rows = grid.height();
    let cols = grid.width();
    let target = (rows - 1, cols - 1);
    proof {
        lemma_cell_number(g, 0, 0, 0, 0);
    }

    let mut lowest = CostGrid::from_elem(rows, cols, u32::MAX);
    let mut visited = FlagGrid::from_elem(rows, cols, false);
    let mut frontier: Frontier<(usize, usize)> = Frontier::new();
    lowest.set(target.0, target.1, 0);
    frontier.push(0, target);
    let ghost mut walks: Map<(int, int), Seq<Direction>> = Map::empty().insert(
        (target.0 as int, target.1 as int),
        Seq::<Direction>::empty(),
    );
    let ghost mut done: Set<int> = Set::empty();
    proof {
        let s = Sweep { lowest: lowest@, visited: visited@, frontier: frontier@, walks, done };
        assert forall|y: int, x: int| in_bounds(g, y, x) implies #[trigger] cell_ok(
            g,
            s,
            0,
            None,
            y,
            x,
        ) by {}
    }

    loop
        invariant
            is_grid(g),
            is_digits(g),
            g == grid@,
            rows == height(g),
            cols == width(g),
            height(g) * width(g) <= MAX_CELLS,
            frontier.wf(),
            sweep_inv(
                g,
                Sweep { lowest: lowest@, visited: visited@, frontier: frontier@, walks, done },
                9 * done.len() as int,
                None,
            ),
        ensures
            frontier@.len() == 0,
            sweep_inv(
                g,
                Sweep { lowest: lowest@, visited: visited@, frontier: frontier@, walks, done },
                9 * done.len() as int,
                None,
            ),
        decreases height(g) * width(g) - done.len(), frontier@.len(),
    {
        let ghost before = Sweep {
            lowest: lowest@,
            visited: visited@,
            frontier: frontier@,
            walks,
            done,
        };
        let ghost cap: int = 9 * done.len() as int;
        proof {
            lemma_int_range(0, height(g) * width(g));
            assert(done.subset_of(set_int_range(0, height(g) * width(g))));
            lemma_len_subset(done, set_int_range(0, height(g) * width(g)));
        }
        let popped = frontier.pop();
        if popped.is_none() {
            break ;
        }
        let (cost, pos) = popped.unwrap();
        let ghost popped_state = Sweep {
            lowest: lowest@,
            visited: visited@,
            frontier: frontier@,
            walks,
            done,
        };
        proof {
            assert(entry_ok(g, before, cap, (cost, pos)));
            let hole: Option<(int, int)> = if visited@[pos.0 as int][pos.1 as int] {
                None
            } else {
                Some((pos.0 as int, pos.1 as int))
            };
            assert forall|y: int, x: int| in_bounds(g, y, x) implies #[trigger] cell_ok(
                g,
                popped_state,
                cap,
                hole,
                y,
                x,
            ) by {
                assert(cell_ok(g, before, cap, None, y, x));
            }
            assert forall|e: (u32, (usize, usize))| popped_state.frontier.count(e) > 0 implies #[trigger] entry_ok(
                g,
                popped_state,
                cap,
                e,
            ) by {
                assert(entry_ok(g, before, cap, e));
            }
        }
        if visited.get(pos.0, pos.1) {
            continue ;
        }
        let ghost number: int = pos.0 * width(g) + pos.1;
        proof {
            // The cell is new: its cost is final, and no walk from it is cheaper.
            assert(cell_ok(g, before, cap, None, pos.0 as int, pos.1 as int));
            assert(before.frontier.count((lowest@[pos.0 as int][pos.1 as int], pos)) > 0);
            assert(cost == lowest@[pos.0 as int][pos.1 as int]);
            assert forall|ds: Seq<Direction>| #[trigger]
                walk_arrives(g, pos.0 as int, pos.1 as int, ds) implies cost <= walk_cost(
                g,
                pos.0 as int,
                pos.1 as int,
                ds,
            ) by {
                let q = lemma_open_cell_on_walk(g, before, cap, pos.0 as int, pos.1 as int, ds);
                assert(cell_ok(g, before, cap, None, q.0, q.1));
                if before.lowest[q.0][q.1] < u32::MAX {
                    assert(before.frontier.count(
                        (before.lowest[q.0][q.1], (q.0 as usize, q.1 as usize)),
                    ) > 0);
                }
            }
            lemma_cell_number(g, pos.0 as int, pos.1 as int, 0, 0);
            assert(!done.contains(number));
            assert(done.insert(number).len() == done.len() + 1);
            assert(done.insert(number).subset_of(set_int_range(0, height(g) * width(g))));
            lemma_len_subset(done.insert(number), set_int_range(0, height(g) * width(g)));
            assert forall|y: int, x: int| in_bounds(g, y, x) implies #[trigger] cell_ok(
                g,
                popped_state,
                cap + 9,
                Some((pos.0 as int, pos.1 as int)),
                y,
                x,
            ) by {
                assert(cell_ok(g, popped_state, cap, Some((pos.0 as int, pos.1 as int)), y, x));
            }
            assert forall|e: (u32, (usize, usize))| popped_state.frontier.count(e) > 0 implies #[trigger] entry_ok(
                g,
                popped_state,
                cap + 9,
                e,
            ) by {
                assert(entry_ok(g, popped_state, cap, e));
            }
        }
        let ghost lowest0 = lowest@;
        let w1 = relax(
            grid,
            &mut lowest,
            &mut frontier,
            cost,
            pos,
            Direction::South,
            Ghost(visited@),
            Ghost(walks),
            Ghost(done),
            Ghost(cap + 9),
        );
        let ghost lowest1 = lowest@;
        let w2 = relax(
            grid,
            &mut lowest,
            &mut frontier,
            cost,
            pos,
            Direction::West,
            Ghost(visited@),
            w1,
            Ghost(done),
            Ghost(cap + 9),
        );
        let ghost lowest2 = lowest@;
        let w3 = relax(
            grid,
            &mut lowest,
            &mut frontier,
            cost,
            pos,
            Direction::North,
            Ghost(visited@),
            w2,
            Ghost(done),
            Ghost(cap + 9),
        );
        let ghost lowest3 = lowest@;
        let w4 = relax(
            grid,
            &mut lowest,
            &mut frontier,
            cost,
            pos,
            Direction::East,
            Ghost(visited@),
            w3,
            Ghost(done),
            Ghost(cap + 9),
        );
        let ghost relaxed_state = Sweep {
            lowest: lowest@,
            visited: visited@,
            frontier: frontier@,
            walks: w4@,
            done,
        };
        visited.set(pos.0, pos.1, true);
        proof {
            walks = w4@;
            done = done.insert(number);
            let after = Sweep {
                lowest: lowest@,
                visited: visited@,
                frontier: frontier@,
                walks,
                done,
            };
            assert forall|d: Direction| #[trigger]
                relaxed(g, lowest@, pos.0 as int, pos.1 as int, d) by {
                let near = neighbour(g, pos.0 as int, pos.1 as int, d);
                if near is Some {
                    let cell = near->Some_0;
                    assert(lowest@[cell.0][cell.1] <= lowest3[cell.0][cell.1]);
                    assert(lowest3[cell.0][cell.1] <= lowest2[cell.0][cell.1]);
                    assert(lowest2[cell.0][cell.1] <= lowest1[cell.0][cell.1]);
                    assert(relaxed(g, lowest1, pos.0 as int, pos.1 as int, Direction::South));
                    assert(relaxed(g, lowest2, pos.0 as int, pos.1 as int, Direction::West));
                    assert(relaxed(g, lowest3, pos.0 as int, pos.1 as int, Direction::North));
                    assert(relaxed(g, lowest@, pos.0 as int, pos.1 as int, Direction::East));
                }
            }
            assert forall|y: int, x: int| in_bounds(g, y, x) implies #[trigger] cell_ok(
                g,
                after,
                9 * done.len() as int,
                None,
                y,
                x,
            ) by {
                assert(cell_ok(
                    g,
                    relaxed_state,
                    cap + 9,
                    Some((pos.0 as int, pos.1 as int)),
                    y,
                    x,
                ));
                lemma_cell_number(g, y, x, pos.0 as int, pos.1 as int);
                if y == pos.0 && x == pos.1 {
                } else {
                    assert(after.visited[y][x] == relaxed_state.visited[y][x]);
                    if after.visited[y][x] {
                        assert forall|e: Direction| #[trigger]
                            relaxed(g, after.lowest, y, x, e) by {
                            assert(relaxed(g, relaxed_state.lowest, y, x, e));
                        }
                    }
                }
            }
            assert forall|e: (u32, (usize, usize))| after.frontier.count(e) > 0 implies #[trigger] entry_ok(
                g,
                after,
                9 * done.len() as int,
                e,
            ) by {
                assert(entry_ok(g, relaxed_state, cap + 9, e));
            }
        }
    }
    proof {
        lemma_sweep_done(
            g,
            Sweep { lowest: lowest@, visited: visited@, frontier: frontier@, walks, done },
            9 * done.len() as int,
        );
    }
    lowest
}

} // verus!
