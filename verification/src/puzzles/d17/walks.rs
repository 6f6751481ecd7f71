//! Walks over the grid without any rule on runs, and the table of their least
//! costs: a lower bound for every path that keeps to a rule.
use super::rules::{
    entry_cost, height, in_bounds, is_grid, lemma_path_ok, lemma_step_ok, neighbour, node_ok,
    path_cost, path_end, width, Direction, NodeModel, Policy,
};
use vstd::prelude::*;

verus! {

/// The cell at the end of the steps `ds` taken from `(y, x)`, or `None` if
/// one of the steps leaves the grid.
pub open spec fn walk_end(g: Seq<Seq<u8>>, y: int, x: int, ds: Seq<Direction>) -> Option<
    (int, int),
>
    decreases ds.len(),
{
    if ds.len() == 0 {
        Some((y, x))
    } else {
        match walk_end(g, y, x, ds.drop_last()) {
            Some(cell) => neighbour(g, cell.0, cell.1, ds.last()),
            None => None,
        }
    }
}

/// The sum of the entry costs of the cells that the steps `ds` move into.
pub open spec fn walk_cost(g: Seq<Seq<u8>>, y: int, x: int, ds: Seq<Direction>) -> int
    decreases ds.len(),
{
    if ds.len() == 0 {
        0
    } else {
        match walk_end(g, y, x, ds) {
            Some(cell) => walk_cost(g, y, x, ds.drop_last()) + entry_cost(g, cell.0, cell.1),
            None => 0,
        }
    }
}

/// The steps `ds` lead from `(y, x)` to the bottom right cell.
pub open spec fn walk_arrives(g: Seq<Seq<u8>>, y: int, x: int, ds: Seq<Direction>) -> bool {
    walk_end(g, y, x, ds) == Some((height(g) - 1, width(g) - 1))
}

/// `c` is the least cost of a walk from `(y, x)` to the bottom right cell.
pub open spec fn is_least_walk_cost(g: Seq<Seq<u8>>, y: int, x: int, c: int) -> bool {
    &&& exists|ds: Seq<Direction>| #[trigger] walk_arrives(g, y, x, ds) && walk_cost(g, y, x, ds) == c
    &&& forall|ds: Seq<Direction>| #[trigger] walk_arrives(g, y, x, ds) ==> c <= walk_cost(g, y, x, ds)
}

/// `h` has the shape of `g`, and holds for every cell the least cost of a
/// walk from it to the bottom right cell.
pub open spec fn is_heuristic(g: Seq<Seq<u8>>, h: Seq<Seq<u32>>) -> bool {
    &&& h.len() == g.len()
    &&& forall|y: int| 0 <= y < g.len() ==> (#[trigger] h[y]).len() == g[0].len()
    &&& forall|y: int, x: int|
        in_bounds(g, y, x) ==> is_least_walk_cost(g, y, x, (#[trigger] h[y][x]) as int)
}

/// A walk ends on the grid, and costs nothing less than zero.
pub proof fn lemma_walk_ok(g: Seq<Seq<u8>>, y: int, x: int, ds: Seq<Direction>)
    requires
        in_bounds(g, y, x),
        walk_end(g, y, x, ds) is Some,
    ensures
        in_bounds(g, walk_end(g, y, x, ds)->Some_0.0, walk_end(g, y, x, ds)->Some_0.1),
        walk_cost(g, y, x, ds) >= 0,
    decreases ds.len(),
{
    if ds.len() > 0 {
        lemma_walk_ok(g, y, x, ds.drop_last());
    }
}

/// A walk that starts with a step in direction `d` is that step, and then the
/// rest of the walk from the neighbour.
pub proof fn lemma_walk_first_step(g: Seq<Seq<u8>>, y: int, x: int, d: Direction, rest: Seq<Direction>)
    ensures
        walk_end(g, y, x, seq![d] + rest) == match neighbour(g, y, x, d) {
            Some(cell) => walk_end(g, cell.0, cell.1, rest),
            None => None,
        },
        walk_end(g, y, x, seq![d] + rest) is Some ==> walk_cost(g, y, x, seq![d] + rest)
            == entry_cost(g, neighbour(g, y, x, d)->Some_0.0, neighbour(g, y, x, d)->Some_0.1)
            + walk_cost(
            g,
            neighbour(g, y, x, d)->Some_0.0,
            neighbour(g, y, x, d)->Some_0.1,
            rest,
        ),
    decreases rest.len(),
{
    let all = seq![d] + rest;
    if rest.len() == 0 {
        assert(all.drop_last() =~= Seq::<Direction>::empty());
        assert(all.last() == d);
        assert(walk_end(g, y, x, all.drop_last()) == Some((y, x)));
        assert(walk_cost(g, y, x, all.drop_last()) == 0);
        if neighbour(g, y, x, d) is Some {
            let cell = neighbour(g, y, x, d)->Some_0;
            assert(walk_end(g, cell.0, cell.1, rest) == Some(cell));
            assert(walk_cost(g, cell.0, cell.1, rest) == 0);
        }
    } else {
        assert(all.drop_last() =~= seq![d] + rest.drop_last());
        assert(all.last() == rest.last());
        lemma_walk_first_step(g, y, x, d, rest.drop_last());
        if walk_end(g, y, x, all) is Some {
            let cell = neighbour(g, y, x, d)->Some_0;
            assert(walk_end(g, y, x, all.drop_last()) is Some);
            assert(walk_end(g, cell.0, cell.1, rest) == walk_end(g, y, x, all));
            assert(walk_cost(g, y, x, all) == walk_cost(g, y, x, all.drop_last()) + entry_cost(
                g,
                walk_end(g, y, x, all)->Some_0.0,
                walk_end(g, y, x, all)->Some_0.1,
            ));
            assert(walk_cost(g, cell.0, cell.1, rest) == walk_cost(
                g,
                cell.0,
                cell.1,
                rest.drop_last(),
            ) + entry_cost(
                g,
                walk_end(g, y, x, all)->Some_0.0,
                walk_end(g, y, x, all)->Some_0.1,
            ));
        }
    }
}

/// A path that keeps to a rule is a walk to the same cell at the same cost.
pub proof fn lemma_path_is_walk(policy: Policy, g: Seq<Seq<u8>>, from: NodeModel, ds: Seq<Direction>)
    requires
        path_end(policy, g, from, ds) is Some,
    ensures
        walk_end(g, from.y, from.x, ds) == Some(
            (path_end(policy, g, from, ds)->Some_0.y, path_end(policy, g, from, ds)->Some_0.x),
        ),
        walk_cost(g, from.y, from.x, ds) == path_cost(policy, g, from, ds),
    decreases ds.len(),
{
    if ds.len() > 0 {
        lemma_path_is_walk(policy, g, from, ds.drop_last());
    }
}

/// From every cell a walk leads to the bottom right cell: down the column,
/// then along the bottom row. With entry costs of at most nine it costs at most
/// nine times the number of its steps.
pub proof fn lemma_direct_walk(g: Seq<Seq<u8>>, y: int, x: int) -> (ds: Seq<Direction>)
    requires
        is_grid(g),
        in_bounds(g, y, x),
        forall|r: int, c: int| in_bounds(g, r, c) ==> (#[trigger] g[r][c]) <= 9,
    ensures
        walk_arrives(g, y, x, ds),
        walk_cost(g, y, x, ds) <= 9 * ((height(g) - 1 - y) + (width(g) - 1 - x)),
    decreases (height(g) - 1 - y) + (width(g) - 1 - x),
{
    if y < height(g) - 1 {
        let rest = lemma_direct_walk(g, y + 1, x);
        lemma_walk_first_step(g, y, x, Direction::South, rest);
        assert(g[y + 1][x] <= 9);
        seq![Direction::South] + rest
    } else if x < width(g) - 1 {
        let rest = lemma_direct_walk(g, y, x + 1);
        lemma_walk_first_step(g, y, x, Direction::East, rest);
        assert(g[y][x + 1] <= 9);
        seq![Direction::East] + rest
    } else {
        Seq::<Direction>::empty()
    }
}

/// The table is consistent: a cell's value is at most the cost of entering a
/// neighbour plus the neighbour's value.
pub proof fn lemma_heuristic_consistent(
    g: Seq<Seq<u8>>,
    h: Seq<Seq<u32>>,
    y: int,
    x: int,
    d: Direction,
)
    requires
        is_grid(g),
        is_heuristic(g, h),
        in_bounds(g, y, x),
        neighbour(g, y, x, d) is Some,
    ensures
        h[y][x] <= entry_cost(g, neighbour(g, y, x, d)->Some_0.0, neighbour(g, y, x, d)->Some_0.1)
            + h[neighbour(g, y, x, d)->Some_0.0][neighbour(g, y, x, d)->Some_0.1],
{
    let cell = neighbour(g, y, x, d)->Some_0;
    assert(is_least_walk_cost(g, cell.0, cell.1, h[cell.0][cell.1] as int));
    let rest = choose|ds: Seq<Direction>| #[trigger]
        walk_arrives(g, cell.0, cell.1, ds) && walk_cost(g, cell.0, cell.1, ds)
            == h[cell.0][cell.1] as int;
    lemma_walk_first_step(g, y, x, d, rest);
    assert(is_least_walk_cost(g, y, x, h[y][x] as int));
    assert(walk_arrives(g, y, x, seq![d] + rest));
}

/// The table holds zero for the bottom right cell.
pub proof fn lemma_heuristic_at_target(g: Seq<Seq<u8>>, h: Seq<Seq<u32>>)
    requires
        is_grid(g),
        is_heuristic(g, h),
    ensures
        h[height(g) - 1][width(g) - 1] == 0,
{
    let y = height(g) - 1;
    let x = width(g) - 1;
    assert(is_least_walk_cost(g, y, x, h[y][x] as int));
    assert(walk_arrives(g, y, x, Seq::<Direction>::empty()));
}

/// With entry costs of at most nine, the value of a cell is at most nine times
/// its distance from the bottom right cell.
pub proof fn lemma_heuristic_bound(g: Seq<Seq<u8>>, h: Seq<Seq<u32>>, y: int, x: int)
    requires
        is_grid(g),
        is_heuristic(g, h),
        in_bounds(g, y, x),
        forall|r: int, c: int| in_bounds(g, r, c) ==> (#[trigger] g[r][c]) <= 9,
    ensures
        h[y][x] <= 9 * ((height(g) - 1 - y) + (width(g) - 1 - x)),
{
    let ds = lemma_direct_walk(g, y, x);
    assert(is_least_walk_cost(g, y, x, h[y][x] as int));
}

/// Along a path that keeps to a rule the table falls by no more than the path
/// costs: the value at the start is at most the cost of the path plus the value
/// at its end.
pub proof fn lemma_heuristic_along_path(
    policy: Policy,
    g: Seq<Seq<u8>>,
    h: Seq<Seq<u32>>,
    from: NodeModel,
    ds: Seq<Direction>,
)
    requires
        is_grid(g),
        is_heuristic(g, h),
        node_ok(policy, g, from),
        path_end(policy, g, from, ds) is Some,
    ensures
        h[from.y][from.x] <= path_cost(policy, g, from, ds) + h[path_end(
            policy,
            g,
            from,
            ds,
        )->Some_0.y][path_end(policy, g, from, ds)->Some_0.x],
    decreases ds.len(),
{
    if ds.len() > 0 {
        let before = path_end(policy, g, from, ds.drop_last())->Some_0;
        lemma_heuristic_along_path(policy, g, h, from, ds.drop_last());
        lemma_path_ok(policy, g, from, ds.drop_last());
        lemma_step_ok(policy, g, before, ds.last());
        lemma_heuristic_consistent(g, h, before.y, before.x, ds.last());
    }
}

} // verus!
