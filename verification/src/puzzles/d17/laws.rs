//! What holds of the search whatever the grid.
use super::rules::{
    arrives, height, in_bounds, is_cheapest, is_grid, neighbour, node_ok, origin, path_cost,
    path_end, step, width, Direction, NodeModel, Policy,
};
use super::walks::{is_heuristic, lemma_heuristic_along_path, lemma_heuristic_at_target};
use vstd::prelude::*;

verus! {

/// Two grids have the same numbers of rows and columns.
pub open spec fn same_shape(a: Seq<Seq<u8>>, b: Seq<Seq<u8>>) -> bool {
    height(a) == height(b) && width(a) == width(b)
}

/// No cell of `low` holds a higher cost than the same cell of `high`.
pub open spec fn nowhere_dearer(low: Seq<Seq<u8>>, high: Seq<Seq<u8>>) -> bool {
    forall|y: int, x: int| in_bounds(low, y, x) ==> (#[trigger] low[y][x]) <= high[y][x]
}

/// The table of least walk costs never overestimates: its value at a node's
/// cell is at most the cost of any path from that node to the bottom right cell
/// that keeps to a rule.
pub proof fn lemma_heuristic_admissible(
    policy: Policy,
    g: Seq<Seq<u8>>,
    h: Seq<Seq<u32>>,
    from: NodeModel,
    ds: Seq<Direction>,
)
    requires
        is_grid(g),
        is_heuristic(g, h),
        node_ok(policy, g, from),
        path_end(policy, g, from, ds) is Some,
        path_end(policy, g, from, ds)->Some_0.y == height(g) - 1,
        path_end(policy, g, from, ds)->Some_0.x == width(g) - 1,
    ensures
        h[from.y][from.x] <= path_cost(policy, g, from, ds),
{
    lemma_heuristic_along_path(policy, g, h, from, ds);
    lemma_heuristic_at_target(g, h);
}

/// The answer of a search is fixed by the grid and the rule: whatever the
/// order in which a search takes entries of equal priority from its queue, and
/// however often it runs, it gives the same answer.
pub proof fn lemma_cheapest_is_unique(
    policy: Policy,
    g: Seq<Seq<u8>>,
    first: Option<u32>,
    second: Option<u32>,
)
    requires
        is_cheapest(policy, g, first),
        is_cheapest(policy, g, second),
    ensures
        first == second,
{
    if first is Some {
        let ds = choose|ds: Seq<Direction>| #[trigger]
            arrives(policy, g, ds) && path_cost(policy, g, origin(policy), ds) == first->Some_0;
        assert(arrives(policy, g, ds));
    }
    if second is Some {
        let ds = choose|ds: Seq<Direction>| #[trigger]
            arrives(policy, g, ds) && path_cost(policy, g, origin(policy), ds) == second->Some_0;
        assert(arrives(policy, g, ds));
    }
}

/// Which steps a path may take depends on the shape of the grid alone, and
/// where no cost is lower, no path is cheaper.
pub proof fn lemma_path_on_dearer_grid(
    policy: Policy,
    low: Seq<Seq<u8>>,
    high: Seq<Seq<u8>>,
    from: NodeModel,
    ds: Seq<Direction>,
)
    requires
        is_grid(low),
        is_grid(high),
        same_shape(low, high),
        nowhere_dearer(low, high),
        node_ok(policy, low, from),
    ensures
        path_end(policy, low, from, ds) == path_end(policy, high, from, ds),
        path_cost(policy, low, from, ds) <= path_cost(policy, high, from, ds),
    decreases ds.len(),
{
    if ds.len() > 0 {
        lemma_path_on_dearer_grid(policy, low, high, from, ds.drop_last());
        let before = path_end(policy, low, from, ds.drop_last());
        if before is Some {
            let m = before->Some_0;
            assert(neighbour(low, m.y, m.x, ds.last()) == neighbour(high, m.y, m.x, ds.last()));
            assert(step(policy, low, m, ds.last()) == step(policy, high, m, ds.last()));
            let after = step(policy, low, m, ds.last());
            if after is Some {
                assert(in_bounds(low, after->Some_0.y, after->Some_0.x));
                assert(low[after->Some_0.y][after->Some_0.x] <= high[after->Some_0.y][after->Some_0.x]);
            }
        }
    }
}

/// Raising costs never lowers the answer: on a grid of the same shape where no
/// cell is cheaper, a path arrives if and only if it did before, and the
/// cheapest one costs at least as much.
pub proof fn lemma_cheapest_is_monotone(
    policy: Policy,
    low: Seq<Seq<u8>>,
    high: Seq<Seq<u8>>,
    on_low: Option<u32>,
    on_high: Option<u32>,
)
    requires
        is_grid(low),
        is_grid(high),
        same_shape(low, high),
        nowhere_dearer(low, high),
        is_cheapest(policy, low, on_low),
        is_cheapest(policy, high, on_high),
    ensures
        on_low is None <==> on_high is None,
        on_low is Some ==> on_low->Some_0 <= on_high->Some_0,
{
    let o = origin(policy);
    assert(node_ok(policy, low, o));
    if on_high is Some {
        let ds = choose|ds: Seq<Direction>| #[trigger]
            arrives(policy, high, ds) && path_cost(policy, high, o, ds) == on_high->Some_0;
        lemma_path_on_dearer_grid(policy, low, high, o, ds);
        assert(arrives(policy, low, ds));
    }
    if on_low is Some {
        let ds = choose|ds: Seq<Direction>| #[trigger]
            arrives(policy, low, ds) && path_cost(policy, low, o, ds) == on_low->Some_0;
        lemma_path_on_dearer_grid(policy, low, high, o, ds);
        assert(arrives(policy, high, ds));
    }
}

/// On a grid of one cell no step is possible.
pub proof fn lemma_no_step_on_single_cell(policy: Policy, g: Seq<Seq<u8>>, ds: Seq<Direction>)
    requires
        is_grid(g),
        height(g) == 1,
        width(g) == 1,
        path_end(policy, g, origin(policy), ds) is Some,
    ensures
        ds.len() == 0,
    decreases ds.len(),
{
    if ds.len() > 0 {
        lemma_no_step_on_single_cell(policy, g, ds.drop_last());
        assert(ds.drop_last().len() == 0);
        assert(path_end(policy, g, origin(policy), ds.drop_last()) == Some(origin(policy)));
        assert(neighbour(g, 0, 0, ds.last()) is None);
    }
}

/// On a grid of one cell the mover is where it wants to be. Under the
/// bounded-run rule it may stop there, at no cost; under the minimum-run rule
/// it has made no run and can make none, so that no path arrives.
pub proof fn lemma_single_cell(g: Seq<Seq<u8>>)
    requires
        is_grid(g),
        height(g) == 1,
        width(g) == 1,
    ensures
        is_cheapest(Policy::BoundedRun, g, Some(0)),
        is_cheapest(Policy::MinimumRun, g, None),
{
    let none = Seq::<Direction>::empty();
    assert(arrives(Policy::BoundedRun, g, none));
    assert(path_cost(Policy::BoundedRun, g, origin(Policy::BoundedRun), none) == 0);
    assert forall|ds: Seq<Direction>| #[trigger] arrives(Policy::BoundedRun, g, ds) implies 0
        <= path_cost(Policy::BoundedRun, g, origin(Policy::BoundedRun), ds) by {
        lemma_no_step_on_single_cell(Policy::BoundedRun, g, ds);
    }
    assert forall|ds: Seq<Direction>| !#[trigger] arrives(Policy::MinimumRun, g, ds) by {
        if arrives(Policy::MinimumRun, g, ds) {
            lemma_no_step_on_single_cell(Policy::MinimumRun, g, ds);
        }
    }
}

} // verus!
