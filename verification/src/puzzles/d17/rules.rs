//! The rules of movement as mathematics: grids, nodes, steps, paths and what
//! it means for a cost to be the cheapest.
use vstd::prelude::*;

verus! {

/// The most steps in a row that the bounded-run rule allows.
pub const BOUNDED_RUN_CAP: u8 = 3;

/// What the bounded-run rule leaves of the run after a turn.
pub const BOUNDED_RUN_REFILL: u8 = 2;

/// The fewest steps in a row before the minimum-run rule allows a turn or a stop.
pub const MINIMUM_RUN: u8 = 4;

/// The most steps in a row that the minimum-run rule allows.
pub const MAXIMUM_RUN: u8 = 10;

/// A compass direction. North is towards row 0, West towards column 0.
#[derive(Clone, Copy, Debug, PartialEq, Eq, Hash, Structural)]
pub enum Direction {
    North,
    East,
    South,
    West,
}

impl Direction {
    /// The change of column that one step makes.
    pub open spec fn dx_spec(self) -> int {
        match self {
            Direction::North | Direction::South => 0,
            Direction::East => 1,
            Direction::West => -1,
        }
    }

    /// The change of row that one step makes.
    pub open spec fn dy_spec(self) -> int {
        match self {
            Direction::East | Direction::West => 0,
            Direction::North => -1,
            Direction::South => 1,
        }
    }

    /// The direction turned by 180 degrees.
    pub open spec fn opposite_spec(self) -> Direction {
        match self {
            Direction::North => Direction::South,
            Direction::East => Direction::West,
            Direction::South => Direction::North,
            Direction::West => Direction::East,
        }
    }

    /// A number for the direction, from 0 for North clockwise to 3 for West.
    pub open spec fn index_spec(self) -> int {
        match self {
            Direction::North => 0,
            Direction::East => 1,
            Direction::South => 2,
            Direction::West => 3,
        }
    }

    /// The change of column that one step makes.
    pub fn dx(&self) -> (r: isize)
        ensures
            r == self.dx_spec(),
    {
        match self {
            Direction::North | Direction::South => 0,
            Direction::East => 1,
            Direction::West => -1,
        }
    }

    /// The change of row that one step makes.
    pub fn dy(&self) -> (r: isize)
        ensures
            r == self.dy_spec(),
    {
        match self {
            Direction::East | Direction::West => 0,
            Direction::North => -1,
            Direction::South => 1,
        }
    }

    /// The direction turned by 180 degrees.
    pub fn opposite(&self) -> (r: Direction)
        ensures
            r == self.opposite_spec(),
    {
        match self {
            Direction::North => Direction::South,
            Direction::East => Direction::West,
            Direction::South => Direction::North,
            Direction::West => Direction::East,
        }
    }

    /// A number for the direction, from 0 for North clockwise to 3 for West.
    pub fn index(&self) -> (r: u8)
        ensures
            r == self.index_spec(),
    {
        match self {
            Direction::North => 0,
            Direction::East => 1,
            Direction::South => 2,
            Direction::West => 3,
        }
    }
}

/// The two rules on runs.
pub enum Policy {
    /// At most three steps in a row in one direction; a turn is always allowed.
    BoundedRun,
    /// At least four steps in a row before a turn or a stop, and at most ten.
    MinimumRun,
}

/// A node of the search: where the mover is, the direction in which it came
/// there, and the state of its run. For the bounded-run rule `run` is the number
/// of steps still allowed in `direction`; for the minimum-run rule it is the
/// number of steps already made in `direction`.
pub struct NodeModel {
    pub y: int,
    pub x: int,
    pub direction: Direction,
    pub run: int,
}

/// A grid has at least one cell, and its rows are equally long.
pub open spec fn is_grid(g: Seq<Seq<u8>>) -> bool {
    &&& g.len() > 0
    &&& g[0].len() > 0
    &&& forall|y: int| 0 <= y < g.len() ==> (#[trigger] g[y]).len() == g[0].len()
}

/// The number of rows.
pub open spec fn height(g: Seq<Seq<u8>>) -> int {
    g.len() as int
}

/// The number of columns.
pub open spec fn width(g: Seq<Seq<u8>>) -> int {
    g[0].len() as int
}

/// Whether row `y`, column `x` is a cell of the grid.
pub open spec fn in_bounds(g: Seq<Seq<u8>>, y: int, x: int) -> bool {
    0 <= y < height(g) && 0 <= x < width(g)
}

/// The cost of moving into the cell at row `y`, column `x`.
pub open spec fn entry_cost(g: Seq<Seq<u8>>, y: int, x: int) -> int {
    g[y][x] as int
}

/// The cell one step from `(y, x)` in direction `d`, if the grid has it.
pub open spec fn neighbour(g: Seq<Seq<u8>>, y: int, x: int, d: Direction) -> Option<(int, int)> {
    if in_bounds(g, y + d.dy_spec(), x + d.dx_spec()) {
        Some((y + d.dy_spec(), x + d.dx_spec()))
    } else {
        None
    }
}

/// The largest value that the run state takes under a rule.
pub open spec fn run_limit(policy: Policy) -> int {
    match policy {
        Policy::BoundedRun => BOUNDED_RUN_CAP as int,
        Policy::MinimumRun => MAXIMUM_RUN as int,
    }
}

/// A node stands on the grid and its run state is within the rule's limit.
pub open spec fn node_ok(policy: Policy, g: Seq<Seq<u8>>, n: NodeModel) -> bool {
    in_bounds(g, n.y, n.x) && 0 <= n.run <= run_limit(policy)
}

/// The node that a search starts from.
pub open spec fn start_node(policy: Policy, y: int, x: int, d: Direction) -> NodeModel {
    NodeModel {
        y,
        x,
        direction: d,
        run: match policy {
            Policy::BoundedRun => BOUNDED_RUN_CAP as int,
            Policy::MinimumRun => 0,
        },
    }
}

/// The run state after a step in direction `d`, or `None` where the rule
/// forbids the step: a reversal is never allowed; going straight on needs
/// steps left, or a run below the cap; a turn under the minimum-run rule needs a
/// run of at least four, or none at all.
pub open spec fn run_after(policy: Policy, n: NodeModel, d: Direction) -> Option<int> {
    if n.direction == d.opposite_spec() {
        None
    } else {
        match policy {
            Policy::BoundedRun => if n.direction == d {
                if n.run > 0 {
                    Some(n.run - 1)
                } else {
                    None
                }
            } else {
                Some(BOUNDED_RUN_REFILL as int)
            },
            Policy::MinimumRun => if n.direction == d {
                if n.run < MAXIMUM_RUN {
                    Some(n.run + 1)
                } else {
                    None
                }
            } else {
                if n.run >= MINIMUM_RUN || n.run == 0 {
                    Some(1)
                } else {
                    None
                }
            },
        }
    }
}

/// The node reached from `n` by one step in direction `d`, if the grid has the
/// cell and the rule allows the step.
pub open spec fn step(policy: Policy, g: Seq<Seq<u8>>, n: NodeModel, d: Direction) -> Option<
    NodeModel,
> {
    match (neighbour(g, n.y, n.x, d), run_after(policy, n, d)) {
        (Some(cell), Some(run)) => Some(NodeModel { y: cell.0, x: cell.1, direction: d, run }),
        _ => None,
    }
}

/// Whether the mover may end its path at this node.
pub open spec fn can_stop(policy: Policy, n: NodeModel) -> bool {
    match policy {
        Policy::BoundedRun => true,
        Policy::MinimumRun => n.run >= MINIMUM_RUN,
    }
}

/// The node at the end of the steps `ds` taken from `from`, or `None` if one
/// of the steps is not allowed.
pub open spec fn path_end(
    policy: Policy,
    g: Seq<Seq<u8>>,
    from: NodeModel,
    ds: Seq<Direction>,
) -> Option<NodeModel>
    decreases ds.len(),
{
    if ds.len() == 0 {
        Some(from)
    } else {
        match path_end(policy, g, from, ds.drop_last()) {
            Some(m) => step(policy, g, m, ds.last()),
            None => None,
        }
    }
}

/// The sum of the entry costs of the cells that the steps `ds` move into.
pub open spec fn path_cost(
    policy: Policy,
    g: Seq<Seq<u8>>,
    from: NodeModel,
    ds: Seq<Direction>,
) -> int
    decreases ds.len(),
{
    if ds.len() == 0 {
        0
    } else {
        match path_end(policy, g, from, ds) {
            Some(m) => path_cost(policy, g, from, ds.drop_last()) + entry_cost(g, m.y, m.x),
            None => 0,
        }
    }
}

/// Where every search starts: the top left cell, heading South.
pub open spec fn origin(policy: Policy) -> NodeModel {
    start_node(policy, 0, 0, Direction::South)
}

/// Whether the node stands on the bottom right cell and may stop there.
pub open spec fn accepting(policy: Policy, g: Seq<Seq<u8>>, n: NodeModel) -> bool {
    n.y == height(g) - 1 && n.x == width(g) - 1 && can_stop(policy, n)
}

/// The steps `ds` lead from the origin to the bottom right cell, and the mover
/// may stop there.
pub open spec fn arrives(policy: Policy, g: Seq<Seq<u8>>, ds: Seq<Direction>) -> bool {
    match path_end(policy, g, origin(policy), ds) {
        Some(m) => accepting(policy, g, m),
        None => false,
    }
}

/// `result` is the answer of the search: the least cost of a path that
/// arrives, or `None` where no path arrives.
pub open spec fn is_cheapest(policy: Policy, g: Seq<Seq<u8>>, result: Option<u32>) -> bool {
    match result {
        Some(c) => {
            &&& exists|ds: Seq<Direction>| #[trigger]
                arrives(policy, g, ds) && path_cost(policy, g, origin(policy), ds) == c
            &&& forall|ds: Seq<Direction>| #[trigger]
                arrives(policy, g, ds) ==> c <= path_cost(policy, g, origin(policy), ds)
        },
        None => forall|ds: Seq<Direction>| !#[trigger] arrives(policy, g, ds),
    }
}

/// A step leads to a node on the grid, one cell away, with its run state
/// within the limit.
pub proof fn lemma_step_ok(policy: Policy, g: Seq<Seq<u8>>, n: NodeModel, d: Direction)
    requires
        node_ok(policy, g, n),
        step(policy, g, n, d) is Some,
    ensures
        node_ok(policy, g, step(policy, g, n, d)->Some_0),
        neighbour(g, n.y, n.x, d) == Some(
            (step(policy, g, n, d)->Some_0.y, step(policy, g, n, d)->Some_0.x),
        ),
        step(policy, g, n, d)->Some_0.direction == d,
{
}

/// Every node on a path stands on the grid with its run state within the limit.
pub proof fn lemma_path_ok(policy: Policy, g: Seq<Seq<u8>>, from: NodeModel, ds: Seq<Direction>)
    requires
        node_ok(policy, g, from),
        path_end(policy, g, from, ds) is Some,
    ensures
        node_ok(policy, g, path_end(policy, g, from, ds)->Some_0),
        path_cost(policy, g, from, ds) >= 0,
    decreases ds.len(),
{
    if ds.len() > 0 {
        lemma_path_ok(policy, g, from, ds.drop_last());
        lemma_step_ok(policy, g, path_end(policy, g, from, ds.drop_last())->Some_0, ds.last());
    }
}

/// One more step at the end of a path.
pub proof fn lemma_path_push(
    policy: Policy,
    g: Seq<Seq<u8>>,
    from: NodeModel,
    ds: Seq<Direction>,
    d: Direction,
)
    requires
        path_end(policy, g, from, ds) is Some,
        step(policy, g, path_end(policy, g, from, ds)->Some_0, d) is Some,
    ensures
        path_end(policy, g, from, ds.push(d)) == step(
            policy,
            g,
            path_end(policy, g, from, ds)->Some_0,
            d,
        ),
        path_cost(policy, g, from, ds.push(d)) == path_cost(policy, g, from, ds) + entry_cost(
            g,
            path_end(policy, g, from, ds.push(d))->Some_0.y,
            path_end(policy, g, from, ds.push(d))->Some_0.x,
        ),
{
    assert(ds.push(d).drop_last() =~= ds);
}

} // verus!
