//! The nodes of the search: one kind for each rule on runs.
use super::rules::{
    can_stop, height, is_grid, node_ok, start_node, step, width, Direction, NodeModel,
    Policy, BOUNDED_RUN_CAP, BOUNDED_RUN_REFILL, MAXIMUM_RUN, MINIMUM_RUN,
};
use super::CityMap;
use vstd::prelude::*;

verus! {

/// A node of the search under one of the rules: it knows its place and
/// direction, whether the mover may stop on it, and which nodes follow it.
pub trait Node: Sized + Copy {
    /// The rule that this kind of node keeps.
    spec fn policy() -> Policy;

    /// The node as mathematics.
    spec fn model(&self) -> NodeModel;

    /// The node that a search starts from.
    fn new(start_pos: (usize, usize), start_direction: Direction) -> (n: Self)
        ensures
            n.model() == start_node(
                Self::policy(),
                start_pos.0 as int,
                start_pos.1 as int,
                start_direction,
            ),
    ;

    /// Where the mover is, as (row, column).
    fn pos(&self) -> (p: (usize, usize))
        ensures
            p.0 == self.model().y,
            p.1 == self.model().x,
    ;

    /// The direction in which the mover came here.
    fn direction(&self) -> (d: Direction)
        ensures
            d == self.model().direction,
    ;

    /// The state of the run: steps left, or steps made.
    fn run(&self) -> (r: u8)
        ensures
            r == self.model().run,
    ;

    /// Whether the mover may end its path on this node.
    fn can_stop(&self) -> (b: bool)
        ensures
            b == can_stop(Self::policy(), self.model()),
    ;

    /// The node one step on in `direction`, if the grid has the cell and the
    /// rule allows the step.
    fn make_step(&self, map: &CityMap, direction: Direction) -> (r: Option<Self>)
        requires
            node_ok(Self::policy(), map@, self.model()),
        ensures
            r is Some <==> step(Self::policy(), map@, self.model(), direction) is Some,
            r is Some ==> step(Self::policy(), map@, self.model(), direction) == Some(
                r->Some_0.model(),
            ),
    ;

    /// The least cost of a walk from this node's cell to the bottom right cell.
    fn heuristic(&self, map: &CityMap) -> (c: u32)
        requires
            node_ok(Self::policy(), map@, self.model()),
        ensures
            c == map.heuristics()[self.model().y][self.model().x],
    ;

    /// The nodes one step on to the North, East, South and West, in that order.
    fn get_all_neighbours(&self, map: &CityMap) -> (r: [Option<Self>; 4])
        requires
            node_ok(Self::policy(), map@, self.model()),
        ensures
            r[0] is Some <==> step(Self::policy(), map@, self.model(), Direction::North) is Some,
            r[0] is Some ==> step(Self::policy(), map@, self.model(), Direction::North) == Some(
                r[0]->Some_0.model(),
            ),
            r[1] is Some <==> step(Self::policy(), map@, self.model(), Direction::East) is Some,
            r[1] is Some ==> step(Self::policy(), map@, self.model(), Direction::East) == Some(
                r[1]->Some_0.model(),
            ),
            r[2] is Some <==> step(Self::policy(), map@, self.model(), Direction::South) is Some,
            r[2] is Some ==> step(Self::policy(), map@, self.model(), Direction::South) == Some(
                r[2]->Some_0.model(),
            ),
            r[3] is Some <==> step(Self::policy(), map@, self.model(), Direction::West) is Some,
            r[3] is Some ==> step(Self::policy(), map@, self.model(), Direction::West) == Some(
                r[3]->Some_0.model(),
            ),
    {
        [
            self.make_step(map, Direction::North),
            self.make_step(map, Direction::East),
            self.make_step(map, Direction::South),
            self.make_step(map, Direction::West),
        ]
    }
}

/// `next` is what a step in direction `d` from `node` gives.
pub open spec fn follows<T: Node>(node: T, g: Seq<Seq<u8>>, d: Direction, next: Option<T>) -> bool {
    &&& next is Some <==> step(T::policy(), g, node.model(), d) is Some
    &&& next is Some ==> step(T::policy(), g, node.model(), d) == Some(next->Some_0.model())
}

/// A node under the bounded-run rule.
#[derive(Clone, Copy, Debug, PartialEq, Eq, Hash)]
pub struct Crucible {
    pub pos: (usize, usize),
    pub direction: Direction,
    /// How many more steps are allowed in `direction`.
    pub remaining_steps: u8,
}

impl Node for Crucible {
    open spec fn policy() -> Policy {
        Policy::BoundedRun
    }

    open spec fn model(&self) -> NodeModel {
        NodeModel {
            y: self.pos.0 as int,
            x: self.pos.1 as int,
            direction: self.direction,
            run: self.remaining_steps as int,
        }
    }

    fn new(start_pos: (usize, usize), start_direction: Direction) -> (n: Self) {
        Crucible { pos: start_pos, direction: start_direction, remaining_steps: BOUNDED_RUN_CAP }
    }

    fn pos(&self) -> (p: (usize, usize)) {
        self.pos
    }

    fn direction(&self) -> (d: Direction) {
        self.direction
    }

    fn run(&self) -> (r: u8) {
        self.remaining_steps
    }

    fn can_stop(&self) -> (b: bool) {
        true
    }

    fn make_step(&self, map: &CityMap, direction: Direction) -> (r: Option<Self>) {
        // the neighbour is on the map
        let neighbour_pos = match map.get_neighbour_pos(self.pos(), direction) {
            Some(p) => p,
            None => {
                return None;
            },
        };

        // the turn is allowed (not by 180 degrees)
        if self.direction == direction.opposite() {
            return None;
        }
        // the steps that remain are not exceeded

        if self.direction == direction && self.remaining_steps == 0 {
            return None;
        }
        let remaining_steps = if self.direction == direction {
            self.remaining_steps - 1
        } else {
            BOUNDED_RUN_REFILL
        };

        Some(Crucible { pos: neighbour_pos, direction, remaining_steps })
    }

    fn heuristic(&self, map: &CityMap) -> (c: u32) {
        map.heuristic_at(self.pos)
    }
}

/// A node under the minimum-run rule.
#[derive(Clone, Copy, Debug, PartialEq, Eq, Hash)]
pub struct UltraCrucible {
    pub pos: (usize, usize),
    pub direction: Direction,
    /// How many steps in a row were already made in `direction`.
    pub consecutive_steps: u8,
}

impl Node for UltraCrucible {
    open spec fn policy() -> Policy {
        Policy::MinimumRun
    }

    open spec fn model(&self) -> NodeModel {
        NodeModel {
            y: self.pos.0 as int,
            x: self.pos.1 as int,
            direction: self.direction,
            run: self.consecutive_steps as int,
        }
    }

    fn new(start_pos: (usize, usize), start_direction: Direction) -> (n: Self) {
        UltraCrucible { pos: start_pos, direction: start_direction, consecutive_steps: 0 }
    }

    fn pos(&self) -> (p: (usize, usize)) {
        self.pos
    }

    fn direction(&self) -> (d: Direction) {
        self.direction
    }

    fn run(&self) -> (r: u8) {
        self.consecutive_steps
    }

    fn can_stop(&self) -> (b: bool) {
        self.consecutive_steps >= MINIMUM_RUN
    }

    fn make_step(&self, map: &CityMap, direction: Direction) -> (r: Option<Self>) {
        // the neighbour is on the map
        let neighbour_pos = match map.get_neighbour_pos(self.pos(), direction) {
            Some(p) => p,
            None => {
                return None;
            },
        };

        // the turn is allowed (not by 180 degrees)
        if self.direction == direction.opposite() {
            return None;
        }
        // The run is neither too long nor, at a turn, too short. The node that
        // the search starts from has made no step and may turn at once.

        if self.direction == direction && self.consecutive_steps >= MAXIMUM_RUN
            && self.consecutive_steps != 0 {
            return None;
        }
        if self.direction != direction && self.consecutive_steps < MINIMUM_RUN
            && self.consecutive_steps != 0 {
            return None;
        }
        let consecutive_steps = if self.direction == direction {
            self.consecutive_steps + 1
        } else {
            1
        };

        Some(UltraCrucible { pos: neighbour_pos, direction, consecutive_steps })
    }

    fn heuristic(&self, map: &CityMap) -> (c: u32) {
        map.heuristic_at(self.pos)
    }
}

/// The number under which a node is kept in the tables of the search: the cell
/// row by row, then the direction, then the run state.
pub open spec fn key_of(g: Seq<Seq<u8>>, n: NodeModel) -> int {
    ((n.y * width(g) + n.x) * 4 + n.direction.index_spec()) * 11 + n.run
}

/// The number of keys that a grid has.
pub open spec fn key_count(g: Seq<Seq<u8>>) -> int {
    height(g) * width(g) * 44
}

/// Keys lie below the number of keys, and no two nodes share one.
pub proof fn lemma_keys(policy: Policy, g: Seq<Seq<u8>>, a: NodeModel, b: NodeModel)
    requires
        is_grid(g),
        node_ok(policy, g, a),
        node_ok(policy, g, b),
    ensures
        0 <= key_of(g, a) < key_count(g),
        key_of(g, a) == key_of(g, b) ==> a == b,
{
    let w = width(g);
    let h = height(g);
    let ca = a.y * w + a.x;
    let cb = b.y * w + b.x;
    assert(0 <= ca < h * w) by (nonlinear_arith)
        requires
            0 <= a.y < h,
            0 <= a.x < w,
            ca == a.y * w + a.x,
    ;
    assert(h * w * 44 == (h * w) * 44) by (nonlinear_arith);
    if key_of(g, a) == key_of(g, b) {
        let da = ca * 4 + a.direction.index_spec();
        let db = cb * 4 + b.direction.index_spec();
        assert(da * 11 + a.run == db * 11 + b.run);
        assert(da == db);
        assert(ca == cb);
        assert(a.y == b.y) by (nonlinear_arith)
            requires
                a.y * w + a.x == b.y * w + b.x,
                0 <= a.x < w,
                0 <= b.x < w,
        ;
    }
}

/// The key of a node.
pub fn node_key<T: Node>(map: &CityMap, node: &T) -> (k: u64)
    requires
        node_ok(T::policy(), map@, node.model()),
    ensures
        k == key_of(map@, node.model()),
{
    let cols = map.width();
    let pos = node.pos();
    proof {
        lemma_keys(T::policy(), map@, node.model(), node.model());
        let w = width(map@);
        let h = height(map@);
        assert(0 <= pos.0 * w + pos.1 < h * w) by (nonlinear_arith)
            requires
                0 <= pos.0 < h,
                0 <= pos.1 < w,
        ;
        assert(pos.0 * w <= pos.0 * w + pos.1);
        assert(0 <= pos.0 * w) by (nonlinear_arith)
            requires
                0 <= pos.0,
                0 <= w,
        ;
    }
    let cell: u64 = (pos.0 * cols + pos.1) as u64;
    (cell * 4 + node.direction().index() as u64) * 11 + node.run() as u64
}

} // verus!
