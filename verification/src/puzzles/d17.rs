//! The cheapest path across a grid of entry costs, for a mover that may not
//! reverse and that is held to a rule on how long it keeps its direction.
//!
//! A [`CityMap`] is read from text. With it comes a table that holds, for every
//! cell, the least cost of reaching the bottom right cell when no rule limits
//! the runs. The search uses that table to look first where the total is
//! likely to be lowest.
use crate::grids::{ByteGrid, CostGrid};
use vstd::prelude::*;

pub mod heuristic;
pub mod laws;
pub mod nodes;
pub mod rules;
pub mod search;
pub mod text;
pub mod walks;

use heuristic::{is_digits, neighbour_pos, MAX_CELLS};
use rules::{height, in_bounds, is_grid, neighbour, width, Direction};
use walks::is_heuristic;

verus! {

/// A grid of entry costs, each from 0 to 9, with the table of least walk
/// costs to its bottom right cell.
pub struct CityMap {
    grid: ByteGrid,
    /// For every cell the least cost of a walk from it to the bottom right
    /// cell, where no rule limits runs or turns.
    heur_cost_to_target: CostGrid,
}

impl View for CityMap {
    type V = Seq<Seq<u8>>;

    /// The entry costs, row by row.
    closed spec fn view(&self) -> Seq<Seq<u8>> {
        self.grid@
    }
}

impl CityMap {
    /// The table of least walk costs, row by row.
    pub closed spec fn heuristics(&self) -> Seq<Seq<u32>> {
        self.heur_cost_to_target@
    }

    /// What every `CityMap` is: a grid of digits, small enough for costs of 32
    /// bits, with the table of its least walk costs.
    #[verifier::type_invariant]
    pub open spec fn wf(&self) -> bool {
        &&& is_grid(self@)
        &&& is_digits(self@)
        &&& height(self@) * width(self@) <= MAX_CELLS
        &&& is_heuristic(self@, self.heuristics())
    }

    /// The number of rows.
    pub fn height(&self) -> (h: usize)
        ensures
            self.wf(),
            h == height(self@),
    {
        proof {
            use_type_invariant(self);
        }
        self.grid.height()
    }

    /// The number of columns.
    pub fn width(&self) -> (w: usize)
        ensures
            self.wf(),
            w == width(self@),
    {
        proof {
            use_type_invariant(self);
        }
        self.grid.width()
    }

    /// Whether `pos`, as (row, column), is a cell of the grid.
    pub fn in_bounds(&self, pos: (usize, usize)) -> (b: bool)
        ensures
            b == in_bounds(self@, pos.0 as int, pos.1 as int),
    {
        pos.0 < self.height() && pos.1 < self.width()
    }

    /// The cost of moving into the cell at `pos`.
    pub fn cost_at(&self, pos: (usize, usize)) -> (c: u8)
        requires
            in_bounds(self@, pos.0 as int, pos.1 as int),
        ensures
            c == self@[pos.0 as int][pos.1 as int],
            c <= 9,
    {
        proof {
            use_type_invariant(self);
        }
        self.grid.get(pos.0, pos.1)
    }

    /// The least cost of a walk from `pos` to the bottom right cell.
    pub fn heuristic_at(&self, pos: (usize, usize)) -> (c: u32)
        requires
            in_bounds(self@, pos.0 as int, pos.1 as int),
        ensures
            c == self.heuristics()[pos.0 as int][pos.1 as int],
    {
        proof {
            use_type_invariant(self);
        }
        self.heur_cost_to_target.get(pos.0, pos.1)
    }

    /// The bottom right cell, where every path ends.
    pub fn target(&self) -> (pos: (usize, usize))
        ensures
            pos.0 == height(self@) - 1,
            pos.1 == width(self@) - 1,
            in_bounds(self@, pos.0 as int, pos.1 as int),
    {
        (self.height() - 1, self.width() - 1)
    }

    /// The cell one step from `pos` in `direction`, if the grid has it.
    pub fn get_neighbour_pos(&self, pos: (usize, usize), direction: Direction) -> (r: Option<
        (usize, usize),
    >)
        requires
            in_bounds(self@, pos.0 as int, pos.1 as int),
        ensures
            r is Some <==> neighbour(self@, pos.0 as int, pos.1 as int, direction) is Some,
            r is Some ==> neighbour(self@, pos.0 as int, pos.1 as int, direction) == Some(
                (r->Some_0.0 as int, r->Some_0.1 as int),
            ),
    {
        neighbour_pos(self.height(), self.width(), pos, direction)
    }
}

} // verus!
