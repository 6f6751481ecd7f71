//! A lagoon dug along a closed path: the plan of the digging, the terrain with
//! the trench, and the area that the trench encloses.
use crate::grids::ByteGrid;
use crate::text::{
    lines, parse_unsigned, split_lines, split_whitespace, unsigned_value,
    words, InputError,
};
use vstd::prelude::*;
use vstd::string::StringSliceAdditionalSpecFns;

verus! {

/// The steps of a plan.
pub struct DigPlan(Vec<Instruction>);

/// The terrain, tile by tile: `.` for untouched ground, `-` and `|` for
/// trench that runs straight, and `L`, `J`, `7`, `F` for its corners.
pub struct Terrain(ByteGrid);

/// One step of a plan: a direction, and how far to dig.
#[derive(Clone, Copy, Debug, PartialEq, Eq, Structural)]
pub struct Instruction {
    pub direction: Direction,
    pub depth: u8,
}

/// The direction of a step.
#[derive(Clone, Copy, Debug, PartialEq, Eq, Structural)]
pub enum Direction {
    Right,
    Down,
    Left,
    Up,
}

/// Where a scan of a row is: inside or outside the trench, or on a stretch of
/// trench that has the inside below it or above it.
#[derive(Clone, Copy, Debug, PartialEq, Eq, Structural)]
pub enum ScanState {
    Inside,
    Outside,
    LowerEdge,
    UpperEdge,
}

/// The most steps that a plan may have.
pub const MAX_STEPS: usize = 1_000_000;

/// The change of row and of column that one step in a direction makes.
pub open spec fn delta(d: Direction) -> (int, int) {
    match d {
        Direction::Right => (0, 1),
        Direction::Down => (1, 0),
        Direction::Left => (0, -1),
        Direction::Up => (-1, 0),
    }
}

/// The tile of a trench that runs straight in a direction.
pub open spec fn straight_tile(d: Direction) -> u8 {
    match d {
        Direction::Right | Direction::Left => 45,
        Direction::Down | Direction::Up => 124,
    }
}

/// The tile of the corner where a step in direction `from` is followed by one
/// in direction `to`, if the two make a corner.
pub open spec fn corner_tile(from: Direction, to: Direction) -> Option<u8> {
    match (from, to) {
        (Direction::Right, Direction::Up) => Some(74u8),
        (Direction::Right, Direction::Down) => Some(55u8),
        (Direction::Down, Direction::Right) => Some(76u8),
        (Direction::Down, Direction::Left) => Some(74u8),
        (Direction::Left, Direction::Up) => Some(76u8),
        (Direction::Left, Direction::Down) => Some(70u8),
        (Direction::Up, Direction::Right) => Some(70u8),
        (Direction::Up, Direction::Left) => Some(55u8),
        _ => None,
    }
}

/// The step that follows step `i`, where the first follows the last.
pub open spec fn following(plan: Seq<Instruction>, i: int) -> Instruction {
    plan[(i + 1) % (plan.len() as int)]
}

/// Every step is followed by one that makes a corner with it.
pub open spec fn turns_ok(plan: Seq<Instruction>) -> bool {
    forall|i: int|
        0 <= i < plan.len() ==> corner_tile(
            (#[trigger] plan[i]).direction,
            following(plan, i).direction,
        ) is Some
}

/// The tiles that the first `k` steps of a plan dig, in the order of digging:
/// each with its row and column, counted from where the digging starts. The
/// last tile of a step is a corner.
pub open spec fn dug(plan: Seq<Instruction>, k: int) -> Seq<((int, int), u8)>
    decreases k,
{
    if k <= 0 {
        Seq::<((int, int), u8)>::empty()
    } else {
        let before = dug(plan, k - 1);
        let start = end_of(plan, k - 1);
        let step = plan[k - 1];
        let run = Seq::new(
            step.depth as nat,
            |j: int|
                (
                    (start.0 + (j + 1) * delta(step.direction).0, start.1 + (j + 1) * delta(
                        step.direction,
                    ).1),
                    straight_tile(step.direction),
                ),
        );
        let corner = (end_of(plan, k), corner_tile(step.direction, following(plan, k - 1).direction)->Some_0);
        if before.len() + run.len() == 0 {
            seq![corner]
        } else {
            (before + run).drop_last().push(corner)
        }
    }
}

/// Where the digging stands after the first `k` steps.
pub open spec fn end_of(plan: Seq<Instruction>, k: int) -> (int, int)
    decreases k,
{
    if k <= 0 {
        (0, 0)
    } else {
        (
            end_of(plan, k - 1).0 + plan[k - 1].depth * delta(plan[k - 1].direction).0,
            end_of(plan, k - 1).1 + plan[k - 1].depth * delta(plan[k - 1].direction).1,
        )
    }
}

/// The least and the greatest of a coordinate among the first `k` tiles and
/// the start; `pick` tells which coordinate.
pub open spec fn reach(tiles: Seq<((int, int), u8)>, k: int, row: bool) -> (int, int)
    decreases k,
{
    if k <= 0 {
        (0, 0)
    } else {
        let before = reach(tiles, k - 1, row);
        let c = if row {
            tiles[k - 1].0.0
        } else {
            tiles[k - 1].0.1
        };
        (
            if c < before.0 {
                c
            } else {
                before.0
            },
            if c > before.1 {
                c
            } else {
                before.1
            },
        )
    }
}

/// The terrain with the first `k` tiles laid on untouched ground; the top
/// left of the terrain is at row `top` and column `left` of the digging.
pub open spec fn laid(
    tiles: Seq<((int, int), u8)>,
    k: int,
    height: int,
    width: int,
    top: int,
    left: int,
) -> Seq<Seq<u8>>
    decreases k,
{
    if k <= 0 {
        Seq::new(height as nat, |y: int| Seq::new(width as nat, |x: int| 46u8))
    } else {
        let before = laid(tiles, k - 1, height, width, top, left);
        let t = tiles[k - 1];
        before.update(t.0.0 - top, before[t.0.0 - top].update(t.0.1 - left, t.1))
    }
}

/// The terrain that a plan digs.
pub open spec fn terrain_of(plan: Seq<Instruction>) -> Seq<Seq<u8>> {
    let tiles = dug(plan, plan.len() as int);
    let rows = reach(tiles, tiles.len() as int, true);
    let cols = reach(tiles, tiles.len() as int, false);
    laid(
        tiles,
        tiles.len() as int,
        rows.1 - rows.0 + 1,
        cols.1 - cols.0 + 1,
        rows.0,
        cols.0,
    )
}

/// The terrain of a plan has few enough tiles to be held.
pub open spec fn area_fits(plan: Seq<Instruction>) -> bool {
    let tiles = dug(plan, plan.len() as int);
    let rows = reach(tiles, tiles.len() as int, true);
    let cols = reach(tiles, tiles.len() as int, false);
    (rows.1 - rows.0 + 1) * (cols.1 - cols.0 + 1) <= isize::MAX
}

/// The state of a scan after a tile, and whether the tile counts for the area;
/// `None` where the tile cannot follow in that state.
pub open spec fn scan_step(state: ScanState, tile: u8) -> Option<(ScanState, bool)> {
    if tile == 45 {
        Some((state, true))
    } else if tile == 124 {
        match state {
            ScanState::Inside => Some((ScanState::Outside, true)),
            ScanState::Outside => Some((ScanState::Inside, true)),
            _ => None,
        }
    } else if tile == 46 {
        match state {
            ScanState::Inside => Some((state, true)),
            ScanState::Outside => Some((state, false)),
            _ => None,
        }
    } else if tile == 76 {
        match state {
            ScanState::Inside => Some((ScanState::UpperEdge, true)),
            ScanState::Outside => Some((ScanState::LowerEdge, true)),
            _ => None,
        }
    } else if tile == 74 {
        match state {
            ScanState::UpperEdge => Some((ScanState::Inside, true)),
            ScanState::LowerEdge => Some((ScanState::Outside, true)),
            _ => None,
        }
    } else if tile == 55 {
        match state {
            ScanState::UpperEdge => Some((ScanState::Outside, true)),
            ScanState::LowerEdge => Some((ScanState::Inside, true)),
            _ => None,
        }
    } else if tile == 70 {
        match state {
            ScanState::Inside => Some((ScanState::LowerEdge, true)),
            ScanState::Outside => Some((ScanState::UpperEdge, true)),
            _ => None,
        }
    } else {
        None
    }
}

/// The state of a scan after the first `k` tiles of a row, and how many of
/// them count for the area; `None` where a tile cannot follow.
pub open spec fn scan(row: Seq<u8>, k: int) -> Option<(ScanState, nat)>
    decreases k,
{
    if k <= 0 {
        Some((ScanState::Outside, 0nat))
    } else {
        match scan(row, k - 1) {
            None => None,
            Some((state, count)) => match scan_step(state, row[k - 1]) {
                None => None,
                Some((next, counts)) => Some(
                    (
                        next,
                        if counts {
                            count + 1
                        } else {
                            count
                        },
                    ),
                ),
            },
        }
    }
}

/// Every row can be scanned from end to end.
pub open spec fn can_scan(tiles: Seq<Seq<u8>>) -> bool {
    forall|y: int| 0 <= y < tiles.len() ==> (#[trigger] scan(tiles[y], tiles[y].len() as int)) is Some
}

/// The tiles of the first `k` rows that count for the area.
pub open spec fn area(tiles: Seq<Seq<u8>>, k: int) -> nat
    decreases k,
{
    if k <= 0 {
        0
    } else {
        area(tiles, k - 1) + scan(tiles[k - 1], tiles[k - 1].len() as int)->Some_0.1
    }
}

/// The step that a line stands for: the letter of a direction, the depth, and
/// a colour that is not used.
pub open spec fn step_of(t: Seq<u8>) -> Result<Instruction, InputError> {
    let ws = words(t);
    if ws.len() < 1 {
        Err(InputError::Syntax)
    } else {
        match direction_of(ws[0]) {
            Err(e) => Err(e),
            Ok(direction) => if ws.len() < 2 {
                Err(InputError::Syntax)
            } else {
                match unsigned_value(ws[1], 255) {
                    None => Err(InputError::Number),
                    Some(depth) => if ws.len() != 3 {
                        Err(InputError::Syntax)
                    } else {
                        Ok(Instruction { direction, depth: depth as u8 })
                    },
                }
            },
        }
    }
}

/// The direction that a word stands for: one of the letters `R`, `D`, `L` and
/// `U`.
pub open spec fn direction_of(w: Seq<u8>) -> Result<Direction, InputError> {
    if w.len() != 1 {
        Err(InputError::Syntax)
    } else if w[0] == 82 {
        Ok(Direction::Right)
    } else if w[0] == 68 {
        Ok(Direction::Down)
    } else if w[0] == 76 {
        Ok(Direction::Left)
    } else if w[0] == 85 {
        Ok(Direction::Up)
    } else {
        Err(InputError::Value)
    }
}

/// The tiles as mathematics.
pub open spec fn tile_views(v: Seq<((isize, isize), u8)>) -> Seq<((int, int), u8)> {
    Seq::new(v.len(), |i: int| ((v[i].0.0 as int, v[i].0.1 as int), v[i].1))
}

/// What the tiles reach includes the start and every tile.
pub proof fn lemma_reach(tiles: Seq<((int, int), u8)>, k: int, row: bool, i: int)
    requires
        0 <= i < k || (k >= 0 && i == 0),
    ensures
        reach(tiles, k, row).0 <= 0 <= reach(tiles, k, row).1,
        i < k ==> reach(tiles, k, row).0 <= (if row {
            tiles[i].0.0
        } else {
            tiles[i].0.1
        }) <= reach(tiles, k, row).1,
    decreases k,
{
    if k > 0 {
        if i < k - 1 {
            lemma_reach(tiles, k - 1, row, i);
        } else {
            lemma_reach(tiles, k - 1, row, 0);
        }
    }
}

/// What the tiles reach lies as near as the tiles do.
pub proof fn lemma_reach_near(tiles: Seq<((int, int), u8)>, k: int, row: bool)
    requires
        0 <= k <= tiles.len(),
        forall|i: int|
            0 <= i < tiles.len() ==> -255000000 <= (#[trigger] tiles[i]).0.0 <= 255000000
                && -255000000 <= tiles[i].0.1 <= 255000000,
    ensures
        -255000000 <= reach(tiles, k, row).0 <= 0 <= reach(tiles, k, row).1 <= 255000000,
    decreases k,
{
    if k > 0 {
        lemma_reach_near(tiles, k - 1, row);
        assert(-255000000 <= tiles[k - 1].0.0 <= 255000000);
    }
}

/// Every tile lies within 255 tiles of the start for every step made.
pub proof fn lemma_tiles_near(plan: Seq<Instruction>, k: int)
    requires
        0 <= k <= plan.len() <= MAX_STEPS,
    ensures
        -255 * k <= end_of(plan, k).0 <= 255 * k,
        -255 * k <= end_of(plan, k).1 <= 255 * k,
        forall|i: int|
            0 <= i < dug(plan, k).len() ==> -255 * k <= (#[trigger] dug(plan, k)[i]).0.0 <= 255 * k
                && -255 * k <= dug(plan, k)[i].0.1 <= 255 * k,
    decreases k,
{
    if k > 0 {
        lemma_tiles_near(plan, k - 1);
        let step = plan[k - 1];
        let d = delta(step.direction);
        let start = end_of(plan, k - 1);
        assert(-255 <= step.depth * d.0 <= 255 && -255 <= step.depth * d.1 <= 255)
            by (nonlinear_arith)
            requires
                0 <= step.depth <= 255,
                -1 <= d.0 <= 1,
                -1 <= d.1 <= 1,
        ;
        let before = dug(plan, k - 1);
        let run = Seq::new(
            step.depth as nat,
            |j: int|
                (
                    (start.0 + (j + 1) * d.0, start.1 + (j + 1) * d.1),
                    straight_tile(step.direction),
                ),
        );
        assert forall|i: int| 0 <= i < dug(plan, k).len() implies -255 * k <= (#[trigger] dug(
            plan,
            k,
        )[i]).0.0 <= 255 * k && -255 * k <= dug(plan, k)[i].0.1 <= 255 * k by {
            if before.len() + run.len() > 0 && i < before.len() + run.len() - 1 {
                if i < before.len() {
                    assert(dug(plan, k)[i] == before[i]);
                } else {
                    let j = i - before.len();
                    assert(dug(plan, k)[i] == run[j]);
                    assert(-255 <= (j + 1) * d.0 <= 255 && -255 <= (j + 1) * d.1 <= 255)
                        by (nonlinear_arith)
                        requires
                            0 <= j + 1 <= 255,
                            -1 <= d.0 <= 1,
                            -1 <= d.1 <= 1,
                    ;
                }
            }
        }
    }
}

/// A count of tiles in a row is at most the number of the tiles.
pub proof fn lemma_scan_count(row: Seq<u8>, k: int)
    requires
        0 <= k,
        scan(row, k) is Some,
    ensures
        scan(row, k)->Some_0.1 <= k,
        forall|j: int| 0 <= j <= k ==> (#[trigger] scan(row, j)) is Some,
    decreases k,
{
    if k > 0 {
        lemma_scan_count(row, k - 1);
    }
}

/// The area grows with every row.
pub proof fn lemma_area_grows(tiles: Seq<Seq<u8>>, a: int, b: int)
    requires
        0 <= a <= b,
    ensures
        area(tiles, a) <= area(tiles, b),
    decreases b,
{
    if a < b {
        lemma_area_grows(tiles, a, b - 1);
    }
}

impl Direction {
    /// Reads a direction from the text between `from` and `to`.
    pub fn from_bytes(text: &[u8], from: usize, to: usize) -> (r: Result<Direction, InputError>)
        requires
            from <= to <= text.len(),
        ensures
            r == direction_of(text@.subrange(from as int, to as int)),
    {
        if to - from != 1 {
            return Err(InputError::Syntax);
        }
        let c = text[from];
        proof {
            assert(text@.subrange(from as int, to as int)[0] == c);
        }
        if c == 82 {
            Ok(Direction::Right)
        } else if c == 68 {
            Ok(Direction::Down)
        } else if c == 76 {
            Ok(Direction::Left)
        } else if c == 85 {
            Ok(Direction::Up)
        } else {
            Err(InputError::Value)
        }
    }
}

impl Instruction {
    /// Reads a step from the text between `from` and `to`.
    pub fn from_bytes(text: &[u8], from: usize, to: usize) -> (r: Result<Instruction, InputError>)
        requires
            from <= to <= text.len(),
        ensures
            r == step_of(text@.subrange(from as int, to as int)),
    {
        let parts = split_whitespace(text, from, to);
        if parts.len() < 1 {
            return Err(InputError::Syntax);
        }
        let direction = match Direction::from_bytes(text, parts[0].0, parts[0].1) {
            Ok(d) => d,
            Err(e) => {
                return Err(e);
            },
        };
        if parts.len() < 2 {
            return Err(InputError::Syntax);
        }
        let depth = match parse_unsigned(text, parts[1].0, parts[1].1, 255) {
            Some(d) => d as u8,
            None => {
                return Err(InputError::Number);
            },
        };
        // The colour is not looked at, but it has to be there.
        if parts.len() != 3 {
            return Err(InputError::Syntax);
        }
        Ok(Instruction { direction, depth })
    }
}

impl Terrain {
    /// The tiles, row by row.
    pub closed spec fn view(&self) -> Seq<Seq<u8>> {
        self.0@
    }

    /// The number of tiles that the trench takes and encloses. Every row is
    /// scanned from the left: the scan starts outside, and a trench that is
    /// crossed leads inside or outside.
    pub fn interior_area(&self) -> (r: u32)
        requires
            can_scan(self.view()),
            area(self.view(), self.view().len() as int) <= u32::MAX,
        ensures
            r == area(self.view(), self.view().len() as int),
    {
        let mut total: u32 = 0;
        let height = self.0.height();
        let width = self.0.width();
        let ghost tiles = self.view();
        let mut y: usize = 0;
        while y < height
            invariant
                y <= height,
                height == tiles.len(),
                tiles == self.view(),
                forall|r: int| 0 <= r < tiles.len() ==> (#[trigger] tiles[r]).len() == width,
                can_scan(tiles),
                area(tiles, tiles.len() as int) <= u32::MAX,
                total == area(tiles, y as int),
            decreases height - y,
        {
            let mut state = ScanState::Outside;
            let mut count: u32 = 0;
            let ghost row = tiles[y as int];
            proof {
                lemma_area_grows(tiles, y + 1, tiles.len() as int);
                assert(scan(row, row.len() as int) is Some);
                lemma_scan_count(row, row.len() as int);
            }
            let mut x: usize = 0;
            while x < width
                invariant
                    x <= width,
                    y < height,
                    height == tiles.len(),
                    tiles == self.view(),
                    row == tiles[y as int],
                    row.len() == width,
                    forall|j: int| 0 <= j <= row.len() ==> (#[trigger] scan(row, j)) is Some,
                    scan(row, row.len() as int)->Some_0.1 + area(tiles, y as int) <= u32::MAX,
                    scan(row, x as int) == Some((state, count as nat)),
                decreases width - x,
            {
                let tile = self.0.get(y, x);
                proof {
                    assert(scan(row, x + 1) is Some);
                    lemma_scan_grows(row, x + 1, row.len() as int);
                }
                let (next, counts) = Self::scan_tile(state, tile);
                state = next;
                if counts {
                    count = count + 1;
                }
                x += 1;
            }
            total = total + count;
            y += 1;
        }
        total
    }

    /// The state of a scan after a tile, and whether the tile counts.
    fn scan_tile(state: ScanState, tile: u8) -> (r: (ScanState, bool))
        requires
            scan_step(state, tile) is Some,
        ensures
            scan_step(state, tile) == Some(r),
    {
        if tile == 45 {
            (state, true)
        } else if tile == 124 {
            match state {
                ScanState::Inside => (ScanState::Outside, true),
                _ => (ScanState::Inside, true),
            }
        } else if tile == 46 {
            match state {
                ScanState::Inside => (state, true),
                _ => (state, false),
            }
        } else if tile == 76 {
            match state {
                ScanState::Inside => (ScanState::UpperEdge, true),
                _ => (ScanState::LowerEdge, true),
            }
        } else if tile == 74 {
            match state {
                ScanState::UpperEdge => (ScanState::Inside, true),
                _ => (ScanState::Outside, true),
            }
        } else if tile == 55 {
            match state {
                ScanState::UpperEdge => (ScanState::Outside, true),
                _ => (ScanState::Inside, true),
            }
        } else {
            match state {
                ScanState::Inside => (ScanState::LowerEdge, true),
                _ => (ScanState::UpperEdge, true),
            }
        }
    }
}

/// The count of a scan grows along the row.
pub proof fn lemma_scan_grows(row: Seq<u8>, a: int, b: int)
    requires
        0 <= a <= b,
        scan(row, b) is Some,
    ensures
        scan(row, a) is Some,
        scan(row, a)->Some_0.1 <= scan(row, b)->Some_0.1,
    decreases b,
{
    if a < b {
        lemma_scan_grows(row, a, b - 1);
    }
}

impl DigPlan {
    /// The steps.
    pub closed spec fn view(&self) -> Seq<Instruction> {
        self.0@
    }

    /// A plan of the given steps.
    pub fn new(steps: Vec<Instruction>) -> (r: Self)
        ensures
            r.view() == steps@,
    {
        DigPlan(steps)
    }

    /// Digs the trench: from the start, step by step, every step as far as its
    /// depth says, and a corner at the end of every step, the last of which
    /// leads back into the first. The terrain is as large as the trench
    /// reaches.
    pub fn dig_terrain(&self) -> (r: Terrain)
        requires
            self.view().len() <= MAX_STEPS,
            turns_ok(self.view()),
            area_fits(self.view()),
        ensures
            r.view() == terrain_of(self.view()),
    {
        let dug_tiles = self.dig_tiles();
        let (y_range, x_range) = Self::tile_reach(&dug_tiles);
        Terrain(Self::lay_tiles(&dug_tiles, y_range, x_range))
    }

    /// The tiles of the trench, in the order of digging.
    fn dig_tiles(&self) -> (dug_tiles: Vec<((isize, isize), u8)>)
        requires
            self.view().len() <= MAX_STEPS,
            turns_ok(self.view()),
        ensures
            tile_views(dug_tiles@) == dug(self.view(), self.view().len() as int),
            forall|i: int|
                0 <= i < dug_tiles@.len() ==> -255000000 <= (#[trigger] dug_tiles@[i]).0.0
                    <= 255000000 && -255000000 <= dug_tiles@[i].0.1 <= 255000000,
    {
        let ghost plan = self.view();
        let mut dug_tiles: Vec<((isize, isize), u8)> = Vec::new();
        let mut pos: (isize, isize) = (0, 0);
        let n = self.0.len();
        let mut idx: usize = 0;
        proof {
            assert(tile_views(dug_tiles@) =~= dug(plan, 0));
        }
        while idx < n
            invariant
                idx <= n <= MAX_STEPS,
                n == plan.len(),
                plan == self.view(),
                turns_ok(plan),
                tile_views(dug_tiles@) == dug(plan, idx as int),
                (pos.0 as int, pos.1 as int) == end_of(plan, idx as int),
                -255 * idx <= pos.0 <= 255 * idx,
                -255 * idx <= pos.1 <= 255 * idx,
            decreases n - idx,
        {
            let instruction = self.0[idx];
            let ((dy, dx), tile): ((isize, isize), u8) = match instruction.direction {
                Direction::Right => ((0, 1), 45),
                Direction::Down => ((1, 0), 124),
                Direction::Left => ((0, -1), 45),
                Direction::Up => ((-1, 0), 124),
            };
            let ghost start = (pos.0 as int, pos.1 as int);
            let ghost before = dug_tiles@;
            let ghost run = Seq::new(
                instruction.depth as nat,
                |j: int|
                    (
                        (start.0 + (j + 1) * delta(instruction.direction).0, start.1 + (j + 1)
                            * delta(instruction.direction).1),
                        straight_tile(instruction.direction),
                    ),
            );
            let mut j: u8 = 0;
            while j < instruction.depth
                invariant
                    j <= instruction.depth,
                    -1 <= dy <= 1,
                    -1 <= dx <= 1,
                    dy == delta(instruction.direction).0,
                    dx == delta(instruction.direction).1,
                    tile == straight_tile(instruction.direction),
                    -255000000 <= start.0 <= 255000000,
                    -255000000 <= start.1 <= 255000000,
                    pos.0 == start.0 + j * dy,
                    pos.1 == start.1 + j * dx,
                    run == Seq::new(
                        instruction.depth as nat,
                        |j: int|
                            (
                                (start.0 + (j + 1) * delta(instruction.direction).0, start.1 + (j
                                    + 1) * delta(instruction.direction).1),
                                straight_tile(instruction.direction),
                            ),
                    ),
                    tile_views(dug_tiles@) == tile_views(before) + run.take(j as int),
                decreases instruction.depth - j,
            {
                proof {
                    assert((j + 1) * dy == j * dy + dy) by (nonlinear_arith);
                    assert((j + 1) * dx == j * dx + dx) by (nonlinear_arith);
                    assert(-255 <= j * dy <= 255 && -255 <= j * dx <= 255) by (nonlinear_arith)
                        requires
                            0 <= j <= 255,
                            -1 <= dy <= 1,
                            -1 <= dx <= 1,
                    ;
                }
                let ghost earlier = dug_tiles@;
                pos = (pos.0 + dy, pos.1 + dx);
                dug_tiles.push((pos, tile));
                proof {
                    assert(run.take(j + 1) =~= run.take(j as int).push(run[j as int]));
                    assert(run[j as int] == ((pos.0 as int, pos.1 as int), tile));
                    assert(tile_views(dug_tiles@) =~= tile_views(earlier).push(
                        ((pos.0 as int, pos.1 as int), tile),
                    ));
                    assert(tile_views(dug_tiles@) =~= tile_views(before) + run.take(j + 1));
                }
                j += 1;
            }
            proof {
                assert(run.take(instruction.depth as int) =~= run);
                assert(-255 <= instruction.depth * dy <= 255 && -255 <= instruction.depth * dx
                    <= 255) by (nonlinear_arith)
                    requires
                        0 <= instruction.depth <= 255,
                        -1 <= dy <= 1,
                        -1 <= dx <= 1,
                ;
            }
            // The last tile of the step is a corner to the next step, and the
            // last step is followed by the first.
            let next_instruction = self.0[(idx + 1) % n];
            let tile: u8 = match (instruction.direction, next_instruction.direction) {
                (Direction::Right, Direction::Up) => 74,
                (Direction::Right, Direction::Down) => 55,
                (Direction::Down, Direction::Right) => 76,
                (Direction::Down, Direction::Left) => 74,
                (Direction::Left, Direction::Up) => 76,
                (Direction::Left, Direction::Down) => 70,
                (Direction::Up, Direction::Right) => 70,
                _ => 55,
            };
            let ghost all = dug_tiles@;
            dug_tiles.pop();
            dug_tiles.push((pos, tile));
            proof {
                assert(corner_tile(plan[idx as int].direction, following(plan, idx as int).direction)
                    is Some);
                if all.len() == 0 {
                    assert(tile_views(dug_tiles@) =~= seq![((pos.0 as int, pos.1 as int), tile)]);
                } else {
                    assert(tile_views(dug_tiles@) =~= tile_views(all).drop_last().push(
                        ((pos.0 as int, pos.1 as int), tile),
                    ));
                }
                assert(tile_views(all).len() == dug(plan, idx as int).len() + run.len());
            }
            idx += 1;
        }
        proof {
            lemma_tiles_near(plan, n as int);
            let tiles = tile_views(dug_tiles@);
            assert forall|i: int| 0 <= i < dug_tiles@.len() implies -255000000 <= (
            #[trigger] dug_tiles@[i]).0.0 <= 255000000 && -255000000 <= dug_tiles@[i].0.1
                <= 255000000 by {
                assert(tiles[i].0.0 == dug_tiles@[i].0.0);
                assert(tiles[i].0.1 == dug_tiles@[i].0.1);
            }
        }
        dug_tiles
    }

    /// How far the tiles reach: the least and the greatest row, and the least
    /// and the greatest column, the start among them.
    fn tile_reach(dug_tiles: &Vec<((isize, isize), u8)>) -> (r: ((isize, isize), (isize, isize)))
        ensures
            (r.0.0 as int, r.0.1 as int) == reach(
                tile_views(dug_tiles@),
                dug_tiles@.len() as int,
                true,
            ),
            (r.1.0 as int, r.1.1 as int) == reach(
                tile_views(dug_tiles@),
                dug_tiles@.len() as int,
                false,
            ),
    {
        let ghost tiles = tile_views(dug_tiles@);
        let mut y_range: (isize, isize) = (0, 0);
        let mut x_range: (isize, isize) = (0, 0);
        let mut k: usize = 0;
        while k < dug_tiles.len()
            invariant
                k <= dug_tiles.len(),
                tiles == tile_views(dug_tiles@),
                (y_range.0 as int, y_range.1 as int) == reach(tiles, k as int, true),
                (x_range.0 as int, x_range.1 as int) == reach(tiles, k as int, false),
            decreases dug_tiles.len() - k,
        {
            let ((y, x), _) = dug_tiles[k];
            proof {
                assert(tiles[k as int].0 == (y as int, x as int));
            }
            if y < y_range.0 {
                y_range.0 = y;
            }
            if y > y_range.1 {
                y_range.1 = y;
            }
            if x < x_range.0 {
                x_range.0 = x;
            }
            if x > x_range.1 {
                x_range.1 = x;
            }
            k += 1;
        }
        (y_range, x_range)
    }

    /// The terrain with the tiles laid on untouched ground.
    fn lay_tiles(
        dug_tiles: &Vec<((isize, isize), u8)>,
        y_range: (isize, isize),
        x_range: (isize, isize),
    ) -> (terrain: ByteGrid)
        requires
            (y_range.0 as int, y_range.1 as int) == reach(
                tile_views(dug_tiles@),
                dug_tiles@.len() as int,
                true,
            ),
            (x_range.0 as int, x_range.1 as int) == reach(
                tile_views(dug_tiles@),
                dug_tiles@.len() as int,
                false,
            ),
            forall|i: int|
                0 <= i < dug_tiles@.len() ==> -255000000 <= (#[trigger] dug_tiles@[i]).0.0
                    <= 255000000 && -255000000 <= dug_tiles@[i].0.1 <= 255000000,
            (y_range.1 - y_range.0 + 1) * (x_range.1 - x_range.0 + 1) <= isize::MAX,
        ensures
            terrain@ == laid(
                tile_views(dug_tiles@),
                dug_tiles@.len() as int,
                y_range.1 - y_range.0 + 1,
                x_range.1 - x_range.0 + 1,
                y_range.0 as int,
                x_range.0 as int,
            ),
    {
        let ghost tiles = tile_views(dug_tiles@);
        proof {
            lemma_reach(tiles, tiles.len() as int, true, 0);
            lemma_reach(tiles, tiles.len() as int, false, 0);
            assert forall|i: int| 0 <= i < tiles.len() implies -255000000 <= (#[trigger] tiles[i]).0.0
                <= 255000000 && -255000000 <= tiles[i].0.1 <= 255000000 by {
                assert(tiles[i].0.0 == dug_tiles@[i].0.0);
            }
            lemma_reach_near(tiles, tiles.len() as int, true);
            lemma_reach_near(tiles, tiles.len() as int, false);
        }
        let height = (y_range.1 - y_range.0 + 1) as usize;
        let width = (x_range.1 - x_range.0 + 1) as usize;
        let mut terrain = ByteGrid::from_elem(height, width, 46);
        proof {
            assert(terrain@ =~= laid(
                tiles,
                0,
                height as int,
                width as int,
                y_range.0 as int,
                x_range.0 as int,
            )) by {
                assert forall|y: int| 0 <= y < height implies #[trigger] terrain@[y] =~= Seq::new(
                    width as nat,
                    |x: int| 46u8,
                ) by {}
            }
        }
        let mut k: usize = 0;
        while k < dug_tiles.len()
            invariant
                k <= dug_tiles.len(),
                tiles == tile_views(dug_tiles@),
                (y_range.0 as int, y_range.1 as int) == reach(tiles, tiles.len() as int, true),
                (x_range.0 as int, x_range.1 as int) == reach(tiles, tiles.len() as int, false),
                height == y_range.1 - y_range.0 + 1,
                width == x_range.1 - x_range.0 + 1,
                -255000000 <= y_range.0 <= 0 <= y_range.1 <= 255000000,
                -255000000 <= x_range.0 <= 0 <= x_range.1 <= 255000000,
                forall|i: int|
                    0 <= i < dug_tiles@.len() ==> -255000000 <= (#[trigger] dug_tiles@[i]).0.0
                        <= 255000000 && -255000000 <= dug_tiles@[i].0.1 <= 255000000,
                terrain@ == laid(
                    tiles,
                    k as int,
                    height as int,
                    width as int,
                    y_range.0 as int,
                    x_range.0 as int,
                ),
                terrain@.len() == height,
                forall|y: int| 0 <= y < height ==> (#[trigger] terrain@[y]).len() == width,
            decreases dug_tiles.len() - k,
        {
            let ((y, x), tile) = dug_tiles[k];
            proof {
                lemma_reach(tiles, tiles.len() as int, true, k as int);
                lemma_reach(tiles, tiles.len() as int, false, k as int);
                assert(tiles[k as int] == ((y as int, x as int), tile));
            }
            terrain.set((y - y_range.0) as usize, (x - x_range.0) as usize, tile);
            k += 1;
        }
        terrain
    }

    /// Reads a plan: one step on each line.
    #[verifier::loop_isolation(false)]
    pub fn from_bytes(text: &[u8]) -> (r: Result<DigPlan, InputError>)
        ensures
            r is Ok <==> forall|i: int|
                0 <= i < lines(text@).len() ==> (#[trigger] step_of(lines(text@)[i])) is Ok,
            r is Ok ==> r->Ok_0.view() == Seq::new(
                lines(text@).len(),
                |i: int| step_of(lines(text@)[i])->Ok_0,
            ),
    {
        let spans = split_lines(text);
        let ghost ls = lines(text@);
        let mut steps: Vec<Instruction> = Vec::new();
        let mut i: usize = 0;
        while i < spans.len()
            invariant
                i <= spans.len(),
                steps.len() == i,
                forall|j: int|
                    0 <= j < i ==> (#[trigger] step_of(ls[j])) == Ok::<Instruction, InputError>(
                        steps@[j],
                    ),
            decreases spans.len() - i,
        {
            let (a, b) = spans[i];
            match Instruction::from_bytes(text, a, b) {
                Ok(s) => {
                    steps.push(s);
                },
                Err(e) => {
                    proof {
                        assert(step_of(ls[i as int]) is Err);
                    }
                    return Err(e);
                },
            }
            i += 1;
        }
        proof {
            assert(steps@ =~= Seq::new(
                lines(text@).len(),
                |i: int| step_of(lines(text@)[i])->Ok_0,
            ));
        }
        Ok(DigPlan(steps))
    }

    /// Reads a plan.
    pub fn parse(s: &str) -> (r: Result<DigPlan, InputError>)
        ensures
            r is Ok <==> forall|i: int|
                0 <= i < lines(s.spec_bytes()).len() ==> (#[trigger] step_of(
                    lines(s.spec_bytes())[i],
                )) is Ok,
            r is Ok ==> r->Ok_0.view() == Seq::new(
                lines(s.spec_bytes()).len(),
                |i: int| step_of(lines(s.spec_bytes())[i])->Ok_0,
            ),
    {
        DigPlan::from_bytes(s.as_bytes())
    }
}

impl std::str::FromStr for DigPlan {
    type Err = InputError;

    fn from_str(s: &str) -> (r: Result<Self, Self::Err>) {
        DigPlan::parse(s)
    }
}

} // verus!
