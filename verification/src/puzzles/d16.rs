//! A beam of light among mirrors and splitters: which tiles it passes, and in
//! which directions.
use super::blocks::{is_picture, picture, read_picture};
use crate::grids::ByteGrid;
use crate::text::InputError;
use vstd::prelude::*;
use vstd::set_lib::*;
use vstd::string::StringSliceAdditionalSpecFns;

verus! {

/// The mirrors and splitters, tile by tile: `.` for empty space, `/` and `\`
/// for mirrors, `|` and `-` for splitters.
pub struct MirrorGrid {
    grid: ByteGrid,
}

/// For every tile, the directions in which a beam has entered it, one bit for
/// each direction.
pub struct BeamPath(ByteGrid);

/// A compass direction. North is towards row 0, West towards column 0.
#[derive(Clone, Copy, Debug, PartialEq, Eq, Structural)]
pub enum Direction {
    North,
    East,
    South,
    West,
}

/// The head of a beam: the tile that it is about to enter, and the direction
/// in which it travels.
pub struct Head {
    pub y: int,
    pub x: int,
    pub direction: Direction,
}

/// The most tiles that a grid may have.
pub const MAX_TILES: usize = 100_000_000;

/// Empty space.
pub const SPACE: u8 = 46;

/// A mirror that leans to the right.
pub const MIRROR_UP: u8 = 47;

/// A mirror that leans to the left.
pub const MIRROR_DOWN: u8 = 92;

/// A splitter that stands upright.
pub const SPLIT_NORTH_SOUTH: u8 = 124;

/// A splitter that lies flat.
pub const SPLIT_EAST_WEST: u8 = 45;

impl Direction {
    /// One bit for each direction: 1 for North, 2 for East, 4 for South and 8
    /// for West.
    pub open spec fn bit_spec(self) -> u8 {
        match self {
            Direction::North => 1,
            Direction::East => 2,
            Direction::South => 4,
            Direction::West => 8,
        }
    }

    /// A number for the direction, from 0 for North clockwise to 3 for West.
    pub open spec fn index_spec(self) -> int {
        match self {
            Direction::North => 0,
            Direction::East => 1,
            Direction::South => 2,
            Direction::West => 3,
        }
    }

    /// The position one step from `start_pos` in this direction, as (row,
    /// column).
    pub open spec fn travel_from_spec(self, start_pos: (isize, isize)) -> (int, int) {
        match self {
            Direction::North => (start_pos.0 - 1, start_pos.1 as int),
            Direction::East => (start_pos.0 as int, start_pos.1 + 1),
            Direction::South => (start_pos.0 + 1, start_pos.1 as int),
            Direction::West => (start_pos.0 as int, start_pos.1 - 1),
        }
    }

    /// One bit for each direction.
    pub fn bit(&self) -> (b: u8)
        ensures
            b == self.bit_spec(),
    {
        match self {
            Direction::North => 1,
            Direction::East => 2,
            Direction::South => 4,
            Direction::West => 8,
        }
    }

    /// The position one step from `start_pos` in this direction.
    pub fn travel_from(&self, start_pos: (isize, isize)) -> (r: (isize, isize))
        requires
            isize::MIN < start_pos.0 < isize::MAX,
            isize::MIN < start_pos.1 < isize::MAX,
        ensures
            (r.0 as int, r.1 as int) == self.travel_from_spec(start_pos),
    {
        match self {
            Direction::North => (start_pos.0 - 1, start_pos.1),
            Direction::East => (start_pos.0, start_pos.1 + 1),
            Direction::South => (start_pos.0 + 1, start_pos.1),
            Direction::West => (start_pos.0, start_pos.1 - 1),
        }
    }
}

/// Every tile is empty space, a mirror or a splitter, the rows are equally
/// long, and there is at least one tile.
pub open spec fn is_mirror_grid(g: Seq<Seq<u8>>) -> bool {
    &&& g.len() >= 1
    &&& g[0].len() >= 1
    &&& g.len() * g[0].len() <= MAX_TILES
    &&& forall|y: int| 0 <= y < g.len() ==> (#[trigger] g[y]).len() == g[0].len()
    &&& forall|y: int, x: int|
        0 <= y < g.len() && 0 <= x < g[0].len() ==> is_tile(#[trigger] g[y][x])
}

/// Whether the byte is empty space, a mirror or a splitter.
pub open spec fn is_tile(b: u8) -> bool {
    b == SPACE || b == MIRROR_UP || b == MIRROR_DOWN || b == SPLIT_NORTH_SOUTH || b
        == SPLIT_EAST_WEST
}

/// Whether the head is about to enter a tile of the grid.
pub open spec fn on_grid(g: Seq<Seq<u8>>, h: Head) -> bool {
    0 <= h.y < g.len() && 0 <= h.x < g[0].len()
}

/// The head one tile on in a direction.
pub open spec fn moved(h: Head, d: Direction) -> Head {
    match d {
        Direction::North => Head { y: h.y - 1, x: h.x, direction: d },
        Direction::East => Head { y: h.y, x: h.x + 1, direction: d },
        Direction::South => Head { y: h.y + 1, x: h.x, direction: d },
        Direction::West => Head { y: h.y, x: h.x - 1, direction: d },
    }
}

/// The directions in which a beam leaves a tile that it has entered in
/// direction `d`: one direction, or two at a splitter that it meets across. The
/// second is then the same as the first.
pub open spec fn leaves(tile: u8, d: Direction) -> (Direction, Direction) {
    if tile == MIRROR_UP {
        match d {
            Direction::North => (Direction::East, Direction::East),
            Direction::East => (Direction::North, Direction::North),
            Direction::South => (Direction::West, Direction::West),
            Direction::West => (Direction::South, Direction::South),
        }
    } else if tile == MIRROR_DOWN {
        match d {
            Direction::North => (Direction::West, Direction::West),
            Direction::East => (Direction::South, Direction::South),
            Direction::South => (Direction::East, Direction::East),
            Direction::West => (Direction::North, Direction::North),
        }
    } else if tile == SPLIT_NORTH_SOUTH && (d == Direction::East || d == Direction::West) {
        (Direction::North, Direction::South)
    } else if tile == SPLIT_EAST_WEST && (d == Direction::North || d == Direction::South) {
        (Direction::East, Direction::West)
    } else {
        (d, d)
    }
}

/// Whether a beam with head `from`, on the grid, goes on with head `to`.
pub open spec fn goes_on(g: Seq<Seq<u8>>, from: Head, to: Head) -> bool {
    on_grid(g, from) && (to == moved(from, leaves(g[from.y][from.x], from.direction).0) || to
        == moved(from, leaves(g[from.y][from.x], from.direction).1))
}

/// The head of the beam that enters with head `entry` after it has gone on
/// once for every one of `turns`, which tell, for every tile, whether the beam
/// leaves it in the second of its directions; `None` once the beam has left
/// the grid.
pub open spec fn beam_head(g: Seq<Seq<u8>>, entry: Head, turns: Seq<bool>) -> Option<Head>
    decreases turns.len(),
{
    if turns.len() == 0 {
        if on_grid(g, entry) {
            Some(entry)
        } else {
            None
        }
    } else {
        match beam_head(g, entry, turns.drop_last()) {
            None => None,
            Some(before) => {
                let ways = leaves(g[before.y][before.x], before.direction);
                let next = moved(
                    before,
                    if turns.last() {
                        ways.1
                    } else {
                        ways.0
                    },
                );
                if on_grid(g, next) {
                    Some(next)
                } else {
                    None
                }
            },
        }
    }
}

/// Whether the beam that enters with head `entry` ever has the head `h`, on
/// the grid.
pub open spec fn lit(g: Seq<Seq<u8>>, entry: Head, h: Head) -> bool {
    exists|turns: Seq<bool>| #[trigger] beam_head(g, entry, turns) == Some(h)
}

/// Whether the bit of a direction is set in the bits of a tile.
pub open spec fn has_bit(bits: u8, d: Direction) -> bool {
    bits & d.bit_spec() != 0
}

/// The number of a head on the grid.
pub open spec fn head_number(g: Seq<Seq<u8>>, h: Head) -> int {
    (h.y * g[0].len() + h.x) * 4 + h.direction.index_spec()
}

/// The number of tiles among the first `k` of a row that a beam has entered.
pub open spec fn entered_in_row(row: Seq<u8>, k: int) -> nat
    decreases k,
{
    if k <= 0 {
        0
    } else {
        entered_in_row(row, k - 1) + if row[k - 1] > 0 {
            1nat
        } else {
            0nat
        }
    }
}

/// The number of tiles in the first `k` rows that a beam has entered.
pub open spec fn entered(rows: Seq<Seq<u8>>, k: int) -> nat
    decreases k,
{
    if k <= 0 {
        0
    } else {
        entered(rows, k - 1) + entered_in_row(rows[k - 1], rows[k - 1].len() as int)
    }
}

/// Setting the bit of a direction sets that bit and no other.
pub proof fn lemma_bits(bits: u8, d: Direction, e: Direction)
    ensures
        has_bit(bits | d.bit_spec(), e) == (has_bit(bits, e) || d == e),
        !has_bit(0, e),
        has_bit(bits, e) == (bits & e.bit_spec() > 0),
{
    let b = d.bit_spec();
    let c = e.bit_spec();
    assert(((bits | b) & c != 0) == ((bits & c != 0) || b == c)) by (bit_vector)
        requires
            b == 1 || b == 2 || b == 4 || b == 8,
            c == 1 || c == 2 || c == 4 || c == 8,
    ;
    assert(0u8 & c == 0) by (bit_vector);
}

/// Heads on the grid have numbers below four times the number of tiles, and no
/// two heads share a number.
pub proof fn lemma_head_numbers(g: Seq<Seq<u8>>, a: Head, b: Head)
    requires
        is_mirror_grid(g),
        on_grid(g, a),
        on_grid(g, b),
    ensures
        0 <= head_number(g, a) < 4 * g.len() * g[0].len(),
        head_number(g, a) == head_number(g, b) ==> a == b,
{
    let w = g[0].len() as int;
    let h = g.len() as int;
    assert(0 <= a.y * w + a.x < h * w) by (nonlinear_arith)
        requires
            0 <= a.y < h,
            0 <= a.x < w,
    ;
    assert(4 * h * w == 4 * (h * w)) by (nonlinear_arith);
    if head_number(g, a) == head_number(g, b) {
        assert(a.y * w + a.x == b.y * w + b.x);
        assert(a.y == b.y) by (nonlinear_arith)
            requires
                a.y * w + a.x == b.y * w + b.x,
                0 <= a.x < w,
                0 <= b.x < w,
        ;
    }
}

/// The counts of entered tiles are at most the numbers of tiles.
pub proof fn lemma_entered(rows: Seq<Seq<u8>>, k: int, width: int)
    requires
        0 <= k <= rows.len(),
        forall|y: int| 0 <= y < rows.len() ==> (#[trigger] rows[y]).len() == width,
    ensures
        entered(rows, k) <= k * width,
    decreases k,
{
    if k <= 0 {
        assert(entered(rows, k) == 0);
        assert(0 * width == 0);
    } else {
        lemma_entered(rows, k - 1, width);
        assert(rows[k - 1].len() == width);
        lemma_entered_in_row(rows[k - 1], width);
        assert(k * width == (k - 1) * width + width) by (nonlinear_arith);
    }
}

/// The count of entered tiles of a row is at most the number of its tiles.
pub proof fn lemma_entered_in_row(row: Seq<u8>, k: int)
    requires
        0 <= k,
    ensures
        entered_in_row(row, k) <= k,
    decreases k,
{
    if k > 0 {
        lemma_entered_in_row(row, k - 1);
    }
}

/// The state of the search for the path of a beam.
pub struct Trace {
    pub path: Seq<Seq<u8>>,
    pub heads: Seq<((isize, isize), Direction)>,
    pub marked: Set<int>,
}

/// The head that an entry of the list of heads stands for.
pub open spec fn head_of(e: ((isize, isize), Direction)) -> Head {
    Head { y: e.0.0 as int, x: e.0.1 as int, direction: e.1 }
}

/// What holds while the path of a beam is traced: every head that was marked
/// is lit, and so is every head on the list that is on the grid; the entry is
/// marked or on the list; and wherever a marked head goes on, the beam's head
/// is marked, on the list or off the grid. `open` counts heads that are marked
/// but whose ways on are not all on the list yet.
pub open spec fn trace_inv(g: Seq<Seq<u8>>, entry: Head, t: Trace) -> bool {
    &&& t.path.len() == g.len()
    &&& forall|y: int| 0 <= y < g.len() ==> (#[trigger] t.path[y]).len() == g[0].len()
    &&& forall|h: Head|
        on_grid(g, h) ==> (has_bit(t.path[h.y][h.x], h.direction) <==> t.marked.contains(
            #[trigger] head_number(g, h),
        ))
    &&& forall|h: Head|
        on_grid(g, h) && t.marked.contains(#[trigger] head_number(g, h)) ==> lit(g, entry, h)
    &&& forall|i: int|
        0 <= i < t.heads.len() && on_grid(g, head_of(#[trigger] t.heads[i])) ==> lit(
            g,
            entry,
            head_of(t.heads[i]),
        )
    &&& forall|i: int|
        0 <= i < t.heads.len() ==> -1 <= (#[trigger] t.heads[i]).0.0 <= g.len() && -1
            <= t.heads[i].0.1 <= g[0].len() || !on_grid(g, head_of(t.heads[i]))
    &&& on_grid(g, entry) ==> t.marked.contains(head_number(g, entry)) || listed(t.heads, entry)
    &&& forall|from: Head, to: Head|
        on_grid(g, from) && t.marked.contains(head_number(g, from)) && #[trigger] goes_on(
            g,
            from,
            to,
        ) && on_grid(g, to) ==> t.marked.contains(head_number(g, to))
            || listed(t.heads, to)
    &&& t.marked.finite()
    &&& forall|n: int| #[trigger] t.marked.contains(n) ==> 0 <= n < 4 * g.len() * g[0].len()
}

/// The entry of the list lies at most one tile from `pos`, and not before
/// row -1 or column -1.
pub open spec fn near(e: ((isize, isize), Direction), pos: (isize, isize)) -> bool {
    -1 <= e.0.0 <= pos.0 + 1 && -1 <= e.0.1 <= pos.1 + 1
}

/// Whether a head is on the list.
pub open spec fn listed(heads: Seq<((isize, isize), Direction)>, h: Head) -> bool {
    exists|i: int| 0 <= i < heads.len() && head_of(#[trigger] heads[i]) == h
}

/// When the list has run empty, every head that the beam ever has is marked.
pub proof fn lemma_all_marked(g: Seq<Seq<u8>>, entry: Head, t: Trace, turns: Seq<bool>, h: Head)
    requires
        is_mirror_grid(g),
        trace_inv(g, entry, t),
        t.heads.len() == 0,
        beam_head(g, entry, turns) == Some(h),
    ensures
        t.marked.contains(head_number(g, h)),
    decreases turns.len(),
{
    assert(!listed(t.heads, h));
    if turns.len() > 0 {
        let before = beam_head(g, entry, turns.drop_last())->Some_0;
        lemma_beam_on_grid(g, entry, turns.drop_last());
        lemma_all_marked(g, entry, t, turns.drop_last(), before);
        assert(goes_on(g, before, h));
    }
}

/// The head of a beam is on the grid.
pub proof fn lemma_beam_on_grid(g: Seq<Seq<u8>>, entry: Head, turns: Seq<bool>)
    requires
        beam_head(g, entry, turns) is Some,
    ensures
        on_grid(g, beam_head(g, entry, turns)->Some_0),
{
}

impl MirrorGrid {
    /// The tiles, row by row.
    pub closed spec fn view(&self) -> Seq<Seq<u8>> {
        self.grid@
    }

    /// Follows a beam that is about to enter the tile at `entry_pos`, given
    /// as (row, column), travelling in `entry_direction`, through all its
    /// mirrors and splitters, and marks for every tile in which directions the
    /// beam enters it. A beam that was followed through a tile in a direction
    /// before is not followed again.
    pub fn follow_beam(&self, entry_pos: (isize, isize), entry_direction: Direction) -> (r:
        BeamPath)
        requires
            is_mirror_grid(self.view()),
        ensures
            r.view().len() == self.view().len(),
            forall|y: int|
                0 <= y < self.view().len() ==> (#[trigger] r.view()[y]).len()
                    == self.view()[0].len(),
            forall|h: Head|
                on_grid(self.view(), h) ==> (has_bit(r.view()[h.y][h.x], h.direction) <==> #[trigger] lit(
                    self.view(),
                    head_of((entry_pos, entry_direction)),
                    h,
                )),
    {
        let ghost g = self.view();
        let ghost entry = head_of((entry_pos, entry_direction));
        let height = self.grid.height();
        let width = self.grid.width();
        let mut path = ByteGrid::from_elem(height, width, 0);
        let mut beam_heads: Vec<((isize, isize), Direction)> = Vec::new();
        beam_heads.push((entry_pos, entry_direction));
        let ghost mut marked: Set<int> = Set::empty();
        proof {
            let t = Trace { path: path@, heads: beam_heads@, marked };
            assert forall|h: Head| on_grid(g, h) implies (has_bit(t.path[h.y][h.x], h.direction)
                <==> t.marked.contains(#[trigger] head_number(g, h))) by {
                lemma_bits(0, h.direction, h.direction);
            }
            assert(head_of(beam_heads@[0]) == entry);
            if on_grid(g, entry) {
                assert(beam_head(g, entry, Seq::<bool>::empty()) == Some(entry));
            }
            assert(4 * g.len() * g[0].len() >= 0) by (nonlinear_arith)
                requires
                    g.len() >= 0,
                    g[0].len() >= 0,
            ;
            assert(g.len() <= g.len() * g[0].len() && g[0].len() <= g.len() * g[0].len())
                by (nonlinear_arith)
                requires
                    g.len() >= 1,
                    g[0].len() >= 1,
            ;
        }
        while beam_heads.len() > 0
            invariant
                is_mirror_grid(g),
                height <= MAX_TILES,
                width <= MAX_TILES,
                g == self.view(),
                height == g.len(),
                width == g[0].len(),
                entry == head_of((entry_pos, entry_direction)),
                trace_inv(g, entry, Trace { path: path@, heads: beam_heads@, marked }),
            decreases 4 * g.len() * g[0].len() - marked.len(), beam_heads.len(),
        {
            let ghost before = Trace { path: path@, heads: beam_heads@, marked };
            let (head_pos, head_direction) = beam_heads.pop().unwrap();
            let ghost head = head_of((head_pos, head_direction));
            proof {
                let bound: int = (4 * g.len() * g[0].len()) as int;
                lemma_int_range(0, bound);
                assert(marked.subset_of(set_int_range(0, bound)));
                lemma_len_subset(marked, set_int_range(0, bound));
                assert(head == head_of(before.heads[before.heads.len() - 1]));
                assert forall|h: Head| listed(before.heads, h) implies listed(beam_heads@, h) || h
                    == head by {
                    let i = choose|i: int|
                        0 <= i < before.heads.len() && head_of(#[trigger] before.heads[i]) == h;
                    if i < beam_heads@.len() {
                        assert(beam_heads@[i] == before.heads[i]);
                    }
                }
            }
            // The beam is about to enter the tile at `head_pos`. It is not
            // followed once it has left the grid.
            if head_pos.0 < 0 || head_pos.1 < 0 || head_pos.0 >= height as isize || head_pos.1
                >= width as isize {
                proof {
                    let t = Trace { path: path@, heads: beam_heads@, marked };
                    assert(!on_grid(g, head));
                    assert forall|i: int|
                        0 <= i < t.heads.len() && on_grid(g, head_of(#[trigger] t.heads[i])) implies lit(
                        g,
                        entry,
                        head_of(t.heads[i]),
                    ) by {
                        assert(t.heads[i] == before.heads[i]);
                    }
                    assert forall|i: int| 0 <= i < t.heads.len() implies -1 <= (
                    #[trigger] t.heads[i]).0.0 <= g.len() && -1 <= t.heads[i].0.1 <= g[0].len()
                        || !on_grid(g, head_of(t.heads[i])) by {
                        assert(t.heads[i] == before.heads[i]);
                    }
                }
                continue ;
            }
            let head_pos_u = (head_pos.0 as usize, head_pos.1 as usize);
            // If the beam has entered this tile in this direction before, it
            // goes the way that was followed then. Otherwise the direction
            // is marked in the bits of the tile.
            let direction_bit = head_direction.bit();
            let bits = path.get(head_pos_u.0, head_pos_u.1);
            proof {
                lemma_bits(bits, head_direction, head_direction);
                assert(before.heads[before.heads.len() - 1] == (head_pos, head_direction));
                assert(lit(g, entry, head));
            }
            if bits & direction_bit > 0 {
                proof {
                    let t = Trace { path: path@, heads: beam_heads@, marked };
                    assert(marked.contains(head_number(g, head)));
                    assert forall|i: int|
                        0 <= i < t.heads.len() && on_grid(g, head_of(#[trigger] t.heads[i])) implies lit(
                        g,
                        entry,
                        head_of(t.heads[i]),
                    ) by {
                        assert(t.heads[i] == before.heads[i]);
                    }
                    assert forall|i: int| 0 <= i < t.heads.len() implies -1 <= (
                    #[trigger] t.heads[i]).0.0 <= g.len() && -1 <= t.heads[i].0.1 <= g[0].len()
                        || !on_grid(g, head_of(t.heads[i])) by {
                        assert(t.heads[i] == before.heads[i]);
                    }
                }
                continue ;
            }
            path.set(head_pos_u.0, head_pos_u.1, bits | direction_bit);
            let ghost rest = beam_heads@;
            self.follow_beam_step(
                head_pos,
                head_direction,
                self.grid.get(head_pos_u.0, head_pos_u.1),
                &mut beam_heads,
            );
            proof {
                lemma_head_numbers(g, head, head);
                let old_marked = marked;
                marked = marked.insert(head_number(g, head));
                let t = Trace { path: path@, heads: beam_heads@, marked };
                assert forall|h: Head| on_grid(g, h) implies (has_bit(
                    t.path[h.y][h.x],
                    h.direction,
                ) <==> t.marked.contains(#[trigger] head_number(g, h))) by {
                    lemma_head_numbers(g, h, head);
                    lemma_bits(bits, head_direction, h.direction);
                    assert(old_marked.contains(head_number(g, h)) == has_bit(
                        before.path[h.y][h.x],
                        h.direction,
                    ));
                }
                assert forall|h: Head|
                    on_grid(g, h) && t.marked.contains(#[trigger] head_number(g, h)) implies lit(
                    g,
                    entry,
                    h,
                ) by {
                    lemma_head_numbers(g, h, head);
                }
                let turns = choose|turns: Seq<bool>| #[trigger]
                    beam_head(g, entry, turns) == Some(head);
                let tile = g[head.y][head.x];
                let first = moved(head, leaves(tile, head.direction).0);
                let second = moved(head, leaves(tile, head.direction).1);
                assert(goes_on(g, head, first));
                assert(goes_on(g, head, second));
                assert(turns.push(false).drop_last() =~= turns);
                assert(turns.push(true).drop_last() =~= turns);
                if on_grid(g, first) {
                    assert(beam_head(g, entry, turns.push(false)) == Some(first));
                }
                if on_grid(g, second) {
                    assert(beam_head(g, entry, turns.push(true)) == Some(second));
                }
                assert forall|i: int|
                    0 <= i < t.heads.len() && on_grid(g, head_of(#[trigger] t.heads[i])) implies lit(
                    g,
                    entry,
                    head_of(t.heads[i]),
                ) by {
                    if i < rest.len() {
                        assert(t.heads[i] == before.heads[i]);
                    }
                }
                assert forall|i: int| 0 <= i < t.heads.len() implies -1 <= (
                #[trigger] t.heads[i]).0.0 <= g.len() && -1 <= t.heads[i].0.1 <= g[0].len()
                    || !on_grid(g, head_of(t.heads[i])) by {
                    if i < rest.len() {
                        assert(t.heads[i] == before.heads[i]);
                    } else {
                        assert(near(t.heads[i], head_pos));
                    }
                }
                assert forall|h: Head| listed(rest, h) implies listed(t.heads, h) by {
                    let i = choose|i: int| 0 <= i < rest.len() && head_of(#[trigger] rest[i]) == h;
                    assert(t.heads[i] == rest[i]);
                }
                assert(listed(t.heads, first) && listed(t.heads, second)) by {
                    assert(head_of(t.heads[rest.len() as int]) == first);
                    assert(head_of(t.heads[t.heads.len() - 1]) == second);
                }
                assert forall|from: Head, to: Head|
                    on_grid(g, from) && t.marked.contains(head_number(g, from)) && #[trigger] goes_on(
                        g,
                        from,
                        to,
                    ) && on_grid(g, to) implies t.marked.contains(head_number(g, to)) || listed(
                    t.heads,
                    to,
                ) by {
                    lemma_head_numbers(g, from, head);
                    if from != head {
                        assert(old_marked.contains(head_number(g, from)));
                        if !old_marked.contains(head_number(g, to)) {
                            assert(listed(before.heads, to));
                        }
                    }
                }
                assert(marked.len() == old_marked.len() + 1);
                let bound: int = (4 * g.len() * g[0].len()) as int;
                assert(marked.subset_of(set_int_range(0, bound)));
                lemma_len_subset(marked, set_int_range(0, bound));
            }
        }
        proof {
            let t = Trace { path: path@, heads: beam_heads@, marked };
            assert forall|h: Head| on_grid(g, h) implies (has_bit(path@[h.y][h.x], h.direction)
                <==> #[trigger] lit(g, entry, h)) by {
                if lit(g, entry, h) {
                    let turns = choose|turns: Seq<bool>| #[trigger]
                        beam_head(g, entry, turns) == Some(h);
                    lemma_all_marked(g, entry, t, turns, h);
                }
                assert(t.marked.contains(head_number(g, h)) ==> lit(g, entry, h));
            }
        }
        BeamPath(path)
    }

    /// Puts on the list the heads with which a beam goes on that has entered
    /// a tile: straight on through empty space and along a splitter, turned by
    /// a mirror, and both ways at a splitter that it meets across.
    fn follow_beam_step(
        &self,
        head_pos: (isize, isize),
        head_direction: Direction,
        element: u8,
        beam_heads: &mut Vec<((isize, isize), Direction)>,
    )
        requires
            is_tile(element),
            0 <= head_pos.0 < isize::MAX,
            0 <= head_pos.1 < isize::MAX,
        ensures
            final(beam_heads)@.len() >= old(beam_heads)@.len() + 1,
            forall|i: int|
                0 <= i < old(beam_heads)@.len() ==> final(beam_heads)@[i] == old(beam_heads)@[i],
            head_of(final(beam_heads)@[old(beam_heads)@.len() as int]) == moved(
                head_of((head_pos, head_direction)),
                leaves(element, head_direction).0,
            ),
            head_of(final(beam_heads)@[final(beam_heads)@.len() - 1]) == moved(
                head_of((head_pos, head_direction)),
                leaves(element, head_direction).1,
            ),
            final(beam_heads)@.len() <= old(beam_heads)@.len() + 2,
            forall|i: int|
                old(beam_heads)@.len() <= i < final(beam_heads)@.len() ==> near(
                    #[trigger] final(beam_heads)@[i],
                    head_pos,
                ),
    {
        if element == SPACE {
            beam_heads.push((head_direction.travel_from(head_pos), head_direction));
        } else if element == MIRROR_UP {
            let (new_pos, new_direction) = match head_direction {
                Direction::North => ((head_pos.0, head_pos.1 + 1), Direction::East),
                Direction::East => ((head_pos.0 - 1, head_pos.1), Direction::North),
                Direction::South => ((head_pos.0, head_pos.1 - 1), Direction::West),
                Direction::West => ((head_pos.0 + 1, head_pos.1), Direction::South),
            };
            beam_heads.push((new_pos, new_direction));
        } else if element == MIRROR_DOWN {
            let (new_pos, new_direction) = match head_direction {
                Direction::North => ((head_pos.0, head_pos.1 - 1), Direction::West),
                Direction::East => ((head_pos.0 + 1, head_pos.1), Direction::South),
                Direction::South => ((head_pos.0, head_pos.1 + 1), Direction::East),
                Direction::West => ((head_pos.0 - 1, head_pos.1), Direction::North),
            };
            beam_heads.push((new_pos, new_direction));
        } else if element == SPLIT_NORTH_SOUTH {
            match head_direction {
                Direction::North | Direction::South => {
                    beam_heads.push((head_direction.travel_from(head_pos), head_direction));
                },
                _ => {
                    beam_heads.push(((head_pos.0 - 1, head_pos.1), Direction::North));
                    beam_heads.push(((head_pos.0 + 1, head_pos.1), Direction::South));
                },
            }
        } else {
            match head_direction {
                Direction::East | Direction::West => {
                    beam_heads.push((head_direction.travel_from(head_pos), head_direction));
                },
                _ => {
                    beam_heads.push(((head_pos.0, head_pos.1 + 1), Direction::East));
                    beam_heads.push(((head_pos.0, head_pos.1 - 1), Direction::West));
                },
            }
        }
    }

    /// Reads the grid from a picture: as many rows as the tiles fill, as wide
    /// as the first line.
    pub fn from_bytes(text: &[u8]) -> (r: Result<MirrorGrid, InputError>)
        requires
            text@.len() <= MAX_TILES,
        ensures
            r is Ok <==> is_picture(text@, false),
            r is Ok ==> r->Ok_0.view() == picture(text@, false),
    {
        proof {
            assert(text@.subrange(0, text@.len() as int) =~= text@);
        }
        match read_picture(text, 0, text.len(), false) {
            Ok(grid) => Ok(MirrorGrid { grid }),
            Err(e) => Err(e),
        }
    }

    /// Reads the grid from a picture.
    pub fn parse(s: &str) -> (r: Result<MirrorGrid, InputError>)
        requires
            s.spec_bytes().len() <= MAX_TILES,
        ensures
            r is Ok <==> is_picture(s.spec_bytes(), false),
            r is Ok ==> r->Ok_0.view() == picture(s.spec_bytes(), false),
    {
        MirrorGrid::from_bytes(s.as_bytes())
    }

    /// Whether every tile is empty space, a mirror or a splitter, and the
    /// grid is not too large for a beam to be followed.
    pub fn is_sound(&self) -> (b: bool)
        requires
            self.view().len() >= 1,
            self.view()[0].len() >= 1,
            forall|y: int|
                0 <= y < self.view().len() ==> (#[trigger] self.view()[y]).len()
                    == self.view()[0].len(),
        ensures
            b == is_mirror_grid(self.view()),
    {
        let height = self.grid.height();
        let width = self.grid.width();
        let ghost g = self.view();
        proof {
            assert(height * width >= height && height * width >= width) by (nonlinear_arith)
                requires
                    height >= 1,
                    width >= 1,
            ;
        }
        if height > MAX_TILES || width > MAX_TILES {
            return false;
        }
        proof {
            assert(height * width <= 100_000_000 * 100_000_000) by (nonlinear_arith)
                requires
                    0 <= height <= 100_000_000,
                    0 <= width <= 100_000_000,
            ;
        }
        if height as u64 * width as u64 > MAX_TILES as u64 {
            return false;
        }
        let mut y: usize = 0;
        while y < height
            invariant
                y <= height,
                height == g.len(),
                width == g[0].len(),
                g == self.view(),
                forall|r: int| 0 <= r < g.len() ==> (#[trigger] g[r]).len() == g[0].len(),
                forall|r: int, c: int| 0 <= r < y && 0 <= c < width ==> is_tile(#[trigger] g[r][c]),
            decreases height - y,
        {
            let mut x: usize = 0;
            while x < width
                invariant
                    x <= width,
                    y < height,
                    height == g.len(),
                    width == g[0].len(),
                    g == self.view(),
                    forall|r: int| 0 <= r < g.len() ==> (#[trigger] g[r]).len() == g[0].len(),
                    forall|r: int, c: int|
                        0 <= r < y && 0 <= c < width ==> is_tile(#[trigger] g[r][c]),
                    forall|c: int| 0 <= c < x ==> is_tile(#[trigger] g[y as int][c]),
                decreases width - x,
            {
                let b = self.grid.get(y, x);
                if !(b == SPACE || b == MIRROR_UP || b == MIRROR_DOWN || b == SPLIT_NORTH_SOUTH
                    || b == SPLIT_EAST_WEST) {
                    return false;
                }
                x += 1;
            }
            y += 1;
        }
        true
    }
}

impl BeamPath {
    /// The bits of the tiles, row by row.
    pub closed spec fn view(&self) -> Seq<Seq<u8>> {
        self.0@
    }

    /// The number of tiles that the beam has entered.
    pub fn num_energized(&self) -> (r: u32)
        requires
            self.view().len() * (if self.view().len() > 0 {
                self.view()[0].len()
            } else {
                0
            }) <= u32::MAX,
        ensures
            r == entered(self.view(), self.view().len() as int),
    {
        let height = self.0.height();
        let width = self.0.width();
        let ghost rows = self.view();
        let mut total: u32 = 0;
        let mut y: usize = 0;
        while y < height
            invariant
                y <= height,
                height == rows.len(),
                rows == self.view(),
                forall|r: int| 0 <= r < rows.len() ==> (#[trigger] rows[r]).len() == width,
                height * width <= u32::MAX,
                total == entered(rows, y as int),
            decreases height - y,
        {
            let mut x: usize = 0;
            let mut count: u32 = 0;
            proof {
                lemma_entered(rows, y + 1, width as int);
                lemma_entered(rows, y as int, width as int);
                assert((y + 1) * width <= height * width) by (nonlinear_arith)
                    requires
                        y + 1 <= height,
                        width >= 0,
                ;
            }
            while x < width
                invariant
                    x <= width,
                    y < height,
                    height == rows.len(),
                    rows == self.view(),
                    rows[y as int].len() == width,
                    count == entered_in_row(rows[y as int], x as int),
                    count <= x,
                    total + entered_in_row(rows[y as int], width as int) <= u32::MAX,
                decreases width - x,
            {
                proof {
                    lemma_entered_grows(rows[y as int], x + 1, width as int);
                }
                if self.0.get(y, x) > 0 {
                    count = count + 1;
                }
                x += 1;
            }
            total = total + count;
            y += 1;
        }
        total
    }
}

/// The count of entered tiles grows along a row.
pub proof fn lemma_entered_grows(row: Seq<u8>, a: int, b: int)
    requires
        0 <= a <= b,
    ensures
        entered_in_row(row, a) <= entered_in_row(row, b),
    decreases b,
{
    if a < b {
        lemma_entered_grows(row, a, b - 1);
    }
}

} // verus!
