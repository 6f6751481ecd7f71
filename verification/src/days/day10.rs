//! The tenth day: the loop of pipes through the start of a maze.
use crate::puzzles::d10::{closes_at, enclosed_by, last_start, maze_side, tiles_of, Maze};
use vstd::prelude::*;
use vstd::string::StringSliceAdditionalSpecFns;

verus! {

/// The greatest length of a text that is read.
pub const MAX_TEXT: usize = 0x7fff_ffff;

/// Half the number of steps of the loop: the steps to the place of the loop
/// that is farthest from the start. `None` where the text is too long or is no
/// maze, or the walk from the start does not come back.
pub fn part_one(input: &str) -> (r: Option<u32>)
    ensures
        !is_readable(input.spec_bytes()) ==> r is None,
        is_readable(input.spec_bytes()) ==> exists|maze: Maze| #[trigger]
            holds(&maze, input.spec_bytes()) && is_far_end(&maze, r),
{
    if input.as_bytes().len() > MAX_TEXT {
        return None;
    }
    match Maze::from_bytes(input.as_bytes()) {
        Ok(maze) => {
            let found = far_end(&maze);
            proof {
                assert(holds(&maze, input.spec_bytes()) && is_far_end(&maze, found));
            }
            found
        },
        Err(_) => None,
    }
}

/// Whether the text is a maze that can be read.
pub open spec fn is_readable(text: Seq<u8>) -> bool {
    text.len() <= MAX_TEXT && maze_side(text) is Some
}

/// Whether the maze is that of the text: its rows hold the tiles of the
/// text, and its start is the last tile `S`.
pub open spec fn holds(maze: &Maze, text: Seq<u8>) -> bool {
    let n = maze_side(text)->Some_0;
    let found = last_start(tiles_of(text), tiles_of(text).len() as int);
    &&& maze.wf()
    &&& maze@.len() == n
    &&& forall|y: int| 0 <= y < n ==> (#[trigger] maze@[y]) == tiles_of(text).subrange(y * n, y * n + n)
    &&& maze.start() == ((found % n) as usize, (found / n) as usize)
}

/// Whether `r` is half the number of steps after which the walk from the
/// start of the maze is back, or nothing where it does not come back.
pub open spec fn is_far_end(maze: &Maze, r: Option<u32>) -> bool {
    match r {
        Some(half) => exists|k: nat|
            #[trigger] closes_at(maze@, maze.start(), k) && k <= maze@.len() * maze@.len() && half
                == k / 2,
        None => forall|k: nat|
            k <= maze@.len() * maze@.len() ==> !#[trigger] closes_at(maze@, maze.start(), k),
    }
}

/// Whether `r` is the ground that the loop of the maze encloses, or nothing
/// where the walk from the start does not come back.
pub open spec fn is_enclosed(maze: &Maze, r: Option<u32>) -> bool {
    match r {
        Some(v) => exists|k: nat|
            k <= maze@.len() * maze@.len() && #[trigger] closes_at(maze@, maze.start(), k) && v
                == enclosed_by(maze@, maze.start(), k),
        None => forall|k: nat|
            k <= maze@.len() * maze@.len() ==> !#[trigger] closes_at(maze@, maze.start(), k),
    }
}

/// Half the number of steps after which the walk from the start is back.
pub fn far_end(maze: &Maze) -> (r: Option<u32>)
    requires
        maze.wf(),
    ensures
        match r {
            Some(half) => exists|k: nat|
                #[trigger] closes_at(maze@, maze.start(), k) && k <= maze@.len() * maze@.len()
                    && half == k / 2,
            None => forall|k: nat|
                k <= maze@.len() * maze@.len() ==> !#[trigger] closes_at(maze@, maze.start(), k),
        },
{
    match maze.loop_len() {
        Some(k) => {
            proof {
                assert(closes_at(maze@, maze.start(), k as nat));
            }
            Some(k / 2)
        },
        None => None,
    }
}

/// The number of ground tiles that the loop encloses. `None` where the text
/// is too long or is no maze, or the walk from the start does not come back.
pub fn part_two(input: &str) -> (r: Option<u32>)
    ensures
        !is_readable(input.spec_bytes()) ==> r is None,
        is_readable(input.spec_bytes()) ==> exists|maze: Maze| #[trigger]
            holds(&maze, input.spec_bytes()) && is_enclosed(&maze, r),
{
    if input.as_bytes().len() > MAX_TEXT {
        return None;
    }
    match Maze::from_bytes(input.as_bytes()) {
        Ok(maze) => {
            let found = maze.enclosed_area();
            proof {
                assert(holds(&maze, input.spec_bytes()) && is_enclosed(&maze, found));
            }
            found
        },
        Err(_) => None,
    }
}

} // verus!
