//! The twenty-third day: the longest walks through a forest of trails.
use crate::puzzles::blocks::{is_picture, picture};
use crate::puzzles::d23::trails::is_forest;
use crate::puzzles::d23::{
    longest_apart, longest_from, TrailMap, ENTRANCE, EXIT, MAX_DEPTH, MAX_VERTICES,
};
use vstd::prelude::*;
use vstd::string::StringSliceAdditionalSpecFns;

verus! {

/// The greatest length of a text that is read.
pub const MAX_TEXT: usize = 0x7fff_ffff;

/// Whether the text is a forest that can be read.
pub open spec fn is_readable(text: Seq<u8>) -> bool {
    text.len() <= MAX_TEXT && is_picture(text, false) && is_forest(picture(text, false))
}

/// The length of the longest walk from the entrance to the exit that goes
/// down every slope. `None` where the text is no forest, no walk leads to the
/// exit, or the length does not fit in 32 bits.
pub fn part_one(input: &str) -> (r: Option<u32>)
    ensures
        !is_readable(input.spec_bytes()) ==> r is None,
        is_readable(input.spec_bytes()) ==> exists|map: TrailMap| #[trigger]
            is_longest(&map, input.spec_bytes(), r, false),
{
    if input.as_bytes().len() > MAX_TEXT {
        return None;
    }
    match TrailMap::from_bytes(input.as_bytes()) {
        Ok(map) => {
            let found = map.longest_path_len_directed();
            proof {
                assert(is_longest(&map, input.spec_bytes(), found, false));
            }
            found
        },
        Err(_) => None,
    }
}

/// A length, where there is one and it fits in 32 bits.
pub open spec fn fitting(length: Option<int>) -> Option<u32> {
    match length {
        Some(l) => if l <= u32::MAX {
            Some(l as u32)
        } else {
            None
        },
        None => None,
    }
}

/// Whether the map is the graph of the forest of the text, and `r` the
/// length of its longest walk from the entrance to the exit: along the edges as
/// the slopes allow them, or, `both_ways`, along the edges in both directions
/// without passing a crossing twice, which is looked for only with at most 64
/// crossings and is zero where there is no such walk.
pub open spec fn is_longest(map: &TrailMap, text: Seq<u8>, r: Option<u32>, both_ways: bool) -> bool {
    &&& map.wf()
    &&& map@ == picture(text, false)
    &&& r == (if both_ways {
        if map.vertices().len() > MAX_VERTICES {
            None
        } else {
            match longest_apart(
                map.undirected(),
                EXIT as int,
                ENTRANCE as int,
                Set::<u32>::empty(),
                MAX_DEPTH as nat,
            ) {
                Some(l) => fitting(Some(l)),
                None => Some(0u32),
            }
        }
    } else {
        fitting(longest_from(map.directed(), EXIT as int, ENTRANCE as int, map.vertices().len()))
    })
}

/// The length of the longest walk from the entrance to the exit that passes
/// no crossing twice, whatever the slopes. `None` where the text is no forest,
/// the forest has more than 64 crossings, or the length does not fit in 32
/// bits.
pub fn part_two(input: &str) -> (r: Option<u32>)
    ensures
        !is_readable(input.spec_bytes()) ==> r is None,
        is_readable(input.spec_bytes()) ==> exists|map: TrailMap| #[trigger]
            is_longest(&map, input.spec_bytes(), r, true),
{
    if input.as_bytes().len() > MAX_TEXT {
        return None;
    }
    match TrailMap::from_bytes(input.as_bytes()) {
        Ok(map) => {
            if map.n_vertices() > MAX_VERTICES {
                proof {
                    assert(is_longest(&map, input.spec_bytes(), None, true));
                }
                return None;
            }
            let found = map.longest_path_len_undirected();
            proof {
                assert(is_longest(&map, input.spec_bytes(), found, true));
            }
            found
        },
        Err(_) => None,
    }
}

} // verus!
