//! Settings that the puzzles are solved with, kept apart from the solvers.
use vstd::prelude::*;

verus! {

/// The settings of the second day's puzzle.
pub struct Day02Settings {
    /// How many red, green and blue cubes the bag holds.
    pub bag_contents: [u8; 3],
}

/// The settings of all puzzles.
pub struct Settings {
    pub day02: Day02Settings,
}

impl Settings {
    /// The settings as the puzzles give them: a bag of 12 red, 13 green and 14
    /// blue cubes.
    pub fn new() -> (s: Self)
        ensures
            s.day02.bag_contents@ == seq![12u8, 13u8, 14u8],
    {
        let day02 = Day02Settings { bag_contents: [12, 13, 14] };
        proof {
            assert(day02.bag_contents@ =~= seq![12u8, 13u8, 14u8]);
        }
        Settings { day02 }
    }
}

impl Default for Settings {
    fn default() -> (s: Self)
        ensures
            s.day02.bag_contents@ == seq![12u8, 13u8, 14u8],
    {
        Self::new()
    }
}

} // verus!
