//! Finding numbers in a line, as digits or written out, with the `regex`
//! crate.
//!
//! Nothing in this file is proved: each function runs one pattern over a line,
//! and its contract gives the result a name. What the rest of the library knows
//! of such a result it finds out by looking at it.
use vstd::prelude::*;

verus! {

/// Where the first number of a line stands and where its last number stands,
/// if the line holds two numbers of which the second starts behind the end of
/// the first; each as the place where it starts and the place behind its end.
pub uninterp spec fn two_numbers(line: Seq<u8>) -> Option<((usize, usize), (usize, usize))>;

/// Where the first number of a line stands, if the line holds a number.
pub uninterp spec fn one_number(line: Seq<u8>) -> Option<(usize, usize)>;

/// `regex::bytes::Regex::captures` with the pattern of two numbers: a first
/// number, taken as early as can be, and a second one behind it, taken as late
/// as can be, where a number is a digit or one of the words `one` to `nine`.
/// The result holds where each of the two numbers starts and ends in the line,
/// and is what `two_numbers` names for the line; nothing more is claimed of it.
#[verifier::external_body]
pub(crate) fn find_two_numbers(line: &[u8]) -> (r: Option<((usize, usize), (usize, usize))>)
    ensures
        r == two_numbers(line@),
{
    let rx2 = regex::bytes::Regex::new(
        r"^.*?(\d|one|two|three|four|five|six|seven|eight|nine).*(\d|one|two|three|four|five|six|seven|eight|nine).*?$",
    ).unwrap();
    rx2.captures(line).map(
        |caps| {
            let (c1, c2) = (caps.get(1).unwrap(), caps.get(2).unwrap());
            ((c1.start(), c1.end()), (c2.start(), c2.end()))
        },
    )
}

/// `regex::bytes::Regex::captures` with the pattern of one number, taken as
/// early as can be. The result holds where the number starts and ends in the
/// line, and is what `one_number` names for the line; nothing more is claimed of
/// it.
#[verifier::external_body]
pub(crate) fn find_one_number(line: &[u8]) -> (r: Option<(usize, usize)>)
    ensures
        r == one_number(line@),
{
    let rx1 = regex::bytes::Regex::new(
        r"^.*?(\d|one|two|three|four|five|six|seven|eight|nine).*",
    ).unwrap();
    rx1.captures(line).map(
        |caps| {
            let c = caps.get(1).unwrap();
            (c.start(), c.end())
        },
    )
}

} // verus!
