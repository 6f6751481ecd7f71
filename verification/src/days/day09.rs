//! The ninth day: the values that follow and come before the histories of a
//! report.
use crate::puzzles::d09::{in_i32, next_fits, prev_fits, report_of, sum_next, sum_prev, Report};
use vstd::prelude::*;
use vstd::string::StringSliceAdditionalSpecFns;

verus! {

/// Whether the next values of the histories and their sum are found within
/// 32 bits.
pub open spec fn next_found(hs: Seq<Seq<int>>) -> bool {
    (forall|i: int| 0 <= i < hs.len() ==> next_fits(#[trigger] hs[i], 0)) && (forall|k: int|
        0 <= k <= hs.len() ==> in_i32(#[trigger] sum_next(hs, k)))
}

/// Whether the previous values of the histories and their sum are found
/// within 32 bits.
pub open spec fn prev_found(hs: Seq<Seq<int>>) -> bool {
    (forall|i: int| 0 <= i < hs.len() ==> prev_fits(#[trigger] hs[i], 0, 1)) && (forall|k: int|
        0 <= k <= hs.len() ==> in_i32(#[trigger] sum_prev(hs, k)))
}

/// The sum of the values that follow the histories of the text; `None`
/// where the text is no report or a number on the way does not fit in 32 bits.
pub fn part_one(input: &str) -> (r: Option<i32>)
    ensures
        r == (match report_of(input.spec_bytes()) {
            Ok(hs) => if next_found(hs) {
                Some(sum_next(hs, hs.len() as int) as i32)
            } else {
                None
            },
            Err(_) => None,
        }),
{
    match Report::parse(input) {
        Ok(report) => report.checked_sum_extrapolated(),
        Err(_) => None,
    }
}

/// The sum of the values that come before the histories of the text; `None`
/// where the text is no report or a number on the way does not fit in 32 bits.
pub fn part_two(input: &str) -> (r: Option<i32>)
    ensures
        r == (match report_of(input.spec_bytes()) {
            Ok(hs) => if prev_found(hs) {
                Some(sum_prev(hs, hs.len() as int) as i32)
            } else {
                None
            },
            Err(_) => None,
        }),
{
    match Report::parse(input) {
        Ok(report) => report.checked_sum_extrapolated_backwards(),
        Err(_) => None,
    }
}

} // verus!
