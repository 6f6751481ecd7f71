//! The twelfth day: the ways in which the springs of a field can be damaged.
use crate::puzzles::d12::{
    can_count, row_of, sizes, total_unfolded_ways, total_ways, unfolded, Field, RowModel,
};
use crate::text::lines;
use vstd::prelude::*;
use vstd::string::StringSliceAdditionalSpecFns;

verus! {

/// Whether every line of the text is a row of springs.
pub open spec fn is_field(text: Seq<u8>) -> bool {
    forall|i: int| 0 <= i < lines(text).len() ==> (#[trigger] row_of(lines(text)[i])) is Ok
}

/// Whether the field holds the rows of the text, each with the sizes of its
/// groups.
pub open spec fn holds(field: &Field, text: Seq<u8>) -> bool {
    field.view().len() == lines(text).len() && forall|i: int|
        0 <= i < lines(text).len() ==> (#[trigger] row_of(lines(text)[i])) is Ok
            && field.view()[i].row == row_of(lines(text)[i])->Ok_0.0 && sizes(
            field.view()[i].groups,
        ) == row_of(lines(text)[i])->Ok_0.1
}

/// The sum of the numbers of ways of the rows, where those of every row can
/// be counted and the sum fits in 64 bits.
pub open spec fn counted(rows: Seq<RowModel>) -> Option<u64> {
    if (forall|i: int| 0 <= i < rows.len() ==> can_count(#[trigger] rows[i])) && total_ways(
        rows,
        rows.len() as int,
    ) <= u64::MAX {
        Some(total_ways(rows, rows.len() as int) as u64)
    } else {
        None
    }
}

/// The same, with every row unfolded; no row may be empty.
pub open spec fn counted_unfolded(rows: Seq<RowModel>) -> Option<u64> {
    if (forall|i: int|
        0 <= i < rows.len() ==> (#[trigger] rows[i]).row.len() >= 1 && can_count(unfolded(rows[i])))
        && total_unfolded_ways(rows, rows.len() as int) <= u64::MAX {
        Some(total_unfolded_ways(rows, rows.len() as int) as u64)
    } else {
        None
    }
}

/// Whether `r` is the count for the field, and the field is that of the
/// text.
pub open spec fn is_count_of(field: &Field, text: Seq<u8>, r: Option<u64>, unfold: bool) -> bool {
    holds(field, text) && r == (if unfold {
        counted_unfolded(field.view())
    } else {
        counted(field.view())
    })
}

/// The sum of the numbers of ways of the rows of the text; `None` where the
/// text is no field or a number on the way does not fit.
pub fn part_one(input: &str) -> (r: Option<u64>)
    ensures
        !is_field(input.spec_bytes()) ==> r is None,
        is_field(input.spec_bytes()) ==> exists|field: Field| #[trigger]
            is_count_of(&field, input.spec_bytes(), r, false),
{
    match Field::from_bytes(input.as_bytes()) {
        Ok(field) => {
            let sum = field.checked_total_arrangement_count();
            proof {
                assert(is_count_of(&field, input.spec_bytes(), sum, false));
            }
            sum
        },
        Err(_) => None,
    }
}

/// The sum of the numbers of ways of the rows of the text, each unfolded to
/// five times its length; `None` where the text is no field or a number on the
/// way does not fit.
pub fn part_two(input: &str) -> (r: Option<u64>)
    ensures
        !is_field(input.spec_bytes()) ==> r is None,
        is_field(input.spec_bytes()) ==> exists|field: Field| #[trigger]
            is_count_of(&field, input.spec_bytes(), r, true),
{
    match Field::from_bytes(input.as_bytes()) {
        Ok(field) => {
            let sum = field.checked_total_arrangement_count_extended();
            proof {
                assert(is_count_of(&field, input.spec_bytes(), sum, true));
            }
            sum
        },
        Err(_) => None,
    }
}

} // verus!
