//! The third day: the numbers of a schematic that touch a symbol.
use crate::puzzles::d03::{text_fault, Schematic};
use vstd::prelude::*;
use vstd::string::StringSliceAdditionalSpecFns;

verus! {

/// The sum of the first `k` numbers that touch a symbol.
pub open spec fn part_sum(s: &Schematic, k: int) -> int
    decreases k,
{
    if k <= 0 {
        0
    } else {
        part_sum(s, k - 1) + if s.is_part(k - 1) {
            s.number_seq()[k - 1].val as int
        } else {
            0int
        }
    }
}

/// The sum of the first numbers is no more than the sum of more of them.
pub proof fn lemma_part_sum_grows(s: &Schematic, k: int, m: int)
    requires
        0 <= k <= m,
    ensures
        0 <= part_sum(s, k) <= part_sum(s, m),
    decreases m,
{
    if m > 0 {
        if k < m {
            lemma_part_sum_grows(s, k, m - 1);
        } else {
            lemma_part_sum_grows(s, k - 1, m - 1);
        }
    }
}

/// The sum of the numbers that touch a symbol; `None` where it does not fit
/// in 32 bits.
pub fn sum_part_numbers(schematic: &Schematic) -> (r: Option<u32>)
    requires
        schematic.wf(),
    ensures
        r == (if part_sum(schematic, schematic.number_seq().len() as int) <= u32::MAX {
            Some(part_sum(schematic, schematic.number_seq().len() as int) as u32)
        } else {
            None
        }),
{
    let selected = schematic.select_part_number_idxs();
    let numbers = schematic.numbers();
    let n = numbers.len();
    let mut total: u64 = 0;
    let mut i: usize = 0;
    while i < n
        invariant
            i <= n,
            n == schematic.number_seq().len(),
            numbers@ == schematic.number_seq(),
            selected@.len() == n,
            forall|k: int| 0 <= k < n ==> (#[trigger] selected@[k]) == schematic.is_part(k),
            total == part_sum(schematic, i as int),
            total <= u32::MAX,
        decreases n - i,
    {
        proof {
            lemma_part_sum_grows(schematic, i + 1, n as int);
        }
        if selected[i] {
            total = total + numbers[i].val as u64;
            if total > 0xffff_ffff {
                return None;
            }
        }
        i += 1;
    }
    Some(total as u32)
}

/// The sum of the numbers of the schematic that touch a symbol; `None` where
/// the text is no schematic or the sum does not fit in 32 bits.
pub fn part_one(input: &str) -> (r: Option<u32>)
    ensures
        text_fault(input.spec_bytes()) is Some ==> r is None,
        text_fault(input.spec_bytes()) is None ==> exists|s: Schematic| #[trigger]
            is_sum_of(&s, input.spec_bytes(), r),
{
    match Schematic::new(input) {
        Ok(schematic) => {
            let sum = sum_part_numbers(&schematic);
            proof {
                assert(is_sum_of(&schematic, input.spec_bytes(), sum));
            }
            sum
        },
        Err(_) => None,
    }
}

/// Whether `r` is the sum of the numbers that touch a symbol in the schematic
/// `s`, which is that of the text; nothing where the sum does not fit in 32
/// bits.
pub open spec fn is_sum_of(s: &Schematic, text: Seq<u8>, r: Option<u32>) -> bool {
    &&& s.wf()
    &&& s.text() == text
    &&& r == (if part_sum(s, s.number_seq().len() as int) <= u32::MAX {
        Some(part_sum(s, s.number_seq().len() as int) as u32)
    } else {
        None
    })
}

/// No answer.
pub fn part_two(_input: &str) -> (r: Option<u32>)
    ensures
        r is None,
{
    None
}

} // verus!
