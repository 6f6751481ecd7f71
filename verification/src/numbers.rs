//! Least common multiples, by the `num_integer` crate.
//!
//! Nothing in this file is proved: the function hands its work to
//! `num_integer`, and its contract says what that crate's source shows of the
//! call.
use vstd::prelude::*;

verus! {

/// `m` is a multiple of `a` and of `b`.
pub open spec fn is_common_multiple(a: int, b: int, m: int) -> bool {
    a > 0 && b > 0 && m > 0 && m % a == 0 && m % b == 0
}

/// `r` is the least common multiple of `a` and `b`: the least number above
/// zero that is a multiple of both, or zero where one of them is zero.
pub open spec fn is_lcm(a: int, b: int, r: int) -> bool {
    if a == 0 || b == 0 {
        r == 0
    } else {
        is_common_multiple(a, b, r) && forall|m: int| #[trigger]
            is_common_multiple(a, b, m) ==> r <= m
    }
}

/// `num_integer::lcm` on numbers of 64 bits: the first number times the
/// second, divided by their greatest common divisor. The product of the two
/// numbers must fit in 64 bits, so that the multiplication does.
#[verifier::external_body]
pub(crate) fn lcm(a: u64, b: u64) -> (r: u64)
    requires
        a * b <= u64::MAX,
    ensures
        is_lcm(a as int, b as int, r as int),
{
    num_integer::lcm(a, b)
}

} // verus!
