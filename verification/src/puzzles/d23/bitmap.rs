//! A set of numbers below 64, kept in the bits of one word.
use vstd::prelude::*;

verus! {

/// A set of numbers from 0 to 63.
#[derive(Clone, Copy, Default)]
pub struct BitMap64(u64);

/// Whether bit `idx` of `bits` is set.
pub open spec fn bit_is_set(bits: u64, idx: u32) -> bool {
    bits & (1u64 << idx) != 0
}

/// Setting a bit sets that bit and leaves the others as they are.
pub proof fn lemma_set_bit(bits: u64, idx: u32, other: u32)
    requires
        idx < 64,
        other < 64,
    ensures
        bit_is_set(bits | (1u64 << idx), other) == (other == idx || bit_is_set(bits, other)),
        !bit_is_set(0, other),
{
    assert((bits | (1u64 << idx)) & (1u64 << other) != 0 <==> (other == idx || bits & (1u64
        << other) != 0)) by (bit_vector)
        requires
            idx < 64,
            other < 64,
    ;
    assert(0u64 & (1u64 << other) == 0) by (bit_vector);
}

impl View for BitMap64 {
    type V = Set<u32>;

    /// The numbers in the set.
    closed spec fn view(&self) -> Set<u32> {
        Set::new(|idx: u32| idx < 64 && bit_is_set(self.0, idx))
    }
}

impl BitMap64 {
    /// The empty set.
    pub fn new() -> (r: Self)
        ensures
            r@ == Set::<u32>::empty(),
    {
        proof {
            assert forall|idx: u32| idx < 64 implies !bit_is_set(0, idx) by {
                lemma_set_bit(0, 0, idx);
            }
            assert(Set::new(|idx: u32| idx < 64 && bit_is_set(0, idx)) =~= Set::<u32>::empty());
        }
        BitMap64(0)
    }

    /// Whether `idx` is in the set.
    pub fn get(&self, idx: u32) -> (b: bool)
        requires
            idx < 64,
        ensures
            b == self@.contains(idx),
    {
        self.0 & (1u64 << idx) != 0
    }

    /// Puts `idx` into the set. Numbers above 63 have no bit and are a mistake.
    pub fn set_unchecked(&mut self, idx: u32)
        requires
            idx < 64,
        ensures
            final(self)@ == old(self)@.insert(idx),
    {
        let ghost before = self.0;
        self.0 = self.0 | (1u64 << idx);
        proof {
            assert forall|other: u32| other < 64 implies bit_is_set(self.0, other) == (other == idx
                || bit_is_set(before, other)) by {
                lemma_set_bit(before, idx, other);
            }
            assert forall|other: u32| self@.contains(other) == old(self)@.insert(idx).contains(
                other,
            ) by {
                if other < 64 {
                    lemma_set_bit(before, idx, other);
                }
            }
            assert(self@ =~= old(self)@.insert(idx));
        }
    }
}

} // verus!
