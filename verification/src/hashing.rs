//! Hash sets and maps of `rustc_hash`, keyed by integers.
//!
//! Nothing in this file is proved: each function makes one call on a table
//! that hashes with `FxHasher`, and its contract says what that call does to
//! the set or map that the table stands for.
use rustc_hash::FxHashMap;
use rustc_hash::FxHashSet;
use vstd::prelude::*;

verus! {

/// The hasher of `rustc_hash`.
#[verifier::external_type_specification]
#[verifier::external_body]
pub struct ExFxHasher(rustc_hash::FxHasher);

/// The builder that makes a fresh hasher by `Default`.
#[verifier::external_type_specification]
#[verifier::external_body]
#[verifier::reject_recursive_types(H)]
pub struct ExBuildHasherDefault<H>(std::hash::BuildHasherDefault<H>);

/// `FxHashSet::default()`: a set with nothing in it.
#[verifier::external_body]
pub(crate) fn key_set_new() -> (s: FxHashSet<u64>)
    ensures
        s@ == Set::<u64>::empty(),
{
    FxHashSet::default()
}

/// `HashSet::insert`: the key is in the set afterwards, and the result tells
/// whether it was new.
#[verifier::external_body]
pub(crate) fn key_set_insert(s: &mut FxHashSet<u64>, key: u64) -> (fresh: bool)
    ensures
        final(s)@ == old(s)@.insert(key),
        fresh == !old(s)@.contains(key),
{
    s.insert(key)
}

/// `HashSet::contains`.
#[verifier::external_body]
pub(crate) fn key_set_contains(s: &FxHashSet<u64>, key: u64) -> (found: bool)
    ensures
        found == s@.contains(key),
{
    s.contains(&key)
}

/// `FxHashMap::default()`: a map with no keys.
#[verifier::external_body]
pub(crate) fn cost_map_new() -> (m: FxHashMap<u64, u32>)
    ensures
        m@ == (Map::<u64, u32>::empty()),
{
    FxHashMap::default()
}

/// `HashMap::insert`: the key maps to the value afterwards, and the other keys
/// are as before.
#[verifier::external_body]
pub(crate) fn cost_map_insert(m: &mut FxHashMap<u64, u32>, key: u64, value: u32)
    ensures
        final(m)@ == old(m)@.insert(key, value),
{
    m.insert(key, value);
}

/// `HashMap::get`, with the value copied out.
#[verifier::external_body]
pub(crate) fn cost_map_get(m: &FxHashMap<u64, u32>, key: u64) -> (value: Option<u32>)
    ensures
        value == (if m@.contains_key(key) {
            Some(m@[key])
        } else {
            None
        }),
{
    m.get(&key).copied()
}

} // verus!
