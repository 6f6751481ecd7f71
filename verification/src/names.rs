//! A list of names without repetitions, in which a name is known by its
//! place.
use crate::text::same_as;
use vstd::prelude::*;

verus! {

/// The names as values.
pub open spec fn texts(names: Seq<Vec<u8>>) -> Seq<Seq<u8>> {
    names.map_values(|n: Vec<u8>| n@)
}

/// The place of a name in the list, if it is there.
pub fn find_name(names: &Vec<Vec<u8>>, word: &[u8]) -> (r: Option<usize>)
    ensures
        match r {
            Some(i) => i < names@.len() && names@[i as int]@ == word@,
            None => forall|j: int| 0 <= j < names@.len() ==> (#[trigger] names@[j])@ != word@,
        },
{
    let mut i: usize = 0;
    while i < names.len()
        invariant
            i <= names.len(),
            forall|j: int| 0 <= j < i ==> (#[trigger] names@[j])@ != word@,
        decreases names.len() - i,
    {
        proof {
            assert(word@.subrange(0, word@.len() as int) =~= word@);
        }
        if same_as(word, 0, word.len(), names[i].as_slice()) {
            return Some(i);
        }
        i += 1;
    }
    None
}

/// The place in the list of the name that stands between `from` and `to` of
/// the text; a new name is put at the end of the list.
pub fn place_of(names: &mut Vec<Vec<u8>>, text: &[u8], from: usize, to: usize) -> (r: usize)
    requires
        from <= to <= text.len(),
        texts(old(names)@).no_duplicates(),
    ensures
        texts(final(names)@).no_duplicates(),
        old(names)@.len() <= final(names)@.len() <= old(names)@.len() + 1,
        forall|i: int| 0 <= i < old(names)@.len() ==> (#[trigger] final(names)@[i]) == old(names)@[i],
        r < final(names)@.len(),
        final(names)@[r as int]@ == text@.subrange(from as int, to as int),
        final(names)@.len() == old(names)@.len() || r == old(names)@.len(),
{
    let ghost word = text@.subrange(from as int, to as int);
    let ghost known = texts(names@);
    let mut i: usize = 0;
    while i < names.len()
        invariant
            i <= names.len(),
            from <= to <= text.len(),
            names@ == old(names)@,
            known == texts(names@),
            known.no_duplicates(),
            word == text@.subrange(from as int, to as int),
            forall|j: int| 0 <= j < i ==> (#[trigger] names@[j])@ != word,
        decreases names.len() - i,
    {
        if same_as(text, from, to, names[i].as_slice()) {
            return i;
        }
        i += 1;
    }
    let mut name: Vec<u8> = Vec::new();
    let mut k: usize = from;
    while k < to
        invariant
            from <= k <= to <= text.len(),
            name@ == text@.subrange(from as int, k as int),
        decreases to - k,
    {
        name.push(text[k]);
        proof {
            assert(name@ =~= text@.subrange(from as int, k + 1));
        }
        k += 1;
    }
    names.push(name);
    proof {
        let after = texts(names@);
        assert forall|a: int, b: int|
            0 <= a < after.len() && 0 <= b < after.len() && a != b implies after[a] != after[b] by {
            if a < known.len() && b < known.len() {
                assert(known[a] != known[b]);
            } else if a < known.len() {
                assert(names@[a]@ != word);
            } else {
                assert(names@[b]@ != word);
            }
        }
    }
    names.len() - 1
}

} // verus!
