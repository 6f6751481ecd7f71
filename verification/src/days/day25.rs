//! The last day: a wiring cut in two by taking three wires away.
use crate::puzzles::d25::union_find::UnionFind;
use crate::puzzles::d25::{line_links, MinCut, Wiring, WANTED};
use crate::text::lines;
use vstd::prelude::*;
use vstd::string::StringSliceAdditionalSpecFns;

verus! {

/// The greatest number of runs of the search for a cut.
pub const MAX_TRIES: u32 = 1_000_000;

/// The sizes of the two groups of a cut, multiplied; `None` where the cut has
/// no wire, so that its groups are not told apart, or the product does not fit
/// in 32 bits.
pub fn product_of_sizes(cut: &MinCut) -> (r: Option<u32>)
    requires
        cut.wf(),
    ensures
        r is Some ==> cut.wires().len() > 0 && r->Some_0 == cut.groups().set_size(
            cut.wires()[0].0 as u64,
        ) * cut.groups().set_size(cut.wires()[0].1 as u64),
        r is None ==> cut.wires().len() == 0 || cut.groups().set_size(cut.wires()[0].0 as u64)
            * cut.groups().set_size(cut.wires()[0].1 as u64) > u32::MAX,
{
    if cut.size() == 0 {
        return None;
    }
    let sizes = cut.component_sizes();
    match sizes.0.checked_mul(sizes.1) {
        Some(product) => if product <= 0xffff_ffff {
            Some(product as u32)
        } else {
            None
        },
        None => None,
    }
}

/// The sizes, multiplied, of the two groups into which the wiring falls
/// when three wires are taken away. `None` where the text is no wiring, or no
/// cut of at most three wires is found.
pub fn part_one(input: &str) -> (r: Option<u32>)
    ensures
        (exists|i: int|
            0 <= i < lines(input.spec_bytes()).len() && (#[trigger] line_links(
                lines(input.spec_bytes())[i],
            )) is None) ==> r is None,
        r is Some ==> exists|wiring: Wiring, cut: MinCut| #[trigger]
            is_product(&wiring, &cut, input.spec_bytes(), r->Some_0),
        r is None ==> (exists|i: int|
            0 <= i < lines(input.spec_bytes()).len() && (#[trigger] line_links(
                lines(input.spec_bytes())[i],
            )) is None) || exists|wiring: Wiring| #[trigger] is_without(&wiring, input.spec_bytes()),
{
    let wiring = match Wiring::from_bytes(input.as_bytes()) {
        Ok(wiring) => wiring,
        Err(_) => {
            return None;
        },
    };
    match wiring.min_cut(MAX_TRIES) {
        Some(cut) => {
            let product = product_of_sizes(&cut);
            proof {
                if product is Some {
                    assert(is_product(&wiring, &cut, input.spec_bytes(), product->Some_0));
                }
            }
            proof {
                if product is None {
                    assert(is_poor(&wiring, cut));
                    assert(is_without(&wiring, input.spec_bytes()));
                }
            }
            product
        },
        None => {
            proof {
                assert(is_without(&wiring, input.spec_bytes()));
            }
            None
        },
    }
}

/// Whether this is a cut of the wiring of at most three wires whose groups
/// give no product: it has no wire, or the sizes of the groups, multiplied, do
/// not fit in 32 bits.
pub open spec fn is_poor(wiring: &Wiring, cut: MinCut) -> bool {
    &&& cut.cuts(wiring)
    &&& cut.wires().len() <= WANTED
    &&& cut.wires().len() == 0 || cut.groups().set_size(cut.wires()[0].0 as u64)
        * cut.groups().set_size(cut.wires()[0].1 as u64) > u32::MAX
}

/// Whether the wiring is that of the text and the search can end without a
/// product: the wiring has fewer than two components or more than can be
/// numbered, it falls apart, it has a cut of more than three wires, which a
/// run may give every time, or it has a cut whose groups give no product.
pub open spec fn is_without(wiring: &Wiring, text: Seq<u8>) -> bool {
    &&& wiring.holds(text)
    &&& wiring.names().len() < 2 || wiring.names().len() > u32::MAX || (exists|groups: UnionFind| #[trigger]
        wiring.falls_apart(groups)) || (exists|cut: MinCut| #[trigger] wiring.is_wide(cut)) || (exists|
        cut: MinCut,
    | #[trigger] is_poor(wiring, cut))
}

/// Whether the wiring is that of the text, the cut one of it with one to
/// three wires, and `v` the sizes of the two groups of the cut, multiplied.
pub open spec fn is_product(wiring: &Wiring, cut: &MinCut, text: Seq<u8>, v: u32) -> bool {
    &&& wiring.holds(text)
    &&& cut.cuts(wiring)
    &&& 1 <= cut.wires().len() <= WANTED
    &&& v == cut.groups().set_size(cut.wires()[0].0 as u64) * cut.groups().set_size(
        cut.wires()[0].1 as u64,
    )
}

/// The answer to everything, as there is no puzzle to solve.
pub fn part_two(_input: &str) -> (r: Option<u32>)
    ensures
        r == Some(42u32),
{
    Some(42)
}

} // verus!
