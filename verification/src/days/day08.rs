//! The eighth day: the steps through a network from its start to its end.
use crate::puzzles::d08::{
    are_arrivals, breaks, folds_to, is_first_arrival, is_network, never_arrives, Network, Node,
};
use vstd::prelude::*;
use vstd::string::StringSliceAdditionalSpecFns;

verus! {

/// The greatest number of steps that a walk is followed.
pub const MAX_STEPS: u32 = 0xffff_ffff;

/// The steps from the node `AAA` to the node `ZZZ`; `None` where the text is
/// no network or the walk does not arrive.
pub fn part_one(input: &str) -> (r: Option<u32>)
    ensures
        !is_network(input.spec_bytes()) ==> r is None,
        is_network(input.spec_bytes()) ==> exists|network: Network| #[trigger]
            network.holds(input.spec_bytes()) && is_walk(&network, r),
{
    match Network::parse(input) {
        Ok(network) => {
            let steps = network.n_steps_from_to_single(
                Node(65, 65, 65),
                Node(90, 90, 90),
                MAX_STEPS,
            );
            proof {
                assert(network.holds(input.spec_bytes()) && is_walk(&network, steps));
            }
            steps
        },
        Err(_) => None,
    }
}

/// Whether `r` is the number of turns after which the walk from `AAA` first
/// comes to `ZZZ`, or nothing where it has not come there after as many turns
/// as are followed.
pub open spec fn is_walk(network: &Network, r: Option<u32>) -> bool {
    match r {
        Some(steps) => is_first_arrival(
            network.view(),
            Node(65, 65, 65),
            Some(Node(90, 90, 90)),
            steps as nat,
        ),
        None => forall|k: nat|
            k <= MAX_STEPS ==> !#[trigger] is_first_arrival(
                network.view(),
                Node(65, 65, 65),
                Some(Node(90, 90, 90)),
                k,
            ),
    }
}

/// Whether `r` is the least common multiple of the numbers of turns after
/// which the walks from the nodes that end in `A` first come to a node that
/// ends in `Z`; or nothing, where there is no such node, one of the walks does
/// not come there, or the multiple does not fit in 64 bits.
pub open spec fn is_common_walk(network: &Network, r: Option<u64>) -> bool {
    match r {
        Some(v) => exists|steps: Seq<u64>, totals: Seq<u64>|
            #[trigger] folds_to(steps, totals) && totals.last() == v && steps.len()
                == network.start_seq().len() && are_arrivals(
                network.view(),
                network.start_seq(),
                steps,
            ),
        None => network.start_seq().len() == 0 || (exists|i: int|
            0 <= i < network.start_seq().len() && never_arrives(
                network.view(),
                #[trigger] network.start_seq()[i],
                MAX_STEPS,
            )) || (exists|steps: Seq<u64>, totals: Seq<u64>, n: u64| #[trigger]
            breaks(network.view(), network.start_seq(), steps, totals, n)),
    }
}

/// The steps after which the walks from all nodes that end in `A` are at
/// nodes that end in `Z` together; `None` where the text is no network or one
/// of the walks does not arrive.
pub fn part_two(input: &str) -> (r: Option<u64>)
    ensures
        !is_network(input.spec_bytes()) ==> r is None,
        is_network(input.spec_bytes()) ==> exists|network: Network| #[trigger]
            network.holds(input.spec_bytes()) && is_common_walk(&network, r),
{
    match Network::parse(input) {
        Ok(network) => {
            let steps = network.n_steps_all_a_to_all_z(MAX_STEPS);
            proof {
                assert(network.holds(input.spec_bytes()) && is_common_walk(&network, steps));
            }
            steps
        },
        Err(_) => None,
    }
}

} // verus!
