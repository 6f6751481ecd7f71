//! A wiring of components, and a way to cut it in two by taking few wires
//! away: wires are drawn in a random order and the components at their ends
//! joined, until two groups are left.
use crate::chance::{seeded_rng, shuffle_pairs};
use crate::names::{place_of, texts};
use crate::text::{lines, split_lines, split_once, split_once_spec, split_whitespace, words, InputError};
use rand::rngs::StdRng;
use vstd::array::array_as_slice;
use vstd::prelude::*;
use vstd::string::StringSliceAdditionalSpecFns;

pub mod union_find;

use union_find::UnionFind;

verus! {

/// The components, by name, and the wires, each between two components given
/// by their places in the list of names.
pub struct Wiring {
    names: Vec<Vec<u8>>,
    connections: Vec<(usize, usize)>,
}

/// A cut: the components in two groups, and the wires between the groups.
pub struct MinCut {
    edges: Vec<(usize, usize)>,
    components: UnionFind,
}

/// The seed of the generator that draws the wires.
pub const SEED: u64 = 42;

/// The greatest number of wires that a cut may have for the search to end.
pub const WANTED: usize = 3;

/// The wires that a line gives: from the component named before the colon
/// to each of the components named after it.
pub open spec fn line_links(line: Seq<u8>) -> Option<Seq<(Seq<u8>, Seq<u8>)>> {
    match split_once_spec(line, seq![58u8, 32u8]) {
        None => None,
        Some((from, to)) => Some(Seq::new(words(to).len(), |j: int| (from, words(to)[j]))),
    }
}

/// The wires that the first `i` lines give, in order.
pub open spec fn links_upto(ls: Seq<Seq<u8>>, i: int) -> Seq<(Seq<u8>, Seq<u8>)>
    decreases i,
{
    if i <= 0 {
        Seq::<(Seq<u8>, Seq<u8>)>::empty()
    } else {
        links_upto(ls, i - 1) + match line_links(ls[i - 1]) {
            Some(links) => links,
            None => Seq::<(Seq<u8>, Seq<u8>)>::empty(),
        }
    }
}

/// The numbers from zero up to, but not including, `n`.
fn numbers_upto(n: usize) -> (r: Vec<u64>)
    ensures
        r@.len() == n,
        forall|i: int| 0 <= i < n ==> (#[trigger] r@[i]) == i,
        r@.no_duplicates(),
{
    let mut v: Vec<u64> = Vec::new();
    let mut i: usize = 0;
    while i < n
        invariant
            i <= n,
            v@.len() == i,
            forall|j: int| 0 <= j < i ==> (#[trigger] v@[j]) == j,
        decreases n - i,
    {
        v.push(i as u64);
        i += 1;
    }
    v
}

/// A copy of the pairs.
fn copy_pairs(v: &Vec<(usize, usize)>) -> (r: Vec<(usize, usize)>)
    ensures
        r@ == v@,
{
    let mut c: Vec<(usize, usize)> = Vec::new();
    let mut i: usize = 0;
    while i < v.len()
        invariant
            i <= v.len(),
            c@ == v@.take(i as int),
        decreases v.len() - i,
    {
        c.push(v[i]);
        proof {
            assert(c@ =~= v@.take(i + 1));
        }
        i += 1;
    }
    proof {
        assert(v@.take(v@.len() as int) =~= v@);
    }
    c
}

impl Wiring {
    /// The names of the components.
    pub closed spec fn names(&self) -> Seq<Seq<u8>> {
        texts(self.names@)
    }

    /// The wires.
    pub closed spec fn links(&self) -> Seq<(usize, usize)> {
        self.connections@
    }

    /// Every wire runs between components of the wiring, and no two
    /// components have the same name.
    pub open spec fn wf(&self) -> bool {
        &&& self.names().no_duplicates()
        &&& forall|k: int|
            0 <= k < self.links().len() ==> (#[trigger] self.links()[k]).0 < self.names().len()
                && self.links()[k].1 < self.names().len()
    }

    /// The names at the two ends of each wire.
    pub open spec fn link_names(&self) -> Seq<(Seq<u8>, Seq<u8>)> {
        Seq::new(
            self.links().len(),
            |k: int| (self.names()[self.links()[k].0 as int], self.names()[self.links()[k].1 as int]),
        )
    }

    /// The number of components.
    pub fn n_components(&self) -> (n: usize)
        ensures
            n == self.names().len(),
    {
        self.names.len()
    }

    /// The number of wires.
    pub fn n_connections(&self) -> (n: usize)
        ensures
            n == self.links().len(),
    {
        self.connections.len()
    }

    /// Reads a wiring: on each line the name of a component, a colon and a
    /// space, and the names of the components that it is wired to.
    pub fn from_bytes(text: &[u8]) -> (r: Result<Wiring, InputError>)
        ensures
            r is Ok <==> forall|i: int|
                0 <= i < lines(text@).len() ==> (#[trigger] line_links(lines(text@)[i])) is Some,
            r is Err ==> r->Err_0 == InputError::Syntax,
            r is Ok ==> r->Ok_0.wf() && r->Ok_0.link_names()
                == links_upto(lines(text@), lines(text@).len() as int),
    {
        let spans = split_lines(text);
        let ghost ls = lines(text@);
        let separator: [u8; 2] = [58, 32];
        proof {
            assert(separator@ =~= seq![58u8, 32u8]);
        }
        let mut names: Vec<Vec<u8>> = Vec::new();
        let mut connections: Vec<(usize, usize)> = Vec::new();
        let mut i: usize = 0;
        while i < spans.len()
            invariant
                i <= spans.len(),
                ls == lines(text@),
                separator@ == seq![58u8, 32u8],
                crate::text::spans_hold(text@, 0, text@.len() as int, spans@, ls),
                texts(names@).no_duplicates(),
                forall|j: int| 0 <= j < i ==> (#[trigger] line_links(ls[j])) is Some,
                connections@.len() == links_upto(ls, i as int).len(),
                forall|k: int|
                    0 <= k < connections@.len() ==> (#[trigger] connections@[k]).0 < names@.len()
                        && connections@[k].1 < names@.len() && names@[connections@[k].0 as int]@
                        == links_upto(ls, i as int)[k].0 && names@[connections@[k].1 as int]@
                        == links_upto(ls, i as int)[k].1,
            decreases spans.len() - i,
        {
            let (from, to) = spans[i];
            let ghost line = ls[i as int];
            proof {
                assert(text@.subrange(from as int, to as int) == line);
            }
            let middle = match split_once(text, from, to, array_as_slice(&separator)) {
                Some(m) => m,
                None => {
                    proof {
                        assert(line_links(ls[i as int]) is None);
                    }
                    return Err(InputError::Syntax);
                },
            };
            let targets = split_whitespace(text, middle + 2, to);
            let ghost from_name = text@.subrange(from as int, middle as int);
            let ghost rest = text@.subrange(middle + 2, to as int);
            let ghost links = line_links(line)->Some_0;
            let ghost done = links_upto(ls, i as int);
            proof {
                assert(links =~= Seq::new(words(rest).len(), |j: int| (from_name, words(rest)[j])));
                assert(links_upto(ls, i + 1) == done + links);
            }
            let idx_from = place_of(&mut names, text, from, middle);
            let mut j: usize = 0;
            while j < targets.len()
                invariant
                    j <= targets.len(),
                    from <= middle,
                    middle + 2 <= to <= text.len(),
                    crate::text::spans_hold(text@, middle + 2, to as int, targets@, words(rest)),
                    links == Seq::new(words(rest).len(), |j: int| (from_name, words(rest)[j])),
                    texts(names@).no_duplicates(),
                    idx_from < names@.len(),
                    names@[idx_from as int]@ == from_name,
                    connections@.len() == done.len() + j,
                    forall|k: int|
                        0 <= k < connections@.len() ==> (#[trigger] connections@[k]).0 < names@.len()
                            && connections@[k].1 < names@.len() && names@[connections@[k].0 as int]@ == (
                        done + links)[k].0 && names@[connections@[k].1 as int]@ == (done + links)[k].1,
                decreases targets.len() - j,
            {
                let (a, b) = targets[j];
                let ghost before = connections@;
                let ghost known = names@;
                let idx_to = place_of(&mut names, text, a, b);
                connections.push((idx_from, idx_to));
                proof {
                    assert(text@.subrange(a as int, b as int) == words(rest)[j as int]);
                    assert((done + links)[done.len() + j] == links[j as int]);
                    assert forall|k: int| 0 <= k < connections@.len() implies (
                    #[trigger] connections@[k]).0 < names@.len() && connections@[k].1 < names@.len()
                        && names@[connections@[k].0 as int]@ == (done + links)[k].0
                        && names@[connections@[k].1 as int]@ == (done + links)[k].1 by {
                        if k < before.len() {
                            assert(connections@[k] == before[k]);
                            assert(names@[before[k].0 as int] == known[before[k].0 as int]);
                            assert(names@[before[k].1 as int] == known[before[k].1 as int]);
                        } else {
                            assert(names@[idx_from as int] == known[idx_from as int]);
                        }
                    }
                }
                j += 1;
            }
            proof {
                assert(connections@.len() == (done + links).len());
            }
            i += 1;
        }
        let wiring = Wiring { names, connections };
        proof {
            assert(wiring.link_names() =~= links_upto(ls, ls.len() as int));
        }
        Ok(wiring)
    }

    /// One run of the search: the wires are drawn in a random order and the
    /// groups at their ends joined until two groups are left; the cut is made
    /// of the wires between the two. `None` where the wiring has fewer than two
    /// components or more than can be numbered, or the wires run out before two
    /// groups are left.
    fn kargers_algorithm(&self, rng: &mut StdRng) -> (r: Option<MinCut>)
        requires
            self.wf(),
        ensures
            r is Some ==> r->Some_0.cuts(self),
            self.names().len() < 2 ==> r is None,
            r is None ==> self.names().len() < 2 || self.names().len() > u32::MAX || exists|
                groups: UnionFind,
            | #[trigger] self.falls_apart(groups),
    {
        let n = self.names.len();
        if n < 2 || n > 0xffff_ffff {
            return None;
        }
        let mut edges = copy_pairs(&self.connections);
        shuffle_pairs(&mut edges, rng);
        proof {
            broadcast use vstd::seq_lib::group_to_multiset_ensures;

            assert forall|k: int| 0 <= k < edges@.len() implies self.links().contains(
                #[trigger] edges@[k],
            ) by {
                assert(edges@.to_multiset().count(edges@[k]) > 0);
            }
            assert forall|e: (usize, usize)| self.links().contains(e) implies edges@.contains(e) by {
                assert(self.links().to_multiset().count(e) > 0);
            }
            assert forall|k: int| 0 <= k < edges@.len() implies (#[trigger] edges@[k]).0 < n
                && edges@[k].1 < n by {
                assert(self.links().contains(edges@[k]));
                let m = choose|m: int| 0 <= m < self.links().len() && self.links()[m] == edges@[k];
                assert(self.links()[m].0 < n);
            }
        }
        let nodes = numbers_upto(n);
        let mut super_nodes = UnionFind::from_elements(&nodes);
        proof {
            assert forall|e: u64| e < n implies #[trigger] super_nodes.contains(e) by {
                assert(nodes@[e as int] == e);
                assert(nodes@.contains(e));
            }
        }
        let mut drawn: usize = 0;
        while super_nodes.n_sets() > 2
            invariant
                super_nodes.wf(),
                drawn <= edges@.len(),
                n == self.names().len(),
                super_nodes.count() == n,
                forall|e: (usize, usize)| self.links().contains(e) ==> edges@.contains(e),
                forall|e: u64| e < n ==> #[trigger] super_nodes.contains(e),
                forall|k: int|
                    0 <= k < edges@.len() ==> (#[trigger] edges@[k]).0 < n && edges@[k].1 < n,
                forall|k: int|
                    0 <= k < drawn ==> super_nodes.rep((#[trigger] edges@[k]).0 as u64)
                        == super_nodes.rep(edges@[k].1 as u64),
            decreases edges@.len() - drawn,
        {
            if drawn >= edges.len() {
                proof {
                    assert forall|k: int| 0 <= k < self.links().len() implies super_nodes.rep(
                        (#[trigger] self.links()[k]).0 as u64,
                    ) == super_nodes.rep(self.links()[k].1 as u64) by {
                        assert(self.links().contains(self.links()[k]));
                        assert(edges@.contains(self.links()[k]));
                        let j = choose|j: int| 0 <= j < edges@.len() && edges@[j] == self.links()[k];
                        assert(super_nodes.rep(edges@[j].0 as u64) == super_nodes.rep(
                            edges@[j].1 as u64,
                        ));
                    }
                    assert(self.falls_apart(super_nodes));
                }
                return None;
            }
            let (from, to) = edges[drawn];
            let ghost before = super_nodes;
            let joined = super_nodes.union(from as u64, to as u64);
            proof {
                assert(before.contains(from as u64) && before.contains(to as u64));
                if joined is None {
                    super_nodes.lemma_same_sets(&before);
                }
                assert forall|k: int| 0 <= k < drawn + 1 implies super_nodes.rep(
                    (#[trigger] edges@[k]).0 as u64,
                ) == super_nodes.rep(edges@[k].1 as u64) by {
                    let a = edges@[k].0 as u64;
                    let b = edges@[k].1 as u64;
                    assert(before.contains(a) && before.contains(b));
                }
                assert forall|e: u64| e < n implies #[trigger] super_nodes.contains(e) by {
                    assert(before.contains(e));
                }
            }
            drawn += 1;
        }
        let mut remaining: Vec<(usize, usize)> = Vec::new();
        let mut k: usize = drawn;
        while k < edges.len()
            invariant
                super_nodes.wf(),
                drawn <= k <= edges@.len(),
                forall|e: u64| e < n ==> #[trigger] super_nodes.contains(e),
                forall|j: int|
                    0 <= j < edges@.len() ==> (#[trigger] edges@[j]).0 < n && edges@[j].1 < n,
                forall|j: int| 0 <= j < remaining@.len() ==> edges@.contains(#[trigger] remaining@[j]),
                forall|j: int|
                    0 <= j < remaining@.len() ==> super_nodes.rep((#[trigger] remaining@[j]).0 as u64)
                        != super_nodes.rep(remaining@[j].1 as u64),
                forall|j: int|
                    drawn <= j < k && super_nodes.rep((#[trigger] edges@[j]).0 as u64)
                        != super_nodes.rep(edges@[j].1 as u64) ==> remaining@.contains(edges@[j]),
            decreases edges@.len() - k,
        {
            let (node_a, node_b) = edges[k];
            proof {
                assert(super_nodes.contains(node_a as u64) && super_nodes.contains(node_b as u64));
            }
            let root_a = super_nodes.find_root(node_a as u64);
            let root_b = super_nodes.find_root(node_b as u64);
            let ghost before = remaining@;
            if root_a.unwrap() != root_b.unwrap() {
                remaining.push((node_a, node_b));
                proof {
                    assert(remaining@[before.len() as int] == edges@[k as int]);
                }
            }
            proof {
                assert forall|j: int|
                    drawn <= j < k + 1 && super_nodes.rep((#[trigger] edges@[j]).0 as u64)
                        != super_nodes.rep(edges@[j].1 as u64) implies remaining@.contains(
                    edges@[j],
                ) by {
                    if j < k {
                        assert(before.contains(edges@[j]));
                        let m = choose|m: int| 0 <= m < before.len() && before[m] == edges@[j];
                        assert(remaining@[m] == edges@[j]);
                    }
                }
                assert forall|j: int| 0 <= j < remaining@.len() implies edges@.contains(
                    #[trigger] remaining@[j],
                ) by {
                    if j < before.len() {
                        assert(before[j] == remaining@[j]);
                    }
                }
            }
            k += 1;
        }
        let cut = MinCut { edges: remaining, components: super_nodes };
        proof {
            assert forall|j: int| 0 <= j < cut.edges@.len() implies cut.components.contains(
                (#[trigger] cut.edges@[j]).0 as u64,
            ) && cut.components.contains(cut.edges@[j].1 as u64) by {
                assert(edges@.contains(cut.edges@[j]));
                let m = choose|m: int| 0 <= m < edges@.len() && edges@[m] == cut.edges@[j];
                assert(edges@[m].0 < n);
            }
            assert forall|e: (usize, usize)|
                self.links().contains(e) && cut.components.rep(e.0 as u64) != cut.components.rep(
                    e.1 as u64,
                ) implies #[trigger] cut.edges@.contains(e) by {
                assert(edges@.contains(e));
                let j = choose|j: int| 0 <= j < edges@.len() && edges@[j] == e;
                assert(j >= drawn);
            }
            assert forall|j: int| 0 <= j < cut.edges@.len() implies self.links().contains(
                #[trigger] cut.edges@[j],
            ) by {
                assert(edges@.contains(cut.edges@[j]));
            }
        }
        Some(cut)
    }

    /// Whether the wiring falls into more than two groups even with every
    /// wire in place: in `groups` the two ends of every wire are in one group,
    /// and there are more than two groups.
    pub open spec fn falls_apart(&self, groups: UnionFind) -> bool {
        &&& groups.wf()
        &&& groups.count() == self.names().len()
        &&& forall|e: u64| e < self.names().len() ==> #[trigger] groups.contains(e)
        &&& forall|k: int|
            0 <= k < self.links().len() ==> groups.rep((#[trigger] self.links()[k]).0 as u64)
                == groups.rep(self.links()[k].1 as u64)
        &&& groups.sets() > 2
    }

    /// The wiring holds what a text says: for every name after the colon of
    /// a line a wire from the component named before the colon.
    pub open spec fn holds(&self, text: Seq<u8>) -> bool {
        self.wf() && self.link_names() == links_upto(lines(text), lines(text).len() as int)
    }

    /// Whether this is a cut of the wiring of more than three wires.
    pub open spec fn is_wide(&self, cut: MinCut) -> bool {
        cut.cuts(self) && cut.wires().len() > WANTED
    }

    /// Runs of the search, at most `max_tries` of them, until one gives a cut
    /// of at most three wires; `None` if no run does. Which cuts the runs give
    /// depends on the order in which the wires are drawn; a cut is found
    /// whatever is drawn where there is a run to make, the wiring has at least
    /// two components, no more than can be numbered, does not fall apart, and
    /// has no cut of more than three wires.
    pub fn min_cut(&self, max_tries: u32) -> (r: Option<MinCut>)
        requires
            self.wf(),
        ensures
            r is Some ==> r->Some_0.cuts(self) && r->Some_0.wires().len() <= WANTED,
            self.names().len() < 2 ==> r is None,
            max_tries == 0 ==> r is None,
            r is None ==> max_tries == 0 || self.names().len() < 2 || self.names().len() > u32::MAX || (
            exists|groups: UnionFind| #[trigger] self.falls_apart(groups)) || (exists|cut: MinCut| #[trigger]
                self.is_wide(cut)),
    {
        let mut rng = seeded_rng(SEED);
        let mut tries: u32 = 0;
        while tries < max_tries
            invariant
                self.wf(),
                tries <= max_tries,
                tries > 0 ==> exists|cut: MinCut| #[trigger] self.is_wide(cut),
            decreases max_tries - tries,
        {
            match self.kargers_algorithm(&mut rng) {
                None => {
                    return None;
                },
                Some(cut) => {
                    if cut.edges.len() <= WANTED {
                        return Some(cut);
                    }
                    proof {
                        assert(self.is_wide(cut));
                    }
                },
            }
            tries += 1;
        }
        None
    }
}

impl MinCut {
    /// The wires between the two groups.
    pub closed spec fn wires(&self) -> Seq<(usize, usize)> {
        self.edges@
    }

    /// The groups.
    pub closed spec fn groups(&self) -> UnionFind {
        self.components
    }

    /// Whether the wire runs between the two groups.
    pub open spec fn crosses(&self, e: (usize, usize)) -> bool {
        self.groups().rep(e.0 as u64) != self.groups().rep(e.1 as u64)
    }

    /// The groups are sound, and the ends of the wires are in them.
    pub open spec fn wf(&self) -> bool {
        &&& self.groups().wf()
        &&& forall|j: int|
            0 <= j < self.wires().len() ==> self.groups().contains(
                (#[trigger] self.wires()[j]).0 as u64,
            ) && self.groups().contains(self.wires()[j].1 as u64)
    }

    /// This is a cut of the wiring: its components are in two groups, and the
    /// wires of the cut are the wires of the wiring that run between the two.
    pub open spec fn cuts(&self, w: &Wiring) -> bool {
        &&& self.wf()
        &&& self.groups().sets() <= 2
        &&& self.groups().count() == w.names().len()
        &&& forall|e: u64| e < w.names().len() ==> #[trigger] self.groups().contains(e)
        &&& forall|j: int|
            0 <= j < self.wires().len() ==> w.links().contains(#[trigger] self.wires()[j])
                && self.crosses(self.wires()[j])
        &&& forall|e: (usize, usize)|
            w.links().contains(e) && self.crosses(e) ==> #[trigger] self.wires().contains(e)
    }

    /// The number of wires between the two groups.
    pub fn size(&self) -> (n: usize)
        ensures
            n == self.wires().len(),
    {
        self.edges.len()
    }

    /// The sizes of the two groups: first that at the one end of the first
    /// wire of the cut, then that at its other end.
    pub fn component_sizes(&self) -> (r: (usize, usize))
        requires
            self.wf(),
            self.wires().len() > 0,
        ensures
            r.0 == self.groups().set_size(self.wires()[0].0 as u64),
            r.1 == self.groups().set_size(self.wires()[0].1 as u64),
    {
        let (node_a, node_b) = self.edges[0];
        proof {
            assert(self.groups().contains(self.wires()[0].0 as u64));
        }
        let size_a = self.components.size_of_set(node_a as u64);
        let size_b = self.components.size_of_set(node_b as u64);
        (size_a.unwrap(), size_b.unwrap())
    }
}

impl Wiring {
    /// Reads a wiring.
    pub fn parse(s: &str) -> (r: Result<Wiring, InputError>)
        ensures
            r is Ok <==> forall|i: int|
                0 <= i < lines(s.spec_bytes()).len() ==> (#[trigger] line_links(
                    lines(s.spec_bytes())[i],
                )) is Some,
            r is Ok ==> r->Ok_0.wf(),
    {
        Wiring::from_bytes(s.as_bytes())
    }
}

impl std::str::FromStr for Wiring {
    type Err = InputError;

    fn from_str(s: &str) -> (r: Result<Self, Self::Err>) {
        Wiring::parse(s)
    }
}

} // verus!
