//! Disjoint sets of numbers: every number belongs to one set, each set has
//! one of its numbers as its root, and two sets can be joined.
use crate::hashing::{cost_map_get, cost_map_insert, cost_map_new};
use rustc_hash::FxHashMap;
use vstd::prelude::*;

verus! {

/// Disjoint sets of numbers.
pub struct UnionFind {
    elem2idx: FxHashMap<u64, u32>,
    idx2elem: Vec<u64>,
    parents: Vec<usize>,
    sizes: Vec<usize>,
    n_sets: usize,
    heights: Ghost<Seq<nat>>,
    bound: Ghost<nat>,
}

/// The parents form a forest: every parent is a node, no height is above the
/// bound, and a node that is not its own parent lies lower than its parent.
pub open spec fn is_forest(p: Seq<usize>, h: Seq<nat>, b: nat) -> bool {
    &&& h.len() == p.len()
    &&& forall|i: int|
        0 <= i < p.len() ==> (#[trigger] p[i]) < p.len() && h[i] <= b && (p[i] != i ==> h[i]
            < h[p[i] as int])
}

/// The root above node `i`: the node reached by going from parent to parent.
pub open spec fn root(p: Seq<usize>, h: Seq<nat>, b: nat, i: int) -> int
    decreases b - h[i],
{
    if 0 <= i < p.len() && p[i] != i && 0 <= p[i] < p.len() && h[i] < h[p[i] as int] <= b {
        root(p, h, b, p[i] as int)
    } else {
        i
    }
}

/// How many of the first `k` nodes have `r` as their root.
pub open spec fn members(p: Seq<usize>, h: Seq<nat>, b: nat, r: int, k: int) -> int
    decreases k,
{
    if k <= 0 {
        0
    } else {
        members(p, h, b, r, k - 1) + if root(p, h, b, k - 1) == r {
            1int
        } else {
            0int
        }
    }
}

/// How many of the first `k` nodes are roots.
pub open spec fn roots(p: Seq<usize>, k: int) -> int
    decreases k,
{
    if k <= 0 {
        0
    } else {
        roots(p, k - 1) + if p[k - 1] == k - 1 {
            1int
        } else {
            0int
        }
    }
}

/// The root above a node is a node and its own parent, and lies no lower
/// than the node.
pub proof fn lemma_root(p: Seq<usize>, h: Seq<nat>, b: nat, i: int)
    requires
        is_forest(p, h, b),
        0 <= i < p.len(),
    ensures
        0 <= root(p, h, b, i) < p.len(),
        p[root(p, h, b, i)] == root(p, h, b, i),
        h[i] <= h[root(p, h, b, i)],
        p[i] != i ==> h[i] < h[root(p, h, b, i)],
        p[i] == i ==> root(p, h, b, i) == i,
    decreases b - h[i],
{
    if p[i] != i {
        let q = p[i] as int;
        assert(p[q] < p.len());
        lemma_root(p, h, b, q);
    }
}

/// With the root `a` put under the root `r`, every node that had `a` above
/// it has `r` above it, and the other nodes keep their roots.
pub proof fn lemma_attach(p: Seq<usize>, h: Seq<nat>, b: nat, a: int, r: int, i: int)
    requires
        is_forest(p, h, b),
        0 <= a < p.len(),
        0 <= r < p.len(),
        a != r,
        p[a] == a,
        p[r] == r,
        0 <= i < p.len(),
    ensures
        is_forest(p.update(a, r as usize), h.update(r, b + 1), b + 1),
        root(p.update(a, r as usize), h.update(r, b + 1), b + 1, i) == (if root(p, h, b, i) == a {
            r
        } else {
            root(p, h, b, i)
        }),
    decreases b - h[i],
{
    let p2 = p.update(a, r as usize);
    let h2 = h.update(r, b + 1);
    assert(is_forest(p2, h2, b + 1)) by {
        assert forall|j: int| 0 <= j < p2.len() implies (#[trigger] p2[j]) < p2.len() && h2[j] <= b
            + 1 && (p2[j] != j ==> h2[j] < h2[p2[j] as int]) by {
            assert(p[j] < p.len());
        }
    }
    if i == a {
        assert(root(p2, h2, b + 1, r) == r);
    } else if p[i] != i {
        let q = p[i] as int;
        assert(p[q] < p.len());
        lemma_attach(p, h, b, a, r, q);
        assert(p2[i] == p[i]);
        assert(i != r);
        assert(h2[i] == h[i]);
        assert(h2[p[i] as int] >= h[p[i] as int]);
    }
}

/// With a node that is no root put right under its root, every node keeps
/// its root.
pub proof fn lemma_shortcut(p: Seq<usize>, h: Seq<nat>, b: nat, s: int, i: int)
    requires
        is_forest(p, h, b),
        0 <= s < p.len(),
        p[s] != s,
        0 <= i < p.len(),
    ensures
        is_forest(p.update(s, root(p, h, b, s) as usize), h, b),
        root(p.update(s, root(p, h, b, s) as usize), h, b, i) == root(p, h, b, i),
    decreases b - h[i],
{
    let top = root(p, h, b, s);
    lemma_root(p, h, b, s);
    let p2 = p.update(s, top as usize);
    assert(is_forest(p2, h, b)) by {
        assert forall|j: int| 0 <= j < p2.len() implies (#[trigger] p2[j]) < p2.len() && h[j] <= b && (
        p2[j] != j ==> h[j] < h[p2[j] as int]) by {
            assert(p[j] < p.len());
        }
    }
    if i == s {
        assert(p2[top] == top);
        assert(root(p2, h, b, top) == top);
    } else if p[i] != i {
        let q = p[i] as int;
        assert(p[q] < p.len());
        lemma_shortcut(p, h, b, s, q);
    }
}

/// Two different roots have together no more members than there are nodes.
pub proof fn lemma_members_apart(p: Seq<usize>, h: Seq<nat>, b: nat, a: int, r: int, k: int)
    requires
        a != r,
        0 <= k,
    ensures
        0 <= members(p, h, b, a, k),
        0 <= members(p, h, b, r, k),
        members(p, h, b, a, k) + members(p, h, b, r, k) <= k,
    decreases k,
{
    if k > 0 {
        lemma_members_apart(p, h, b, a, r, k - 1);
    }
}

/// The members after one root was put under another.
pub proof fn lemma_members_attached(p: Seq<usize>, h: Seq<nat>, b: nat, a: int, r: int, x: int, k: int)
    requires
        is_forest(p, h, b),
        0 <= a < p.len(),
        0 <= r < p.len(),
        a != r,
        p[a] == a,
        p[r] == r,
        0 <= k <= p.len(),
    ensures
        members(p.update(a, r as usize), h.update(r, b + 1), b + 1, x, k) == (if x == r {
            members(p, h, b, a, k) + members(p, h, b, r, k)
        } else if x == a {
            0
        } else {
            members(p, h, b, x, k)
        }),
    decreases k,
{
    if k > 0 {
        lemma_members_attached(p, h, b, a, r, x, k - 1);
        lemma_attach(p, h, b, a, r, k - 1);
    }
}

/// The members after a node was put right under its root.
pub proof fn lemma_members_shortcut(p: Seq<usize>, h: Seq<nat>, b: nat, s: int, x: int, k: int)
    requires
        is_forest(p, h, b),
        0 <= s < p.len(),
        p[s] != s,
        0 <= k <= p.len(),
    ensures
        members(p.update(s, root(p, h, b, s) as usize), h, b, x, k) == members(p, h, b, x, k),
    decreases k,
{
    if k > 0 {
        lemma_members_shortcut(p, h, b, s, x, k - 1);
        lemma_shortcut(p, h, b, s, k - 1);
    }
}

/// The number of roots after the parent of node `a` was changed.
pub proof fn lemma_roots_update(p: Seq<usize>, a: int, to: usize, k: int)
    requires
        0 <= a < p.len(),
        0 <= k <= p.len(),
        to != a,
    ensures
        roots(p.update(a, to), k) == roots(p, k) - (if a < k && p[a] == a {
            1int
        } else {
            0int
        }),
    decreases k,
{
    if k > 0 {
        lemma_roots_update(p, a, to, k - 1);
    }
}

/// A count of roots is not negative.
pub proof fn lemma_roots_count(p: Seq<usize>, k: int)
    ensures
        0 <= roots(p, k),
    decreases k,
{
    if k > 0 {
        lemma_roots_count(p, k - 1);
    }
}

/// Where every node is its own parent, every node is a root with itself as
/// its only member.
pub proof fn lemma_all_apart(p: Seq<usize>, h: Seq<nat>, b: nat, r: int, k: int)
    requires
        forall|i: int| 0 <= i < p.len() ==> (#[trigger] p[i]) == i,
        0 <= k <= p.len(),
    ensures
        roots(p, k) == k,
        members(p, h, b, r, k) == (if 0 <= r < k {
            1int
        } else {
            0int
        }),
    decreases k,
{
    if k > 0 {
        lemma_all_apart(p, h, b, r, k - 1);
    }
}

impl UnionFind {
    /// Whether the number is in one of the sets.
    pub closed spec fn contains(&self, e: u64) -> bool {
        self.elem2idx@.contains_key(e)
    }

    /// The root of the set that the number is in.
    pub closed spec fn rep(&self, e: u64) -> u64 {
        self.idx2elem@[root(self.parents@, self.heights@, self.bound@, self.elem2idx@[e] as int)]
    }

    /// How many numbers the set has that the number is in.
    pub closed spec fn set_size(&self, e: u64) -> int {
        members(
            self.parents@,
            self.heights@,
            self.bound@,
            root(self.parents@, self.heights@, self.bound@, self.elem2idx@[e] as int),
            self.parents@.len() as int,
        )
    }

    /// How many sets there are.
    pub closed spec fn sets(&self) -> int {
        self.n_sets as int
    }

    /// How many numbers there are.
    pub closed spec fn count(&self) -> int {
        self.idx2elem@.len() as int
    }

    /// The tables agree with each other.
    pub closed spec fn wf(&self) -> bool {
        let n = self.idx2elem@.len();
        &&& n <= u32::MAX
        &&& self.parents@.len() == n
        &&& self.sizes@.len() == n
        &&& is_forest(self.parents@, self.heights@, self.bound@)
        &&& forall|i: int|
            0 <= i < n ==> self.elem2idx@.contains_key(#[trigger] self.idx2elem@[i])
                && self.elem2idx@[self.idx2elem@[i]] == i
        &&& forall|e: u64| #[trigger]
            self.elem2idx@.contains_key(e) ==> self.elem2idx@[e] < n
                && self.idx2elem@[self.elem2idx@[e] as int] == e
        &&& forall|i: int|
            0 <= i < n && self.parents@[i] == i ==> (#[trigger] self.sizes@[i]) == members(
                self.parents@,
                self.heights@,
                self.bound@,
                i,
                n as int,
            )
        &&& self.n_sets == roots(self.parents@, n as int)
    }

    /// A root is in its own set and is the root of it.
    pub proof fn lemma_rep(&self, e: u64)
        requires
            self.wf(),
            self.contains(e),
        ensures
            self.contains(self.rep(e)),
            self.rep(self.rep(e)) == self.rep(e),
    {
        let i = self.elem2idx@[e] as int;
        lemma_root(self.parents@, self.heights@, self.bound@, i);
        let r = root(self.parents@, self.heights@, self.bound@, i);
        assert(self.elem2idx@[self.idx2elem@[r]] == r);
    }

    /// Sets of one number each, one for every number of the list.
    pub fn from_elements(elems: &Vec<u64>) -> (r: UnionFind)
        requires
            elems@.no_duplicates(),
            elems@.len() <= u32::MAX,
        ensures
            r.wf(),
            r.count() == elems@.len(),
            r.sets() == elems@.len(),
            forall|e: u64| r.contains(e) == elems@.contains(e),
            forall|e: u64| #[trigger] r.contains(e) ==> r.rep(e) == e && r.set_size(e) == 1,
    {
        let mut elem2idx = cost_map_new();
        let mut idx2elem: Vec<u64> = Vec::new();
        let mut parents: Vec<usize> = Vec::new();
        let mut sizes: Vec<usize> = Vec::new();
        let mut i: usize = 0;
        while i < elems.len()
            invariant
                i <= elems.len(),
                elems@.no_duplicates(),
                elems@.len() <= u32::MAX,
                idx2elem@ == elems@.take(i as int),
                parents@.len() == i,
                sizes@.len() == i,
                forall|j: int| 0 <= j < i ==> (#[trigger] parents@[j]) == j,
                forall|j: int| 0 <= j < i ==> (#[trigger] sizes@[j]) == 1,
                forall|j: int|
                    0 <= j < i ==> elem2idx@.contains_key(#[trigger] elems@[j]) && elem2idx@[elems@[j]]
                        == j,
                forall|e: u64| #[trigger]
                    elem2idx@.contains_key(e) ==> elem2idx@[e] < i && elems@[elem2idx@[e] as int] == e,
            decreases elems.len() - i,
        {
            let e = elems[i];
            cost_map_insert(&mut elem2idx, e, i as u32);
            idx2elem.push(e);
            parents.push(i);
            sizes.push(1);
            proof {
                assert(idx2elem@ =~= elems@.take(i + 1));
            }
            i += 1;
        }
        let n = elems.len();
        let ghost h = Seq::new(n as nat, |j: int| 0nat);
        let uf = UnionFind {
            elem2idx,
            idx2elem,
            parents,
            sizes,
            n_sets: n,
            heights: Ghost(h),
            bound: Ghost(0nat),
        };
        proof {
            assert(uf.idx2elem@ =~= elems@);
            assert forall|j: int| 0 <= j < n && uf.parents@[j] == j implies (#[trigger] uf.sizes@[j])
                == members(uf.parents@, h, 0, j, n as int) by {
                lemma_all_apart(uf.parents@, h, 0, j, n as int);
            }
            lemma_all_apart(uf.parents@, h, 0, 0, n as int);
            assert forall|e: u64| #[trigger] uf.contains(e) implies uf.rep(e) == e && uf.set_size(e)
                == 1 by {
                let j = uf.elem2idx@[e] as int;
                lemma_all_apart(uf.parents@, h, 0, j, n as int);
            }
            assert forall|e: u64| uf.contains(e) == elems@.contains(e) by {
                if elems@.contains(e) {
                    let j = choose|j: int| 0 <= j < elems@.len() && elems@[j] == e;
                    assert(uf.elem2idx@.contains_key(elems@[j]));
                }
            }
        }
        uf
    }

    /// The node above which the number's root is looked for, and that root.
    fn find_root_idx(&self, elem: u64) -> (r: Option<usize>)
        requires
            self.wf(),
        ensures
            r is Some <==> self.contains(elem),
            r is Some ==> r->Some_0 == root(
                self.parents@,
                self.heights@,
                self.bound@,
                self.elem2idx@[elem] as int,
            ) && r->Some_0 < self.parents@.len() && self.idx2elem@[r->Some_0 as int] == self.rep(elem),
    {
        let start = match cost_map_get(&self.elem2idx, elem) {
            Some(i) => i as usize,
            None => {
                return None;
            },
        };
        let mut walk = start;
        loop
            invariant
                self.wf(),
                walk < self.parents@.len(),
                start == self.elem2idx@[elem],
                self.elem2idx@.contains_key(elem),
                root(self.parents@, self.heights@, self.bound@, walk as int) == root(
                    self.parents@,
                    self.heights@,
                    self.bound@,
                    start as int,
                ),
            decreases self.bound@ - self.heights@[walk as int],
        {
            let parent = self.parents[walk];
            if walk == parent {
                return Some(walk);
            }
            walk = parent;
        }
    }

    /// The same, with the number's node put right under its root.
    fn find_root_idx_shorten(&mut self, elem: u64) -> (r: Option<usize>)
        requires
            old(self).wf(),
        ensures
            final(self).wf(),
            final(self).same_sets(old(self)),
            r is Some <==> old(self).contains(elem),
            r is Some ==> r->Some_0 == root(
                final(self).parents@,
                final(self).heights@,
                final(self).bound@,
                final(self).elem2idx@[elem] as int,
            ) && r->Some_0 < final(self).parents@.len() && final(self).idx2elem@[r->Some_0 as int]
                == final(self).rep(elem),
    {
        let root_idx = match self.find_root_idx(elem) {
            Some(i) => i,
            None => {
                return None;
            },
        };
        let start = match cost_map_get(&self.elem2idx, elem) {
            Some(i) => i as usize,
            None => {
                return None;
            },
        };
        if start != root_idx {
            let ghost p = self.parents@;
            let ghost h = self.heights@;
            let ghost b = self.bound@;
            let ghost n = p.len() as int;
            proof {
                lemma_root(p, h, b, start as int);
                lemma_shortcut(p, h, b, start as int, start as int);
                lemma_roots_update(p, start as int, root_idx, n);
                assert forall|i: int| 0 <= i < n implies root(p.update(start as int, root_idx), h, b, i)
                    == root(p, h, b, i) by {
                    lemma_shortcut(p, h, b, start as int, i);
                }
                assert forall|x: int| 0 <= x < n implies members(
                    p.update(start as int, root_idx),
                    h,
                    b,
                    x,
                    n,
                ) == members(p, h, b, x, n) by {
                    lemma_members_shortcut(p, h, b, start as int, x, n);
                }
            }
            self.parents.set(start, root_idx);
            self.sizes.set(start, 1);
        }
        Some(root_idx)
    }

    /// The two hold the same numbers in the same sets with the same roots.
    pub closed spec fn same_sets(&self, other: &UnionFind) -> bool {
        &&& self.elem2idx@ == other.elem2idx@
        &&& self.idx2elem@ == other.idx2elem@
        &&& self.n_sets == other.n_sets
        &&& self.parents@.len() == other.parents@.len()
        &&& forall|i: int|
            0 <= i < self.parents@.len() ==> root(self.parents@, self.heights@, self.bound@, i)
                == root(other.parents@, other.heights@, other.bound@, i)
        &&& forall|x: int|
            0 <= x < self.parents@.len() ==> members(
                self.parents@,
                self.heights@,
                self.bound@,
                x,
                self.parents@.len() as int,
            ) == members(
                other.parents@,
                other.heights@,
                other.bound@,
                x,
                other.parents@.len() as int,
            )
    }

    /// What holds of two that hold the same sets.
    pub proof fn lemma_same_sets(&self, other: &UnionFind)
        requires
            self.wf(),
            other.wf(),
            self.same_sets(other),
        ensures
            self.count() == other.count(),
            self.sets() == other.sets(),
            forall|e: u64| self.contains(e) == other.contains(e),
            forall|e: u64| #[trigger]
                self.contains(e) ==> self.rep(e) == other.rep(e) && self.set_size(e)
                    == other.set_size(e),
    {
        assert forall|e: u64| #[trigger] self.contains(e) implies self.rep(e) == other.rep(e)
            && self.set_size(e) == other.set_size(e) by {
            let i = self.elem2idx@[e] as int;
            lemma_root(self.parents@, self.heights@, self.bound@, i);
        }
    }

    /// The root of the set that the number is in; `None` for a number that is
    /// in no set.
    pub fn find_root(&self, elem: u64) -> (r: Option<u64>)
        requires
            self.wf(),
        ensures
            r == if self.contains(elem) {
                Some(self.rep(elem))
            } else {
                None
            },
    {
        match self.find_root_idx(elem) {
            Some(i) => Some(self.idx2elem[i]),
            None => None,
        }
    }

    /// The root of the set that the number is in, found as by `find_root`;
    /// the sets stay as they are, and later searches from this number are
    /// short.
    pub fn find_root_shorten(&mut self, elem: u64) -> (r: Option<u64>)
        requires
            old(self).wf(),
        ensures
            final(self).wf(),
            final(self).same_sets(old(self)),
            r == if old(self).contains(elem) {
                Some(old(self).rep(elem))
            } else {
                None
            },
    {
        let found = self.find_root_idx_shorten(elem);
        proof {
            self.lemma_same_sets(old(self));
        }
        match found {
            Some(i) => Some(self.idx2elem[i]),
            None => None,
        }
    }

    /// Whether the number, which is in a set, is in the set of one of two
    /// others.
    pub open spec fn with_either(&self, e: u64, elem1: u64, elem2: u64) -> bool {
        self.rep(e) == self.rep(elem1) || self.rep(e) == self.rep(elem2)
    }

    /// Joins the sets of two numbers. `None`, with the sets as they were,
    /// where one of the numbers is in no set or both are in the same set; else
    /// the root of the joined set, which is the root of one of the two.
    pub fn union(&mut self, elem1: u64, elem2: u64) -> (r: Option<u64>)
        requires
            old(self).wf(),
        ensures
            final(self).wf(),
            final(self).count() == old(self).count(),
            forall|e: u64| final(self).contains(e) == old(self).contains(e),
            r is Some <==> old(self).contains(elem1) && old(self).contains(elem2) && old(self).rep(
                elem1,
            ) != old(self).rep(elem2),
            r is None ==> final(self).same_sets(old(self)),
            r is Some ==> (r->Some_0 == old(self).rep(elem1) || r->Some_0 == old(self).rep(elem2))
                && final(self).sets() == old(self).sets() - 1,
            r is Some ==> forall|e: u64| #[trigger]
                old(self).contains(e) ==> final(self).rep(e) == (if old(self).with_either(
                    e,
                    elem1,
                    elem2,
                ) {
                    r->Some_0
                } else {
                    old(self).rep(e)
                }) && final(self).set_size(e) == (if old(self).with_either(e, elem1, elem2) {
                    old(self).set_size(elem1) + old(self).set_size(elem2)
                } else {
                    old(self).set_size(e)
                }),
    {
        let found1 = self.find_root_idx_shorten(elem1);
        let ghost mid = *self;
        let root_idx1 = match found1 {
            Some(i) => i,
            None => {
                return None;
            },
        };
        let found2 = self.find_root_idx_shorten(elem2);
        proof {
            self.lemma_same_sets(&mid);
            mid.lemma_same_sets(old(self));
            self.lemma_same_sets_follows(&mid, old(self));
        }
        let root_idx2 = match found2 {
            Some(i) => i,
            None => {
                return None;
            },
        };
        let ghost p = self.parents@;
        let ghost h = self.heights@;
        let ghost b = self.bound@;
        let ghost n = p.len() as int;
        let ghost i1 = self.elem2idx@[elem1] as int;
        let ghost i2 = self.elem2idx@[elem2] as int;
        proof {
            lemma_root(p, h, b, i1);
            lemma_root(p, h, b, i2);
            assert(root_idx2 == root(p, h, b, i2));
            assert(root(p, h, b, i1) == root(mid.parents@, mid.heights@, mid.bound@, i1));
            assert(root_idx1 == root(p, h, b, i1));
        }
        if root_idx1 == root_idx2 {
            return None;
        }
        let (small, large) = if self.sizes[root_idx1] > self.sizes[root_idx2] {
            (root_idx2, root_idx1)
        } else {
            (root_idx1, root_idx2)
        };
        proof {
            lemma_members_apart(p, h, b, small as int, large as int, n);
            lemma_roots_update(p, small as int, large, n);
            lemma_roots_count(p.update(small as int, large), n);
            lemma_attach(p, h, b, small as int, large as int, small as int);
            assert forall|i: int| 0 <= i < n implies root(
                p.update(small as int, large),
                h.update(large as int, b + 1),
                b + 1,
                i,
            ) == (if root(p, h, b, i) == small {
                large as int
            } else {
                root(p, h, b, i)
            }) by {
                lemma_attach(p, h, b, small as int, large as int, i);
            }
            assert forall|x: int| 0 <= x < n implies members(
                p.update(small as int, large),
                h.update(large as int, b + 1),
                b + 1,
                x,
                n,
            ) == (if x == large {
                members(p, h, b, small as int, n) + members(p, h, b, large as int, n)
            } else if x == small {
                0
            } else {
                members(p, h, b, x, n)
            }) by {
                lemma_members_attached(p, h, b, small as int, large as int, x, n);
            }
        }
        let joined = self.sizes[large] + self.sizes[small];
        self.parents.set(small, large);
        self.sizes.set(large, joined);
        self.n_sets = self.n_sets - 1;
        self.heights = Ghost(h.update(large as int, b + 1));
        self.bound = Ghost(b + 1);
        proof {
            assert(self.wf());
            assert forall|e: u64| #[trigger] old(self).contains(e) implies self.rep(e) == (if old(
                self,
            ).with_either(e, elem1, elem2) {
                self.idx2elem@[large as int]
            } else {
                old(self).rep(e)
            }) && self.set_size(e) == (if old(self).with_either(e, elem1, elem2) {
                old(self).set_size(elem1) + old(self).set_size(elem2)
            } else {
                old(self).set_size(e)
            }) by {
                let i = self.elem2idx@[e] as int;
                lemma_root(p, h, b, i);
                let top = root(p, h, b, i);
                assert(self.elem2idx@[self.idx2elem@[top]] == top);
                assert(self.elem2idx@[self.idx2elem@[small as int]] == small);
                assert(self.elem2idx@[self.idx2elem@[large as int]] == large);
            }
        }
        Some(self.idx2elem[large])
    }

    /// Holding the same sets carries over from one to the next.
    pub proof fn lemma_same_sets_follows(&self, mid: &UnionFind, first: &UnionFind)
        requires
            self.same_sets(mid),
            mid.same_sets(first),
        ensures
            self.same_sets(first),
    {
    }

    /// How many numbers the set has that the number is in.
    pub fn size_of_set(&self, elem: u64) -> (r: Option<usize>)
        requires
            self.wf(),
        ensures
            r is Some <==> self.contains(elem),
            r is Some ==> r->Some_0 == self.set_size(elem),
    {
        match self.find_root_idx(elem) {
            Some(i) => {
                proof {
                    lemma_root(
                        self.parents@,
                        self.heights@,
                        self.bound@,
                        self.elem2idx@[elem] as int,
                    );
                }
                Some(self.sizes[i])
            },
            None => None,
        }
    }

    /// How many sets there are.
    pub fn n_sets(&self) -> (n: usize)
        ensures
            n == self.sets(),
    {
        self.n_sets
    }

    /// How many numbers there are.
    pub fn len(&self) -> (n: usize)
        ensures
            n == self.count(),
    {
        self.idx2elem.len()
    }

    /// Whether there is no number.
    pub fn is_empty(&self) -> (b: bool)
        ensures
            b == (self.count() == 0),
    {
        self.idx2elem.len() == 0
    }
}

} // verus!
