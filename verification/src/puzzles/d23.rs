//! A walk through a forest of trails: the trails as a graph of crossings, and
//! the longest walks from the entrance to the exit.
use crate::grids::ByteGrid;
use crate::puzzles::blocks::{is_picture, picture, read_picture};
use crate::text::InputError;
use vstd::prelude::*;
use vstd::string::StringSliceAdditionalSpecFns;

pub mod bitmap;
pub mod trails;

use bitmap::BitMap64;
use trails::{
    cell, crossings, find_vertices, inside, is_crossing, is_forest, is_tile, is_vertex, lemma_crossings,
    moved, neighbour, open_at, vertex_list, walk, walk_to_next_vertex, DOWN, FOREST, LEFT,
    MAX_CELLS, PATH, RIGHT, UP,
};

verus! {

/// The forest with its graph: the vertices, and for each vertex the edges
/// that lead away from it, each with the vertex that it leads to and its length,
/// once as the slopes allow and once in both directions.
pub struct TrailMap {
    grid: ByteGrid,
    vertices: Vec<(usize, usize)>,
    edges_out: Vec<Vec<(u32, u32)>>,
    edges_undirected: Vec<Vec<(u32, u32)>>,
}

/// The number of the entrance among the vertices.
pub const ENTRANCE: u32 = 0;

/// The number of the exit among the vertices.
pub const EXIT: u32 = 1;

/// The greatest number of vertices for the search in both directions.
pub const MAX_VERTICES: usize = 64;

/// How deep the search in both directions may go.
pub const MAX_DEPTH: u32 = 130;

/// How many moves and turns a walk between two vertices may take.
pub open spec fn walk_fuel(g: Seq<Seq<u8>>) -> nat {
    (4 * (g.len() * g[0].len()) + 4) as nat
}

/// The place of a cell among the first `k` vertices; `k` if it is not there.
pub open spec fn place_in(list: Seq<(usize, usize)>, p: (int, int), k: int) -> int
    decreases k,
{
    if k <= 0 {
        0
    } else if place_in(list, p, k - 1) < k - 1 {
        place_in(list, p, k - 1)
    } else if list[k - 1].0 == p.0 && list[k - 1].1 == p.1 {
        k - 1
    } else {
        k
    }
}

/// The edges that lead away from vertex `i` in the first `k` directions.
pub open spec fn out_edges(g: Seq<Seq<u8>>, list: Seq<(usize, usize)>, i: int, k: int) -> Seq<
    (u32, u32),
>
    decreases k,
{
    if k <= 0 {
        Seq::<(u32, u32)>::empty()
    } else {
        let v = (list[i].0 as int, list[i].1 as int);
        let before = out_edges(g, list, i, k - 1);
        if open_at(g, moved(v, k - 1)) {
            match walk(g, v, k - 1, 0, walk_fuel(g)) {
                None => before,
                Some((t, steps)) => before.push(
                    (place_in(list, t, list.len() as int) as u32, steps as u32),
                ),
            }
        } else {
            before
        }
    }
}

/// The greater of two lengths, where there may be none.
pub open spec fn better(a: Option<int>, b: Option<int>) -> Option<int> {
    match (a, b) {
        (None, _) => b,
        (_, None) => a,
        (Some(x), Some(y)) => if x >= y {
            a
        } else {
            b
        },
    }
}

/// A length with a further stretch, where there is a length.
pub open spec fn plus(a: Option<int>, d: int) -> Option<int> {
    match a {
        None => None,
        Some(x) => Some(x + d),
    }
}

/// The length of the longest walk of at most `k` edges from vertex `v` to
/// the vertex `target`, if there is such a walk.
pub open spec fn longest_from(edges: Seq<Seq<(u32, u32)>>, target: int, v: int, k: nat) -> Option<int>
    decreases k, 1int, 0int,
{
    let stay = if v == target {
        Some(0int)
    } else {
        None
    };
    if k == 0 || v < 0 || v >= edges.len() {
        stay
    } else {
        better(stay, longest_via(edges, target, v, k, edges[v].len() as int))
    }
}

/// The same, for walks that start with one of the first `j` edges of `v`.
pub open spec fn longest_via(edges: Seq<Seq<(u32, u32)>>, target: int, v: int, k: nat, j: int) -> Option<
    int,
>
    decreases k, 0int, j,
{
    if j <= 0 || k == 0 || v < 0 || v >= edges.len() {
        None
    } else {
        better(
            longest_via(edges, target, v, k, j - 1),
            plus(
                longest_from(edges, target, edges[v][j - 1].0 as int, (k - 1) as nat),
                edges[v][j - 1].1 as int,
            ),
        )
    }
}

/// The length of the longest walk from vertex `v` to the vertex `target`
/// that passes no vertex of `visited` and no vertex twice, if there is such a
/// walk; it is looked for no deeper than `fuel` edges.
pub open spec fn longest_apart(
    edges: Seq<Seq<(u32, u32)>>,
    target: int,
    v: int,
    visited: Set<u32>,
    fuel: nat,
) -> Option<int>
    decreases fuel, 1int, 0int,
{
    if v == target {
        Some(0int)
    } else if fuel == 0 || v < 0 || v >= edges.len() {
        None
    } else {
        apart_via(edges, target, v, visited, fuel, edges[v].len() as int)
    }
}

/// The same, for walks that start with one of the first `j` edges of `v`.
pub open spec fn apart_via(
    edges: Seq<Seq<(u32, u32)>>,
    target: int,
    v: int,
    visited: Set<u32>,
    fuel: nat,
    j: int,
) -> Option<int>
    decreases fuel, 0int, j,
{
    if j <= 0 || fuel == 0 || v < 0 || v >= edges.len() {
        None
    } else {
        let (u, d) = edges[v][j - 1];
        let before = apart_via(edges, target, v, visited, fuel, j - 1);
        if visited.contains(u) {
            before
        } else {
            better(
                before,
                plus(
                    longest_apart(edges, target, u as int, visited.insert(v as u32), (fuel - 1) as nat),
                    d as int,
                ),
            )
        }
    }
}

/// Every edge leads to a vertex.
pub open spec fn edges_ok(edges: Seq<Seq<(u32, u32)>>) -> bool {
    forall|v: int, j: int|
        0 <= v < edges.len() && 0 <= j < edges[v].len() ==> (#[trigger] edges[v][j]).0 < edges.len()
}

/// Whether an edge of the given length joins `a` and `b` in one direction or
/// the other.
pub open spec fn joins(edges: Seq<Seq<(u32, u32)>>, a: int, b: int, d: u32) -> bool {
    (0 <= a < edges.len() && edges[a].contains((b as u32, d))) || (0 <= b < edges.len()
        && edges[b].contains((a as u32, d)))
}

/// No walk of at most `k` edges is longer than `k` times the greatest length
/// of an edge.
pub proof fn lemma_longest_bound(edges: Seq<Seq<(u32, u32)>>, target: int, v: int, k: nat)
    ensures
        match longest_from(edges, target, v, k) {
            Some(l) => 0 <= l <= k * u32::MAX,
            None => true,
        },
    decreases k, 1int, 0int,
{
    if !(k == 0 || v < 0 || v >= edges.len()) {
        lemma_via_bound(edges, target, v, k, edges[v].len() as int);
    }
    assert(0 <= k * u32::MAX) by (nonlinear_arith);
}

/// The same, for walks that start with one of the first `j` edges of `v`.
pub proof fn lemma_via_bound(edges: Seq<Seq<(u32, u32)>>, target: int, v: int, k: nat, j: int)
    ensures
        match longest_via(edges, target, v, k, j) {
            Some(l) => 0 <= l <= k * u32::MAX,
            None => true,
        },
    decreases k, 0int, j,
{
    if !(j <= 0 || k == 0 || v < 0 || v >= edges.len()) {
        lemma_via_bound(edges, target, v, k, j - 1);
        lemma_longest_bound(edges, target, edges[v][j - 1].0 as int, (k - 1) as nat);
        assert((k - 1) * u32::MAX + u32::MAX == k * u32::MAX) by (nonlinear_arith);
    }
}

/// No walk that is looked for `fuel` edges deep is longer than `fuel` times
/// the greatest length of an edge.
pub proof fn lemma_apart_bound(
    edges: Seq<Seq<(u32, u32)>>,
    target: int,
    v: int,
    visited: Set<u32>,
    fuel: nat,
)
    ensures
        match longest_apart(edges, target, v, visited, fuel) {
            Some(l) => 0 <= l <= fuel * u32::MAX,
            None => true,
        },
    decreases fuel, 1int, 0int,
{
    if v != target && !(fuel == 0 || v < 0 || v >= edges.len()) {
        lemma_apart_via_bound(edges, target, v, visited, fuel, edges[v].len() as int);
    }
    assert(0 <= fuel * u32::MAX) by (nonlinear_arith);
}

/// The same, for walks that start with one of the first `j` edges of `v`.
pub proof fn lemma_apart_via_bound(
    edges: Seq<Seq<(u32, u32)>>,
    target: int,
    v: int,
    visited: Set<u32>,
    fuel: nat,
    j: int,
)
    ensures
        match apart_via(edges, target, v, visited, fuel, j) {
            Some(l) => 0 <= l <= fuel * u32::MAX,
            None => true,
        },
    decreases fuel, 0int, j,
{
    if !(j <= 0 || fuel == 0 || v < 0 || v >= edges.len()) {
        lemma_apart_via_bound(edges, target, v, visited, fuel, j - 1);
        let (u, d) = edges[v][j - 1];
        lemma_apart_bound(edges, target, u as int, visited.insert(v as u32), (fuel - 1) as nat);
        assert((fuel - 1) * u32::MAX + u32::MAX == fuel * u32::MAX) by (nonlinear_arith);
    }
}

/// The vertices of a picture are cells of the picture, and every vertex of
/// the picture is among them.
pub proof fn lemma_vertex_list(g: Seq<Seq<u8>>)
    requires
        is_forest(g),
    ensures
        forall|i: int|
            0 <= i < vertex_list(g).len() ==> inside(
                g,
                ((#[trigger] vertex_list(g)[i]).0 as int, vertex_list(g)[i].1 as int),
            ),
        forall|y: int, x: int| inside(g, (y, x)) && is_vertex(g, (y, x)) ==> #[trigger] is_listed(g, y, x),
{
    let cells = (g.len() * g[0].len()) as int;
    let inner = crossings(g, cells);
    let list = vertex_list(g);
    lemma_crossings(g, cells);
    assert(g.len() <= MAX_CELLS && g[0].len() <= MAX_CELLS) by (nonlinear_arith)
        requires
            g.len() >= 2,
            g[0].len() >= 3,
            g.len() * g[0].len() <= MAX_CELLS,
    ;
    assert forall|i: int| 0 <= i < list.len() implies inside(
        g,
        ((#[trigger] list[i]).0 as int, list[i].1 as int),
    ) by {
        if i >= 2 {
            assert(list[i] == inner[i - 2]);
            assert(is_crossing(g, (inner[i - 2].0 as int, inner[i - 2].1 as int)));
        }
    }
    assert forall|y: int, x: int|
        inside(g, (y, x)) && is_vertex(g, (y, x)) implies #[trigger] is_listed(g, y, x) by {
        let p = (y, x);
        if p == trails::entrance() {
            lemma_place_in(list, p, 0, list.len() as int);
        } else if p == trails::exit(g) {
            lemma_place_in(list, p, 1, list.len() as int);
        } else {
            assert(y * g[0].len() + x < cells) by (nonlinear_arith)
                requires
                    0 <= y < g.len(),
                    0 <= x < g[0].len(),
                    cells == g.len() * g[0].len(),
            ;
            assert(inner.contains(cell(y, x)));
            let i = choose|i: int| 0 <= i < inner.len() && inner[i] == cell(y, x);
            assert(list[i + 2] == inner[i]);
            lemma_place_in(list, p, i + 2, list.len() as int);
        }
    }
}

/// Whether the cell has a place in the list of the vertices.
pub open spec fn is_listed(g: Seq<Seq<u8>>, y: int, x: int) -> bool {
    place_in(vertex_list(g), (y, x), vertex_list(g).len() as int) < vertex_list(g).len()
}

/// A cell that stands in the list has its place before the end of it.
pub proof fn lemma_place_in(list: Seq<(usize, usize)>, p: (int, int), i: int, k: int)
    requires
        0 <= i < k <= list.len(),
        list[i].0 == p.0,
        list[i].1 == p.1,
    ensures
        place_in(list, p, k) < k,
        0 <= place_in(list, p, k),
    decreases k,
{
    if i < k - 1 {
        lemma_place_in(list, p, i, k - 1);
    } else {
        lemma_place_bound(list, p, k - 1);
    }
}

/// The place of a cell among the first `k` of a list is at most `k`.
pub proof fn lemma_place_bound(list: Seq<(usize, usize)>, p: (int, int), k: int)
    requires
        0 <= k,
    ensures
        0 <= place_in(list, p, k) <= k,
    decreases k,
{
    if k > 0 {
        lemma_place_bound(list, p, k - 1);
    }
}

/// The greater of two lengths, where there may be none.
fn longer(a: Option<u64>, b: Option<u64>) -> (r: Option<u64>)
    ensures
        as_length(r) == better(as_length(a), as_length(b)),
{
    match (a, b) {
        (None, _) => b,
        (_, None) => a,
        (Some(x), Some(y)) => if x >= y {
            a
        } else {
            b
        },
    }
}

/// A length as a number without bound.
pub open spec fn as_length(a: Option<u64>) -> Option<int> {
    match a {
        None => None,
        Some(x) => Some(x as int),
    }
}

impl TrailMap {
    /// The picture of the forest.
    pub closed spec fn view(&self) -> Seq<Seq<u8>> {
        self.grid@
    }

    /// The vertices.
    pub closed spec fn vertices(&self) -> Seq<(usize, usize)> {
        self.vertices@
    }

    /// The edges as the slopes allow them.
    pub closed spec fn directed(&self) -> Seq<Seq<(u32, u32)>> {
        self.edges_out@.map_values(|e: Vec<(u32, u32)>| e@)
    }

    /// The edges in both directions.
    pub closed spec fn undirected(&self) -> Seq<Seq<(u32, u32)>> {
        self.edges_undirected@.map_values(|e: Vec<(u32, u32)>| e@)
    }

    /// The graph is that of the picture.
    pub open spec fn wf(&self) -> bool {
        &&& is_forest(self@)
        &&& self.vertices() == vertex_list(self@)
        &&& 2 <= self.vertices().len() <= MAX_CELLS + 2
        &&& self.directed().len() == self.vertices().len()
        &&& self.undirected().len() == self.vertices().len()
        &&& edges_ok(self.directed())
        &&& edges_ok(self.undirected())
        &&& forall|i: int|
            0 <= i < self.vertices().len() ==> (#[trigger] self.directed()[i]) == out_edges(
                self@,
                self.vertices(),
                i,
                4,
            )
        &&& forall|a: int, j: int|
            0 <= a < self.undirected().len() && 0 <= j < self.undirected()[a].len() ==> joins(
                self.directed(),
                a,
                (#[trigger] self.undirected()[a][j]).0 as int,
                self.undirected()[a][j].1,
            )
        &&& forall|a: int, j: int|
            0 <= a < self.directed().len() && 0 <= j < self.directed()[a].len()
                ==> self.undirected()[a].contains(#[trigger] self.directed()[a][j])
                && self.undirected()[self.directed()[a][j].0 as int].contains(
                (a as u32, self.directed()[a][j].1),
            )
    }

    /// The cell of vertex `i`, as row and column.
    pub fn vertex(&self, i: usize) -> (r: (usize, usize))
        requires
            i < self.vertices().len(),
        ensures
            r == self.vertices()[i as int],
    {
        self.vertices[i]
    }

    /// The edges that lead away from vertex `i`, as the slopes allow them:
    /// each with the vertex that it leads to and its length.
    pub fn edges_from(&self, i: usize) -> (r: &Vec<(u32, u32)>)
        requires
            self.wf(),
            i < self.vertices().len(),
        ensures
            r@ == self.directed()[i as int],
    {
        &self.edges_out[i]
    }

    /// The number of vertices.
    pub fn n_vertices(&self) -> (n: usize)
        ensures
            n == self.vertices().len(),
    {
        self.vertices.len()
    }

    /// The length of the longest walk from the entrance to the exit along
    /// the edges as the slopes allow them, among the walks of no more edges than
    /// there are vertices: in a graph without cycles, every walk. `None` where
    /// no walk leads to the exit, or the length does not fit in 32 bits.
    pub fn longest_path_len_directed(&self) -> (r: Option<u32>)
        requires
            self.wf(),
        ensures
            r == match longest_from(
                self.directed(),
                EXIT as int,
                ENTRANCE as int,
                self.vertices().len(),
            ) {
                Some(l) => if l <= u32::MAX {
                    Some(l as u32)
                } else {
                    None
                },
                None => None,
            },
    {
        let n = self.vertices.len();
        let ghost edges = self.directed();
        let mut best: Vec<Option<u64>> = Vec::new();
        let mut v: usize = 0;
        while v < n
            invariant
                v <= n,
                best@.len() == v,
                forall|i: int|
                    0 <= i < v ==> as_length(#[trigger] best@[i]) == longest_from(
                        edges,
                        EXIT as int,
                        i,
                        0,
                    ),
            decreases n - v,
        {
            best.push(
                if v == EXIT as usize {
                    Some(0)
                } else {
                    None
                },
            );
            v += 1;
        }
        let mut k: usize = 0;
        while k < n
            invariant
                k <= n,
                n == self.vertices().len(),
                n == self.edges_out@.len(),
                edges == self.directed(),
                edges_ok(edges),
                n <= MAX_CELLS + 2,
                best@.len() == n,
                forall|i: int|
                    0 <= i < n ==> as_length(#[trigger] best@[i]) == longest_from(
                        edges,
                        EXIT as int,
                        i,
                        k as nat,
                    ),
            decreases n - k,
        {
            let mut next: Vec<Option<u64>> = Vec::new();
            let mut v: usize = 0;
            while v < n
                invariant
                    v <= n,
                    k < n,
                    n == self.vertices().len(),
                    n == self.edges_out@.len(),
                    edges == self.directed(),
                    edges_ok(edges),
                    n <= MAX_CELLS + 2,
                    best@.len() == n,
                    next@.len() == v,
                    forall|i: int|
                        0 <= i < n ==> as_length(#[trigger] best@[i]) == longest_from(
                            edges,
                            EXIT as int,
                            i,
                            k as nat,
                        ),
                    forall|i: int|
                        0 <= i < v ==> as_length(#[trigger] next@[i]) == longest_from(
                            edges,
                            EXIT as int,
                            i,
                            (k + 1) as nat,
                        ),
                decreases n - v,
            {
                let mut found: Option<u64> = None;
                let mut j: usize = 0;
                proof {
                    assert(edges[v as int] == self.edges_out@[v as int]@);
                }
                while j < self.edges_out[v].len()
                    invariant
                        j <= self.edges_out@[v as int]@.len(),
                        v < n,
                        k < n,
                        n == self.edges_out@.len(),
                        edges == self.directed(),
                        edges[v as int] == self.edges_out@[v as int]@,
                        edges_ok(edges),
                        n <= MAX_CELLS + 2,
                        best@.len() == n,
                        forall|i: int|
                            0 <= i < n ==> as_length(#[trigger] best@[i]) == longest_from(
                                edges,
                                EXIT as int,
                                i,
                                k as nat,
                            ),
                        as_length(found) == longest_via(
                            edges,
                            EXIT as int,
                            v as int,
                            (k + 1) as nat,
                            j as int,
                        ),
                    decreases self.edges_out@[v as int]@.len() - j,
                {
                    let (to, dist) = self.edges_out[v][j];
                    proof {
                        assert(edges[v as int][j as int] == (to, dist));
                        assert(to < n);
                        lemma_longest_bound(edges, EXIT as int, to as int, k as nat);
                        assert(k * u32::MAX <= (MAX_CELLS + 2) * u32::MAX) by (nonlinear_arith)
                            requires
                                k <= MAX_CELLS + 2,
                        ;
                    }
                    let through = match best[to as usize] {
                        Some(l) => Some(l + dist as u64),
                        None => None,
                    };
                    found = longer(found, through);
                    j += 1;
                }
                let stay: Option<u64> = if v == EXIT as usize {
                    Some(0)
                } else {
                    None
                };
                next.push(longer(stay, found));
                v += 1;
            }
            best = next;
            k += 1;
        }
        match best[ENTRANCE as usize] {
            Some(l) => if l <= 0xffff_ffff {
                Some(l as u32)
            } else {
                None
            },
            None => None,
        }
    }

    /// The length of the longest walk from vertex `v` to the exit that passes
    /// no vertex of `visited`.
    fn search_apart(&self, v: u32, visited: BitMap64, fuel: u32) -> (r: Option<u64>)
        requires
            self.wf(),
            self.vertices().len() <= MAX_VERTICES,
            v < self.vertices().len(),
        ensures
            as_length(r) == longest_apart(self.undirected(), EXIT as int, v as int, visited@, fuel as nat),
        decreases fuel,
    {
        if v == EXIT {
            return Some(0);
        }
        if fuel == 0 {
            return None;
        }
        let ghost edges = self.undirected();
        let mut new_visited = visited;
        new_visited.set_unchecked(v);
        let mut found: Option<u64> = None;
        let mut j: usize = 0;
        proof {
            assert(edges[v as int] == self.edges_undirected@[v as int]@);
        }
        while j < self.edges_undirected[v as usize].len()
            invariant
                j <= self.edges_undirected@[v as int]@.len(),
                self.wf(),
                self.vertices().len() <= MAX_VERTICES,
                v < self.vertices().len(),
                fuel > 0,
                edges == self.undirected(),
                edges[v as int] == self.edges_undirected@[v as int]@,
                new_visited@ == visited@.insert(v),
                as_length(found) == apart_via(
                    edges,
                    EXIT as int,
                    v as int,
                    visited@,
                    fuel as nat,
                    j as int,
                ),
            decreases self.edges_undirected@[v as int]@.len() - j,
        {
            let (neighbour, dist) = self.edges_undirected[v as usize][j];
            proof {
                assert(edges[v as int][j as int] == (neighbour, dist));
                assert(neighbour < edges.len());
                lemma_apart_bound(
                    edges,
                    EXIT as int,
                    neighbour as int,
                    new_visited@,
                    (fuel - 1) as nat,
                );
                assert((fuel - 1) * u32::MAX <= u32::MAX * u32::MAX) by (nonlinear_arith)
                    requires
                        fuel <= u32::MAX,
                        fuel >= 1,
                ;
            }
            if !visited.get(neighbour) {
                let through = match self.search_apart(neighbour, new_visited, fuel - 1) {
                    Some(l) => Some(l + dist as u64),
                    None => None,
                };
                found = longer(found, through);
            }
            j += 1;
        }
        found
    }

    /// The length of the longest walk from the entrance to the exit along
    /// the edges in both directions that passes no vertex twice; zero where
    /// there is no such walk. `None` where the length does not fit in 32 bits.
    pub fn longest_path_len_undirected(&self) -> (r: Option<u32>)
        requires
            self.wf(),
            self.vertices().len() <= MAX_VERTICES,
        ensures
            r == match longest_apart(
                self.undirected(),
                EXIT as int,
                ENTRANCE as int,
                Set::<u32>::empty(),
                MAX_DEPTH as nat,
            ) {
                Some(l) => if l <= u32::MAX {
                    Some(l as u32)
                } else {
                    None
                },
                None => Some(0u32),
            },
    {
        match self.search_apart(ENTRANCE, BitMap64::new(), MAX_DEPTH) {
            Some(l) => if l <= 0xffff_ffff {
                Some(l as u32)
            } else {
                None
            },
            None => Some(0),
        }
    }
}

impl TrailMap {
    /// The place of a cell in the list of vertices.
    fn find_place(list: &Vec<(usize, usize)>, t: (usize, usize)) -> (r: usize)
        ensures
            r == place_in(list@, (t.0 as int, t.1 as int), list@.len() as int),
            r <= list@.len(),
    {
        let ghost p = (t.0 as int, t.1 as int);
        let mut found: usize = 0;
        let mut k: usize = 0;
        while k < list.len()
            invariant
                k <= list.len(),
                found <= k,
                p == (t.0 as int, t.1 as int),
                found == place_in(list@, p, k as int),
            decreases list.len() - k,
        {
            if found < k {
            } else if list[k].0 == t.0 && list[k].1 == t.1 {
                found = k;
            } else {
                found = k + 1;
            }
            k += 1;
        }
        found
    }

    /// The edges that lead away from vertex `i`.
    fn find_edges_out(grid: &ByteGrid, vertices: &Vec<(usize, usize)>, i: usize, fuel: u32) -> (r: Vec<
        (u32, u32),
    >)
        requires
            is_forest(grid@),
            vertices@ == vertex_list(grid@),
            vertices@.len() <= MAX_CELLS + 2,
            i < vertices@.len(),
            fuel == walk_fuel(grid@),
        ensures
            r@ == out_edges(grid@, vertices@, i as int, 4),
            forall|j: int| 0 <= j < r@.len() ==> (#[trigger] r@[j]).0 < vertices@.len(),
    {
        let ghost g = grid@;
        proof {
            lemma_vertex_list(g);
        }
        let v = vertices[i];
        let mut edges: Vec<(u32, u32)> = Vec::new();
        let mut d: usize = 0;
        while d < 4
            invariant
                d <= 4,
                g == grid@,
                is_forest(g),
                vertices@ == vertex_list(g),
                vertices@.len() <= MAX_CELLS + 2,
                i < vertices@.len(),
                v == vertices@[i as int],
                inside(g, (v.0 as int, v.1 as int)),
                fuel == walk_fuel(g),
                edges@ == out_edges(g, vertices@, i as int, d as int),
                forall|j: int| 0 <= j < edges@.len() ==> (#[trigger] edges@[j]).0 < vertices@.len(),
                forall|y: int, x: int|
                    inside(g, (y, x)) && is_vertex(g, (y, x)) ==> #[trigger] is_listed(g, y, x),
            decreases 4 - d,
        {
            if neighbour(grid, v, d).is_some() {
                match walk_to_next_vertex(grid, v, d, fuel) {
                    None => {},
                    Some((target, steps)) => {
                        let idx = Self::find_place(vertices, target);
                        let ghost before = edges@;
                        proof {
                            let found = walk(g, (v.0 as int, v.1 as int), d as int, 0, fuel as nat);
                            assert(found is Some);
                            let q = found->Some_0.0;
                            assert(inside(g, q) && is_vertex(g, q));
                            assert(g.len() <= MAX_CELLS && g[0].len() <= MAX_CELLS) by (nonlinear_arith)
                                requires
                                    g.len() >= 2,
                                    g[0].len() >= 3,
                                    g.len() * g[0].len() <= MAX_CELLS,
                            ;
                            let t = (target.0 as int, target.1 as int);
                            assert(t == q);
                            assert(is_listed(g, t.0, t.1));
                        }
                        edges.push((idx as u32, steps));
                        proof {
                            assert(edges@ =~= out_edges(g, vertices@, i as int, d + 1));
                        }
                    },
                }
            }
            d += 1;
        }
        edges
    }

    /// The edges that join vertex `a` with another in one direction or the
    /// other: first those that lead away from it, then those that lead to it.
    fn find_edges_both(edges_out: &Vec<Vec<(u32, u32)>>, a: usize) -> (r: Vec<(u32, u32)>)
        requires
            a < edges_out@.len(),
            edges_out@.len() <= MAX_CELLS + 2,
            edges_ok(edges_out@.map_values(|e: Vec<(u32, u32)>| e@)),
        ensures
            forall|j: int| 0 <= j < r@.len() ==> (#[trigger] r@[j]).0 < edges_out@.len(),
            forall|j: int|
                0 <= j < r@.len() ==> joins(
                    edges_out@.map_values(|e: Vec<(u32, u32)>| e@),
                    a as int,
                    (#[trigger] r@[j]).0 as int,
                    r@[j].1,
                ),
            forall|j: int|
                0 <= j < edges_out@[a as int]@.len() ==> r@.contains(
                    #[trigger] edges_out@[a as int]@[j],
                ),
            forall|x: int, j: int|
                0 <= x < edges_out@.len() && 0 <= j < edges_out@[x]@.len() && (
                #[trigger] edges_out@[x]@[j]).0 == a ==> r@.contains((x as u32, edges_out@[x]@[j].1)),
    {
        let ghost edges = edges_out@.map_values(|e: Vec<(u32, u32)>| e@);
        let n = edges_out.len();
        let mut both: Vec<(u32, u32)> = Vec::new();
        let mut j: usize = 0;
        while j < edges_out[a].len()
            invariant
                j <= edges_out@[a as int]@.len(),
                a < n,
                n == edges_out@.len(),
                edges == edges_out@.map_values(|e: Vec<(u32, u32)>| e@),
                edges_ok(edges),
                both@.len() == j,
                forall|q: int| 0 <= q < j ==> (#[trigger] both@[q]) == edges_out@[a as int]@[q],
            decreases edges_out@[a as int]@.len() - j,
        {
            both.push(edges_out[a][j]);
            j += 1;
        }
        proof {
            assert forall|q: int| 0 <= q < both@.len() implies (#[trigger] both@[q]).0 < n && joins(
                edges,
                a as int,
                both@[q].0 as int,
                both@[q].1,
            ) by {
                assert(edges[a as int][q] == both@[q]);
                assert(edges[a as int].contains((both@[q].0 as int as u32, both@[q].1)));
            }
        }
        let ghost kept = both@;
        let mut x: usize = 0;
        while x < n
            invariant
                x <= n,
                a < n,
                n == edges_out@.len(),
                n <= MAX_CELLS + 2,
                edges == edges_out@.map_values(|e: Vec<(u32, u32)>| e@),
                edges_ok(edges),
                kept.len() <= both@.len(),
                forall|q: int| 0 <= q < kept.len() ==> (#[trigger] both@[q]) == kept[q],
                forall|q: int|
                    0 <= q < both@.len() ==> (#[trigger] both@[q]).0 < n && joins(
                        edges,
                        a as int,
                        both@[q].0 as int,
                        both@[q].1,
                    ),
                forall|y: int, q: int|
                    0 <= y < x && 0 <= q < edges_out@[y]@.len() && (#[trigger] edges_out@[y]@[q]).0 == a
                        ==> both@.contains((y as u32, edges_out@[y]@[q].1)),
            decreases n - x,
        {
            let mut q: usize = 0;
            while q < edges_out[x].len()
                invariant
                    q <= edges_out@[x as int]@.len(),
                    x < n,
                    a < n,
                    n == edges_out@.len(),
                    n <= MAX_CELLS + 2,
                    edges == edges_out@.map_values(|e: Vec<(u32, u32)>| e@),
                    edges_ok(edges),
                    kept.len() <= both@.len(),
                    forall|z: int| 0 <= z < kept.len() ==> (#[trigger] both@[z]) == kept[z],
                    forall|z: int|
                        0 <= z < both@.len() ==> (#[trigger] both@[z]).0 < n && joins(
                            edges,
                            a as int,
                            both@[z].0 as int,
                            both@[z].1,
                        ),
                    forall|y: int, z: int|
                        0 <= y < x && 0 <= z < edges_out@[y]@.len() && (
                        #[trigger] edges_out@[y]@[z]).0 == a ==> both@.contains(
                            (y as u32, edges_out@[y]@[z].1),
                        ),
                    forall|z: int|
                        0 <= z < q && (#[trigger] edges_out@[x as int]@[z]).0 == a ==> both@.contains(
                            (x as u32, edges_out@[x as int]@[z].1),
                        ),
                decreases edges_out@[x as int]@.len() - q,
            {
                let (to, dist) = edges_out[x][q];
                let ghost before = both@;
                if to as usize == a {
                    both.push((x as u32, dist));
                    proof {
                        assert(edges[x as int][q as int] == (to, dist));
                        assert(edges[x as int].contains((a as u32, dist)));
                        assert(joins(edges, a as int, x as int, dist));
                        assert(both@[before.len() as int] == (x as u32, dist));
                    }
                }
                proof {
                    assert forall|y: int, z: int|
                        0 <= y < x && 0 <= z < edges_out@[y]@.len() && (
                        #[trigger] edges_out@[y]@[z]).0 == a implies both@.contains(
                        (y as u32, edges_out@[y]@[z].1),
                    ) by {
                        let e = (y as u32, edges_out@[y]@[z].1);
                        assert(before.contains(e));
                        let w = choose|w: int| 0 <= w < before.len() && before[w] == e;
                        assert(both@[w] == e);
                    }
                    assert forall|z: int|
                        0 <= z < q + 1 && (#[trigger] edges_out@[x as int]@[z]).0
                            == a implies both@.contains((x as u32, edges_out@[x as int]@[z].1)) by {
                        let e = (x as u32, edges_out@[x as int]@[z].1);
                        if z < q {
                            assert(before.contains(e));
                            let w = choose|w: int| 0 <= w < before.len() && before[w] == e;
                            assert(both@[w] == e);
                        }
                    }
                }
                q += 1;
            }
            x += 1;
        }
        proof {
            assert forall|j: int| 0 <= j < edges_out@[a as int]@.len() implies both@.contains(
                #[trigger] edges_out@[a as int]@[j],
            ) by {
                assert(both@[j] == kept[j]);
            }
        }
        both
    }

    /// Reads a forest: a picture of forest, paths and slopes, with at least
    /// two rows of at least three cells. The walks between its crossings become
    /// the edges of its graph.
    #[verifier::loop_isolation(false)]
    pub fn from_bytes(text: &[u8]) -> (r: Result<TrailMap, InputError>)
        requires
            text@.len() <= isize::MAX,
        ensures
            r is Ok <==> is_picture(text@, false) && is_forest(picture(text@, false)),
            r is Ok ==> r->Ok_0.wf() && r->Ok_0@ == picture(text@, false),
    {
        proof {
            assert(text@.subrange(0, text@.len() as int) =~= text@);
        }
        let grid = match read_picture(text, 0, text.len(), false) {
            Ok(grid) => grid,
            Err(e) => {
                return Err(e);
            },
        };
        let ghost g = grid@;
        let h = grid.height();
        let w = grid.width();
        proof {
            assert(g[0].len() == w);
        }
        if h < 2 || w < 3 {
            return Err(InputError::Value);
        }
        let cells = match h.checked_mul(w) {
            Some(c) => c,
            None => {
                return Err(InputError::Value);
            },
        };
        if cells > MAX_CELLS {
            return Err(InputError::Value);
        }
        let mut y: usize = 0;
        while y < h
            invariant
                y <= h,
                forall|a: int, b: int| 0 <= a < y && 0 <= b < w ==> is_tile(#[trigger] g[a][b]),
            decreases h - y,
        {
            let mut x: usize = 0;
            while x < w
                invariant
                    x <= w,
                    y < h,
                    forall|a: int, b: int| 0 <= a < y && 0 <= b < w ==> is_tile(#[trigger] g[a][b]),
                    forall|b: int| 0 <= b < x ==> is_tile(#[trigger] g[y as int][b]),
                decreases w - x,
            {
                let c = grid.get(y, x);
                if !(c == FOREST || c == PATH || c == UP || c == RIGHT || c == DOWN || c == LEFT) {
                    proof {
                        assert(!is_tile(g[y as int][x as int]));
                    }
                    return Err(InputError::Value);
                }
                x += 1;
            }
            y += 1;
        }
        let vertices = find_vertices(&grid);
        let n = vertices.len();
        let fuel: u32 = (4 * cells + 4) as u32;
        let mut edges_out: Vec<Vec<(u32, u32)>> = Vec::new();
        let mut i: usize = 0;
        while i < n
            invariant
                i <= n,
                edges_out@.len() == i,
                forall|v: int|
                    0 <= v < i ==> (#[trigger] edges_out@[v])@ == out_edges(g, vertices@, v, 4),
                forall|v: int, j: int|
                    0 <= v < i && 0 <= j < edges_out@[v]@.len() ==> (#[trigger] edges_out@[v]@[j]).0
                        < n,
            decreases n - i,
        {
            let list = Self::find_edges_out(&grid, &vertices, i, fuel);
            edges_out.push(list);
            i += 1;
        }
        let ghost directed = edges_out@.map_values(|e: Vec<(u32, u32)>| e@);
        proof {
            assert(edges_ok(directed));
        }
        let mut edges_undirected: Vec<Vec<(u32, u32)>> = Vec::new();
        let mut a: usize = 0;
        while a < n
            invariant
                a <= n,
                edges_undirected@.len() == a,
                forall|v: int, j: int|
                    0 <= v < a && 0 <= j < edges_undirected@[v]@.len() ==> (
                    #[trigger] edges_undirected@[v]@[j]).0 < n && joins(
                        directed,
                        v,
                        edges_undirected@[v]@[j].0 as int,
                        edges_undirected@[v]@[j].1,
                    ),
                forall|v: int, j: int|
                    0 <= v < a && 0 <= j < edges_out@[v]@.len() ==> edges_undirected@[v]@.contains(
                        #[trigger] edges_out@[v]@[j],
                    ),
                forall|v: int, x: int, j: int|
                    0 <= v < a && 0 <= x < n && 0 <= j < edges_out@[x]@.len() && (
                    #[trigger] edges_out@[x]@[j]).0 == v ==> (#[trigger] edges_undirected@[v])@.contains(
                        (x as u32, edges_out@[x]@[j].1),
                    ),
            decreases n - a,
        {
            let list = Self::find_edges_both(&edges_out, a);
            edges_undirected.push(list);
            a += 1;
        }
        let map = TrailMap { grid, vertices, edges_out, edges_undirected };
        proof {
            assert(map.directed() == directed);
            assert forall|v: int, j: int|
                0 <= v < map.directed().len() && 0 <= j < map.directed()[v].len()
                    implies map.undirected()[v].contains(#[trigger] map.directed()[v][j])
                && map.undirected()[map.directed()[v][j].0 as int].contains(
                (v as u32, map.directed()[v][j].1),
            ) by {
                assert(map.directed()[v][j] == map.edges_out@[v]@[j]);
                let to = map.edges_out@[v]@[j].0 as int;
                assert(map.edges_undirected@[to]@.contains((v as u32, map.edges_out@[v]@[j].1)));
            }
        }
        Ok(map)
    }

    /// Reads a forest.
    pub fn parse(s: &str) -> (r: Result<TrailMap, InputError>)
        requires
            s.spec_bytes().len() <= isize::MAX,
        ensures
            r is Ok <==> is_picture(s.spec_bytes(), false) && is_forest(
                picture(s.spec_bytes(), false),
            ),
            r is Ok ==> r->Ok_0.wf(),
    {
        TrailMap::from_bytes(s.as_bytes())
    }
}

} // verus!
