//! The best-first search for the cheapest path that keeps to a rule.
use super::heuristic::{is_digits, MAX_CELLS};
use super::nodes::{key_count, key_of, lemma_keys, node_key, Crucible, Node, UltraCrucible};
use super::rules::{
    accepting, arrives, entry_cost, height, is_cheapest, is_grid, lemma_path_ok,
    lemma_path_push, lemma_step_ok, node_ok, origin, path_cost, path_end, step, width, Direction,
    NodeModel, Policy,
};
use super::walks::{
    is_heuristic, lemma_heuristic_at_target, lemma_heuristic_bound, lemma_heuristic_consistent,
};
use super::CityMap;
use crate::frontier::Frontier;
use crate::hashing::{
    cost_map_get, cost_map_insert, cost_map_new, key_set_contains, key_set_insert, key_set_new,
};
use rustc_hash::FxHashMap;
use vstd::multiset::*;
use vstd::prelude::*;
use vstd::relations::injective_on;
use vstd::set_lib::*;

verus! {

/// The state of the search: the nodes that are settled, the least cost found
/// for every node met so far, the queue, and for every node met a path of that
/// cost and the node itself. Nodes go by their keys.
pub struct Search<T> {
    pub visited: Set<u64>,
    pub best: Map<u64, u32>,
    pub frontier: Multiset<(u32, (u32, T))>,
    pub paths: Map<u64, Seq<Direction>>,
    pub nodes: Map<u64, T>,
}

/// The grid and its table are what a `CityMap` holds.
pub open spec fn is_city(g: Seq<Seq<u8>>, h: Seq<Seq<u32>>) -> bool {
    &&& is_grid(g)
    &&& is_digits(g)
    &&& height(g) * width(g) <= MAX_CELLS
    &&& is_heuristic(g, h)
}

/// No path from the origin to the node `m` costs less than `c`.
pub open spec fn is_path_floor(policy: Policy, g: Seq<Seq<u8>>, m: NodeModel, c: int) -> bool {
    forall|ds: Seq<Direction>|
        #[trigger] path_end(policy, g, origin(policy), ds) == Some(m) ==> c <= path_cost(
            policy,
            g,
            origin(policy),
            ds,
        )
}

/// The node that follows `m` in direction `d`, if any, has been met, at a cost
/// of at most `c` plus the cost of entering its cell.
pub open spec fn settled(
    policy: Policy,
    g: Seq<Seq<u8>>,
    best: Map<u64, u32>,
    m: NodeModel,
    c: int,
    d: Direction,
) -> bool {
    match step(policy, g, m, d) {
        Some(next) => best.contains_key(key_of(g, next) as u64) && best[key_of(g, next) as u64] <= c
            + entry_cost(g, next.y, next.x),
        None => true,
    }
}

/// What holds of a node that was met, by its key.
pub open spec fn key_ok<T: Node>(
    g: Seq<Seq<u8>>,
    h: Seq<Seq<u32>>,
    s: Search<T>,
    cap: int,
    hole: Option<u64>,
    k: u64,
) -> bool {
    let policy = T::policy();
    let m = s.nodes[k].model();
    let c = s.best[k];
    &&& s.paths.contains_key(k)
    &&& s.nodes.contains_key(k)
    &&& node_ok(policy, g, m)
    &&& key_of(g, m) == k
    &&& path_end(policy, g, origin(policy), s.paths[k]) == Some(m)
    &&& path_cost(policy, g, origin(policy), s.paths[k]) == c
    &&& c <= cap
    &&& c + h[m.y][m.x] <= u32::MAX
    &&& !s.visited.contains(k) && hole != Some(k) ==> s.frontier.count(
        ((c + h[m.y][m.x]) as u32, (c, s.nodes[k])),
    ) > 0
    &&& s.visited.contains(k) ==> {
        &&& !accepting(policy, g, m)
        &&& is_path_floor(policy, g, m, c as int)
        &&& forall|d: Direction| #[trigger] settled(policy, g, s.best, m, c as int, d)
    }
}

/// What holds of an entry of the queue.
pub open spec fn entry_ok<T: Node>(
    g: Seq<Seq<u8>>,
    h: Seq<Seq<u32>>,
    s: Search<T>,
    cap: int,
    e: (u32, (u32, T)),
) -> bool {
    let m = e.1.1.model();
    let k = key_of(g, m) as u64;
    &&& node_ok(T::policy(), g, m)
    &&& s.best.contains_key(k)
    &&& s.best[k] <= e.1.0
    &&& e.0 == e.1.0 + h[m.y][m.x]
    &&& e.1.0 <= cap
    &&& s.nodes[k].model() == m
}

/// What holds between two steps of the search. Costs are at most `cap`; the
/// node with key `hole`, if any, is being settled and has left the queue.
pub open spec fn search_inv<T: Node>(
    g: Seq<Seq<u8>>,
    h: Seq<Seq<u32>>,
    s: Search<T>,
    cap: int,
    hole: Option<u64>,
) -> bool {
    &&& forall|k: u64| s.best.contains_key(k) ==> #[trigger] key_ok(g, h, s, cap, hole, k)
    &&& forall|e: (u32, (u32, T))| s.frontier.count(e) > 0 ==> #[trigger] entry_ok(g, h, s, cap, e)
    &&& forall|k: u64| #[trigger]
        s.visited.contains(k) ==> s.best.contains_key(k) && k < key_count(g)
    &&& s.visited.finite()
    &&& s.best.contains_key(key_of(g, origin(T::policy())) as u64)
    &&& s.best[key_of(g, origin(T::policy())) as u64] == 0
}

/// A finite set of numbers below `n` has at most `n` members.
pub proof fn lemma_keys_below(s: Set<u64>, n: int)
    requires
        s.finite(),
        0 <= n,
        forall|k: u64| #[trigger] s.contains(k) ==> k < n,
    ensures
        s.len() <= n,
{
    let f = |k: u64| k as int;
    assert(injective_on(f, s));
    lemma_map_size(s, s.map(f), f);
    lemma_int_range(0, n);
    assert(s.map(f).subset_of(set_int_range(0, n))) by {
        assert forall|i: int| s.map(f).contains(i) implies set_int_range(0, n).contains(i) by {
            let k = choose|k: u64| s.contains(k) && f(k) == i;
            assert(s.contains(k));
        }
    }
    lemma_len_subset(s.map(f), set_int_range(0, n));
}

/// The key of a node on the grid fits in 64 bits.
pub proof fn lemma_key_fits(policy: Policy, g: Seq<Seq<u8>>, m: NodeModel)
    requires
        is_grid(g),
        height(g) * width(g) <= MAX_CELLS,
        node_ok(policy, g, m),
    ensures
        0 <= key_of(g, m) < key_count(g) <= 440_000_000,
        key_of(g, m) as u64 == key_of(g, m),
{
    lemma_keys(policy, g, m, m);
}

/// On every path from the origin, either its last node is settled, or some
/// node that was met and is not settled has a cost and table value that
/// together are at most the cost of the path and the table value at its end.
pub proof fn lemma_open_node_on_path<T: Node>(
    g: Seq<Seq<u8>>,
    h: Seq<Seq<u32>>,
    s: Search<T>,
    cap: int,
    ds: Seq<Direction>,
) -> (k: u64)
    requires
        is_city(g, h),
        search_inv(g, h, s, cap, None),
        path_end(T::policy(), g, origin(T::policy()), ds) is Some,
    ensures
        ({
            let m = path_end(T::policy(), g, origin(T::policy()), ds)->Some_0;
            s.visited.contains(key_of(g, m) as u64) || (s.best.contains_key(k)
                && !s.visited.contains(k) && s.best[k] + h[s.nodes[k].model().y][s.nodes[k].model().x]
                <= path_cost(T::policy(), g, origin(T::policy()), ds) + h[m.y][m.x])
        }),
    decreases ds.len(),
{
    let policy = T::policy();
    let o = origin(policy);
    assert(node_ok(policy, g, o));
    if ds.len() == 0 {
        let k0 = key_of(g, o) as u64;
        lemma_key_fits(policy, g, o);
        assert(key_ok(g, h, s, cap, None, k0));
        lemma_keys(policy, g, s.nodes[k0].model(), o);
        k0
    } else {
        let front = ds.drop_last();
        let k1 = lemma_open_node_on_path(g, h, s, cap, front);
        let m0 = path_end(policy, g, o, front)->Some_0;
        let m = path_end(policy, g, o, ds)->Some_0;
        lemma_path_ok(policy, g, o, front);
        lemma_step_ok(policy, g, m0, ds.last());
        lemma_heuristic_consistent(g, h, m0.y, m0.x, ds.last());
        lemma_key_fits(policy, g, m0);
        lemma_key_fits(policy, g, m);
        let key0 = key_of(g, m0) as u64;
        if s.visited.contains(key0) {
            assert(key_ok(g, h, s, cap, None, key0));
            lemma_keys(policy, g, s.nodes[key0].model(), m0);
            assert(s.best[key0] <= path_cost(policy, g, o, front));
            assert(settled(policy, g, s.best, m0, s.best[key0] as int, ds.last()));
            let km = key_of(g, m) as u64;
            assert(key_ok(g, h, s, cap, None, km));
            lemma_keys(policy, g, s.nodes[km].model(), m);
            km
        } else {
            k1
        }
    }
}

/// Looks at the node `candidate` that follows `node` in direction `d`, if
/// there is one. Where its cost through `node` is less than any found for it
/// so far, that cost is recorded and the candidate joins the queue.
fn consider<T: Node>(
    map: &CityMap,
    best: &mut FxHashMap<u64, u32>,
    frontier: &mut Frontier<(u32, T)>,
    cost: u32,
    node: &T,
    candidate: Option<T>,
    Ghost(d): Ghost<Direction>,
    Ghost(before): Ghost<Search<T>>,
    Ghost(cap): Ghost<int>,
) -> (after: Ghost<Search<T>>)
    requires
        old(frontier).wf(),
        before.best == old(best)@,
        before.frontier == old(frontier)@,
        node_ok(T::policy(), map@, node.model()),
        search_inv(
            map@,
            map.heuristics(),
            before,
            cap,
            Some(key_of(map@, node.model()) as u64),
        ),
        before.best.contains_key(key_of(map@, node.model()) as u64),
        before.best[key_of(map@, node.model()) as u64] == cost,
        before.nodes[key_of(map@, node.model()) as u64].model() == node.model(),
        !before.visited.contains(key_of(map@, node.model()) as u64),
        cost + 9 <= cap,
        cap + 9 * (height(map@) + width(map@)) <= u32::MAX,
        candidate is Some <==> step(T::policy(), map@, node.model(), d) is Some,
        candidate is Some ==> step(T::policy(), map@, node.model(), d) == Some(
            candidate->Some_0.model(),
        ),
    ensures
        final(frontier).wf(),
        after@.best == final(best)@,
        after@.frontier == final(frontier)@,
        after@.visited == before.visited,
        search_inv(
            map@,
            map.heuristics(),
            after@,
            cap,
            Some(key_of(map@, node.model()) as u64),
        ),
        settled(T::policy(), map@, after@.best, node.model(), cost as int, d),
        after@.best[key_of(map@, node.model()) as u64] == cost,
        after@.nodes[key_of(map@, node.model()) as u64].model() == node.model(),
        forall|k: u64| #[trigger]
            before.best.contains_key(k) ==> after@.best.contains_key(k) && after@.best[k]
                <= before.best[k],
{
    broadcast use group_multiset_axioms;

    let ghost g = map@;
    let ghost h = map.heuristics();
    let ghost policy = T::policy();
    let ghost m = node.model();
    let ghost k = key_of(g, m) as u64;
    let ghost hole = Some(k);
    proof {
        use_type_invariant(map);
        lemma_key_fits(policy, g, m);
        assert(key_ok(g, h, before, cap, hole, k));
    }
    let neighbour = match candidate {
        Some(n) => n,
        None => {
            return Ghost(before);
        },
    };
    let ghost next = neighbour.model();
    proof {
        lemma_step_ok(policy, g, m, d);
        lemma_key_fits(policy, g, next);
        lemma_keys(policy, g, next, m);
        lemma_heuristic_bound(g, h, next.y, next.x);
        lemma_path_push(policy, g, origin(policy), before.paths[k], d);
    }
    let neighbour_key = node_key(map, &neighbour);
    let neighbour_cost: u32 = cost + map.cost_at(neighbour.pos()) as u32;
    let known = cost_map_get(best, neighbour_key);
    proof {
        if before.visited.contains(neighbour_key) {
            assert(key_ok(g, h, before, cap, hole, neighbour_key));
            lemma_keys(policy, g, before.nodes[neighbour_key].model(), next);
            assert(path_end(policy, g, origin(policy), before.paths[k].push(d)) == Some(next));
        }
    }
    if known.is_some() && known.unwrap() <= neighbour_cost {
        // The node was met before at a cost that is as good or better.
        return Ghost(before);
    }
    cost_map_insert(best, neighbour_key, neighbour_cost);
    let neighbour_heuristic_total: u32 = neighbour_cost + neighbour.heuristic(map);
    frontier.push(neighbour_heuristic_total, (neighbour_cost, neighbour));
    let ghost after = Search {
        visited: before.visited,
        best: best@,
        frontier: frontier@,
        paths: before.paths.insert(neighbour_key, before.paths[k].push(d)),
        nodes: before.nodes.insert(neighbour_key, neighbour),
    };
    proof {
        assert(!before.visited.contains(neighbour_key));
        assert(neighbour_key != k);
        assert forall|j: u64| after.best.contains_key(j) implies #[trigger] key_ok(
            g,
            h,
            after,
            cap,
            hole,
            j,
        ) by {
            if j == neighbour_key {
            } else {
                assert(key_ok(g, h, before, cap, hole, j));
                if before.visited.contains(j) {
                    let mj = before.nodes[j].model();
                    assert forall|e: Direction| #[trigger]
                        settled(policy, g, after.best, mj, after.best[j] as int, e) by {
                        assert(settled(policy, g, before.best, mj, before.best[j] as int, e));
                    }
                }
            }
        }
        assert forall|e: (u32, (u32, T))| after.frontier.count(e) > 0 implies #[trigger] entry_ok(
            g,
            h,
            after,
            cap,
            e,
        ) by {
            if e != (neighbour_heuristic_total, (neighbour_cost, neighbour)) {
                assert(entry_ok(g, h, before, cap, e));
                let me = e.1.1.model();
                lemma_key_fits(policy, g, me);
                if key_of(g, me) as u64 == neighbour_key {
                    lemma_keys(policy, g, me, next);
                }
            }
        }
        let ko = key_of(g, origin(policy)) as u64;
        assert(key_ok(g, h, before, cap, hole, ko));
    }
    Ghost(after)
}

impl CityMap {
    /// The least total cost of a path from the top left cell to the bottom
    /// right cell that keeps to the bounded-run rule, or `None` if there is no
    /// such path.
    pub fn cheapest_path_cost_normal(&self) -> (r: Option<u32>)
        ensures
            is_cheapest(Policy::BoundedRun, self@, r),
    {
        self.cheapest_path_cost::<Crucible>()
    }

    /// The least total cost of a path from the top left cell to the bottom
    /// right cell that keeps to the minimum-run rule, or `None` if there is no
    /// such path.
    pub fn cheapest_path_cost_ultra(&self) -> (r: Option<u32>)
        ensures
            is_cheapest(Policy::MinimumRun, self@, r),
    {
        self.cheapest_path_cost::<UltraCrucible>()
    }

    /// Finds the cost of the cheapest path with the A* algorithm: the node
    /// that leaves the queue first is the one whose cost so far, plus the least
    /// walk cost from its cell, is lowest.
    pub fn cheapest_path_cost<T: Node>(&self) -> (r: Option<u32>)
        ensures
            is_cheapest(T::policy(), self@, r),
    {
        broadcast use group_multiset_axioms;

        let ghost g = self@;
        let ghost h = self.heuristics();
        let ghost policy = T::policy();
        let ghost o = origin(policy);
        proof {
            use_type_invariant(self);
            lemma_key_fits(policy, g, o);
            lemma_heuristic_bound(g, h, 0, 0);
            lemma_heuristic_at_target(g, h);
            assert(height(g) <= height(g) * width(g) && width(g) <= height(g) * width(g))
                by (nonlinear_arith)
                requires
                    height(g) >= 1,
                    width(g) >= 1,
            ;
            assert(key_count(g) == height(g) * width(g) * 44);
            assert(node_ok(policy, g, o));
        }
        // The nodes that were expanded.
        let mut visited = key_set_new();
        // The nodes that were met and not yet expanded, each with the cost of
        // reaching it plus the least walk cost from its cell, by which the
        // queue is ordered, and with the cost of reaching it.
        let mut frontier: Frontier<(u32, T)> = Frontier::new();
        // The lowest cost found for every node that was met.
        let mut best_cost = cost_map_new();

        // Starting towards the South rules out a first step to the North,
        // which would leave the grid at once.
        let start_node = T::new((0, 0), Direction::South);
        let start_heuristic = start_node.heuristic(self);
        let start_key = node_key(self, &start_node);
        let target = self.target();

        frontier.push(start_heuristic, (0, start_node));
        cost_map_insert(&mut best_cost, start_key, 0);
        let ghost mut paths: Map<u64, Seq<Direction>> = Map::empty().insert(
            start_key,
            Seq::<Direction>::empty(),
        );
        let ghost mut nodes: Map<u64, T> = Map::empty().insert(start_key, start_node);
        proof {
            let s = Search {
                visited: visited@,
                best: best_cost@,
                frontier: frontier@,
                paths,
                nodes,
            };
            assert(key_ok(g, h, s, 0, None, start_key));
            assert forall|e: (u32, (u32, T))| s.frontier.count(e) > 0 implies #[trigger] entry_ok(
                g,
                h,
                s,
                0,
                e,
            ) by {
                assert(e == (start_heuristic, (0u32, start_node)));
            }
        }

        loop
            invariant
                is_city(g, h),
                g == self@,
                h == self.heuristics(),
                policy == T::policy(),
                o == origin(policy),
                node_ok(policy, g, o),
                height(g) <= MAX_CELLS,
                width(g) <= MAX_CELLS,
                frontier.wf(),
                target.0 == height(g) - 1,
                target.1 == width(g) - 1,
                search_inv(
                    g,
                    h,
                    Search {
                        visited: visited@,
                        best: best_cost@,
                        frontier: frontier@,
                        paths,
                        nodes,
                    },
                    9 * visited@.len() as int,
                    None,
                ),
            ensures
                frontier@.len() == 0,
                search_inv(
                    g,
                    h,
                    Search {
                        visited: visited@,
                        best: best_cost@,
                        frontier: frontier@,
                        paths,
                        nodes,
                    },
                    9 * visited@.len() as int,
                    None,
                ),
            decreases key_count(g) - visited@.len(), frontier@.len(),
        {
            let ghost before = Search {
                visited: visited@,
                best: best_cost@,
                frontier: frontier@,
                paths,
                nodes,
            };
            let ghost cap: int = 9 * visited@.len() as int;
            proof {
                lemma_keys_below(visited@, key_count(g));
            }
            let popped = frontier.pop();
            if popped.is_none() {
                break ;
            }
            let (priority, (cost, node)) = popped.unwrap();
            let ghost m = node.model();
            let ghost k = key_of(g, m) as u64;
            proof {
                assert(entry_ok(g, h, before, cap, (priority, (cost, node))));
                lemma_key_fits(policy, g, m);
                assert(key_ok(g, h, before, cap, None, k));
                lemma_heuristic_bound(g, h, m.y, m.x);
            }
            let pos = node.pos();
            if pos.0 == target.0 && pos.1 == target.1 && node.can_stop() {
                proof {
                    // The node is not settled, so its best cost is in the queue, and
                    // what left the queue is no dearer.
                    assert(accepting(policy, g, m));
                    assert(!before.visited.contains(k));
                    assert(cost == before.best[k]);
                    assert(arrives(policy, g, before.paths[k]));
                    assert forall|ds: Seq<Direction>| #[trigger]
                        arrives(policy, g, ds) implies cost <= path_cost(policy, g, o, ds) by {
                        let q = lemma_open_node_on_path(g, h, before, cap, ds);
                        let end = path_end(policy, g, o, ds)->Some_0;
                        lemma_path_ok(policy, g, o, ds);
                        lemma_key_fits(policy, g, end);
                        let ke = key_of(g, end) as u64;
                        if before.visited.contains(ke) {
                            assert(key_ok(g, h, before, cap, None, ke));
                            lemma_keys(policy, g, before.nodes[ke].model(), end);
                        }
                        assert(key_ok(g, h, before, cap, None, q));
                    }
                    assert(path_cost(policy, g, origin(policy), before.paths[k]) == cost);
                }
                return Some(cost);
            }
            let node_key_now = node_key(self, &node);
            let ghost popped_state = Search {
                visited: visited@,
                best: best_cost@,
                frontier: frontier@,
                paths,
                nodes,
            };
            proof {
                let hole: Option<u64> = if visited@.contains(k) {
                    None
                } else {
                    Some(k)
                };
                assert forall|j: u64| popped_state.best.contains_key(j) implies #[trigger] key_ok(
                    g,
                    h,
                    popped_state,
                    cap,
                    hole,
                    j,
                ) by {
                    assert(key_ok(g, h, before, cap, None, j));
                    if j != k {
                        lemma_keys(policy, g, before.nodes[j].model(), m);
                    }
                }
                assert forall|e: (u32, (u32, T))|
                    popped_state.frontier.count(e) > 0 implies #[trigger] entry_ok(
                    g,
                    h,
                    popped_state,
                    cap,
                    e,
                ) by {
                    assert(entry_ok(g, h, before, cap, e));
                }
            }
            if key_set_contains(&visited, node_key_now) {
                // The node was expanded before, at a cost that was no higher.
                continue ;
            }
            proof {
                // The node is new: its cost is final, and no path to it is cheaper.
                assert(cost == before.best[k]);
                assert forall|ds: Seq<Direction>| #[trigger]
                    path_end(policy, g, o, ds) == Some(m) implies cost <= path_cost(
                    policy,
                    g,
                    o,
                    ds,
                ) by {
                    let q = lemma_open_node_on_path(g, h, before, cap, ds);
                    assert(key_ok(g, h, before, cap, None, q));
                }
                assert(visited@.insert(k).len() == visited@.len() + 1);
                assert forall|j: u64| #[trigger] visited@.insert(k).contains(j) implies j
                    < key_count(g) by {}
                lemma_keys_below(visited@.insert(k), key_count(g));
                assert forall|j: u64| popped_state.best.contains_key(j) implies #[trigger] key_ok(
                    g,
                    h,
                    popped_state,
                    cap + 9,
                    Some(k),
                    j,
                ) by {
                    assert(key_ok(g, h, popped_state, cap, Some(k), j));
                }
                assert forall|e: (u32, (u32, T))|
                    popped_state.frontier.count(e) > 0 implies #[trigger] entry_ok(
                    g,
                    h,
                    popped_state,
                    cap + 9,
                    e,
                ) by {
                    assert(entry_ok(g, h, popped_state, cap, e));
                }
            }
            let neighbours = node.get_all_neighbours(self);
            let s1 = consider(
                self,
                &mut best_cost,
                &mut frontier,
                cost,
                &node,
                neighbours[0],
                Ghost(Direction::North),
                Ghost(popped_state),
                Ghost(cap + 9),
            );
            let s2 = consider(
                self,
                &mut best_cost,
                &mut frontier,
                cost,
                &node,
                neighbours[1],
                Ghost(Direction::East),
                s1,
                Ghost(cap + 9),
            );
            let s3 = consider(
                self,
                &mut best_cost,
                &mut frontier,
                cost,
                &node,
                neighbours[2],
                Ghost(Direction::South),
                s2,
                Ghost(cap + 9),
            );
            let s4 = consider(
                self,
                &mut best_cost,
                &mut frontier,
                cost,
                &node,
                neighbours[3],
                Ghost(Direction::West),
                s3,
                Ghost(cap + 9),
            );
            key_set_insert(&mut visited, node_key_now);
            proof {
                paths = s4@.paths;
                nodes = s4@.nodes;
                let after = Search {
                    visited: visited@,
                    best: best_cost@,
                    frontier: frontier@,
                    paths,
                    nodes,
                };
                assert forall|d: Direction| #[trigger]
                    settled(policy, g, after.best, m, cost as int, d) by {
                    let next = step(policy, g, m, d);
                    if next is Some {
                        let kn = key_of(g, next->Some_0) as u64;
                        assert(settled(policy, g, s1@.best, m, cost as int, Direction::North));
                        assert(settled(policy, g, s2@.best, m, cost as int, Direction::East));
                        assert(settled(policy, g, s3@.best, m, cost as int, Direction::South));
                        assert(settled(policy, g, s4@.best, m, cost as int, Direction::West));
                        if s1@.best.contains_key(kn) {
                            assert(s2@.best.contains_key(kn));
                            assert(s3@.best.contains_key(kn));
                            assert(s4@.best.contains_key(kn));
                        }
                        if s2@.best.contains_key(kn) {
                            assert(s3@.best.contains_key(kn));
                            assert(s4@.best.contains_key(kn));
                        }
                        if s3@.best.contains_key(kn) {
                            assert(s4@.best.contains_key(kn));
                        }
                    }
                }
                assert forall|j: u64| after.best.contains_key(j) implies #[trigger] key_ok(
                    g,
                    h,
                    after,
                    9 * visited@.len() as int,
                    None,
                    j,
                ) by {
                    assert(key_ok(g, h, s4@, cap + 9, Some(k), j));
                }
                assert forall|e: (u32, (u32, T))| after.frontier.count(e) > 0 implies #[trigger] entry_ok(
                    g,
                    h,
                    after,
                    9 * visited@.len() as int,
                    e,
                ) by {
                    assert(entry_ok(g, h, s4@, cap + 9, e));
                }
            }
        }
        proof {
            // The queue is empty: a path that arrives would have an open node on it.
            let last = Search {
                visited: visited@,
                best: best_cost@,
                frontier: frontier@,
                paths,
                nodes,
            };
            assert forall|ds: Seq<Direction>| !#[trigger] arrives(policy, g, ds) by {
                if arrives(policy, g, ds) {
                    let q = lemma_open_node_on_path(g, h, last, 9 * visited@.len() as int, ds);
                    let end = path_end(policy, g, o, ds)->Some_0;
                    lemma_path_ok(policy, g, o, ds);
                    lemma_key_fits(policy, g, end);
                    let ke = key_of(g, end) as u64;
                    if last.visited.contains(ke) {
                        assert(key_ok(g, h, last, 9 * visited@.len() as int, None, ke));
                        lemma_keys(policy, g, last.nodes[ke].model(), end);
                    }
                    assert(key_ok(g, h, last, 9 * visited@.len() as int, None, q));
                }
            }
        }
        // The bottom right cell cannot be reached.
        None
    }
}

} // verus!
