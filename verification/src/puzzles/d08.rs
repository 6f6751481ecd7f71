//! A network of nodes: from every node one way leads left and one right, and
//! a list of turns, taken again and again, leads from node to node.
use crate::hashing::{cost_map_get, cost_map_insert, cost_map_new};
use crate::numbers::{is_lcm, lcm};
use crate::text::{lines, split_lines, InputError};
use rustc_hash::FxHashMap;
use vstd::prelude::*;
use vstd::string::StringSliceAdditionalSpecFns;

verus! {

/// The turns, and for every node the nodes that its two ways lead to.
pub struct Network {
    instructions: Vec<Direction>,
    /// Where each node stands in `targets`, by the number of the node.
    edges: FxHashMap<u64, u32>,
    /// The nodes, each with the nodes to its left and to its right.
    targets: Vec<(Node, (Node, Node))>,
}

/// A turn.
#[derive(Clone, Copy, Debug, PartialEq, Eq, Structural)]
pub enum Direction {
    Right,
    Left,
}

/// A node: its name of three bytes.
#[derive(Clone, Copy, Debug, PartialEq, Eq, Structural)]
pub struct Node(pub u8, pub u8, pub u8);

/// The network as mathematics: the turns, and the ways of the nodes.
pub struct NetworkModel {
    pub turns: Seq<Direction>,
    pub ways: Map<Node, (Node, Node)>,
}

/// The number of a node.
pub open spec fn number_of(n: Node) -> u64 {
    (n.0 as u64 * 65536 + n.1 as u64 * 256 + n.2 as u64) as u64
}

/// Whether a line says where the ways of a node lead: the name of the node,
/// ` = (`, a name, `, `, a name, and `)`, each name of three bytes.
pub open spec fn is_node_line(l: Seq<u8>) -> bool {
    l.len() == 16 && l[3] == 32 && l[4] == 61 && l[5] == 32 && l[6] == 40 && l[10] == 44 && l[11]
        == 32 && l[15] == 41
}

/// The node that a line names.
pub open spec fn named(l: Seq<u8>) -> Node {
    Node(l[0], l[1], l[2])
}

/// The nodes that the ways of the node of a line lead to.
pub open spec fn ways_of(l: Seq<u8>) -> (Node, Node) {
    (Node(l[7], l[8], l[9]), Node(l[12], l[13], l[14]))
}

/// The ways of the nodes that the lines before line `k` name, from the third
/// line on; of two lines that name one node, the later counts.
pub open spec fn ways_upto(ls: Seq<Seq<u8>>, k: int) -> Map<Node, (Node, Node)>
    decreases k,
{
    if k <= 2 {
        Map::<Node, (Node, Node)>::empty()
    } else {
        ways_upto(ls, k - 1).insert(named(ls[k - 1]), ways_of(ls[k - 1]))
    }
}

/// The nodes that the lines name, from the third line on.
pub open spec fn nodes_of(ls: Seq<Seq<u8>>) -> Seq<Node> {
    Seq::new(
        if ls.len() >= 2 {
            (ls.len() - 2) as nat
        } else {
            0nat
        },
        |i: int| named(ls[i + 2]),
    )
}

/// Whether a text is a network: a line of turns, each `R` or `L`, a line that
/// is passed over, and lines of nodes, not more of them than can be counted in
/// 32 bits.
pub open spec fn is_network(text: Seq<u8>) -> bool {
    let ls = lines(text);
    &&& ls.len() >= 1
    &&& forall|i: int| 0 <= i < ls[0].len() ==> direction_of(#[trigger] ls[0][i]) is Some
    &&& forall|y: int| 2 <= y < ls.len() ==> is_node_line(#[trigger] ls[y])
    &&& ls.len() <= 0xffff_ffff + 2
}

/// Whether line `y` is the first line that should hold a node and does not.
pub open spec fn is_first_bad(ls: Seq<Seq<u8>>, y: int) -> bool {
    &&& 2 <= y < ls.len()
    &&& !is_node_line(ls[y])
    &&& forall|j: int| 2 <= j < y ==> is_node_line(#[trigger] ls[j])
}

/// What is wrong with a text that is no network: its form, where it has no
/// line, or where a line that should hold a node does not and the nodes before
/// it can be counted; else a value, which is a turn that is neither `R` nor
/// `L`, or more nodes than can be counted.
pub open spec fn network_fault(text: Seq<u8>) -> InputError {
    let ls = lines(text);
    if ls.len() == 0 {
        InputError::Syntax
    } else if exists|i: int| 0 <= i < ls[0].len() && direction_of(#[trigger] ls[0][i]) is None {
        InputError::Value
    } else if exists|y: int| #[trigger] is_first_bad(ls, y) && y <= 0xffff_ffff + 2 {
        InputError::Syntax
    } else {
        InputError::Value
    }
}

/// The nodes among the first `k` whose names end in `A`, in order.
pub open spec fn starts(nodes: Seq<Node>, k: int) -> Seq<Node>
    decreases k,
{
    if k <= 0 {
        Seq::<Node>::empty()
    } else if nodes[k - 1].2 == 65 {
        starts(nodes, k - 1).push(nodes[k - 1])
    } else {
        starts(nodes, k - 1)
    }
}

/// No two nodes share a number.
pub proof fn lemma_numbers(a: Node, b: Node)
    ensures
        number_of(a) == number_of(b) ==> a == b,
{
}

/// The node that is reached from `from` after `k` turns; `None` where a node
/// on the way has no ways.
pub open spec fn node_after(net: NetworkModel, from: Node, k: nat) -> Option<Node>
    decreases k,
{
    if k == 0 {
        Some(from)
    } else {
        match node_after(net, from, (k - 1) as nat) {
            None => None,
            Some(n) => if net.ways.contains_key(n) && net.turns.len() > 0 {
                match net.turns[((k - 1) as int) % (net.turns.len() as int)] {
                    Direction::Left => Some(net.ways[n].0),
                    Direction::Right => Some(net.ways[n].1),
                }
            } else {
                None
            },
        }
    }
}

/// `steps` is the number of turns after which a walk from `from` first comes
/// to a node that is `to`, or, where `to` is `None`, to a node whose name ends
/// in `Z`.
pub open spec fn is_first_arrival(net: NetworkModel, from: Node, to: Option<Node>, steps: nat) -> bool {
    &&& node_after(net, from, steps) is Some
    &&& at_goal(node_after(net, from, steps)->Some_0, to)
    &&& forall|k: nat|
        k < steps ==> (#[trigger] node_after(net, from, k)) is Some && !at_goal(
            node_after(net, from, k)->Some_0,
            to,
        )
}

/// Whether a node is the one that a walk looks for.
pub open spec fn at_goal(n: Node, to: Option<Node>) -> bool {
    match to {
        Some(t) => n == t,
        None => n.2 == 90,
    }
}

/// The direction that a byte stands for: `R` or `L`.
pub open spec fn direction_of(b: u8) -> Option<Direction> {
    if b == 82 {
        Some(Direction::Right)
    } else if b == 76 {
        Some(Direction::Left)
    } else {
        None
    }
}

impl Direction {
    /// The direction that a byte stands for.
    pub fn new(c: u8) -> (r: Option<Self>)
        ensures
            r == direction_of(c),
    {
        if c == 82 {
            Some(Direction::Right)
        } else if c == 76 {
            Some(Direction::Left)
        } else {
            None
        }
    }
}

impl Node {
    /// The number of the node.
    pub fn number(&self) -> (k: u64)
        ensures
            k == number_of(*self),
            k < 16777216,
    {
        self.0 as u64 * 65536 + self.1 as u64 * 256 + self.2 as u64
    }

    /// The node of a name: a text of three bytes.
    pub fn from_bytes(text: &[u8], from: usize, to: usize) -> (r: Result<Node, InputError>)
        requires
            from <= to <= text.len(),
        ensures
            r is Ok <==> to - from == 3,
            r is Ok ==> r->Ok_0 == Node(text@[from as int], text@[from + 1], text@[from + 2]),
            r is Err ==> r == Err::<Node, InputError>(InputError::Syntax),
    {
        if to - from != 3 {
            Err(InputError::Syntax)
        } else {
            Ok(Node(text[from], text[from + 1], text[from + 2]))
        }
    }
}

impl Network {
    /// The network as mathematics.
    pub closed spec fn view(&self) -> NetworkModel {
        NetworkModel {
            turns: self.instructions@,
            ways: Map::new(
                |n: Node| self.edges@.contains_key(number_of(n)),
                |n: Node| self.targets@[self.edges@[number_of(n)] as int].1,
            ),
        }
    }

    /// The nodes, in the order in which they were put into the network.
    pub closed spec fn nodes(&self) -> Seq<Node> {
        Seq::new(self.targets@.len(), |i: int| self.targets@[i].0)
    }

    /// The nodes whose names end in `A`, in order.
    pub open spec fn start_seq(&self) -> Seq<Node> {
        starts(self.nodes(), self.nodes().len() as int)
    }

    /// The network holds what a text says: its turns, its nodes, and their
    /// ways.
    pub open spec fn holds(&self, text: Seq<u8>) -> bool {
        let ls = lines(text);
        &&& self.wf()
        &&& ls.len() >= 1
        &&& self.view().turns.len() == ls[0].len()
        &&& forall|i: int|
            0 <= i < ls[0].len() ==> direction_of(ls[0][i]) == Some(#[trigger] self.view().turns[i])
        &&& self.view().ways == ways_upto(ls, ls.len() as int)
        &&& self.nodes() == nodes_of(ls)
    }

    /// The table of the nodes is sound: every number in it is the number of
    /// the node that stands at its place.
    pub closed spec fn wf(&self) -> bool {
        &&& self.targets@.len() <= u32::MAX
        &&& forall|k: u64| #[trigger]
            self.edges@.contains_key(k) ==> self.edges@[k] < self.targets@.len() && number_of(
                self.targets@[self.edges@[k] as int].0,
            ) == k
    }

    /// The ways of a node, if it has any.
    fn ways(&self, node: Node) -> (r: Option<(Node, Node)>)
        requires
            self.wf(),
        ensures
            r is Some <==> self.view().ways.contains_key(node),
            r is Some ==> r->Some_0 == self.view().ways[node],
    {
        match cost_map_get(&self.edges, node.number()) {
            Some(at) => Some(self.targets[at as usize].1),
            None => None,
        }
    }

    /// The number of turns after which a walk from `from` first comes to a
    /// node that is `to`, or, where `to` is `None`, to a node whose name ends in
    /// `Z`. `None` where a node on the way has no ways, there are no turns, or
    /// the walk has not come there after `max_steps` turns.
    pub fn n_steps_from_to(&self, from: Node, to: Option<Node>, max_steps: u32) -> (r: Option<u32>)
        requires
            self.wf(),
        ensures
            r is Some ==> is_first_arrival(self.view(), from, to, r->Some_0 as nat),
            r is Some ==> r->Some_0 <= max_steps,
            r is None ==> forall|k: nat|
                k <= max_steps ==> !#[trigger] is_first_arrival(self.view(), from, to, k),
    {
        let ghost net = self.view();
        let mut node = from;
        let mut steps: u32 = 0;
        let mut turn: usize = 0;
        loop
            invariant
                self.wf(),
                net == self.view(),
                steps <= max_steps,
                net.turns.len() == self.instructions.len(),
                self.instructions.len() > 0 ==> turn == steps as int % (
                self.instructions.len() as int),
                node_after(net, from, steps as nat) == Some(node),
                forall|k: nat|
                    k < steps ==> (#[trigger] node_after(net, from, k)) is Some && !at_goal(
                        node_after(net, from, k)->Some_0,
                        to,
                    ),
            decreases max_steps - steps,
        {
            let there = match to {
                Some(t) => node.0 == t.0 && node.1 == t.1 && node.2 == t.2,
                None => node.2 == 90,
            };
            if there {
                return Some(steps);
            }
            if steps == max_steps || self.instructions.len() == 0 {
                proof {
                    assert forall|k: nat| k <= max_steps implies !#[trigger] is_first_arrival(
                        net,
                        from,
                        to,
                        k,
                    ) by {
                        if k > steps {
                            assert(node_after(net, from, (steps + 1) as nat) is None);
                            if k > steps + 1 {
                                assert(!is_first_arrival(net, from, to, k)) by {
                                    if is_first_arrival(net, from, to, k) {
                                        assert(node_after(net, from, (steps + 1) as nat) is Some);
                                    }
                                }
                            }
                        } else if k < steps {
                            assert(!at_goal(node_after(net, from, k)->Some_0, to));
                        }
                    }
                }
                return None;
            }
            let ways = match self.ways(node) {
                Some(w) => w,
                None => {
                    proof {
                        assert(node_after(net, from, (steps + 1) as nat) is None);
                        assert forall|k: nat| k <= max_steps implies !#[trigger] is_first_arrival(
                            net,
                            from,
                            to,
                            k,
                        ) by {
                            if k > steps + 1 {
                                if is_first_arrival(net, from, to, k) {
                                    assert(node_after(net, from, (steps + 1) as nat) is Some);
                                }
                            } else if k < steps {
                                assert(!at_goal(node_after(net, from, k)->Some_0, to));
                            }
                        }
                    }
                    return None;
                },
            };
            node = match self.instructions[turn] {
                Direction::Left => ways.0,
                Direction::Right => ways.1,
            };
            proof {
                let n = self.instructions.len() as int;
                let q = steps as int / n;
                vstd::arithmetic::div_mod::lemma_fundamental_div_mod(steps as int, n);
                assert(n * q == q * n) by (nonlinear_arith);
                if turn + 1 == n {
                    assert((q + 1) * n + 0 == q * n + n) by (nonlinear_arith);
                    vstd::arithmetic::div_mod::lemma_fundamental_div_mod_converse(
                        steps + 1,
                        n,
                        q + 1,
                        0,
                    );
                } else {
                    vstd::arithmetic::div_mod::lemma_fundamental_div_mod_converse(
                        steps + 1,
                        n,
                        q,
                        turn + 1,
                    );
                }
            }
            turn = if turn + 1 == self.instructions.len() {
                0
            } else {
                turn + 1
            };
            steps = steps + 1;
        }
    }

    /// The number of turns from the node `from` to the node `to`.
    pub fn n_steps_from_to_single(&self, from: Node, to: Node, max_steps: u32) -> (r: Option<u32>)
        requires
            self.wf(),
        ensures
            r is Some ==> is_first_arrival(self.view(), from, Some(to), r->Some_0 as nat),
            r is Some ==> r->Some_0 <= max_steps,
            r is None ==> forall|k: nat|
                k <= max_steps ==> !#[trigger] is_first_arrival(self.view(), from, Some(to), k),
    {
        self.n_steps_from_to(from, Some(to), max_steps)
    }

    /// The number of turns from a node to the first node whose name ends in
    /// `Z`.
    pub fn n_steps_from_to_multiple(&self, from: Node, max_steps: u32) -> (r: Option<u32>)
        requires
            self.wf(),
        ensures
            r is Some ==> is_first_arrival(self.view(), from, None, r->Some_0 as nat),
            r is Some ==> r->Some_0 <= max_steps,
            r is None ==> forall|k: nat|
                k <= max_steps ==> !#[trigger] is_first_arrival(self.view(), from, None, k),
    {
        self.n_steps_from_to(from, None, max_steps)
    }

    /// The nodes whose names end in `A`.
    pub fn start_nodes(&self) -> (r: Vec<Node>)
        ensures
            forall|i: int| 0 <= i < r@.len() ==> (#[trigger] r@[i]).2 == 65,
            r@ == self.start_seq(),
    {
        let mut found: Vec<Node> = Vec::new();
        let mut i: usize = 0;
        while i < self.targets.len()
            invariant
                i <= self.targets.len(),
                forall|k: int| 0 <= k < found@.len() ==> (#[trigger] found@[k]).2 == 65,
                found@ == starts(self.nodes(), i as int),
            decreases self.targets.len() - i,
        {
            let node = self.targets[i].0;
            if node.2 == 65 {
                found.push(node);
            }
            i += 1;
        }
        found
    }

    /// The number of turns after which walks from all nodes whose names end
    /// in `A` are at nodes whose names end in `Z` at the same time, given that
    /// every walk comes to such a node again and again after as many turns as
    /// the first time: the least common multiple of those numbers of turns.
    /// `None` where one of the walks does not arrive, there is no such node, or
    /// a product of two of the numbers does not fit in 64 bits.
    pub fn n_steps_all_a_to_all_z(&self, max_steps: u32) -> (r: Option<u64>)
        requires
            self.wf(),
        ensures
            r is Some ==> exists|steps: Seq<u64>, totals: Seq<u64>|
                #[trigger] folds_to(steps, totals) && totals.last() == r->Some_0 && forall|i: int|
                    0 <= i < steps.len() ==> is_start_arrival(self.view(), #[trigger] steps[i]),
            r is Some ==> exists|steps: Seq<u64>, totals: Seq<u64>|
                #[trigger] folds_to(steps, totals) && totals.last() == r->Some_0 && steps.len()
                    == self.start_seq().len() && are_arrivals(self.view(), self.start_seq(), steps),
            r is None ==> self.start_seq().len() == 0 || (exists|i: int|
                0 <= i < self.start_seq().len() && never_arrives(
                    self.view(),
                    #[trigger] self.start_seq()[i],
                    max_steps,
                )) || (exists|steps: Seq<u64>, totals: Seq<u64>, n: u64| #[trigger]
                breaks(self.view(), self.start_seq(), steps, totals, n)),
    {
        let a_nodes = self.start_nodes();
        if a_nodes.len() == 0 {
            return None;
        }
        let mut total: u64 = 0;
        let ghost mut steps: Seq<u64> = Seq::empty();
        let ghost mut totals: Seq<u64> = Seq::empty();
        let mut i: usize = 0;
        while i < a_nodes.len()
            invariant
                i <= a_nodes.len(),
                self.wf(),
                steps.len() == i,
                forall|k: int| 0 <= k < a_nodes@.len() ==> (#[trigger] a_nodes@[k]).2 == 65,
                a_nodes@ == self.start_seq(),
                are_arrivals(self.view(), a_nodes@, steps),
                i > 0 ==> folds_to(steps, totals) && totals.last() == total,
                totals.len() == i,
                forall|k: int|
                    0 <= k < steps.len() ==> is_start_arrival(self.view(), #[trigger] steps[k]),
            decreases a_nodes.len() - i,
        {
            let n = match self.n_steps_from_to_multiple(a_nodes[i], max_steps) {
                Some(n) => n as u64,
                None => {
                    proof {
                        assert(never_arrives(self.view(), self.start_seq()[i as int], max_steps));
                    }
                    return None;
                },
            };
            let ghost before = steps;
            if i == 0 {
                total = n;
            } else {
                if total != 0 && n > u64::MAX / total {
                    proof {
                        vstd::arithmetic::div_mod::lemma_fundamental_div_mod(
                            u64::MAX as int,
                            total as int,
                        );
                        vstd::arithmetic::div_mod::lemma_mod_bound(u64::MAX as int, total as int);
                        let q = u64::MAX as int / total as int;
                        assert(total * n >= total * (q + 1)) by (nonlinear_arith)
                            requires
                                n >= q + 1,
                                total >= 1,
                        ;
                        assert(total * (q + 1) == total * q + total) by (nonlinear_arith);
                        assert(breaks(self.view(), self.start_seq(), steps, totals, n));
                    }
                    return None;
                }
                proof {
                    assert(total * n <= u64::MAX) by (nonlinear_arith)
                        requires
                            total == 0 || n <= u64::MAX / total,
                            0 <= n,
                            0 <= total,
                    ;
                }
                total = lcm(total, n);
            }
            proof {
                steps = before.push(n);
                let totals_before = totals;
                totals = totals.push(total);
                assert forall|k: int| 1 <= k < steps.len() implies is_lcm(
                    totals[k - 1] as int,
                    steps[k] as int,
                    #[trigger] totals[k] as int,
                ) by {
                    if k < i {
                        assert(totals[k] == totals_before[k]);
                        assert(is_lcm(
                            totals_before[k - 1] as int,
                            before[k] as int,
                            totals_before[k] as int,
                        ));
                    }
                }
                assert(is_first_arrival(self.view(), a_nodes@[i as int], None, n as nat));
                assert forall|k: int| 0 <= k < steps.len() implies is_first_arrival(
                    self.view(),
                    a_nodes@[k],
                    None,
                    (#[trigger] steps[k]) as nat,
                ) by {
                    if k < i {
                        assert(steps[k] == before[k]);
                    }
                }
                assert forall|k: int| 0 <= k < steps.len() implies is_start_arrival(
                    self.view(),
                    #[trigger] steps[k],
                ) by {
                    if k < i {
                        assert(steps[k] == before[k]);
                    }
                }
            }
            i += 1;
        }
        Some(total)
    }

    /// Reads a network: the turns on the first line, and from the third line
    /// on a node with its two ways on each line, as in `AAA = (BBB, CCC)`.
    #[verifier::loop_isolation(false)]
    pub fn from_bytes(text: &[u8]) -> (r: Result<Network, InputError>)
        ensures
            r is Ok ==> r->Ok_0.wf(),
            r is Ok ==> lines(text@).len() >= 1 && r->Ok_0.view().turns.len() == lines(text@)[0].len()
                && forall|i: int|
                0 <= i < lines(text@)[0].len() ==> direction_of(lines(text@)[0][i]) == Some(
                    #[trigger] r->Ok_0.view().turns[i],
                ),
            r is Ok <==> is_network(text@),
            r is Ok ==> r->Ok_0.holds(text@),
            r is Err ==> r->Err_0 == network_fault(text@),
    {
        let spans = split_lines(text);
        let ghost ls = lines(text@);
        if spans.len() == 0 {
            return Err(InputError::Syntax);
        }
        proof {
            assert(ls[0] == text@.subrange(spans@[0].0 as int, spans@[0].1 as int));
        }
        let mut instructions: Vec<Direction> = Vec::new();
        let (a, b) = spans[0];
        let mut i: usize = a;
        while i < b
            invariant
                a <= i <= b <= text.len(),
                instructions.len() == i - a,
                forall|k: int|
                    0 <= k < i - a ==> direction_of(text@[a + k]) == Some(
                        #[trigger] instructions@[k],
                    ),
            decreases b - i,
        {
            match Direction::new(text[i]) {
                Some(d) => {
                    instructions.push(d);
                },
                None => {
                    proof {
                        assert(ls[0][i - a] == text@[i as int]);
                        assert(direction_of(ls[0][i - a]) is None);
                    }
                    return Err(InputError::Value);
                },
            }
            i += 1;
        }
        let mut network = Network { instructions, edges: cost_map_new(), targets: Vec::new() };
        proof {
            assert(network.view().ways =~= ways_upto(ls, 2));
            assert forall|k: int| 0 <= k < ls[0].len() implies direction_of(
                #[trigger] ls[0][k],
            ) is Some by {
                assert(ls[0][k] == text@[a + k]);
                assert(direction_of(text@[a + k]) == Some(network.instructions@[k]));
            }
        }
        let mut y: usize = 2;
        while y < spans.len()
            invariant
                network.wf(),
                network.instructions@.len() == b - a,
                forall|k: int|
                    0 <= k < b - a ==> direction_of(text@[a + k]) == Some(
                        #[trigger] network.instructions@[k],
                    ),
                crate::text::spans_hold(text@, 0, text@.len() as int, spans@, ls),
                2 <= y,
                y <= spans.len() || y == 2,
                network.targets@.len() == y - 2,
                network.targets@.len() <= 0xffff_ffff,
                forall|j: int| 2 <= j < y && j < ls.len() ==> is_node_line(#[trigger] ls[j]),
                forall|j: int|
                    0 <= j < y - 2 ==> (#[trigger] network.targets@[j]).0 == named(ls[j + 2]),
                network.view().ways == ways_upto(ls, y as int),
            decreases spans.len() - y,
        {
            let (from, to) = spans[y];
            let ghost line = ls[y as int];
            proof {
                assert(line == text@.subrange(from as int, to as int));
                if to - from == 16 {
                    assert(line[0] == text@[from as int]);
                    assert(line[1] == text@[from + 1]);
                    assert(line[2] == text@[from + 2]);
                    assert(line[3] == text@[from + 3]);
                    assert(line[4] == text@[from + 4]);
                    assert(line[5] == text@[from + 5]);
                    assert(line[6] == text@[from + 6]);
                    assert(line[7] == text@[from + 7]);
                    assert(line[8] == text@[from + 8]);
                    assert(line[9] == text@[from + 9]);
                    assert(line[10] == text@[from + 10]);
                    assert(line[11] == text@[from + 11]);
                    assert(line[12] == text@[from + 12]);
                    assert(line[13] == text@[from + 13]);
                    assert(line[14] == text@[from + 14]);
                    assert(line[15] == text@[from + 15]);
                }
            }
            // AAA = (BBB, CCC)
            if to - from != 16 || text[from + 3] != 32 || text[from + 4] != 61 || text[from + 5]
                != 32 || text[from + 6] != 40 || text[from + 10] != 44 || text[from + 11] != 32
                || text[from + 15] != 41 {
                proof {
                    assert(!is_node_line(ls[y as int]));
                    assert(is_first_bad(ls, y as int));
                }
                return Err(InputError::Syntax);
            }
            let node = Node(text[from], text[from + 1], text[from + 2]);
            let left = Node(text[from + 7], text[from + 8], text[from + 9]);
            let right = Node(text[from + 12], text[from + 13], text[from + 14]);
            if network.targets.len() >= 0xffff_ffff {
                proof {
                    assert(is_node_line(ls[y as int]));
                    assert forall|z: int| #[trigger] is_first_bad(ls, z) implies z > 0xffff_ffff + 2 by {
                        if z < y {
                            assert(is_node_line(ls[z]));
                        }
                    }
                }
                return Err(InputError::Value);
            }
            let at = network.targets.len() as u32;
            let ghost before = network;
            network.targets.push((node, (left, right)));
            cost_map_insert(&mut network.edges, node.number(), at);
            proof {
                assert forall|k: u64| #[trigger] network.edges@.contains_key(k) implies network.edges@[k]
                    < network.targets@.len() && number_of(
                    network.targets@[network.edges@[k] as int].0,
                ) == k by {
                    if k != number_of(node) {
                        assert(before.edges@.contains_key(k));
                        assert(network.targets@[before.edges@[k] as int]
                            == before.targets@[before.edges@[k] as int]);
                    }
                }
                assert(network.view().ways =~= before.view().ways.insert(node, (left, right))) by {
                    assert forall|n: Node|
                        network.view().ways.contains_key(n) == before.view().ways.insert(
                            node,
                            (left, right),
                        ).contains_key(n) by {
                        lemma_numbers(n, node);
                    }
                    assert forall|n: Node| #[trigger]
                        network.view().ways.contains_key(n) implies network.view().ways[n]
                        == before.view().ways.insert(node, (left, right))[n] by {
                        lemma_numbers(n, node);
                        if n != node {
                            assert(before.edges@.contains_key(number_of(n)));
                            assert(network.targets@[before.edges@[number_of(n)] as int]
                                == before.targets@[before.edges@[number_of(n)] as int]);
                        }
                    }
                }
                assert(node == named(line) && (left, right) == ways_of(line));
                assert forall|j: int| 0 <= j < y - 1 implies (#[trigger] network.targets@[j]).0
                    == named(ls[j + 2]) by {
                    if j < y - 2 {
                        assert(network.targets@[j] == before.targets@[j]);
                    }
                }
            }
            y += 1;
        }
        proof {
            assert(ls[0] == text@.subrange(a as int, b as int));
            assert forall|k: int| 0 <= k < ls[0].len() implies direction_of(ls[0][k]) == Some(
                #[trigger] network.view().turns[k],
            ) by {
                assert(ls[0][k] == text@[a + k]);
            }
            assert(spans@.len() == ls.len());
            assert(network.nodes().len() == nodes_of(ls).len());
            assert forall|j: int| 0 <= j < network.nodes().len() implies network.nodes()[j]
                == nodes_of(ls)[j] by {
                assert(network.targets@[j].0 == named(ls[j + 2]));
            }
            assert(network.nodes() =~= nodes_of(ls));
            if ls.len() < 2 {
                assert(ways_upto(ls, ls.len() as int) == ways_upto(ls, 2));
            }
        }
        Ok(network)
    }

    /// Reads a network.
    pub fn parse(s: &str) -> (r: Result<Network, InputError>)
        ensures
            r is Ok ==> r->Ok_0.wf(),
            r is Ok <==> is_network(s.spec_bytes()),
            r is Ok ==> r->Ok_0.holds(s.spec_bytes()),
            r is Err ==> r->Err_0 == network_fault(s.spec_bytes()),
    {
        Network::from_bytes(s.as_bytes())
    }
}

/// `steps` is the number of turns after which the walk from some node whose
/// name ends in `A` first comes to a node whose name ends in `Z`.
pub open spec fn is_start_arrival(net: NetworkModel, steps: u64) -> bool {
    exists|from: Node| from.2 == 65 && #[trigger] is_first_arrival(net, from, None, steps as nat)
}

/// Whether the walk from `from` does not come to a node whose name ends in
/// `Z` within `max_steps` turns.
pub open spec fn never_arrives(net: NetworkModel, from: Node, max_steps: u32) -> bool {
    forall|k: nat| k <= max_steps ==> !#[trigger] is_first_arrival(net, from, None, k)
}

/// Whether `steps` are the numbers of turns after which the walks from the
/// first nodes of `from` first come to a node whose name ends in `Z`.
pub open spec fn are_arrivals(net: NetworkModel, from: Seq<Node>, steps: Seq<u64>) -> bool {
    steps.len() <= from.len() && forall|i: int|
        0 <= i < steps.len() ==> is_first_arrival(net, from[i], None, (#[trigger] steps[i]) as nat)
}

/// Whether the least common multiple of the numbers of turns of the walks
/// does not fit in 64 bits when the walk after those of `steps`, which takes
/// `n` turns, joins them: what they come to, times `n`, is too large.
pub open spec fn breaks(
    net: NetworkModel,
    from: Seq<Node>,
    steps: Seq<u64>,
    totals: Seq<u64>,
    n: u64,
) -> bool {
    &&& 1 <= steps.len() < from.len()
    &&& folds_to(steps, totals)
    &&& are_arrivals(net, from, steps)
    &&& is_first_arrival(net, from[steps.len() as int], None, n as nat)
    &&& totals.last() * n > u64::MAX
}

/// `totals` are what the least common multiples of the numbers, taken one
/// after the other, come to: first the first number, and then the least common
/// multiple of what came before and the next number.
pub open spec fn folds_to(steps: Seq<u64>, totals: Seq<u64>) -> bool {
    &&& steps.len() == totals.len()
    &&& steps.len() > 0
    &&& totals[0] == steps[0]
    &&& forall|i: int|
        1 <= i < steps.len() ==> is_lcm(totals[i - 1] as int, steps[i] as int, #[trigger] totals[i] as int)
}

impl std::str::FromStr for Network {
    type Err = InputError;

    fn from_str(s: &str) -> (r: Result<Self, Self::Err>) {
        Network::parse(s)
    }
}

} // verus!
