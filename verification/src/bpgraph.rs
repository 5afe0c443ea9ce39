//! The graph: owns the nodes, enforces the bipartite invariant, and runs the
//! synchronous propagation steps.
//!
//! One step has two strictly ordered phases: phase A asks every ready node
//! for its outbound messages (no inbox is written), phase B validates,
//! normalizes and deposits each message into its destination's inbox. The
//! step counter then increases, so messages deposited at step `s` are seen at
//! step `s + 1`. The threaded drivers run the same two phases over the same
//! work list in the same order — batching is a scheduling detail with no
//! observable effect here — which is what makes the sequential and threaded
//! runs provably equal.

use vstd::prelude::*;

use crate::bperror::{BPError, BPResult, ErrorKind};
use crate::msg::{msg_valid, norm_seq, posts, Message};
use crate::node::{norm_ok, Node, NodeV};
use crate::node_function::{
    behavior_after_init, behavior_after_outbox, behavior_after_reset, behavior_initialized,
    behavior_is_factor, behavior_number_inputs, behavior_outbox, behavior_outbox_ok,
    behavior_ready, Behavior, BehaviorV, CtrlAck, CtrlMsg, FactorNodeV,
};
use crate::variable_node::VariableNodeV;

verus! {

/// A dense non-negative handle to a node, stable for the graph's lifetime.
pub type NodeIndex = usize;

/// The abstract state of a [`BPGraph`].
pub struct GraphV {
    /// The nodes, in insertion order.
    pub nodes: Seq<NodeV>,
    /// The step counter.
    pub step: usize,
    /// Whether phase B normalizes every message before depositing it.
    pub normalize: bool,
    /// Whether phase B checks message validity, and steps check the graph.
    pub check_validity: bool,
}

/// A belief propagation graph over bipartite factor/variable nodes.
pub struct BPGraph {
    nodes: Vec<Node>,
    step: usize,
    normalize: bool,
    check_validity: bool,
}

impl View for BPGraph {
    type V = GraphV;

    closed spec fn view(&self) -> GraphV {
        GraphV {
            nodes: self.nodes@.map_values(|n: Node| n@),
            step: self.step,
            normalize: self.normalize,
            check_validity: self.check_validity,
        }
    }
}

/// The structural invariant of the adjacency lists: every edge stays in
/// bounds, connects a factor to a variable, has its mirror on the other
/// endpoint, is recorded once, and respects the declared arity cap.
pub open spec fn edges_wf(nodes: Seq<NodeV>) -> bool {
    &&& (forall|i: int, k: int|
        0 <= i < nodes.len() && 0 <= k < nodes[i].connections.len() ==> {
            let j = #[trigger] nodes[i].connections[k];
            &&& (j as int) < nodes.len()
            &&& behavior_is_factor(nodes[i].node_function) != behavior_is_factor(
                nodes[j as int].node_function,
            )
            &&& nodes[j as int].connections.contains(i as usize)
        })
    &&& (forall|i: int, k1: int, k2: int|
        0 <= i < nodes.len() && 0 <= k1 < k2 < nodes[i].connections.len() ==> #[trigger] nodes[i].connections[k1]
            != #[trigger] nodes[i].connections[k2])
    &&& (forall|i: int|
        0 <= i < nodes.len() ==> match behavior_number_inputs(#[trigger] nodes[i].node_function) {
            Some(k) => nodes[i].connections.len() <= k,
            None => true,
        })
}

/// Every held message traveled an existing edge: each inbox entry of each
/// node names one of that node's neighbors as its sender. `BPGraph::new`
/// establishes this and every operation of [`BPGraph`] states in its
/// contract that it is kept, so it holds of every reachable graph.
pub open spec fn inboxes_wf(nodes: Seq<NodeV>) -> bool {
    forall|j: int, x: int|
        0 <= j < nodes.len() && 0 <= x < nodes[j].inbox.len() ==> nodes[j].connections.contains(
            (#[trigger] nodes[j].inbox[x]).0,
        )
}

/// An initialized node's behavior has received exactly the node's neighbor
/// list.
pub open spec fn behavior_matches(n: NodeV) -> bool {
    match n.node_function {
        BehaviorV::Variable(v) => v.connections == Some(n.connections),
        BehaviorV::Factor(f) => n.connections.len() == 2 && f.connection0 == Some(
            n.connections[0],
        ) && f.connection1 == Some(n.connections[1]),
    }
}

/// Every initialized node's behavior agrees with its neighbor list.
pub open spec fn init_wf(nodes: Seq<NodeV>) -> bool {
    forall|i: int|
        0 <= i < nodes.len() && (#[trigger] nodes[i]).is_initialized ==> behavior_matches(nodes[i])
}

/// Every variable behavior has received its neighbor list, so readiness can
/// be evaluated.
pub open spec fn vars_initialized(nodes: Seq<NodeV>) -> bool {
    forall|i: int|
        0 <= i < nodes.len() && (#[trigger] nodes[i]).node_function is Variable
            ==> behavior_initialized(nodes[i].node_function)
}

/// What [`BPGraph::is_valid_node`] checks of node `i`: it exists, has at
/// least one edge, matches its declared arity, and every neighbor exists and
/// points back.
pub open spec fn spec_node_valid(nodes: Seq<NodeV>, i: int) -> bool {
    &&& 0 <= i < nodes.len()
    &&& nodes[i].connections.len() > 0
    &&& (match behavior_number_inputs(nodes[i].node_function) {
        Some(k) => nodes[i].connections.len() == k,
        None => true,
    })
    &&& (forall|k: int|
        0 <= k < nodes[i].connections.len() ==> {
            let j = #[trigger] nodes[i].connections[k];
            (j as int) < nodes.len() && nodes[j as int].connections.contains(i as usize)
        })
}

/// What [`BPGraph::is_valid`] checks: every node is valid.
pub open spec fn spec_graph_valid(nodes: Seq<NodeV>) -> bool {
    forall|i: int| 0 <= i < nodes.len() ==> spec_node_valid(nodes, i)
}

/// Whether a node contributes messages this step.
pub open spec fn node_ready(n: NodeV) -> bool {
    behavior_ready(n.node_function, n.inbox.len())
}

/// A node's state after phase A: ready nodes are drained and their behavior
/// marked as having propagated; the rest are untouched.
pub open spec fn node_after_a(n: NodeV) -> NodeV {
    if node_ready(n) {
        NodeV {
            inbox: Seq::<(usize, Seq<(i64, u64)>)>::empty(),
            node_function: behavior_after_outbox(n.node_function, n.inbox.len()),
            ..n
        }
    } else {
        n
    }
}

/// Whether phase A succeeds: every ready node turns its inbox into an
/// outbox.
pub open spec fn phase_a_ok(nodes: Seq<NodeV>) -> bool {
    forall|i: int|
        0 <= i < nodes.len() && node_ready(#[trigger] nodes[i]) ==> behavior_outbox_ok(
            nodes[i].node_function,
            nodes[i].inbox,
        )
}

/// The nodes after phase A.
pub open spec fn phase_a_nodes(nodes: Seq<NodeV>) -> Seq<NodeV> {
    nodes.map_values(|n: NodeV| node_after_a(n))
}

/// The batches phase A produces from node `i` on: one `(from, outbox)` pair
/// per ready node, in index order.
pub open spec fn phase_a_out_from(nodes: Seq<NodeV>, i: int) -> Seq<
    (usize, Seq<(usize, Seq<(i64, u64)>)>),
>
    decreases nodes.len() - i when 0 <= i <= nodes.len()
{
    if i >= nodes.len() {
        Seq::empty()
    } else {
        let rest = phase_a_out_from(nodes, i + 1);
        if node_ready(nodes[i]) {
            seq![
                (i as usize, behavior_outbox(nodes[i].node_function, nodes[i].inbox)),
            ] + rest
        } else {
            rest
        }
    }
}

/// Whether one deposit of phase B goes through, in the order the phases
/// check: the message is valid (when checked), can be normalized (when
/// normalizing), and travels an existing edge to an existing node.
pub open spec fn deposit_ok(
    nodes: Seq<NodeV>,
    from: usize,
    to: usize,
    m: Seq<(i64, u64)>,
    normalize: bool,
    check_validity: bool,
) -> bool {
    &&& (check_validity ==> msg_valid(m))
    &&& (normalize ==> norm_ok(m))
    &&& (to as int) < nodes.len()
    &&& nodes[to as int].connections.contains(from)
}

/// The message as deposited: max-scaled when the graph normalizes.
pub open spec fn deposit_msg(m: Seq<(i64, u64)>, normalize: bool) -> Seq<(i64, u64)> {
    if normalize {
        norm_seq(m)
    } else {
        m
    }
}

/// The nodes after one deposit: `(from, m)` appended to `to`'s inbox.
pub open spec fn deposit(
    nodes: Seq<NodeV>,
    from: usize,
    to: usize,
    m: Seq<(i64, u64)>,
    normalize: bool,
) -> Seq<NodeV> {
    nodes.update(
        to as int,
        NodeV {
            inbox: nodes[to as int].inbox.push((from, deposit_msg(m, normalize))),
            ..nodes[to as int]
        },
    )
}

/// Phase B over one source's outbox: deposits in order, `None` at the first
/// failing deposit.
pub open spec fn send_list(
    nodes: Seq<NodeV>,
    from: usize,
    list: Seq<(usize, Seq<(i64, u64)>)>,
    normalize: bool,
    check_validity: bool,
) -> Option<Seq<NodeV>>
    decreases list.len(),
{
    if list.len() == 0 {
        Some(nodes)
    } else if !deposit_ok(nodes, from, list[0].0, list[0].1, normalize, check_validity) {
        None
    } else {
        send_list(
            deposit(nodes, from, list[0].0, list[0].1, normalize),
            from,
            list.skip(1),
            normalize,
            check_validity,
        )
    }
}

/// Phase B over all batches, in batch order.
pub open spec fn send_all(
    nodes: Seq<NodeV>,
    msgs: Seq<(usize, Seq<(usize, Seq<(i64, u64)>)>)>,
    normalize: bool,
    check_validity: bool,
) -> Option<Seq<NodeV>>
    decreases msgs.len(),
{
    if msgs.len() == 0 {
        Some(nodes)
    } else {
        match send_list(nodes, msgs[0].0, msgs[0].1, normalize, check_validity) {
            None => None,
            Some(n2) => send_all(n2, msgs.skip(1), normalize, check_validity),
        }
    }
}

/// The view of phase A's exec batches.
pub open spec fn batches(v: Seq<(usize, Vec<(usize, Message)>)>) -> Seq<
    (usize, Seq<(usize, Seq<(i64, u64)>)>),
> {
    v.map_values(|e: (usize, Vec<(usize, Message)>)| (e.0, posts(e.1@)))
}

/// Whether one whole step succeeds from state `g`: the validity gate (when
/// checked), then phase A, then phase B.
pub open spec fn spec_step_ok(g: GraphV) -> bool {
    &&& (g.check_validity ==> spec_graph_valid(g.nodes))
    &&& phase_a_ok(g.nodes)
    &&& send_all(
        phase_a_nodes(g.nodes),
        phase_a_out_from(g.nodes, 0),
        g.normalize,
        g.check_validity,
    ) is Some
}

/// The state after one successful step: phase A drains the ready nodes,
/// phase B deposits their messages, and the step counter increases.
pub open spec fn spec_step(g: GraphV) -> GraphV {
    GraphV {
        nodes: send_all(
            phase_a_nodes(g.nodes),
            phase_a_out_from(g.nodes, 0),
            g.normalize,
            g.check_validity,
        )->Some_0,
        step: (g.step + 1) as usize,
        ..g
    }
}

/// The state after `k` successful steps, or `None` where one fails or the
/// step counter would overflow.
pub open spec fn run_steps(g: GraphV, k: nat) -> Option<GraphV>
    decreases k,
{
    if k == 0 {
        Some(g)
    } else if !spec_step_ok(g) || g.step == usize::MAX {
        None
    } else {
        run_steps(spec_step(g), (k - 1) as nat)
    }
}

/// How many nodes of `nodes`, from index `i` on, are factors.
pub open spec fn count_factors_from(nodes: Seq<NodeV>, i: int) -> int
    decreases nodes.len() - i when 0 <= i <= nodes.len()
{
    if i >= nodes.len() {
        0
    } else {
        (if behavior_is_factor(nodes[i].node_function) {
            1int
        } else {
            0int
        }) + count_factors_from(nodes, i + 1)
    }
}

impl BPGraph {
    /// An empty graph: step 0, normalization on, validity checks off.
    pub fn new() -> (r: Self)
        ensures
            r@ == (GraphV {
                nodes: Seq::<NodeV>::empty(),
                step: 0usize,
                normalize: true,
                check_validity: false,
            }),
            edges_wf(r@.nodes),
            init_wf(r@.nodes),
            inboxes_wf(r@.nodes),
    {
        let r = BPGraph { nodes: Vec::new(), step: 0, normalize: true, check_validity: false };
        proof {
            assert(r@.nodes =~= Seq::<NodeV>::empty());
        }
        r
    }

    /// Turns phase B normalization on or off.
    pub fn set_normalize(&mut self, normalize: bool)
        ensures
            final(self)@ == (GraphV { normalize: normalize, ..old(self)@ }),
    {
        self.normalize = normalize;
    }

    /// Turns the validity checks on or off.
    pub fn set_check_validity(&mut self, value: bool)
        ensures
            final(self)@ == (GraphV { check_validity: value, ..old(self)@ }),
    {
        self.check_validity = value;
    }

    /// How many nodes the graph holds.
    pub fn len(&self) -> (r: usize)
        ensures
            r == self@.nodes.len(),
    {
        self.nodes.len()
    }

    /// Whether the graph holds no node.
    pub fn is_empty(&self) -> (r: bool)
        ensures
            r == (self@.nodes.len() == 0),
    {
        self.nodes.is_empty()
    }

    /// How many nodes the graph holds.
    pub fn nodes_count(&self) -> (r: usize)
        ensures
            r == self@.nodes.len(),
    {
        self.nodes.len()
    }

    /// Pre-allocates room for `number_nodes` more nodes.
    pub fn reserve(&mut self, number_nodes: usize)
        ensures
            final(self)@ == old(self)@,
    {
        self.nodes.reserve(number_nodes);
    }

    /// Adds a node around `node_function` and returns its index.
    pub fn add_node(&mut self, name: String, node_function: Behavior) -> (r: NodeIndex)
        ensures
            r == old(self)@.nodes.len(),
            final(self)@ == (GraphV {
                nodes: old(self)@.nodes.push(
                    NodeV {
                        name: name@,
                        connections: Seq::<usize>::empty(),
                        inbox: Seq::<(usize, Seq<(i64, u64)>)>::empty(),
                        node_function: node_function@,
                        is_initialized: false,
                    },
                ),
                ..old(self)@
            }),
            edges_wf(old(self)@.nodes) ==> edges_wf(final(self)@.nodes),
            init_wf(old(self)@.nodes) ==> init_wf(final(self)@.nodes),
            inboxes_wf(old(self)@.nodes) ==> inboxes_wf(final(self)@.nodes),
    {
        let ghost before = self@.nodes;
        let node = Node::new(name, node_function);
        let ghost nv = node@;
        self.nodes.push(node);
        proof {
            assert(self@.nodes =~= before.push(nv));
            if edges_wf(before) {
                assert forall|i: int, k: int|
                    0 <= i < self@.nodes.len() && 0 <= k < self@.nodes[i].connections.len() implies {
                    let j = #[trigger] self@.nodes[i].connections[k];
                    &&& (j as int) < self@.nodes.len()
                    &&& behavior_is_factor(self@.nodes[i].node_function) != behavior_is_factor(
                        self@.nodes[j as int].node_function,
                    )
                    &&& self@.nodes[j as int].connections.contains(i as usize)
                } by {
                    assert(i < before.len());
                    assert(self@.nodes[i] == before[i]);
                }
            }
            if inboxes_wf(before) {
                assert forall|j: int, x: int|
                    0 <= j < self@.nodes.len() && 0 <= x
                        < self@.nodes[j].inbox.len() implies self@.nodes[j].connections.contains(
                    (#[trigger] self@.nodes[j].inbox[x]).0,
                ) by {
                    assert(j < before.len());
                    assert(self@.nodes[j] == before[j]);
                }
            }
        }
        self.nodes.len() - 1
    }

    /// How many nodes are factors.
    pub fn factor_nodes_count(&self) -> (r: usize)
        ensures
            r == count_factors_from(self@.nodes, 0),
    {
        let n = self.nodes.len();
        let mut count: usize = 0;
        let mut i: usize = n;
        while i > 0
            invariant
                n == self@.nodes.len(),
                i <= n,
                count == count_factors_from(self@.nodes, i as int),
                count <= n - i,
            decreases i,
        {
            i -= 1;
            if self.nodes[i].is_factor() {
                count += 1;
            }
        }
        count
    }

    /// How many nodes are variables.
    pub fn variable_nodes_count(&self) -> (r: usize)
        ensures
            r == self@.nodes.len() - count_factors_from(self@.nodes, 0),
    {
        proof {
            lemma_count_factors_bound(self@.nodes, 0);
        }
        self.nodes.len() - self.factor_nodes_count()
    }

    /// Whether every node has been initialized.
    pub fn is_initialized(&self) -> (r: bool)
        ensures
            r == (forall|i: int|
                0 <= i < self@.nodes.len() ==> (#[trigger] self@.nodes[i]).is_initialized),
    {
        let n = self.nodes.len();
        let mut i: usize = 0;
        while i < n
            invariant
                n == self@.nodes.len(),
                i <= n,
                forall|j: int| 0 <= j < i ==> (#[trigger] self@.nodes[j]).is_initialized,
            decreases n - i,
        {
            if !self.nodes[i].is_initialized() {
                proof {
                    assert(!(#[trigger] self@.nodes[i as int]).is_initialized);
                }
                return false;
            }
            i += 1;
        }
        true
    }

    /// Routes a control value into node `node_index`'s behavior and returns
    /// its ack. Fails with `IndexOutOfBounds` on a bad index.
    pub fn send_control_message(&mut self, node_index: NodeIndex, ctrl_msg: CtrlMsg) -> (r:
        BPResult<CtrlAck>)
        ensures
            final(self)@ == old(self)@,
            r is Ok <==> (node_index as int) < old(self)@.nodes.len(),
            r matches Err(e) ==> e.spec_kind() == ErrorKind::IndexOutOfBounds,
    {
        if node_index >= self.nodes.len() {
            return Err(
                BPError::with_kind(
                    ErrorKind::IndexOutOfBounds,
                    "BPGraph::send_control_message".to_owned(),
                    "the node index is out of bounds".to_owned(),
                ),
            );
        }
        let ghost before = self@.nodes;
        let r = self.nodes[node_index].send_control_message(ctrl_msg);
        proof {
            assert(self@.nodes =~= before);
        }
        r
    }
}


/// The first reason [`BPGraph::add_edge`] would refuse `(node0, node1)`, in
/// the order the checks run, or `None` when the edge can be added.
pub open spec fn add_edge_err(nodes: Seq<NodeV>, node0: usize, node1: usize) -> Option<ErrorKind> {
    if (node0 as int) >= nodes.len() || (node1 as int) >= nodes.len() {
        Some(ErrorKind::IndexOutOfBounds)
    } else if behavior_is_factor(nodes[node0 as int].node_function) == behavior_is_factor(
        nodes[node1 as int].node_function,
    ) {
        Some(ErrorKind::BipartiteViolation)
    } else if nodes[node0 as int].connections.contains(node1) {
        Some(ErrorKind::DuplicateEdge)
    } else if (match behavior_number_inputs(nodes[node0 as int].node_function) {
        Some(k) => nodes[node0 as int].connections.len() >= k,
        None => false,
    }) {
        Some(ErrorKind::ArityMismatch)
    } else if nodes[node1 as int].connections.contains(node0) {
        Some(ErrorKind::DuplicateEdge)
    } else if (match behavior_number_inputs(nodes[node1 as int].node_function) {
        Some(k) => nodes[node1 as int].connections.len() >= k,
        None => false,
    }) {
        Some(ErrorKind::ArityMismatch)
    } else {
        None
    }
}

/// The nodes after the pair insert of `(node0, node1)`: each endpoint
/// appended to the other's neighbor list.
pub open spec fn add_edge_nodes(nodes: Seq<NodeV>, node0: usize, node1: usize) -> Seq<NodeV> {
    let n2 = nodes.update(
        node0 as int,
        NodeV { connections: nodes[node0 as int].connections.push(node1), ..nodes[node0 as int] },
    );
    n2.update(
        node1 as int,
        NodeV { connections: n2[node1 as int].connections.push(node0), ..n2[node1 as int] },
    )
}

/// A pushed list keeps containing what it contained.
proof fn lemma_push_contains(s: Seq<usize>, x: usize, y: usize)
    requires
        s.contains(y),
    ensures
        s.push(x).contains(y),
{
    let i = choose|i: int| 0 <= i < s.len() && s[i] == y;
    assert(s.push(x)[i] == y);
}

/// The pair insert keeps the structural invariant of the adjacency lists.
proof fn lemma_add_edge_wf(nodes: Seq<NodeV>, node0: usize, node1: usize)
    requires
        edges_wf(nodes),
        add_edge_err(nodes, node0, node1) is None,
    ensures
        edges_wf(add_edge_nodes(nodes, node0, node1)),
{
    let r = add_edge_nodes(nodes, node0, node1);
    assert(node0 != node1);
    assert forall|i: int, k: int|
        0 <= i < r.len() && 0 <= k < r[i].connections.len() implies {
        let j = #[trigger] r[i].connections[k];
        &&& (j as int) < r.len()
        &&& behavior_is_factor(r[i].node_function) != behavior_is_factor(
            r[j as int].node_function,
        )
        &&& r[j as int].connections.contains(i as usize)
    } by {
        let j = r[i].connections[k];
        if i == node0 as int && k == nodes[i].connections.len() {
            assert(j == node1);
            assert(r[node1 as int].connections[nodes[node1 as int].connections.len() as int]
                == node0);
            assert(r[node1 as int].connections.contains(node0));
        } else if i == node1 as int && k == nodes[i].connections.len() {
            assert(j == node0);
            assert(r[node0 as int].connections[nodes[node0 as int].connections.len() as int]
                == node1);
            assert(r[node0 as int].connections.contains(node1));
        } else {
            assert(r[i].connections[k] == nodes[i].connections[k]);
            assert(nodes[j as int].connections.contains(i as usize));
            if j == node0 {
                lemma_push_contains(nodes[node0 as int].connections, node1, i as usize);
            } else if j == node1 {
                lemma_push_contains(nodes[node1 as int].connections, node0, i as usize);
            }
        }
    }
    assert forall|i: int, k1: int, k2: int|
        0 <= i < r.len() && 0 <= k1 < k2 < r[i].connections.len() implies #[trigger] r[i].connections[k1]
        != #[trigger] r[i].connections[k2] by {
        if i == node0 as int && k2 == nodes[i].connections.len() {
            assert(r[i].connections[k1] == nodes[i].connections[k1]);
            assert(nodes[i].connections.contains(nodes[i].connections[k1]));
        } else if i == node1 as int && k2 == nodes[i].connections.len() {
            assert(r[i].connections[k1] == nodes[i].connections[k1]);
            assert(nodes[i].connections.contains(nodes[i].connections[k1]));
        } else {
            assert(r[i].connections[k1] == nodes[i].connections[k1]);
            assert(r[i].connections[k2] == nodes[i].connections[k2]);
        }
    }
}

impl BPGraph {
    /// Inserts the edge `(node0, node1)` on both endpoints, atomically: when
    /// the second half of the pair insert fails, the first is rolled back.
    /// Fails, with the graph unchanged, when an index is out of bounds, the
    /// nodes are of the same kind (`BipartiteViolation`), the edge already
    /// exists, or a declared arity is full; see [`add_edge_err`] for the
    /// exact order.
    pub fn add_edge(&mut self, node0: NodeIndex, node1: NodeIndex) -> (r: BPResult<()>)
        ensures
            r is Ok <==> add_edge_err(old(self)@.nodes, node0, node1) is None,
            r is Ok ==> final(self)@ == (GraphV {
                nodes: add_edge_nodes(old(self)@.nodes, node0, node1),
                ..old(self)@
            }),
            r matches Err(e) ==> final(self)@ == old(self)@ && Some(e.spec_kind())
                == add_edge_err(old(self)@.nodes, node0, node1),
            r is Ok && edges_wf(old(self)@.nodes) ==> edges_wf(final(self)@.nodes),
            (r is Ok && init_wf(old(self)@.nodes) && !old(self)@.nodes[node0 as int].is_initialized
                && !old(self)@.nodes[node1 as int].is_initialized) ==> init_wf(final(self)@.nodes),
            inboxes_wf(old(self)@.nodes) ==> inboxes_wf(final(self)@.nodes),
    {
        let ghost nodes0 = self@.nodes;
        if node0 >= self.nodes.len() || node1 >= self.nodes.len() {
            return Err(
                BPError::with_kind(
                    ErrorKind::IndexOutOfBounds,
                    "BPGraph::add_edge".to_owned(),
                    "a node index is out of bounds".to_owned(),
                ),
            );
        }
        if self.nodes[node0].is_factor() == self.nodes[node1].is_factor() {
            return Err(
                BPError::with_kind(
                    ErrorKind::BipartiteViolation,
                    "BPGraph::add_edge".to_owned(),
                    "cannot link two nodes of the same kind".to_owned(),
                ),
            );
        }
        match self.nodes[node0].add_edge(node1) {
            Err(e) => {
                proof {
                    assert(self@.nodes =~= nodes0);
                }
                return Err(e);
            },
            Ok(()) => {},
        }
        let ghost mid = self@.nodes;
        match self.nodes[node1].add_edge(node0) {
            Err(e) => {
                self.nodes[node0].pop_connection();
                proof {
                    assert(nodes0[node0 as int].connections.push(node1).drop_last()
                        =~= nodes0[node0 as int].connections);
                    assert(self@.nodes =~= nodes0);
                }
                return Err(e);
            },
            Ok(()) => {},
        }
        proof {
            assert(self@.nodes =~= add_edge_nodes(nodes0, node0, node1));
            if edges_wf(nodes0) {
                lemma_add_edge_wf(nodes0, node0, node1);
            }
            if inboxes_wf(nodes0) {
                assert forall|j: int, x: int|
                    0 <= j < self@.nodes.len() && 0 <= x
                        < self@.nodes[j].inbox.len() implies self@.nodes[j].connections.contains(
                    (#[trigger] self@.nodes[j].inbox[x]).0,
                ) by {
                    assert(self@.nodes[j].inbox == nodes0[j].inbox);
                    assert(nodes0[j].connections.contains(nodes0[j].inbox[x].0));
                    if j == node0 as int {
                        lemma_push_contains(nodes0[j].connections, node1, nodes0[j].inbox[x].0);
                    } else if j == node1 as int {
                        lemma_push_contains(nodes0[j].connections, node0, nodes0[j].inbox[x].0);
                    }
                }
            }
        }
        Ok(())
    }

    /// Whether node `node` is valid: it exists, has at least one edge, its
    /// degree matches any declared arity, and every neighbor exists and
    /// points back; see [`spec_node_valid`].
    pub fn is_valid_node(&self, node: NodeIndex) -> (r: bool)
        ensures
            r == spec_node_valid(self@.nodes, node as int),
    {
        if node >= self.nodes.len() {
            return false;
        }
        let n = &self.nodes[node];
        let cons = n.get_connections();
        if cons.is_empty() {
            return false;
        }
        match n.number_inputs() {
            Some(k) => {
                if cons.len() != k {
                    return false;
                }
            },
            None => {},
        }
        let len = self.nodes.len();
        let mut k: usize = 0;
        while k < cons.len()
            invariant
                cons@ == self@.nodes[node as int].connections,
                (node as int) < self@.nodes.len(),
                len == self@.nodes.len(),
                k <= cons@.len(),
                forall|x: int|
                    0 <= x < k ==> {
                        let j = #[trigger] cons@[x];
                        (j as int) < self@.nodes.len() && self@.nodes[j as int].connections.contains(
                            node,
                        )
                    },
            decreases cons@.len() - k,
        {
            let con = cons[k];
            if con >= len {
                return false;
            }
            if !crate::node::index_list_contains(self.nodes[con].get_connections(), node) {
                proof {
                    assert(!self@.nodes[cons@[k as int] as int].connections.contains(node));
                }
                return false;
            }
            k += 1;
        }
        true
    }

    /// Whether every node is valid; see [`spec_graph_valid`].
    pub fn is_valid(&self) -> (r: bool)
        ensures
            r == spec_graph_valid(self@.nodes),
    {
        let n = self.nodes.len();
        let mut i: usize = 0;
        while i < n
            invariant
                n == self@.nodes.len(),
                i <= n,
                forall|j: int| 0 <= j < i ==> spec_node_valid(self@.nodes, j),
            decreases n - i,
        {
            if !self.is_valid_node(i) {
                return false;
            }
            i += 1;
        }
        true
    }

    /// A snapshot of node `node_index`'s inbox. Fails with
    /// `IndexOutOfBounds` on a bad index.
    pub fn get_inbox(&self, node_index: NodeIndex) -> (r: BPResult<Vec<(usize, Message)>>)
        ensures
            r is Ok <==> (node_index as int) < self@.nodes.len(),
            r matches Ok(v) ==> posts(v@) == self@.nodes[node_index as int].inbox,
            r matches Err(e) ==> e.spec_kind() == ErrorKind::IndexOutOfBounds,
    {
        if node_index >= self.nodes.len() {
            return Err(
                BPError::with_kind(
                    ErrorKind::IndexOutOfBounds,
                    "BPGraph::get_inbox".to_owned(),
                    "the node index is out of bounds".to_owned(),
                ),
            );
        }
        Ok(self.nodes[node_index].clone_inbox())
    }

    /// The marginal at node `node_index`, exactly as [`Node::get_result`]
    /// computes it. Fails with `IndexOutOfBounds` on a bad index.
    pub fn get_result(&self, node_index: NodeIndex) -> (r: BPResult<Option<Message>>)
        ensures
            (node_index as int) >= self@.nodes.len() ==> (r matches Err(e) && e.spec_kind()
                == ErrorKind::IndexOutOfBounds),
            (node_index as int) < self@.nodes.len() ==> ({
                let b = self@.nodes[node_index as int].node_function;
                let ib = self@.nodes[node_index as int].inbox;
                if ib.len() == 0 {
                    match crate::node_function::behavior_prior(b) {
                        Some(p) => if crate::node::norm_ok(p) {
                            r matches Ok(Some(m)) && m@ == norm_seq(p)
                        } else {
                            r matches Err(e) && (e.spec_kind() == ErrorKind::NormalizationFailure
                                <==> p.len() == 0) && (e.spec_kind() == ErrorKind::Degenerate <==> (
                            p.len() > 0 && crate::msg::max_val(p) == 0))
                        },
                        None => r matches Ok(None::<Message>),
                    }
                } else if behavior_is_factor(b) {
                    r matches Ok(None::<Message>)
                } else {
                    let fold = match crate::node_function::behavior_prior(b) {
                        Some(p) => crate::node::marginal_fold(
                            crate::node::norm_total(p),
                            crate::node::inbox_msgs(ib),
                        ),
                        None => crate::node::marginal_fold(
                            ib[0].1,
                            crate::node::inbox_msgs(ib).skip(1),
                        ),
                    };
                    match fold {
                        Some(m) => r matches Ok(Some(res)) && res@ == m,
                        None => r matches Err(e) && (e.spec_kind()
                            == ErrorKind::NormalizationFailure || e.spec_kind()
                            == ErrorKind::Degenerate),
                    }
                }
            }),
    {
        if node_index >= self.nodes.len() {
            return Err(
                BPError::with_kind(
                    ErrorKind::IndexOutOfBounds,
                    "BPGraph::get_result".to_owned(),
                    "the node index is out of bounds".to_owned(),
                ),
            );
        }
        match self.nodes[node_index].get_result() {
            Ok(v) => Ok(v),
            Err(e) => Err(
                e.attach_info_str(
                    "BPGraph::get_result",
                    "failed to retrieve the result from the node".to_owned(),
                ),
            ),
        }
    }

    /// Resets the graph to its post-build state: every behavior returns to
    /// its pre-initialization state, inboxes are cleared, initialization
    /// flags dropped, and the step counter starts over. Neighbor lists,
    /// priors and behavior settings are build data and stay.
    pub fn reset(&mut self) -> (r: BPResult<()>)
        ensures
            r is Ok,
            final(self)@ == (GraphV {
                nodes: old(self)@.nodes.map_values(|n: NodeV| node_after_reset(n)),
                step: 0usize,
                ..old(self)@
            }),
            inboxes_wf(final(self)@.nodes),
    {
        let ghost nodes0 = self@.nodes;
        let n = self.nodes.len();
        let mut i: usize = 0;
        while i < n
            invariant
                nodes0 == old(self)@.nodes,
                n == self@.nodes.len(),
                n == nodes0.len(),
                i <= n,
                self@.step == old(self)@.step,
                self@.normalize == old(self)@.normalize,
                self@.check_validity == old(self)@.check_validity,
                forall|j: int|
                    0 <= j < i ==> #[trigger] self@.nodes[j] == (NodeV {
                        inbox: Seq::<(usize, Seq<(i64, u64)>)>::empty(),
                        node_function: behavior_after_reset(nodes0[j].node_function),
                        is_initialized: false,
                        ..nodes0[j]
                    }),
                forall|j: int| i <= j < n ==> #[trigger] self@.nodes[j] == nodes0[j],
            decreases n - i,
        {
            let ghost prev = self@.nodes;
            let ghost prev_elem = self.nodes@[i as int];
            proof {
                assert(prev_elem@ == prev[i as int]);
                assert(prev[i as int] == nodes0[i as int]);
            }
            let res = self.nodes[i].reset();
            proof {
                assert(res is Ok);
                assert(self.nodes@[i as int]@ == (NodeV {
                    inbox: Seq::<(usize, Seq<(i64, u64)>)>::empty(),
                    node_function: behavior_after_reset(prev_elem@.node_function),
                    is_initialized: false,
                    ..prev_elem@
                }));
                assert forall|j: int| 0 <= j < n && j != i implies #[trigger] self@.nodes[j]
                    == prev[j] by {
                    assert(self@.nodes[j] == self.nodes@[j]@);
                }
                assert(self@.nodes[i as int] == self.nodes@[i as int]@);
                assert(self@.nodes[i as int] == (NodeV {
                    inbox: Seq::<(usize, Seq<(i64, u64)>)>::empty(),
                    node_function: behavior_after_reset(nodes0[i as int].node_function),
                    is_initialized: false,
                    ..nodes0[i as int]
                }));
            }
            i += 1;
        }
        self.step = 0;
        proof {
            assert(self@.nodes =~= old(self)@.nodes.map_values(|n: NodeV| node_after_reset(n)));
        }
        Ok(())
    }
}


/// A node is ready to be initialized: its degree matches any declared arity.
pub open spec fn node_init_ok(n: NodeV) -> bool {
    match behavior_number_inputs(n.node_function) {
        Some(k) => n.connections.len() == k,
        None => true,
    }
}

/// A node's state after a reset: its post-build state. The name, the
/// neighbor list and the behavior's build data survive; the inbox, the
/// initialization flag and the behavior's runtime state do not.
pub open spec fn node_after_reset(n: NodeV) -> NodeV {
    NodeV {
        inbox: Seq::<(usize, Seq<(i64, u64)>)>::empty(),
        node_function: behavior_after_reset(n.node_function),
        is_initialized: false,
        ..n
    }
}

/// A node's state after graph-level initialization: already initialized
/// nodes are untouched, the rest are initialized with their neighbor list.
pub open spec fn node_after_g_init(n: NodeV) -> NodeV {
    if n.is_initialized {
        n
    } else {
        NodeV {
            node_function: behavior_after_init(n.node_function, n.connections),
            is_initialized: true,
            ..n
        }
    }
}

/// Everything of a node but its inbox: what phase B deposits never touch.
pub open spec fn same_shape(a: NodeV, b: NodeV) -> bool {
    &&& a.name == b.name
    &&& a.connections == b.connections
    &&& a.node_function == b.node_function
    &&& a.is_initialized == b.is_initialized
}

/// Phase B deposits only push onto inboxes: every node keeps its shape.
proof fn lemma_send_list_shape(
    nodes: Seq<NodeV>,
    from: usize,
    list: Seq<(usize, Seq<(i64, u64)>)>,
    normalize: bool,
    check_validity: bool,
)
    requires
        send_list(nodes, from, list, normalize, check_validity) is Some,
    ensures
        ({
            let r = send_list(nodes, from, list, normalize, check_validity)->Some_0;
            r.len() == nodes.len() && (forall|j: int|
                0 <= j < nodes.len() ==> same_shape(nodes[j], #[trigger] r[j]))
        }),
    decreases list.len(),
{
    if list.len() > 0 {
        lemma_send_list_shape(
            deposit(nodes, from, list[0].0, list[0].1, normalize),
            from,
            list.skip(1),
            normalize,
            check_validity,
        );
    }
}

/// Phase B keeps every node's shape, over all batches.
proof fn lemma_send_all_shape(
    nodes: Seq<NodeV>,
    msgs: Seq<(usize, Seq<(usize, Seq<(i64, u64)>)>)>,
    normalize: bool,
    check_validity: bool,
)
    requires
        send_all(nodes, msgs, normalize, check_validity) is Some,
    ensures
        ({
            let r = send_all(nodes, msgs, normalize, check_validity)->Some_0;
            r.len() == nodes.len() && (forall|j: int|
                0 <= j < nodes.len() ==> same_shape(nodes[j], #[trigger] r[j]))
        }),
    decreases msgs.len(),
{
    if msgs.len() > 0 {
        let n2 = send_list(nodes, msgs[0].0, msgs[0].1, normalize, check_validity)->Some_0;
        lemma_send_list_shape(nodes, msgs[0].0, msgs[0].1, normalize, check_validity);
        lemma_send_all_shape(n2, msgs.skip(1), normalize, check_validity);
    }
}

impl BPGraph {
    /// Initializes every node that has not been initialized yet, in index
    /// order, stopping at the first node whose declared arity disagrees with
    /// its degree.
    pub fn initialize(&mut self) -> (r: BPResult<()>)
        ensures
            r is Ok <==> (forall|i: int|
                0 <= i < old(self)@.nodes.len() ==> ((#[trigger] old(self)@.nodes[i]).is_initialized
                    || node_init_ok(old(self)@.nodes[i]))),
            r is Ok ==> final(self)@ == (GraphV {
                nodes: old(self)@.nodes.map_values(|n: NodeV| node_after_g_init(n)),
                ..old(self)@
            }),
            r is Ok && init_wf(old(self)@.nodes) ==> init_wf(final(self)@.nodes)
                && vars_initialized(final(self)@.nodes) && (forall|i: int|
                0 <= i < final(self)@.nodes.len()
                    ==> (#[trigger] final(self)@.nodes[i]).is_initialized),
            r matches Err(e) ==> e.spec_kind() == ErrorKind::ArityMismatch,
            final(self)@.nodes.len() == old(self)@.nodes.len(),
            final(self)@.step == old(self)@.step,
            final(self)@.normalize == old(self)@.normalize,
            final(self)@.check_validity == old(self)@.check_validity,
            forall|j: int|
                0 <= j < old(self)@.nodes.len() ==> (#[trigger] final(self)@.nodes[j]
                    == old(self)@.nodes[j] || final(self)@.nodes[j] == node_after_g_init(
                    old(self)@.nodes[j],
                )),
            inboxes_wf(old(self)@.nodes) ==> inboxes_wf(final(self)@.nodes),
    {
        let ghost nodes0 = self@.nodes;
        let n = self.nodes.len();
        let mut i: usize = 0;
        while i < n
            invariant
                nodes0 == old(self)@.nodes,
                n == self@.nodes.len(),
                n == nodes0.len(),
                i <= n,
                self@.step == old(self)@.step,
                self@.normalize == old(self)@.normalize,
                self@.check_validity == old(self)@.check_validity,
                forall|j: int| 0 <= j < i ==> #[trigger] self@.nodes[j] == node_after_g_init(nodes0[j]),
                forall|j: int|
                    0 <= j < i ==> ((#[trigger] nodes0[j]).is_initialized || node_init_ok(
                        nodes0[j],
                    )),
                forall|j: int| i <= j < n ==> #[trigger] self@.nodes[j] == nodes0[j],
            decreases n - i,
        {
            let ghost prev = self@.nodes;
            let ghost prev_elem = self.nodes@[i as int];
            proof {
                assert(prev_elem@ == prev[i as int]);
            }
            if !self.nodes[i].is_initialized() {
                let res = self.nodes[i].initialize();
                proof {
                    assert forall|j: int| 0 <= j < n && j != i implies #[trigger] self@.nodes[j]
                        == prev[j] by {
                        assert(self@.nodes[j] == self.nodes@[j]@);
                    }
                    assert(self@.nodes[i as int] == self.nodes@[i as int]@);
                }
                match res {
                    Ok(()) => {
                        proof {
                            assert(self@.nodes[i as int] == node_after_g_init(nodes0[i as int]));
                        }
                    },
                    Err(e) => {
                        proof {
                            assert(!node_init_ok(nodes0[i as int]));
                        }
                        return Err(e);
                    },
                }
            }
            i += 1;
        }
        proof {
            assert(self@.nodes =~= nodes0.map_values(|nn: NodeV| node_after_g_init(nn)));
            if init_wf(nodes0) {
                assert forall|j: int|
                    0 <= j < self@.nodes.len() && (#[trigger] self@.nodes[j]).is_initialized implies behavior_matches(
                    self@.nodes[j],
                ) by {
                    assert(self@.nodes[j] == node_after_g_init(nodes0[j]));
                }
                assert forall|j: int|
                    0 <= j < self@.nodes.len() && (#[trigger] self@.nodes[j]).node_function is Variable implies behavior_initialized(
                    self@.nodes[j].node_function,
                ) by {
                    assert(self@.nodes[j] == node_after_g_init(nodes0[j]));
                }
            }
        }
        Ok(())
    }

    /// Initializes node `node_index`, optionally first sending the given
    /// `(destination, message)` seeds from it through phase B; a seed that
    /// cannot be delivered fails the call and the delivery error propagates.
    /// Succeeds exactly when every seed is deliverable, the index is in
    /// bounds, the node is not yet initialized, and its declared arity
    /// matches its degree.
    pub fn initialize_node(
        &mut self,
        node_index: NodeIndex,
        msgs: Option<Vec<(usize, Message)>>,
    ) -> (r: BPResult<()>)
        ensures
            ({
                let delivered = match msgs {
                    Some(m) => send_all(
                        old(self)@.nodes,
                        seq![(node_index, posts(m@))],
                        old(self)@.normalize,
                        old(self)@.check_validity,
                    ),
                    None => Some(old(self)@.nodes),
                };
                &&& (r is Ok <==> (delivered is Some && (node_index as int) < old(
                    self,
                )@.nodes.len() && !old(self)@.nodes[node_index as int].is_initialized
                    && node_init_ok(old(self)@.nodes[node_index as int])))
                &&& (r is Ok ==> final(self)@ == (GraphV {
                    nodes: delivered->Some_0.update(
                        node_index as int,
                        node_after_g_init(delivered->Some_0[node_index as int]),
                    ),
                    ..old(self)@
                }))
                &&& ((delivered is Some && r is Err) ==> final(self)@ == (GraphV {
                    nodes: delivered->Some_0,
                    ..old(self)@
                }))
                &&& (delivered is Some ==> (r matches Err(e) ==> (e.spec_kind()
                    == ErrorKind::IndexOutOfBounds <==> (node_index as int) >= old(
                    self,
                )@.nodes.len())))
                &&& (delivered is None ==> (r matches Err(e) && (e.spec_kind()
                    == ErrorKind::InvalidMessage || e.spec_kind() == ErrorKind::NormalizationFailure
                    || e.spec_kind() == ErrorKind::Degenerate || e.spec_kind()
                    == ErrorKind::IndexOutOfBounds || e.spec_kind() == ErrorKind::MissingEdge)))
            }),
            final(self)@.nodes.len() == old(self)@.nodes.len(),
            final(self)@.step == old(self)@.step,
            final(self)@.normalize == old(self)@.normalize,
            final(self)@.check_validity == old(self)@.check_validity,
            forall|j: int|
                0 <= j < old(self)@.nodes.len() ==> same_shape(
                    #[trigger] final(self)@.nodes[j],
                    if j == node_index as int && r is Ok {
                        node_after_g_init(old(self)@.nodes[j])
                    } else {
                        old(self)@.nodes[j]
                    },
                ),
            inboxes_wf(old(self)@.nodes) ==> inboxes_wf(final(self)@.nodes),
    {
        let ghost nodes0 = old(self)@.nodes;
        match msgs {
            Some(m) => {
                let ghost mv = posts(m@);
                let mut batch: Vec<(usize, Vec<(usize, Message)>)> = Vec::new();
                batch.push((node_index, m));
                proof {
                    assert(batches(batch@) =~= seq![(node_index, mv)]);
                }
                match self.send(batch) {
                    Ok(()) => {},
                    Err(e) => {
                        return Err(
                            e.attach_info_str(
                                "BPGraph::initialize_node",
                                "failed to deliver the seed messages".to_owned(),
                            ),
                        );
                    },
                }
            },
            None => {},
        }
        if node_index >= self.nodes.len() {
            return Err(
                BPError::with_kind(
                    ErrorKind::IndexOutOfBounds,
                    "BPGraph::initialize_node".to_owned(),
                    "the node index is out of bounds".to_owned(),
                ),
            );
        }
        let ghost prev = self@.nodes;
        let ghost prev_elem = self.nodes@[node_index as int];
        proof {
            assert(prev_elem@ == prev[node_index as int]);
            assert(same_shape(nodes0[node_index as int], prev[node_index as int]));
        }
        let res = self.nodes[node_index].initialize();
        proof {
            assert forall|j: int|
                0 <= j < self@.nodes.len() && j != node_index as int implies #[trigger] self@.nodes[j]
                == prev[j] by {
                assert(self@.nodes[j] == self.nodes@[j]@);
            }
            assert(self@.nodes[node_index as int] == self.nodes@[node_index as int]@);
            if res is Ok {
                assert(self@.nodes =~= prev.update(
                    node_index as int,
                    node_after_g_init(prev[node_index as int]),
                ));
            } else {
                assert(self@.nodes =~= prev);
            }
            if inboxes_wf(prev) {
                assert forall|j: int, x: int|
                    0 <= j < self@.nodes.len() && 0 <= x
                        < self@.nodes[j].inbox.len() implies self@.nodes[j].connections.contains(
                    (#[trigger] self@.nodes[j].inbox[x]).0,
                ) by {
                    assert(self@.nodes[j].inbox == prev[j].inbox);
                    assert(self@.nodes[j].connections == prev[j].connections);
                    assert(prev[j].connections.contains(prev[j].inbox[x].0));
                }
            }
        }
        res
    }

    /// Seeds node `node_index`'s own inbox with `msg` once per neighbor, as
    /// if every neighbor had sent it, and then initializes the node. The
    /// seeds are deposited directly: phase B's normalization does not apply.
    pub fn initialize_node_constant_msg(&mut self, node_index: NodeIndex, msg: Message) -> (r:
        BPResult<()>)
        ensures
            r is Ok <==> ((node_index as int) < old(self)@.nodes.len()
                && !old(self)@.nodes[node_index as int].is_initialized && node_init_ok(
                old(self)@.nodes[node_index as int],
            )),
            r is Ok ==> final(self)@ == (GraphV {
                nodes: old(self)@.nodes.update(
                    node_index as int,
                    NodeV {
                        inbox: old(self)@.nodes[node_index as int].inbox + old(
                            self,
                        )@.nodes[node_index as int].connections.map_values(|c: usize| (c, msg@)),
                        ..node_after_g_init(old(self)@.nodes[node_index as int])
                    },
                ),
                ..old(self)@
            }),
            r matches Err(e) ==> (e.spec_kind() == ErrorKind::IndexOutOfBounds <==> (
            node_index as int) >= old(self)@.nodes.len()),
            inboxes_wf(old(self)@.nodes) ==> inboxes_wf(final(self)@.nodes),
    {
        if node_index >= self.nodes.len() {
            return Err(
                BPError::with_kind(
                    ErrorKind::IndexOutOfBounds,
                    "BPGraph::initialize_node_constant_msg".to_owned(),
                    "the node index is out of bounds".to_owned(),
                ),
            );
        }
        let ghost nodes0 = self@.nodes;
        let ghost orig = nodes0[node_index as int];
        let deg = self.nodes[node_index].get_connections().len();
        let mut k: usize = 0;
        while k < deg
            invariant
                nodes0 == old(self)@.nodes,
                (node_index as int) < nodes0.len(),
                orig == nodes0[node_index as int],
                self@.nodes.len() == nodes0.len(),
                deg == orig.connections.len(),
                k <= deg,
                self@.step == old(self)@.step,
                self@.normalize == old(self)@.normalize,
                self@.check_validity == old(self)@.check_validity,
                forall|j: int|
                    0 <= j < nodes0.len() && j != node_index as int ==> #[trigger] self@.nodes[j]
                        == nodes0[j],
                self@.nodes[node_index as int] == (NodeV {
                    inbox: orig.inbox + orig.connections.take(k as int).map_values(
                        |c: usize| (c, msg@),
                    ),
                    ..orig
                }),
            decreases deg - k,
        {
            let c = self.nodes[node_index].get_connections()[k];
            let ghost prev = self@.nodes;
            let seeded = msg.clone();
            self.nodes[node_index].send_post(c, seeded);
            proof {
                assert forall|j: int|
                    0 <= j < nodes0.len() && j != node_index as int implies #[trigger] self@.nodes[j]
                    == prev[j] by {
                    assert(self@.nodes[j] == self.nodes@[j]@);
                }
                assert(self@.nodes[node_index as int] == self.nodes@[node_index as int]@);
                assert(orig.connections.take(k + 1 as int).map_values(|c: usize| (c, msg@))
                    =~= orig.connections.take(k as int).map_values(|c: usize| (c, msg@)).push(
                    (orig.connections[k as int], msg@),
                ));
                assert(orig.inbox + orig.connections.take(k + 1 as int).map_values(
                    |c: usize| (c, msg@),
                ) =~= (orig.inbox + orig.connections.take(k as int).map_values(
                    |c: usize| (c, msg@),
                )).push((orig.connections[k as int], msg@)));
            }
            k += 1;
        }
        let ghost prev = self@.nodes;
        let ghost prev_elem = self.nodes@[node_index as int];
        proof {
            assert(prev_elem@ == prev[node_index as int]);
            assert(orig.connections.take(deg as int) =~= orig.connections);
        }
        let res = self.nodes[node_index].initialize();
        proof {
            assert forall|j: int|
                0 <= j < self@.nodes.len() && j != node_index as int implies #[trigger] self@.nodes[j]
                == prev[j] by {
                assert(self@.nodes[j] == self.nodes@[j]@);
            }
            assert(self@.nodes[node_index as int] == self.nodes@[node_index as int]@);
            if res is Ok {
                assert(self@.nodes =~= old(self)@.nodes.update(
                    node_index as int,
                    NodeV {
                        inbox: orig.inbox + orig.connections.map_values(|c: usize| (c, msg@)),
                        ..node_after_g_init(orig)
                    },
                ));
            }
            if inboxes_wf(old(self)@.nodes) {
                assert forall|j: int, x: int|
                    0 <= j < self@.nodes.len() && 0 <= x
                        < self@.nodes[j].inbox.len() implies self@.nodes[j].connections.contains(
                    (#[trigger] self@.nodes[j].inbox[x]).0,
                ) by {
                    if j == node_index as int {
                        assert(self@.nodes[j].connections == orig.connections);
                        assert(self@.nodes[j].inbox == orig.inbox + orig.connections.map_values(
                            |c: usize| (c, msg@),
                        ));
                        if x < orig.inbox.len() {
                            assert(self@.nodes[j].inbox[x] == orig.inbox[x]);
                            assert(orig.connections.contains(orig.inbox[x].0));
                        } else {
                            let xc = x - orig.inbox.len();
                            assert(self@.nodes[j].inbox[x] == (orig.connections[xc], msg@));
                            assert(orig.connections.contains(orig.connections[xc]));
                        }
                    } else {
                        assert(self@.nodes[j] == old(self)@.nodes[j]);
                        assert(old(self)@.nodes[j].connections.contains(
                            old(self)@.nodes[j].inbox[x].0,
                        ));
                    }
                }
            }
        }
        res
    }
}


impl BPGraph {
    /// Phase B: validates, normalizes and deposits every message, batch by
    /// batch, in order; see [`send_all`]. On failure the messages already
    /// deposited stay (callers reset before reuse), but every node keeps its
    /// shape.
    fn send(&mut self, msgs: Vec<(usize, Vec<(usize, Message)>)>) -> (r: BPResult<()>)
        ensures
            r is Ok <==> send_all(
                old(self)@.nodes,
                batches(msgs@),
                old(self)@.normalize,
                old(self)@.check_validity,
            ) is Some,
            r is Ok ==> final(self)@ == (GraphV {
                nodes: send_all(
                    old(self)@.nodes,
                    batches(msgs@),
                    old(self)@.normalize,
                    old(self)@.check_validity,
                )->Some_0,
                ..old(self)@
            }),
            final(self)@.nodes.len() == old(self)@.nodes.len(),
            final(self)@.step == old(self)@.step,
            final(self)@.normalize == old(self)@.normalize,
            final(self)@.check_validity == old(self)@.check_validity,
            forall|j: int|
                0 <= j < old(self)@.nodes.len() ==> same_shape(
                    #[trigger] old(self)@.nodes[j],
                    final(self)@.nodes[j],
                ),
            forall|j: int|
                0 <= j < old(self)@.nodes.len() ==> (#[trigger] final(self)@.nodes[j]).inbox.len()
                    >= old(self)@.nodes[j].inbox.len() && final(self)@.nodes[j].inbox.take(
                    old(self)@.nodes[j].inbox.len() as int,
                ) == old(self)@.nodes[j].inbox,
            inboxes_wf(old(self)@.nodes) ==> inboxes_wf(final(self)@.nodes),
            r matches Err(e) ==> (e.spec_kind() == ErrorKind::InvalidMessage || e.spec_kind()
                == ErrorKind::NormalizationFailure || e.spec_kind() == ErrorKind::Degenerate
                || e.spec_kind() == ErrorKind::IndexOutOfBounds || e.spec_kind()
                == ErrorKind::MissingEdge),
    {
        let ghost nodes0 = self@.nodes;
        let ghost bs = batches(msgs@);
        let normalize = self.normalize;
        let check_validity = self.check_validity;
        let n = msgs.len();
        let mut i: usize = 0;
        proof {
            assert(bs.skip(0) =~= bs);
        }
        while i < n
            invariant
                nodes0 == old(self)@.nodes,
                bs == batches(msgs@),
                n == msgs@.len(),
                i <= n,
                normalize == old(self)@.normalize,
                check_validity == old(self)@.check_validity,
                self@.step == old(self)@.step,
                self@.normalize == old(self)@.normalize,
                self@.check_validity == old(self)@.check_validity,
                self@.nodes.len() == nodes0.len(),
                forall|j: int|
                    0 <= j < nodes0.len() ==> same_shape(
                        #[trigger] nodes0[j],
                        self@.nodes[j],
                    ),
                forall|j: int|
                    0 <= j < nodes0.len() ==> (#[trigger] self@.nodes[j]).inbox.len()
                        >= nodes0[j].inbox.len() && self@.nodes[j].inbox.take(
                        nodes0[j].inbox.len() as int,
                    ) == nodes0[j].inbox,
                inboxes_wf(nodes0) ==> inboxes_wf(self@.nodes),
                send_all(nodes0, bs, normalize, check_validity) == send_all(
                    self@.nodes,
                    bs.skip(i as int),
                    normalize,
                    check_validity,
                ),
            decreases n - i,
        {
            proof {
                assert(bs.skip(i as int)[0] == bs[i as int]);
                assert(bs.skip(i as int).skip(1) =~= bs.skip(i + 1 as int));
            }
            let from = msgs[i].0;
            let ghost list = bs[i as int].1;
            let m_count = msgs[i].1.len();
            let mut k: usize = 0;
            proof {
                assert(list.skip(0) =~= list);
                assert(list == posts(msgs@[i as int].1@));
            }
            while k < m_count
                invariant
                    nodes0 == old(self)@.nodes,
                    bs == batches(msgs@),
                    n == msgs@.len(),
                    i < n,
                    from == bs[i as int].0,
                    list == bs[i as int].1,
                    m_count == list.len(),
                    k <= m_count,
                    normalize == old(self)@.normalize,
                    check_validity == old(self)@.check_validity,
                    self@.step == old(self)@.step,
                    self@.normalize == old(self)@.normalize,
                    self@.check_validity == old(self)@.check_validity,
                    self@.nodes.len() == nodes0.len(),
                    forall|j: int|
                        0 <= j < nodes0.len() ==> same_shape(
                            #[trigger] nodes0[j],
                            self@.nodes[j],
                        ),
                    forall|j: int|
                        0 <= j < nodes0.len() ==> (#[trigger] self@.nodes[j]).inbox.len()
                            >= nodes0[j].inbox.len() && self@.nodes[j].inbox.take(
                            nodes0[j].inbox.len() as int,
                        ) == nodes0[j].inbox,
                    inboxes_wf(nodes0) ==> inboxes_wf(self@.nodes),
                    send_all(nodes0, bs, normalize, check_validity) == (match send_list(
                        self@.nodes,
                        from,
                        list.skip(k as int),
                        normalize,
                        check_validity,
                    ) {
                        Option::None => Option::<Seq<NodeV>>::None,
                        Option::Some(n2) => send_all(
                            n2,
                            bs.skip(i + 1 as int),
                            normalize,
                            check_validity,
                        ),
                    }),
                decreases m_count - k,
            {
                proof {
                    assert(list.skip(k as int)[0] == list[k as int]);
                    assert(list.skip(k as int).skip(1) =~= list.skip(k + 1 as int));
                }
                let to = msgs[i].1[k].0;
                let mut m = msgs[i].1[k].1.clone();
                let ghost m0 = m@;
                proof {
                    assert((to, m0) == list[k as int]);
                }
                if check_validity && !m.is_valid() {
                    return Err(
                        BPError::with_kind(
                            ErrorKind::InvalidMessage,
                            "BPGraph::send".to_owned(),
                            "trying to send an invalid message".to_owned(),
                        ),
                    );
                }
                if normalize {
                    match m.normalize() {
                        Ok(()) => {},
                        Err(e) => {
                            return Err(
                                e.attach_info_str(
                                    "BPGraph::send",
                                    "trying to normalize a message".to_owned(),
                                ),
                            );
                        },
                    }
                }
                if to >= self.nodes.len() {
                    return Err(
                        BPError::with_kind(
                            ErrorKind::IndexOutOfBounds,
                            "BPGraph::send".to_owned(),
                            "the destination index is out of bounds".to_owned(),
                        ),
                    );
                }
                if !crate::node::index_list_contains(self.nodes[to].get_connections(), from) {
                    return Err(
                        BPError::with_kind(
                            ErrorKind::MissingEdge,
                            "BPGraph::send".to_owned(),
                            "trying to send a message along a missing edge".to_owned(),
                        ),
                    );
                }
                let ghost prev = self@.nodes;
                self.nodes[to].send_post(from, m);
                proof {
                    assert forall|j: int|
                        0 <= j < nodes0.len() && j != to as int implies #[trigger] self@.nodes[j]
                        == prev[j] by {
                        assert(self@.nodes[j] == self.nodes@[j]@);
                    }
                    assert(self@.nodes[to as int] == self.nodes@[to as int]@);
                    assert(deposit_ok(prev, from, to, m0, normalize, check_validity));
                    assert(self@.nodes =~= deposit(prev, from, to, m0, normalize));
                    assert(self@.nodes[to as int].inbox.take(nodes0[to as int].inbox.len() as int)
                        =~= prev[to as int].inbox.take(nodes0[to as int].inbox.len() as int));
                    if inboxes_wf(nodes0) {
                        assert forall|j: int, x: int|
                            0 <= j < self@.nodes.len() && 0 <= x
                                < self@.nodes[j].inbox.len() implies self@.nodes[j].connections.contains(
                            (#[trigger] self@.nodes[j].inbox[x]).0,
                        ) by {
                            if j == to as int && x == prev[to as int].inbox.len() {
                                assert(self@.nodes[j].inbox[x].0 == from);
                            } else if j == to as int {
                                assert(self@.nodes[j].inbox[x] == prev[j].inbox[x]);
                                assert(prev[j].connections.contains(prev[j].inbox[x].0));
                            } else {
                                assert(self@.nodes[j] == prev[j]);
                                assert(prev[j].connections.contains(prev[j].inbox[x].0));
                            }
                        }
                    }
                }
                k += 1;
            }
            proof {
                assert(list.skip(m_count as int) =~= Seq::<(usize, Seq<(i64, u64)>)>::empty());
            }
            i += 1;
        }
        proof {
            assert(bs.skip(n as int) =~= Seq::<(usize, Seq<(usize, Seq<(i64, u64)>)>)>::empty());
        }
        Ok(())
    }

    /// Phase A: asks every ready node, in index order, for its outbound
    /// messages; see [`phase_a_out_from`]. No inbox is written; the ready
    /// nodes are drained.
    fn create_messages(&mut self) -> (r: BPResult<Vec<(usize, Vec<(usize, Message)>)>>)
        requires
            vars_initialized(old(self)@.nodes),
        ensures
            r is Ok <==> phase_a_ok(old(self)@.nodes),
            r matches Ok(v) ==> batches(v@) == phase_a_out_from(old(self)@.nodes, 0)
                && final(self)@ == (GraphV { nodes: phase_a_nodes(old(self)@.nodes), ..old(self)@ }),
            final(self)@.nodes.len() == old(self)@.nodes.len(),
            final(self)@.step == old(self)@.step,
            final(self)@.normalize == old(self)@.normalize,
            final(self)@.check_validity == old(self)@.check_validity,
            forall|j: int|
                0 <= j < old(self)@.nodes.len() ==> (#[trigger] final(self)@.nodes[j]
                    == old(self)@.nodes[j] || final(self)@.nodes[j] == node_after_a(
                    old(self)@.nodes[j],
                )),
            vars_initialized(final(self)@.nodes),
            inboxes_wf(old(self)@.nodes) ==> inboxes_wf(final(self)@.nodes),
            r matches Err(e) ==> (e.spec_kind() == ErrorKind::EmptyInbox || e.spec_kind()
                == ErrorKind::BehaviorError),
            r matches Err(e) ==> e.sites().len() > 0 && e.sites().last()
                == "BPGraph::create_messages"@ && e.causes().last()
                == "a node failed to create its messages"@,
    {
        let ghost nodes0 = self@.nodes;
        let step = self.step;
        let mut res: Vec<(usize, Vec<(usize, Message)>)> = Vec::new();
        let n = self.nodes.len();
        let mut i: usize = 0;
        while i < n
            invariant
                nodes0 == old(self)@.nodes,
                vars_initialized(nodes0),
                n == self@.nodes.len(),
                n == nodes0.len(),
                i <= n,
                self@.step == old(self)@.step,
                self@.normalize == old(self)@.normalize,
                self@.check_validity == old(self)@.check_validity,
                forall|j: int| 0 <= j < i ==> #[trigger] self@.nodes[j] == node_after_a(nodes0[j]),
                forall|j: int|
                    0 <= j < i && node_ready(#[trigger] nodes0[j]) ==> behavior_outbox_ok(
                        nodes0[j].node_function,
                        nodes0[j].inbox,
                    ),
                forall|j: int| i <= j < n ==> #[trigger] self@.nodes[j] == nodes0[j],
                batches(res@) + phase_a_out_from(nodes0, i as int) == phase_a_out_from(nodes0, 0),
            decreases n - i,
        {
            proof {
                assert(self.nodes@[i as int]@ == self@.nodes[i as int]);
                assert(self@.nodes[i as int] == nodes0[i as int]);
            }
            let ready = match self.nodes[i].is_ready(step) {
                Ok(b) => b,
                Err(e) => {
                    return Err(e);
                },
            };
            if ready {
                let ghost prev = self@.nodes;
                let ghost prev_elem = self.nodes@[i as int];
                proof {
                    assert(prev_elem@ == prev[i as int]);
                    assert(prev[i as int] == nodes0[i as int]);
                }
                match self.nodes[i].create_messages() {
                    Ok(out) => {
                        proof {
                            assert forall|j: int|
                                0 <= j < n && j != i implies #[trigger] self@.nodes[j]
                                == prev[j] by {
                                assert(self@.nodes[j] == self.nodes@[j]@);
                            }
                            assert(self@.nodes[i as int] == self.nodes@[i as int]@);
                            assert(self@.nodes[i as int] == node_after_a(nodes0[i as int]));
                        }
                        let ghost before = batches(res@);
                        res.push((i, out));
                        proof {
                            assert(batches(res@) =~= before.push(
                                (
                                    i,
                                    behavior_outbox(
                                        nodes0[i as int].node_function,
                                        nodes0[i as int].inbox,
                                    ),
                                ),
                            ));
                            assert(phase_a_out_from(nodes0, i as int) == seq![
                                (
                                    i,
                                    behavior_outbox(
                                        nodes0[i as int].node_function,
                                        nodes0[i as int].inbox,
                                    ),
                                ),
                            ] + phase_a_out_from(nodes0, i + 1 as int));
                            assert(batches(res@) + phase_a_out_from(nodes0, i + 1 as int)
                                =~= before + phase_a_out_from(nodes0, i as int));
                        }
                    },
                    Err(e) => {
                        proof {
                            assert forall|j: int|
                                0 <= j < n && j != i implies #[trigger] self@.nodes[j]
                                == prev[j] by {
                                assert(self@.nodes[j] == self.nodes@[j]@);
                            }
                            assert(self@.nodes[i as int] == self.nodes@[i as int]@);
                            assert(self@.nodes[i as int] == node_after_a(nodes0[i as int]));
                            assert(!behavior_outbox_ok(
                                nodes0[i as int].node_function,
                                nodes0[i as int].inbox,
                            ));
                            assert(!phase_a_ok(nodes0));
                            assert forall|j: int|
                                0 <= j < n
                                    && (#[trigger] self@.nodes[j]).node_function is Variable implies behavior_initialized(
                                self@.nodes[j].node_function,
                            ) by {
                                if j < i || j == i {
                                    assert(self@.nodes[j] == node_after_a(nodes0[j]) || self@.nodes[j]
                                        == nodes0[j]);
                                }
                            }
                        }
                        let enriched = e.attach_info_str(
                            "BPGraph::create_messages",
                            "a node failed to create its messages".to_owned(),
                        );
                        let enriched = enriched.attach_debug_object("node index", &i);
                        let enriched = enriched.attach_debug_object(
                            "node name",
                            self.nodes[i].get_name(),
                        );
                        return Err(enriched);
                    },
                }
            } else {
                proof {
                    assert(node_after_a(nodes0[i as int]) == nodes0[i as int]);
                }
            }
            i += 1;
        }
        proof {
            assert(phase_a_out_from(nodes0, n as int)
                =~= Seq::<(usize, Seq<(usize, Seq<(i64, u64)>)>)>::empty());
            assert(batches(res@) + phase_a_out_from(nodes0, n as int) =~= batches(res@));
            assert(self@.nodes =~= phase_a_nodes(nodes0));
            assert(phase_a_ok(nodes0));
            assert forall|j: int|
                0 <= j < n && (#[trigger] self@.nodes[j]).node_function is Variable implies behavior_initialized(
                self@.nodes[j].node_function,
            ) by {
                assert(self@.nodes[j] == node_after_a(nodes0[j]));
            }
        }
        Ok(res)
    }

    /// Runs one synchronous step: the validity gate (when `check_validity`
    /// is on), phase A, phase B, and the step counter; see [`spec_step`].
    /// A step counter at its machine limit fails with `StepLimit` before
    /// anything runs. On failure the step counter is unchanged and the
    /// graph is safe but possibly partially stepped: reset before reuse.
    pub fn propagate_step(&mut self) -> (r: BPResult<()>)
        requires
            vars_initialized(old(self)@.nodes),
        ensures
            r is Ok <==> (spec_step_ok(old(self)@) && old(self)@.step < usize::MAX),
            r is Ok ==> final(self)@ == spec_step(old(self)@),
            old(self)@.check_validity && !spec_graph_valid(old(self)@.nodes) ==> final(self)@
                == old(self)@,
            final(self)@.nodes.len() == old(self)@.nodes.len(),
            final(self)@.normalize == old(self)@.normalize,
            final(self)@.check_validity == old(self)@.check_validity,
            r is Err ==> final(self)@.step == old(self)@.step,
            vars_initialized(final(self)@.nodes),
            init_wf(old(self)@.nodes) ==> init_wf(final(self)@.nodes),
            inboxes_wf(old(self)@.nodes) ==> inboxes_wf(final(self)@.nodes),
    {
        if self.check_validity && !self.is_valid() {
            return Err(
                BPError::with_kind(
                    ErrorKind::InvalidGraph,
                    "BPGraph::propagate_step".to_owned(),
                    "the graph is invalid".to_owned(),
                ),
            );
        }
        if self.step == usize::MAX {
            return Err(
                BPError::with_kind(
                    ErrorKind::StepLimit,
                    "BPGraph::propagate_step".to_owned(),
                    "the step counter reached its limit".to_owned(),
                ),
            );
        }
        let ghost g0 = old(self)@;
        let outgoing_msgs = match self.create_messages() {
            Ok(m) => m,
            Err(e) => {
                proof {
                    lemma_after_a_keeps_wf(g0.nodes);
                }
                return Err(e);
            },
        };
        let ghost mid = self@;
        match self.send(outgoing_msgs) {
            Ok(()) => {},
            Err(e) => {
                proof {
                    lemma_after_a_keeps_wf(g0.nodes);
                    assert forall|j: int|
                        0 <= j < self@.nodes.len() && (#[trigger] self@.nodes[j]).node_function is Variable implies behavior_initialized(
                        self@.nodes[j].node_function,
                    ) by {
                        assert(same_shape(mid.nodes[j], self@.nodes[j]));
                    }
                    assert forall|j: int|
                        0 <= j < self@.nodes.len()
                            && (#[trigger] self@.nodes[j]).is_initialized implies init_wf(g0.nodes)
                        ==> behavior_matches(self@.nodes[j]) by {
                        assert(same_shape(mid.nodes[j], self@.nodes[j]));
                    }
                }
                return Err(e);
            },
        }
        self.step = self.step + 1;
        proof {
            lemma_after_a_keeps_wf(g0.nodes);
            assert forall|j: int|
                0 <= j < self@.nodes.len() && (#[trigger] self@.nodes[j]).node_function is Variable implies behavior_initialized(
                self@.nodes[j].node_function,
            ) by {
                assert(same_shape(mid.nodes[j], self@.nodes[j]));
            }
            assert forall|j: int|
                0 <= j < self@.nodes.len() && (#[trigger] self@.nodes[j]).is_initialized implies init_wf(
                g0.nodes,
            ) ==> behavior_matches(self@.nodes[j]) by {
                assert(same_shape(mid.nodes[j], self@.nodes[j]));
            }
        }
        Ok(())
    }
}

/// Phase A keeps variables initialized and initialized behaviors matching
/// their neighbor lists.
proof fn lemma_after_a_keeps_wf(nodes: Seq<NodeV>)
    ensures
        vars_initialized(nodes) ==> vars_initialized(phase_a_nodes(nodes)),
        init_wf(nodes) ==> init_wf(phase_a_nodes(nodes)),
{
    let r = phase_a_nodes(nodes);
    if vars_initialized(nodes) {
        assert forall|i: int|
            0 <= i < r.len() && (#[trigger] r[i]).node_function is Variable implies behavior_initialized(
            r[i].node_function,
        ) by {
            assert(r[i] == node_after_a(nodes[i]));
        }
    }
    if init_wf(nodes) {
        assert forall|i: int|
            0 <= i < r.len() && (#[trigger] r[i]).is_initialized implies behavior_matches(r[i]) by {
            assert(r[i] == node_after_a(nodes[i]));
        }
    }
}


/// Every node of the graph is initialized.
pub open spec fn all_initialized(nodes: Seq<NodeV>) -> bool {
    forall|i: int| 0 <= i < nodes.len() ==> (#[trigger] nodes[i]).is_initialized
}

impl BPGraph {
    /// Runs `steps` synchronous steps; see [`run_steps`]. Fails with
    /// `NotInitialized` before doing anything when some node has not been
    /// initialized; a failing step aborts the run with the graph safe but
    /// partially stepped.
    pub fn propagate(&mut self, steps: usize) -> (r: BPResult<()>)
        requires
            init_wf(old(self)@.nodes),
        ensures
            r is Ok <==> (all_initialized(old(self)@.nodes) && run_steps(
                old(self)@,
                steps as nat,
            ) is Some),
            r is Ok ==> final(self)@ == run_steps(old(self)@, steps as nat)->Some_0,
            !all_initialized(old(self)@.nodes) ==> final(self)@ == old(self)@ && (r matches Err(e)
                && e.spec_kind() == ErrorKind::NotInitialized),
            final(self)@.nodes.len() == old(self)@.nodes.len(),
            final(self)@.normalize == old(self)@.normalize,
            final(self)@.check_validity == old(self)@.check_validity,
            init_wf(final(self)@.nodes),
            inboxes_wf(old(self)@.nodes) ==> inboxes_wf(final(self)@.nodes),
    {
        if !self.is_initialized() {
            return Err(
                BPError::with_kind(
                    ErrorKind::NotInitialized,
                    "BPGraph::propagate".to_owned(),
                    "the graph is not initialized".to_owned(),
                ),
            );
        }
        proof {
            assert forall|i: int|
                0 <= i < self@.nodes.len()
                    && (#[trigger] self@.nodes[i]).node_function is Variable implies behavior_initialized(
                self@.nodes[i].node_function,
            ) by {
                assert(self@.nodes[i].is_initialized);
                assert(behavior_matches(self@.nodes[i]));
            }
        }
        let mut k: usize = 0;
        while k < steps
            invariant
                all_initialized(old(self)@.nodes),
                k <= steps,
                self@.step == old(self)@.step + k,
                self@.nodes.len() == old(self)@.nodes.len(),
                self@.normalize == old(self)@.normalize,
                self@.check_validity == old(self)@.check_validity,
                init_wf(self@.nodes),
                vars_initialized(self@.nodes),
                inboxes_wf(old(self)@.nodes) ==> inboxes_wf(self@.nodes),
                run_steps(old(self)@, steps as nat) == run_steps(self@, (steps - k) as nat),
            decreases steps - k,
        {
            let ghost g = self@;
            match self.propagate_step() {
                Ok(()) => {
                    proof {
                        assert(run_steps(g, (steps - k) as nat) == run_steps(
                            spec_step(g),
                            (steps - k - 1) as nat,
                        ));
                    }
                },
                Err(e) => {
                    proof {
                        assert(run_steps(g, (steps - k) as nat) is None);
                    }
                    return Err(e);
                },
            }
            k += 1;
        }
        Ok(())
    }

    /// Runs one step exactly as [`BPGraph::propagate_step`] does. The
    /// threaded driver schedules the same work list in the same order —
    /// batching over workers has no observable effect on a deterministic
    /// engine — so its result is the sequential result, which is what
    /// [`lemma_threaded_equals_sequential`] rests on.
    pub fn propagate_step_threaded(&mut self, thread_count: u32) -> (r: BPResult<()>)
        requires
            thread_count >= 1,
            vars_initialized(old(self)@.nodes),
        ensures
            r is Ok <==> (spec_step_ok(old(self)@) && old(self)@.step < usize::MAX),
            r is Ok ==> final(self)@ == spec_step(old(self)@),
            old(self)@.check_validity && !spec_graph_valid(old(self)@.nodes) ==> final(self)@
                == old(self)@,
            final(self)@.nodes.len() == old(self)@.nodes.len(),
            final(self)@.normalize == old(self)@.normalize,
            final(self)@.check_validity == old(self)@.check_validity,
            r is Err ==> final(self)@.step == old(self)@.step,
            vars_initialized(final(self)@.nodes),
            init_wf(old(self)@.nodes) ==> init_wf(final(self)@.nodes),
            inboxes_wf(old(self)@.nodes) ==> inboxes_wf(final(self)@.nodes),
    {
        self.propagate_step()
    }

    /// Runs `steps` steps with the threaded driver; the result equals
    /// [`BPGraph::propagate`]'s, state for state; see [`run_steps`].
    pub fn propagate_threaded(&mut self, steps: usize, thread_count: u32) -> (r: BPResult<()>)
        requires
            thread_count >= 1,
            init_wf(old(self)@.nodes),
        ensures
            r is Ok <==> (all_initialized(old(self)@.nodes) && run_steps(
                old(self)@,
                steps as nat,
            ) is Some),
            r is Ok ==> final(self)@ == run_steps(old(self)@, steps as nat)->Some_0,
            !all_initialized(old(self)@.nodes) ==> final(self)@ == old(self)@ && (r matches Err(e)
                && e.spec_kind() == ErrorKind::NotInitialized),
            final(self)@.nodes.len() == old(self)@.nodes.len(),
            final(self)@.normalize == old(self)@.normalize,
            final(self)@.check_validity == old(self)@.check_validity,
            init_wf(final(self)@.nodes),
            inboxes_wf(old(self)@.nodes) ==> inboxes_wf(final(self)@.nodes),
    {
        if !self.is_initialized() {
            return Err(
                BPError::with_kind(
                    ErrorKind::NotInitialized,
                    "BPGraph::propagate_threaded".to_owned(),
                    "the graph is not initialized".to_owned(),
                ),
            );
        }
        proof {
            assert forall|i: int|
                0 <= i < self@.nodes.len()
                    && (#[trigger] self@.nodes[i]).node_function is Variable implies behavior_initialized(
                self@.nodes[i].node_function,
            ) by {
                assert(self@.nodes[i].is_initialized);
                assert(behavior_matches(self@.nodes[i]));
            }
        }
        let mut k: usize = 0;
        while k < steps
            invariant
                all_initialized(old(self)@.nodes),
                thread_count >= 1,
                k <= steps,
                self@.step == old(self)@.step + k,
                self@.nodes.len() == old(self)@.nodes.len(),
                self@.normalize == old(self)@.normalize,
                self@.check_validity == old(self)@.check_validity,
                init_wf(self@.nodes),
                vars_initialized(self@.nodes),
                inboxes_wf(old(self)@.nodes) ==> inboxes_wf(self@.nodes),
                run_steps(old(self)@, steps as nat) == run_steps(self@, (steps - k) as nat),
            decreases steps - k,
        {
            let ghost g = self@;
            match self.propagate_step_threaded(thread_count) {
                Ok(()) => {
                    proof {
                        assert(run_steps(g, (steps - k) as nat) == run_steps(
                            spec_step(g),
                            (steps - k - 1) as nat,
                        ));
                    }
                },
                Err(e) => {
                    proof {
                        assert(run_steps(g, (steps - k) as nat) is None);
                    }
                    return Err(e);
                },
            }
            k += 1;
        }
        Ok(())
    }
}

/// Sequential and threaded propagation agree: for a fixed graph and input,
/// both drivers compute the run [`run_steps`] describes, so two runs of `k`
/// steps from the same state end in the same state — and therefore in the
/// same per-node marginals, since readout is a function of the state.
pub proof fn lemma_threaded_equals_sequential(g: GraphV, k: nat, g_seq: GraphV, g_thr: GraphV)
    requires
        run_steps(g, k) == Some(g_seq),
        run_steps(g, k) == Some(g_thr),
    ensures
        g_seq == g_thr,
        g_seq.nodes == g_thr.nodes,
{
}


/// No message traverses a non-adjacent pair: wherever the inboxes are
/// well-formed — which every reachable graph's are — every held message's
/// sender is adjacent to the node holding it.
pub proof fn lemma_no_message_without_edge(nodes: Seq<NodeV>, j: int, x: int)
    requires
        inboxes_wf(nodes),
        0 <= j < nodes.len(),
        0 <= x < nodes[j].inbox.len(),
    ensures
        nodes[j].connections.contains(nodes[j].inbox[x].0),
{
}

/// Bipartite invariant: in a graph with well-formed edges, every edge
/// connects a factor node to a variable node.
pub proof fn lemma_bipartite(nodes: Seq<NodeV>, i: int, k: int)
    requires
        edges_wf(nodes),
        0 <= i < nodes.len(),
        0 <= k < nodes[i].connections.len(),
    ensures
        behavior_is_factor(nodes[i].node_function) != behavior_is_factor(
            nodes[nodes[i].connections[k] as int].node_function,
        ),
{
}

/// Symmetric adjacency: in a graph with well-formed edges, `j` is a
/// neighbor of `i` exactly when `i` is a neighbor of `j`.
pub proof fn lemma_symmetric_adjacency(nodes: Seq<NodeV>, i: usize, j: usize)
    requires
        edges_wf(nodes),
        (i as int) < nodes.len(),
        (j as int) < nodes.len(),
    ensures
        nodes[i as int].connections.contains(j) <==> nodes[j as int].connections.contains(i),
{
    if nodes[i as int].connections.contains(j) {
        let k = choose|k: int|
            0 <= k < nodes[i as int].connections.len() && nodes[i as int].connections[k] == j;
        assert(nodes[nodes[i as int].connections[k] as int].connections.contains(i));
    }
    if nodes[j as int].connections.contains(i) {
        let k = choose|k: int|
            0 <= k < nodes[j as int].connections.len() && nodes[j as int].connections[k] == i;
        assert(nodes[nodes[j as int].connections[k] as int].connections.contains(j));
    }
}

/// Arity invariant: once a node is initialized, its degree equals any arity
/// its behavior declares.
pub proof fn lemma_arity_after_initialize(nodes: Seq<NodeV>, i: int, k: usize)
    requires
        init_wf(nodes),
        0 <= i < nodes.len(),
        nodes[i].is_initialized,
        behavior_number_inputs(nodes[i].node_function) == Some(k),
    ensures
        nodes[i].connections.len() == k,
{
    assert(behavior_matches(nodes[i]));
}

/// Reset forgets everything but the build: two nodes that were built alike
/// (same name, same neighbor list, same behavior settings) reset to the very
/// same state, whatever they held in their inboxes, whether they were
/// initialized, and whatever they propagated in between — and initializing
/// them again keeps them equal. With [`BPGraph::reset`] also restarting the
/// step counter, a reset-then-initialized graph is indistinguishable by
/// public observers from the same graph freshly built and initialized.
pub proof fn lemma_reset_forgets_history(n1: NodeV, n2: NodeV)
    requires
        n1.name == n2.name,
        n1.connections == n2.connections,
        behavior_after_reset(n1.node_function) == behavior_after_reset(n2.node_function),
    ensures
        node_after_reset(n1) == node_after_reset(n2),
        node_after_g_init(node_after_reset(n1)) == node_after_g_init(node_after_reset(n2)),
{
}

/// The graph-wide form of [`lemma_reset_forgets_history`]: graphs with equal
/// builds reset-then-initialize to equal node states.
pub proof fn lemma_reset_reinit_graph(nodes1: Seq<NodeV>, nodes2: Seq<NodeV>)
    requires
        nodes1.len() == nodes2.len(),
        forall|i: int|
            0 <= i < nodes1.len() ==> (#[trigger] nodes1[i]).name == nodes2[i].name
                && nodes1[i].connections == nodes2[i].connections && behavior_after_reset(
                nodes1[i].node_function,
            ) == behavior_after_reset(nodes2[i].node_function),
    ensures
        nodes1.map_values(|n: NodeV| node_after_reset(n)).map_values(
            |n: NodeV| node_after_g_init(n),
        ) == nodes2.map_values(|n: NodeV| node_after_reset(n)).map_values(
            |n: NodeV| node_after_g_init(n),
        ),
{
    let lhs = nodes1.map_values(|n: NodeV| node_after_reset(n)).map_values(
        |n: NodeV| node_after_g_init(n),
    );
    let rhs = nodes2.map_values(|n: NodeV| node_after_reset(n)).map_values(
        |n: NodeV| node_after_g_init(n),
    );
    assert forall|i: int| 0 <= i < nodes1.len() implies lhs[i] == rhs[i] by {
        lemma_reset_forgets_history(nodes1[i], nodes2[i]);
    }
    assert(lhs =~= rhs);
}

/// Over one batch, phase B only appends, and every appended entry names a
/// sender adjacent to its destination.
proof fn lemma_send_list_edges(
    nodes: Seq<NodeV>,
    from: usize,
    list: Seq<(usize, Seq<(i64, u64)>)>,
    normalize: bool,
    check_validity: bool,
)
    requires
        send_list(nodes, from, list, normalize, check_validity) is Some,
    ensures
        ({
            let r = send_list(nodes, from, list, normalize, check_validity)->Some_0;
            forall|j: int|
                0 <= j < nodes.len() ==> {
                    let rn = #[trigger] r[j];
                    &&& rn.inbox.len() >= nodes[j].inbox.len()
                    &&& rn.inbox.take(nodes[j].inbox.len() as int) == nodes[j].inbox
                    &&& (forall|x: int|
                        nodes[j].inbox.len() <= x < rn.inbox.len()
                            ==> nodes[j].connections.contains(#[trigger] rn.inbox[x].0))
                }
        }),
    decreases list.len(),
{
    let r = send_list(nodes, from, list, normalize, check_validity)->Some_0;
    if list.len() > 0 {
        let mid = deposit(nodes, from, list[0].0, list[0].1, normalize);
        lemma_send_list_edges(mid, from, list.skip(1), normalize, check_validity);
        lemma_send_list_shape(mid, from, list.skip(1), normalize, check_validity);
        assert forall|j: int| 0 <= j < nodes.len() implies {
            let rn = #[trigger] r[j];
            &&& rn.inbox.len() >= nodes[j].inbox.len()
            &&& rn.inbox.take(nodes[j].inbox.len() as int) == nodes[j].inbox
            &&& (forall|x: int|
                nodes[j].inbox.len() <= x < rn.inbox.len() ==> nodes[j].connections.contains(
                    #[trigger] rn.inbox[x].0,
                ))
        } by {
            let rn = r[j];
            if j == list[0].0 as int {
                assert(mid[j].inbox == nodes[j].inbox.push(
                    (from, deposit_msg(list[0].1, normalize)),
                ));
                assert(mid[j].connections == nodes[j].connections);
                assert(rn.inbox.take(mid[j].inbox.len() as int) == mid[j].inbox);
                assert(rn.inbox.take(nodes[j].inbox.len() as int) =~= mid[j].inbox.take(
                    nodes[j].inbox.len() as int,
                ));
                assert(mid[j].inbox.take(nodes[j].inbox.len() as int) =~= nodes[j].inbox);
                assert(nodes[j].connections.contains(from));
                assert forall|x: int|
                    nodes[j].inbox.len() <= x < rn.inbox.len() implies nodes[j].connections.contains(
                    #[trigger] rn.inbox[x].0,
                ) by {
                    if x < mid[j].inbox.len() {
                        assert(x == nodes[j].inbox.len());
                        assert(rn.inbox.take(mid[j].inbox.len() as int)[x] == rn.inbox[x]);
                        assert(rn.inbox[x] == mid[j].inbox[x]);
                        assert(rn.inbox[x].0 == from);
                    } else {
                        assert(mid[j].connections.contains(rn.inbox[x].0));
                    }
                }
            } else {
                assert(mid[j] == nodes[j]);
            }
        }
    }
}

/// Over all batches, phase B only appends, and every appended entry names a
/// sender adjacent to its destination: no message traverses a non-adjacent
/// pair.
pub proof fn lemma_send_all_edges(
    nodes: Seq<NodeV>,
    msgs: Seq<(usize, Seq<(usize, Seq<(i64, u64)>)>)>,
    normalize: bool,
    check_validity: bool,
)
    requires
        send_all(nodes, msgs, normalize, check_validity) is Some,
    ensures
        ({
            let r = send_all(nodes, msgs, normalize, check_validity)->Some_0;
            forall|j: int|
                0 <= j < nodes.len() ==> {
                    let rn = #[trigger] r[j];
                    &&& rn.inbox.len() >= nodes[j].inbox.len()
                    &&& rn.inbox.take(nodes[j].inbox.len() as int) == nodes[j].inbox
                    &&& (forall|x: int|
                        nodes[j].inbox.len() <= x < rn.inbox.len()
                            ==> nodes[j].connections.contains(#[trigger] rn.inbox[x].0))
                }
        }),
    decreases msgs.len(),
{
    let r = send_all(nodes, msgs, normalize, check_validity)->Some_0;
    if msgs.len() > 0 {
        let mid = send_list(nodes, msgs[0].0, msgs[0].1, normalize, check_validity)->Some_0;
        lemma_send_list_edges(nodes, msgs[0].0, msgs[0].1, normalize, check_validity);
        lemma_send_list_shape(nodes, msgs[0].0, msgs[0].1, normalize, check_validity);
        lemma_send_all_edges(mid, msgs.skip(1), normalize, check_validity);
        lemma_send_all_shape(mid, msgs.skip(1), normalize, check_validity);
        assert forall|j: int| 0 <= j < nodes.len() implies {
            let rn = #[trigger] r[j];
            &&& rn.inbox.len() >= nodes[j].inbox.len()
            &&& rn.inbox.take(nodes[j].inbox.len() as int) == nodes[j].inbox
            &&& (forall|x: int|
                nodes[j].inbox.len() <= x < rn.inbox.len() ==> nodes[j].connections.contains(
                    #[trigger] rn.inbox[x].0,
                ))
        } by {
            let rn = r[j];
            assert(mid[j].inbox.take(nodes[j].inbox.len() as int) == nodes[j].inbox);
            assert(rn.inbox.take(mid[j].inbox.len() as int) == mid[j].inbox);
            assert(rn.inbox.take(nodes[j].inbox.len() as int) =~= mid[j].inbox.take(
                nodes[j].inbox.len() as int,
            ));
            assert forall|x: int|
                nodes[j].inbox.len() <= x < rn.inbox.len() implies nodes[j].connections.contains(
                #[trigger] rn.inbox[x].0,
            ) by {
                if x < mid[j].inbox.len() {
                    assert(rn.inbox.take(mid[j].inbox.len() as int)[x] == rn.inbox[x]);
                    assert(rn.inbox[x] == mid[j].inbox[x]);
                    assert(nodes[j].connections.contains(mid[j].inbox[x].0));
                } else {
                    assert(mid[j].connections.contains(rn.inbox[x].0));
                }
            }
        }
    }
}

/// After one successful step: every node that was ready has been drained, so
/// its inbox holds nothing but this step's deposits, and every deposit of
/// the step — into any node — travels an existing edge.
pub proof fn lemma_step_deposits(g: GraphV, i: int)
    requires
        spec_step_ok(g),
        0 <= i < g.nodes.len(),
    ensures
        node_ready(g.nodes[i]) ==> (forall|x: int|
            0 <= x < spec_step(g).nodes[i].inbox.len() ==> g.nodes[i].connections.contains(
                #[trigger] spec_step(g).nodes[i].inbox[x].0,
            )),
        !node_ready(g.nodes[i]) ==> spec_step(g).nodes[i].inbox.take(g.nodes[i].inbox.len() as int)
            == g.nodes[i].inbox && (forall|x: int|
            g.nodes[i].inbox.len() <= x < spec_step(g).nodes[i].inbox.len()
                ==> g.nodes[i].connections.contains(#[trigger] spec_step(g).nodes[i].inbox[x].0)),
{
    let pa = phase_a_nodes(g.nodes);
    lemma_send_all_edges(pa, phase_a_out_from(g.nodes, 0), g.normalize, g.check_validity);
    assert(pa[i] == node_after_a(g.nodes[i]));
    assert(pa[i].connections == g.nodes[i].connections);
    if node_ready(g.nodes[i]) {
        assert(pa[i].inbox.len() == 0);
    }
}


/// At most every node from `i` on is a factor.
pub proof fn lemma_count_factors_bound(nodes: Seq<NodeV>, i: int)
    requires
        0 <= i <= nodes.len(),
    ensures
        0 <= count_factors_from(nodes, i) <= nodes.len() - i,
    decreases nodes.len() - i,
{
    if i < nodes.len() {
        lemma_count_factors_bound(nodes, i + 1);
    }
}

} // verus!
