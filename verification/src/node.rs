//! Per-vertex state: name, adjacency, inbox, and the delegated behavior.

use vstd::prelude::*;

use crate::bperror::{BPError, BPResult, ErrorKind};
use crate::msg::{max_val, mult_raw, norm_seq, posts, Message};
use crate::prob::{p_add, p_add_spec, p_scale, PROB_ONE};
use crate::node_function::{
    behavior_after_init, behavior_after_outbox, behavior_after_reset, behavior_init_ok,
    behavior_initialized, behavior_is_factor, behavior_number_inputs, behavior_outbox,
    behavior_outbox_ok, behavior_prior, behavior_ready, Behavior, BehaviorV, CtrlAck, CtrlMsg,
};

verus! {

/// A message sequence can be max-scaled: it is non-empty and not all-zero.
pub open spec fn norm_ok(s: Seq<(i64, u64)>) -> bool {
    s.len() > 0 && max_val(s) > 0
}

/// `s` max-scaled where a scale exists, unchanged otherwise; the swallowed
/// normalization used on priors during readout.
pub open spec fn norm_total(s: Seq<(i64, u64)>) -> Seq<(i64, u64)> {
    if norm_ok(s) {
        norm_seq(s)
    } else {
        s
    }
}

/// The messages of an inbox, senders dropped.
pub open spec fn inbox_msgs(ib: Seq<(usize, Seq<(i64, u64)>)>) -> Seq<Seq<(i64, u64)>> {
    ib.map_values(|e: (usize, Seq<(i64, u64)>)| e.1)
}

/// The running product of the marginal readout: folds each message into the
/// accumulator by pointwise multiplication and max-scaling, and fails (with
/// `None`) as soon as a product has no scale.
pub open spec fn marginal_fold(acc: Seq<(i64, u64)>, rest: Seq<Seq<(i64, u64)>>) -> Option<
    Seq<(i64, u64)>,
>
    decreases rest.len(),
{
    if rest.len() == 0 {
        Some(acc)
    } else {
        let raw = mult_raw(acc, rest[0]);
        if !norm_ok(raw) {
            None
        } else {
            marginal_fold(norm_seq(raw), rest.skip(1))
        }
    }
}

/// The abstract state of a [`Node`].
pub struct NodeV {
    /// The display name.
    pub name: Seq<char>,
    /// The neighbor list, in insertion order.
    pub connections: Seq<usize>,
    /// The inbox: `(sender, message)` pairs gathered since the last drain.
    pub inbox: Seq<(usize, Seq<(i64, u64)>)>,
    /// The delegated behavior's state.
    pub node_function: BehaviorV,
    /// Whether the node has been initialized.
    pub is_initialized: bool,
}

/// One vertex of the graph: a display name, the neighbor indices, an inbox
/// of `(sender, message)` pairs, and the behavior it delegates to.
pub struct Node {
    name: String,
    connections: Vec<usize>,
    inbox: Vec<(usize, Message)>,
    node_function: Behavior,
    is_initialized: bool,
}

impl View for Node {
    type V = NodeV;

    closed spec fn view(&self) -> NodeV {
        NodeV {
            name: self.name@,
            connections: self.connections@,
            inbox: posts(self.inbox@),
            node_function: self.node_function@,
            is_initialized: self.is_initialized,
        }
    }
}

/// Whether `x` stands in `v`.
pub(crate) fn index_list_contains(v: &Vec<usize>, x: usize) -> (r: bool)
    ensures
        r == v@.contains(x),
{
    let n = v.len();
    let mut i: usize = 0;
    while i < n
        invariant
            n == v@.len(),
            i <= n,
            forall|j: int| 0 <= j < i ==> v@[j] != x,
        decreases n - i,
    {
        if v[i] == x {
            return true;
        }
        i += 1;
    }
    proof {
        assert(!v@.contains(x));
    }
    false
}

/// A copy of a neighbor list.
fn copy_connections(v: &Vec<usize>) -> (r: Vec<usize>)
    ensures
        r@ == v@,
{
    let mut r: Vec<usize> = Vec::new();
    let mut i: usize = 0;
    while i < v.len()
        invariant
            i <= v@.len(),
            r@ == v@.take(i as int),
        decreases v@.len() - i,
    {
        r.push(v[i]);
        proof {
            assert(r@ =~= v@.take(i + 1 as int));
        }
        i += 1;
    }
    proof {
        assert(r@ =~= v@);
    }
    r
}

impl Node {
    /// A fresh node around the given behavior: no neighbors, empty inbox,
    /// not initialized.
    pub fn new(name: String, node_function: Behavior) -> (r: Self)
        ensures
            r@ == (NodeV {
                name: name@,
                connections: Seq::<usize>::empty(),
                inbox: Seq::<(usize, Seq<(i64, u64)>)>::empty(),
                node_function: node_function@,
                is_initialized: false,
            }),
    {
        let mut inbox: Vec<(usize, Message)> = Vec::new();
        match node_function.number_inputs() {
            Some(n) => inbox.reserve(n),
            None => {},
        }
        let r = Node { name, is_initialized: false, connections: Vec::new(), inbox, node_function };
        proof {
            assert(posts(r.inbox@) =~= Seq::<(usize, Seq<(i64, u64)>)>::empty());
        }
        r
    }

    /// Routes a control value to the behavior and returns its ack.
    pub fn send_control_message(&mut self, ctrl_msg: CtrlMsg) -> (r: BPResult<CtrlAck>)
        ensures
            final(self)@ == old(self)@,
            r is Ok,
    {
        self.node_function.send_control_message(ctrl_msg)
    }

    /// The display name.
    pub fn get_name(&self) -> (r: &String)
        ensures
            r@ == self@.name,
    {
        &self.name
    }

    /// Records `to` as a neighbor. Fails with `DuplicateEdge` when already
    /// present, and with `ArityMismatch` when the behavior's declared arity
    /// is already reached; the node is unchanged on failure.
    pub fn add_edge(&mut self, to: usize) -> (r: BPResult<()>)
        ensures
            r is Ok <==> (!old(self)@.connections.contains(to) && (match behavior_number_inputs(
                old(self)@.node_function,
            ) {
                Some(k) => old(self)@.connections.len() < k,
                None => true,
            })),
            r is Ok ==> final(self)@ == (NodeV {
                connections: old(self)@.connections.push(to),
                ..old(self)@
            }),
            r matches Err(e) ==> final(self)@ == old(self)@ && (e.spec_kind()
                == ErrorKind::DuplicateEdge <==> old(self)@.connections.contains(to)) && (
            e.spec_kind() == ErrorKind::ArityMismatch <==> !old(self)@.connections.contains(to)),
    {
        if index_list_contains(&self.connections, to) {
            return Err(
                BPError::with_kind(
                    ErrorKind::DuplicateEdge,
                    "Node::add_edge".to_owned(),
                    "the connection already exists".to_owned(),
                ),
            );
        }
        match self.node_function.number_inputs() {
            Some(n) => {
                if self.connections.len() >= n {
                    return Err(
                        BPError::with_kind(
                            ErrorKind::ArityMismatch,
                            "Node::add_edge".to_owned(),
                            "the declared number of connections is already reached".to_owned(),
                        ),
                    );
                }
            },
            None => {},
        }
        self.connections.push(to);
        Ok(())
    }

    /// Undoes the most recent [`Node::add_edge`], for rolling back the first
    /// half of a pair insert whose second half failed.
    pub(crate) fn pop_connection(&mut self)
        requires
            old(self)@.connections.len() > 0,
        ensures
            final(self)@ == (NodeV {
                connections: old(self)@.connections.drop_last(),
                ..old(self)@
            }),
    {
        let popped = self.connections.pop();
        proof {
            assert(popped is Some);
        }
    }

    /// Whether the node has been initialized.
    pub fn is_initialized(&self) -> (r: bool)
        ensures
            r == self@.is_initialized,
    {
        self.is_initialized
    }

    /// Returns the node to its pre-initialization state: the behavior is
    /// reset, the inbox cleared, the initialization flag dropped. The
    /// neighbor list is kept for the next initialization.
    pub fn reset(&mut self) -> (r: BPResult<()>)
        ensures
            r is Ok,
            final(self)@ == (NodeV {
                inbox: Seq::<(usize, Seq<(i64, u64)>)>::empty(),
                node_function: behavior_after_reset(old(self)@.node_function),
                is_initialized: false,
                ..old(self)@
            }),
    {
        let res = self.node_function.reset();
        proof {
            assert(res is Ok);
        }
        let mut fresh: Vec<(usize, Message)> = Vec::new();
        match self.node_function.number_inputs() {
            Some(n) => fresh.reserve(n),
            None => {},
        }
        core::mem::swap(&mut self.inbox, &mut fresh);
        self.is_initialized = false;
        proof {
            assert(posts(self.inbox@) =~= Seq::<(usize, Seq<(i64, u64)>)>::empty());
        }
        res
    }

    /// The fixed arity the behavior declares, if any.
    pub fn number_inputs(&self) -> (r: Option<usize>)
        ensures
            r == behavior_number_inputs(self@.node_function),
    {
        self.node_function.number_inputs()
    }

    /// Marks the node initialized and hands the behavior its final neighbor
    /// list. Fails with `AlreadyInitialized` on a second call before a
    /// reset, and with `ArityMismatch` when a declared arity disagrees with
    /// the degree.
    pub fn initialize(&mut self) -> (r: BPResult<()>)
        ensures
            r is Ok <==> (!old(self)@.is_initialized && (match behavior_number_inputs(
                old(self)@.node_function,
            ) {
                Some(k) => old(self)@.connections.len() == k,
                None => true,
            })),
            r is Ok ==> final(self)@ == (NodeV {
                node_function: behavior_after_init(
                    old(self)@.node_function,
                    old(self)@.connections,
                ),
                is_initialized: true,
                ..old(self)@
            }),
            r matches Err(e) ==> final(self)@ == old(self)@ && (e.spec_kind()
                == ErrorKind::AlreadyInitialized <==> old(self)@.is_initialized) && (e.spec_kind()
                == ErrorKind::ArityMismatch <==> !old(self)@.is_initialized),
    {
        if self.is_initialized {
            return Err(
                BPError::with_kind(
                    ErrorKind::AlreadyInitialized,
                    "Node::initialize".to_owned(),
                    "the node is already initialized".to_owned(),
                ),
            );
        }
        match self.node_function.number_inputs() {
            Some(n) => {
                if self.connections.len() != n {
                    return Err(
                        BPError::with_kind(
                            ErrorKind::ArityMismatch,
                            "Node::initialize".to_owned(),
                            "the declared number of connections disagrees with the degree".to_owned(
                            ),
                        ),
                    );
                }
            },
            None => {},
        }
        self.is_initialized = true;
        let cons = copy_connections(&self.connections);
        let res = self.node_function.initialize(cons);
        proof {
            assert(res is Ok);
        }
        res
    }

    /// The neighbor list, in insertion order.
    pub fn get_connections(&self) -> (r: &Vec<usize>)
        ensures
            r@ == self@.connections,
    {
        &self.connections
    }

    /// Whether the behavior is a factor.
    pub fn is_factor(&self) -> (r: bool)
        ensures
            r == behavior_is_factor(self@.node_function),
    {
        self.node_function.is_factor()
    }

    /// Whether the inbox holds anything.
    pub fn has_post(&self) -> (r: bool)
        ensures
            r == (self@.inbox.len() > 0),
    {
        !self.inbox.is_empty()
    }

    /// Empties the inbox and returns its prior contents.
    pub fn read_post(&mut self) -> (r: Vec<(usize, Message)>)
        ensures
            posts(r@) == old(self)@.inbox,
            final(self)@ == (NodeV {
                inbox: Seq::<(usize, Seq<(i64, u64)>)>::empty(),
                ..old(self)@
            }),
    {
        let mut taken: Vec<(usize, Message)> = Vec::with_capacity(self.connections.len());
        core::mem::swap(&mut self.inbox, &mut taken);
        proof {
            assert(posts(self.inbox@) =~= Seq::<(usize, Seq<(i64, u64)>)>::empty());
        }
        taken
    }

    /// Appends `(from, msg)` to the inbox.
    pub fn send_post(&mut self, from: usize, msg: Message)
        ensures
            final(self)@ == (NodeV {
                inbox: old(self)@.inbox.push((from, msg@)),
                ..old(self)@
            }),
    {
        let ghost before = posts(self.inbox@);
        let ghost mv = msg@;
        self.inbox.push((from, msg));
        proof {
            assert(posts(self.inbox@) =~= before.push((from, mv)));
        }
    }

    /// Whether the behavior contributes messages at `step`, given the inbox.
    pub fn is_ready(&self, step: usize) -> (r: BPResult<bool>)
        requires
            self@.node_function is Variable ==> behavior_initialized(self@.node_function),
        ensures
            r is Ok,
            r->Ok_0 == behavior_ready(self@.node_function, self@.inbox.len()),
    {
        self.node_function.is_ready(&self.inbox, step)
    }

    /// Reserved hint; always off.
    pub fn discard_mode(&self) -> (r: bool)
        ensures
            r == false,
    {
        self.node_function.discard_mode()
    }

    /// Drains the inbox and hands it to the behavior; see
    /// [`behavior_outbox`] for the result. The inbox is empty afterwards
    /// whether or not the behavior succeeds.
    pub fn create_messages(&mut self) -> (r: BPResult<Vec<(usize, Message)>>)
        requires
            old(self)@.node_function is Variable ==> behavior_initialized(
                old(self)@.node_function,
            ),
        ensures
            final(self)@ == (NodeV {
                inbox: Seq::<(usize, Seq<(i64, u64)>)>::empty(),
                node_function: behavior_after_outbox(
                    old(self)@.node_function,
                    old(self)@.inbox.len(),
                ),
                ..old(self)@
            }),
            r is Ok <==> behavior_outbox_ok(old(self)@.node_function, old(self)@.inbox),
            r matches Ok(out) ==> posts(out@) == behavior_outbox(
                old(self)@.node_function,
                old(self)@.inbox,
            ),
            r matches Err(e) ==> e.spec_kind() == ErrorKind::EmptyInbox || e.spec_kind()
                == ErrorKind::BehaviorError,
    {
        let incoming_msgs = self.read_post();
        self.node_function.node_function(incoming_msgs)
    }

    /// A copy of the inbox.
    pub fn clone_inbox(&self) -> (r: Vec<(usize, Message)>)
        ensures
            posts(r@) == self@.inbox,
    {
        let mut r: Vec<(usize, Message)> = Vec::new();
        let mut i: usize = 0;
        while i < self.inbox.len()
            invariant
                i <= self.inbox@.len(),
                posts(r@) =~= posts(self.inbox@).take(i as int),
            decreases self.inbox@.len() - i,
        {
            let e = &self.inbox[i];
            let ghost before = posts(r@);
            let c = e.1.clone();
            proof {
                assert(c@ == posts(self.inbox@)[i as int].1);
            }
            r.push((e.0, c));
            proof {
                assert(posts(r@) =~= before.push(posts(self.inbox@)[i as int]));
                assert(posts(r@) =~= posts(self.inbox@).take(i + 1 as int));
            }
            i += 1;
        }
        proof {
            assert(posts(self.inbox@).take(self.inbox@.len() as int) =~= posts(self.inbox@));
        }
        r
    }

    /// The marginal at this node: the max-scaled pointwise product of the
    /// prior (if any, itself max-scaled first) and every inbox message, per
    /// [`marginal_fold`]. An empty inbox yields the max-scaled prior — or
    /// fails with `Degenerate` when the prior has no scale — and `None`
    /// without one; factor nodes yield `None`. Fails when a running product
    /// has no scale.
    pub fn get_result(&self) -> (r: BPResult<Option<Message>>)
        ensures
            ({
                let b = self@.node_function;
                let ib = self@.inbox;
                if ib.len() == 0 {
                    match behavior_prior(b) {
                        Some(p) => if norm_ok(p) {
                            r matches Ok(Some(m)) && m@ == norm_seq(p)
                        } else {
                            r matches Err(e) && (e.spec_kind() == ErrorKind::NormalizationFailure
                                <==> p.len() == 0) && (e.spec_kind() == ErrorKind::Degenerate <==> (
                            p.len() > 0 && max_val(p) == 0))
                        },
                        None => r matches Ok(None::<Message>),
                    }
                } else if behavior_is_factor(b) {
                    r matches Ok(None::<Message>)
                } else {
                    let fold = match behavior_prior(b) {
                        Some(p) => marginal_fold(norm_total(p), inbox_msgs(ib)),
                        None => marginal_fold(ib[0].1, inbox_msgs(ib).skip(1)),
                    };
                    match fold {
                        Some(m) => r matches Ok(Some(res)) && res@ == m,
                        None => r matches Err(e) && (e.spec_kind()
                            == ErrorKind::NormalizationFailure || e.spec_kind()
                            == ErrorKind::Degenerate),
                    }
                }
            }),
    {
        let prior = self.node_function.get_prior();
        if self.inbox.is_empty() {
            return match prior {
                Some(mut p) => {
                    match p.normalize() {
                        Ok(()) => Ok(Some(p)),
                        Err(e) => Err(
                            e.attach_info_str(
                                "Node::get_result",
                                "the prior cannot be max-scaled".to_owned(),
                            ),
                        ),
                    }
                },
                None => Ok(None),
            };
        }
        if self.node_function.is_factor() {
            return Ok(None);
        }
        let ghost ib = self@.inbox;
        let mut res: Message;
        let start: usize;
        match prior {
            Some(mut p) => {
                let _ = p.normalize();
                res = p;
                start = 0;
                proof {
                    assert(inbox_msgs(ib).skip(0) =~= inbox_msgs(ib));
                }
            },
            None => {
                res = self.inbox[0].1.clone();
                start = 1;
            },
        }
        let ghost acc0 = res@;
        let ghost rest0 = inbox_msgs(ib).skip(start as int);
        let n = self.inbox.len();
        let mut i = start;
        while i < n
            invariant
                ib == self@.inbox,
                n == ib.len(),
                n > 0,
                !behavior_is_factor(self@.node_function),
                start <= i <= n,
                match behavior_prior(self@.node_function) {
                    Some(p) => acc0 == norm_total(p) && rest0 == inbox_msgs(ib),
                    None => acc0 == ib[0].1 && rest0 == inbox_msgs(ib).skip(1),
                },
                marginal_fold(acc0, rest0) == marginal_fold(res@, inbox_msgs(ib).skip(i as int)),
            decreases n - i,
        {
            proof {
                assert(inbox_msgs(ib).skip(i as int)[0] == inbox_msgs(ib)[i as int]);
                assert(inbox_msgs(ib).skip(i as int).skip(1) =~= inbox_msgs(ib).skip(i + 1 as int));
            }
            let e = &self.inbox[i];
            match mult_hashmaps(&mut res, &e.1) {
                Ok(()) => {},
                Err(err) => {
                    return Err(err);
                },
            }
            i += 1;
        }
        proof {
            assert(inbox_msgs(ib).skip(n as int) =~= Seq::<Seq<(i64, u64)>>::empty());
        }
        Ok(Some(res))
    }
}

/// Max-scales `map` in place, exactly as [`Message::normalize`] does: fails
/// on an empty or all-zero message, which is then left unchanged.
pub fn norm_hashmap(map: &mut Message) -> (r: BPResult<()>)
    ensures
        r is Ok <==> norm_ok(old(map)@),
        r is Ok ==> final(map)@ == norm_seq(old(map)@),
        r is Err ==> final(map)@ == old(map)@,
        r matches Err(e) ==> e.spec_kind() == ErrorKind::NormalizationFailure || e.spec_kind()
            == ErrorKind::Degenerate,
{
    map.normalize()
}

/// Multiplies `op0` pointwise by `op1` and max-scales, failing when the
/// product has no scale; the unscaled product is left in `op0` on failure.
pub fn mult_hashmaps(op0: &mut Message, op1: &Message) -> (r: BPResult<()>)
    ensures
        r is Ok <==> norm_ok(mult_raw(old(op0)@, op1@)),
        r is Ok ==> final(op0)@ == norm_seq(mult_raw(old(op0)@, op1@)),
        r is Err ==> final(op0)@ == mult_raw(old(op0)@, op1@),
        r matches Err(e) ==> e.spec_kind() == ErrorKind::NormalizationFailure || e.spec_kind()
            == ErrorKind::Degenerate,
{
    let ghost raw = mult_raw(old(op0)@, op1@);
    op0.mult_msg(op1);
    if op0.is_empty() {
        return Err(
            BPError::with_kind(
                ErrorKind::NormalizationFailure,
                "node::mult_hashmaps".to_owned(),
                "the product is empty".to_owned(),
            ),
        );
    }
    let m = op0.max_entry();
    if m == 0 {
        proof {
            if norm_ok(raw) {
                crate::msg::lemma_norm_max(raw);
            }
        }
        return Err(
            BPError::with_kind(
                ErrorKind::Degenerate,
                "node::mult_hashmaps".to_owned(),
                "every entry of the product is zero".to_owned(),
            ),
        );
    }
    proof {
        if !norm_ok(raw) {
            assert(op0@ == raw);
        }
    }
    Ok(())
}

/// Rescales `map` so its entries sum to 1: each entry is divided by the
/// total. Fails with `Degenerate` when the total is zero (an empty message
/// included), leaving the message unchanged.
pub fn hashmap_to_distribution(map: &mut Message) -> (r: BPResult<()>)
    ensures
        r is Ok <==> sum_val(old(map)@) > 0,
        r is Ok ==> final(map)@ == dist_seq(old(map)@),
        r is Err ==> final(map)@ == old(map)@,
        r matches Err(e) ==> e.spec_kind() == ErrorKind::Degenerate,
{
    let total = sum_entries(map);
    if total == 0 {
        return Err(
            BPError::with_kind(
                ErrorKind::Degenerate,
                "node::hashmap_to_distribution".to_owned(),
                "the entries sum to zero".to_owned(),
            ),
        );
    }
    proof {
        lemma_sum_bounds(old(map)@);
    }
    let ghost s = old(map)@;
    let n = map.len();
    let mut i: usize = 0;
    while i < n
        invariant
            s == old(map)@,
            n == map@.len(),
            n == s.len(),
            i <= n,
            total == sum_val(s),
            total > 0,
            forall|j: int| 0 <= j < s.len() ==> #[trigger] s[j].1 <= total,
            forall|j: int|
                0 <= j < i ==> #[trigger] map@[j] == (
                    s[j].0,
                    ((s[j].1 as int) * (PROB_ONE as int) / (sum_val(s) as int)) as u64,
                ),
            forall|j: int| i <= j < n ==> #[trigger] map@[j] == s[j],
        decreases n - i,
    {
        let e = map.entry(i);
        let scaled = p_scale(e.1, total);
        map.set_entry(i, scaled);
        i += 1;
    }
    proof {
        assert(map@ =~= dist_seq(s));
    }
    Ok(())
}

/// The sum of the probabilities of `s`, saturated at `u64::MAX`.
pub open spec fn sum_val(s: Seq<(i64, u64)>) -> u64
    decreases s.len(),
{
    if s.len() == 0 {
        0u64
    } else {
        p_add_spec(s[0].1, sum_val(s.skip(1)))
    }

}

/// `s` rescaled so its entries sum to 1: each entry divided by the total.
pub open spec fn dist_seq(s: Seq<(i64, u64)>) -> Seq<(i64, u64)> {
    s.map_values(
        |kv: (i64, u64)| (kv.0, ((kv.1 as int) * (PROB_ONE as int) / (sum_val(s) as int)) as u64),
    )
}

/// The saturated sum bounds every entry.
pub proof fn lemma_sum_bounds(s: Seq<(i64, u64)>)
    ensures
        forall|i: int| 0 <= i < s.len() ==> #[trigger] s[i].1 <= sum_val(s),
    decreases s.len(),
{
    if s.len() > 0 {
        lemma_sum_bounds(s.skip(1));
        assert(forall|i: int| 1 <= i < s.len() ==> s[i] == s.skip(1)[i - 1]);
    }
}

/// The saturated sum of the entries, computed left to right.
pub fn sum_entries(map: &Message) -> (r: u64)
    ensures
        r == sum_val(map@),
{
    let n = map.len();
    let mut acc: u64 = 0;
    let mut i: usize = n;
    while i > 0
        invariant
            n == map@.len(),
            i <= n,
            acc == sum_val(map@.skip(i as int)),
        decreases i,
    {
        i -= 1;
        proof {
            assert(map@.skip(i as int)[0] == map@[i as int]);
            assert(map@.skip(i as int).skip(1) =~= map@.skip(i + 1 as int));
        }
        let e = map.entry(i);
        acc = p_add(e.1, acc);
    }
    proof {
        assert(map@.skip(0) =~= map@);
    }
    acc
}

} // verus!
