//! Node behaviors: the capability set a node delegates to.
//!
//! A behavior decides when its node is ready, turns a drained inbox into
//! outbound messages, and answers control messages. The engine works with a
//! closed set of behaviors: the standard variable-side combine
//! ([`VariableNode`]) and a two-neighbor factor driven by an explicit weight
//! table ([`FactorNode`]).

use vstd::prelude::*;

use crate::bperror::{BPError, BPResult, ErrorKind};
use crate::msg::{posts, spec_get, spec_insert, Message};
use crate::prob::{p_add, p_add_spec, p_mul, p_mul_spec, Probability};
use crate::variable_node::{spec_is_ready, variable_outbox, VariableNode, VariableNodeV};

verus! {

/// An opaque control value routed to a node behavior.
pub struct CtrlMsg {}

/// The acknowledgment a behavior returns for a control value.
#[derive(PartialEq, Eq, Structural, Debug)]
pub struct CtrlAck {}

impl Default for CtrlAck {
    /// The default acknowledgment.
    fn default() -> (r: Self)
        ensures
            r == (CtrlAck {  }),
    {
        CtrlAck {  }
    }
}

/// The first weight the table holds for the pair `(v0, v1)`, or 0 when the
/// pair is absent.
pub open spec fn table_get(t: Seq<(i64, i64, u64)>, v0: i64, v1: i64) -> u64
    decreases t.len(),
{
    if t.len() == 0 {
        0u64
    } else if t[0].0 == v0 && t[0].1 == v1 {
        t[0].2
    } else {
        table_get(t.skip(1), v0, v1)
    }
}

/// Accumulates `add` onto the entry of `m` at `k`: added to the present
/// probability, or inserted as a fresh entry.
pub open spec fn acc_entry(m: Seq<(i64, u64)>, k: i64, add: u64) -> Seq<(i64, u64)> {
    spec_insert(
        m,
        k,
        match spec_get(m, k) {
            Some(p) => p_add_spec(p, add),
            None => add,
        },
    )
}

/// One message of the inner accumulation: folds every entry of `rest1`
/// against the fixed entry `(v0, p0)` of the other side.
pub open spec fn factor_inner(
    out0: Seq<(i64, u64)>,
    out1: Seq<(i64, u64)>,
    v0: i64,
    p0: u64,
    rest1: Seq<(i64, u64)>,
    t: Seq<(i64, i64, u64)>,
) -> (Seq<(i64, u64)>, Seq<(i64, u64)>)
    decreases rest1.len(),
{
    if rest1.len() == 0 {
        (out0, out1)
    } else {
        let v1 = rest1[0].0;
        let p1 = rest1[0].1;
        let pf = table_get(t, v0, v1);
        factor_inner(
            acc_entry(out0, v0, p_mul_spec(p1, pf)),
            acc_entry(out1, v1, p_mul_spec(p0, pf)),
            v0,
            p0,
            rest1.skip(1),
            t,
        )
    }
}

/// The outer accumulation: folds every entry of `rest0` over the whole of
/// `m1` via [`factor_inner`].
pub open spec fn factor_outer(
    out0: Seq<(i64, u64)>,
    out1: Seq<(i64, u64)>,
    rest0: Seq<(i64, u64)>,
    m1: Seq<(i64, u64)>,
    t: Seq<(i64, i64, u64)>,
) -> (Seq<(i64, u64)>, Seq<(i64, u64)>)
    decreases rest0.len(),
{
    if rest0.len() == 0 {
        (out0, out1)
    } else {
        let r = factor_inner(out0, out1, rest0[0].0, rest0[0].1, m1, t);
        factor_outer(r.0, r.1, rest0.skip(1), m1, t)
    }
}

/// What a table factor sends: for each side, the table-weighted sums of the
/// other side's message, accumulated pair by pair.
pub open spec fn factor_outbox(
    m0: Seq<(i64, u64)>,
    m1: Seq<(i64, u64)>,
    t: Seq<(i64, i64, u64)>,
) -> (Seq<(i64, u64)>, Seq<(i64, u64)>) {
    factor_outer(Seq::empty(), Seq::empty(), m0, m1, t)
}

/// The abstract state of a [`FactorNode`].
pub struct FactorNodeV {
    /// The first neighbor, once initialized.
    pub connection0: Option<usize>,
    /// The second neighbor, once initialized.
    pub connection1: Option<usize>,
    /// The weight table over `(value0, value1)` pairs; absent pairs weigh 0.
    pub table: Seq<(i64, i64, u64)>,
}

/// A factor over exactly two variables, driven by an explicit weight table:
/// the local function maps `(v0, v1)` to the first weight the table holds
/// for the pair, and 0 when the pair is absent.
pub struct FactorNode {
    connection0: Option<usize>,
    connection1: Option<usize>,
    table: Vec<(i64, i64, Probability)>,
}

impl View for FactorNode {
    type V = FactorNodeV;

    closed spec fn view(&self) -> FactorNodeV {
        FactorNodeV {
            connection0: self.connection0,
            connection1: self.connection1,
            table: self.table@,
        }
    }
}

/// Looks a pair up in the weight table.
fn table_lookup(table: &Vec<(i64, i64, Probability)>, v0: i64, v1: i64) -> (r: Probability)
    ensures
        r == table_get(table@, v0, v1),
{
    let n = table.len();
    let mut i: usize = 0;
    proof {
        assert(table@.skip(0) =~= table@);
    }
    while i < n
        invariant
            n == table@.len(),
            i <= n,
            table_get(table@, v0, v1) == table_get(table@.skip(i as int), v0, v1),
        decreases n - i,
    {
        let e = table[i];
        proof {
            assert(table@.skip(i as int)[0] == table@[i as int]);
            assert(table@.skip(i as int).skip(1) =~= table@.skip(i + 1 as int));
        }
        if e.0 == v0 && e.1 == v1 {
            return e.2;
        }
        i += 1;
    }
    proof {
        assert(table@.skip(n as int) =~= Seq::<(i64, i64, u64)>::empty());
    }
    0
}

impl FactorNode {
    /// A fresh factor with the given weight table, not yet connected.
    pub fn new(table: Vec<(i64, i64, Probability)>) -> (r: Self)
        ensures
            r@ == (FactorNodeV {
                connection0: None::<usize>,
                connection1: None::<usize>,
                table: table@,
            }),
    {
        FactorNode { connection0: None, connection1: None, table }
    }

    /// A factor is a factor.
    pub fn is_factor(&self) -> (r: bool)
        ensures
            r == true,
    {
        true
    }

    /// A factor declares exactly two neighbors.
    pub fn number_inputs(&self) -> (r: Option<usize>)
        ensures
            r == Some(2usize),
    {
        Some(2)
    }

    /// Receives the final neighbor list; fails unless it has exactly two
    /// entries.
    pub fn initialize(&mut self, connections: Vec<usize>) -> (r: BPResult<()>)
        ensures
            r is Ok <==> connections@.len() == 2,
            r is Ok ==> final(self)@ == (FactorNodeV {
                connection0: Some(connections@[0]),
                connection1: Some(connections@[1]),
                ..old(self)@
            }),
            r matches Err(e) ==> final(self)@ == old(self)@ && e.spec_kind()
                == ErrorKind::ArityMismatch,
    {
        if connections.len() != 2 {
            return Err(
                BPError::with_kind(
                    ErrorKind::ArityMismatch,
                    "FactorNode::initialize".to_owned(),
                    "a table factor needs exactly two connections".to_owned(),
                ),
            );
        }
        self.connection0 = Some(connections[0]);
        self.connection1 = Some(connections[1]);
        Ok(())
    }

    /// Ready exactly when both neighbors have written.
    pub fn is_ready(&self, recv_from: &Vec<(usize, Message)>, _step: usize) -> (r: BPResult<bool>)
        ensures
            r is Ok,
            r->Ok_0 == (recv_from@.len() == 2),
    {
        Ok(recv_from.len() == 2)
    }

    /// Forgets the neighbor list.
    pub fn reset(&mut self) -> (r: BPResult<()>)
        ensures
            r is Ok,
            final(self)@ == (FactorNodeV {
                connection0: None::<usize>,
                connection1: None::<usize>,
                ..old(self)@
            }),
    {
        self.connection0 = None;
        self.connection1 = None;
        Ok(())
    }

    /// A factor holds no prior.
    pub fn get_prior(&self) -> (r: Option<Message>)
        ensures
            r is None,
    {
        None
    }

    /// Computes the two outbound messages from a full inbox: to each side,
    /// the table-weighted sums over the other side's message; see
    /// [`factor_outbox`]. Fails unless initialized and handed exactly the
    /// two neighbors' messages in connection order.
    pub fn node_function(&mut self, inbox: Vec<(usize, Message)>) -> (r: BPResult<
        Vec<(usize, Message)>,
    >)
        ensures
            final(self)@ == old(self)@,
            r is Ok <==> (old(self)@.connection0 is Some && old(self)@.connection1 is Some
                && inbox@.len() == 2 && posts(inbox@)[0].0 == old(self)@.connection0->0 && posts(
                inbox@,
            )[1].0 == old(self)@.connection1->0),
            r matches Err(e) ==> e.spec_kind() == ErrorKind::BehaviorError,
            r matches Ok(out) ==> posts(out@) == seq![
                (
                    old(self)@.connection0->0,
                    factor_outbox(posts(inbox@)[0].1, posts(inbox@)[1].1, old(self)@.table).0,
                ),
                (
                    old(self)@.connection1->0,
                    factor_outbox(posts(inbox@)[0].1, posts(inbox@)[1].1, old(self)@.table).1,
                ),
            ],
    {
        if self.connection0.is_none() || self.connection1.is_none() {
            return Err(
                BPError::new(
                    "FactorNode::node_function".to_owned(),
                    "factor is not initialized".to_owned(),
                ),
            );
        }
        if inbox.len() != 2 {
            return Err(
                BPError::new(
                    "FactorNode::node_function".to_owned(),
                    "a table factor needs exactly two messages".to_owned(),
                ),
            );
        }
        let c0 = *self.connection0.as_ref().unwrap();
        let c1 = *self.connection1.as_ref().unwrap();
        if inbox[0].0 != c0 || inbox[1].0 != c1 {
            return Err(
                BPError::new(
                    "FactorNode::node_function".to_owned(),
                    "received messages from the wrong neighbors".to_owned(),
                ),
            );
        }
        let m0 = &inbox[0].1;
        let m1 = &inbox[1].1;
        let ghost m0v = posts(inbox@)[0].1;
        let ghost m1v = posts(inbox@)[1].1;
        let ghost t = self@.table;
        proof {
            assert(m0v == m0@ && m1v == m1@);
        }
        let mut out0 = Message::new();
        let mut out1 = Message::new();
        let n0 = m0.len();
        let mut i: usize = 0;
        proof {
            assert(m0v.skip(0) =~= m0v);
        }
        while i < n0
            invariant
                self@.connection0 == Some(c0),
                self@.connection1 == Some(c1),
                t == self@.table,
                m0v == m0@,
                m1v == m1@,
                n0 == m0v.len(),
                i <= n0,
                out0.wf(),
                out1.wf(),
                factor_outbox(m0v, m1v, t) == factor_outer(out0@, out1@, m0v.skip(i as int), m1v, t),
            decreases n0 - i,
        {
            let e0 = m0.entry(i);
            let v0 = e0.0;
            let p0 = e0.1;
            let ghost g0 = out0@;
            let ghost g1 = out1@;
            proof {
                assert(m0v.skip(i as int)[0] == m0v[i as int]);
                assert(m0v.skip(i as int).skip(1) =~= m0v.skip(i + 1 as int));
                assert(m1v.skip(0) =~= m1v);
            }
            let n1 = m1.len();
            let mut j: usize = 0;
            while j < n1
                invariant
                    t == self@.table,
                    m0v == m0@,
                    m1v == m1@,
                    n1 == m1v.len(),
                    j <= n1,
                    v0 == m0v[i as int].0,
                    p0 == m0v[i as int].1,
                    out0.wf(),
                    out1.wf(),
                    factor_inner(g0, g1, v0, p0, m1v, t) == factor_inner(
                        out0@,
                        out1@,
                        v0,
                        p0,
                        m1v.skip(j as int),
                        t,
                    ),
                decreases n1 - j,
            {
                let e1 = m1.entry(j);
                let v1 = e1.0;
                let p1 = e1.1;
                proof {
                    assert(m1v.skip(j as int)[0] == m1v[j as int]);
                    assert(m1v.skip(j as int).skip(1) =~= m1v.skip(j + 1 as int));
                }
                let pf = table_lookup(&self.table, v0, v1);
                let add0 = p_mul(p1, pf);
                let add1 = p_mul(p0, pf);
                match out0.get(v0) {
                    Some(p) => out0.insert(v0, p_add(p, add0)),
                    None => out0.insert(v0, add0),
                }
                match out1.get(v1) {
                    Some(p) => out1.insert(v1, p_add(p, add1)),
                    None => out1.insert(v1, add1),
                }
                j += 1;
            }
            proof {
                assert(m1v.skip(n1 as int) =~= Seq::<(i64, u64)>::empty());
                assert(factor_inner(g0, g1, v0, p0, m1v, t) == (out0@, out1@));
            }
            i += 1;
        }
        proof {
            assert(m0v.skip(n0 as int) =~= Seq::<(i64, u64)>::empty());
            assert(factor_outbox(m0v, m1v, t) == (out0@, out1@));
        }
        let mut out: Vec<(usize, Message)> = Vec::new();
        out.push((c0, out0));
        out.push((c1, out1));
        proof {
            assert(posts(out@) =~= seq![
                (c0, factor_outbox(m0v, m1v, t).0),
                (c1, factor_outbox(m0v, m1v, t).1),
            ]);
        }
        Ok(out)
    }
}

/// The abstract state of a [`Behavior`].
pub enum BehaviorV {
    /// A variable node's state.
    Variable(VariableNodeV),
    /// A factor node's state.
    Factor(FactorNodeV),
}

/// The behavior a node delegates to: the standard variable-side combine, or
/// a two-neighbor table factor.
pub enum Behavior {
    /// The standard variable-side combine.
    Variable(VariableNode),
    /// A two-neighbor factor driven by a weight table.
    Factor(FactorNode),
}

impl View for Behavior {
    type V = BehaviorV;

    open spec fn view(&self) -> BehaviorV {
        match self {
            Behavior::Variable(v) => BehaviorV::Variable(v@),
            Behavior::Factor(f) => BehaviorV::Factor(f@),
        }
    }
}

/// Whether the behavior is a factor.
pub open spec fn behavior_is_factor(b: BehaviorV) -> bool {
    b is Factor
}

/// The fixed arity the behavior declares, if any.
pub open spec fn behavior_number_inputs(b: BehaviorV) -> Option<usize> {
    match b {
        BehaviorV::Variable(_) => None,
        BehaviorV::Factor(_) => Some(2usize),
    }
}

/// Whether the behavior has received its neighbor list.
pub open spec fn behavior_initialized(b: BehaviorV) -> bool {
    match b {
        BehaviorV::Variable(v) => v.connections is Some,
        BehaviorV::Factor(f) => f.connection0 is Some && f.connection1 is Some,
    }
}

/// Whether the behavior contributes messages, given how many it received.
pub open spec fn behavior_ready(b: BehaviorV, n_recv: nat) -> bool {
    match b {
        BehaviorV::Variable(v) => spec_is_ready(v, n_recv),
        BehaviorV::Factor(_) => n_recv == 2,
    }
}

/// The behavior's standing prior, if any.
pub open spec fn behavior_prior(b: BehaviorV) -> Option<Seq<(i64, u64)>> {
    match b {
        BehaviorV::Variable(v) => v.prior,
        BehaviorV::Factor(_) => None,
    }
}

/// Whether the behavior turns `inbox` into an outbox rather than an error.
pub open spec fn behavior_outbox_ok(b: BehaviorV, inbox: Seq<(usize, Seq<(i64, u64)>)>) -> bool {
    match b {
        BehaviorV::Variable(v) => inbox.len() > 0 || v.prior is Some,
        BehaviorV::Factor(f) => f.connection0 is Some && f.connection1 is Some && inbox.len() == 2
            && inbox[0].0 == f.connection0->0 && inbox[1].0 == f.connection1->0,
    }
}

/// The outbox the behavior produces from `inbox` when it succeeds.
pub open spec fn behavior_outbox(b: BehaviorV, inbox: Seq<(usize, Seq<(i64, u64)>)>) -> Seq<
    (usize, Seq<(i64, u64)>),
> {
    match b {
        BehaviorV::Variable(v) => variable_outbox(v, inbox),
        BehaviorV::Factor(f) => seq![
            (f.connection0->0, factor_outbox(inbox[0].1, inbox[1].1, f.table).0),
            (f.connection1->0, factor_outbox(inbox[0].1, inbox[1].1, f.table).1),
        ],
    }
}

/// The behavior's state after it was handed `n_recv` messages to turn into
/// an outbox: a variable that consumed at least one message has propagated;
/// a prior-only broadcast leaves it unchanged.
pub open spec fn behavior_after_outbox(b: BehaviorV, n_recv: nat) -> BehaviorV {
    match b {
        BehaviorV::Variable(v) => BehaviorV::Variable(
            VariableNodeV { has_propagated: v.has_propagated || n_recv > 0, ..v },
        ),
        BehaviorV::Factor(f) => BehaviorV::Factor(f),
    }
}

/// Whether the behavior accepts `cons` as its neighbor list.
pub open spec fn behavior_init_ok(b: BehaviorV, cons: Seq<usize>) -> bool {
    match b {
        BehaviorV::Variable(_) => true,
        BehaviorV::Factor(_) => cons.len() == 2,
    }
}

/// The behavior's state after receiving `cons` as its neighbor list.
pub open spec fn behavior_after_init(b: BehaviorV, cons: Seq<usize>) -> BehaviorV {
    match b {
        BehaviorV::Variable(v) => BehaviorV::Variable(
            VariableNodeV { connections: Some(cons), ..v },
        ),
        BehaviorV::Factor(f) => BehaviorV::Factor(
            FactorNodeV { connection0: Some(cons[0]), connection1: Some(cons[1]), ..f },
        ),
    }
}

/// The behavior's state after a reset: back to the pre-initialization
/// state. The neighbor lists and the propagation flag are forgotten; the
/// prior, the policy settings and the weight table are build data and stay.
pub open spec fn behavior_after_reset(b: BehaviorV) -> BehaviorV {
    match b {
        BehaviorV::Variable(v) => BehaviorV::Variable(
            VariableNodeV {
                connections: None::<Seq<usize>>,
                has_propagated: false,
                ..v
            },
        ),
        BehaviorV::Factor(f) => BehaviorV::Factor(
            FactorNodeV { connection0: None::<usize>, connection1: None::<usize>, ..f },
        ),
    }
}

impl Behavior {
    /// Whether this behavior is a factor.
    pub fn is_factor(&self) -> (r: bool)
        ensures
            r == behavior_is_factor(self@),
    {
        match self {
            Behavior::Variable(v) => v.is_factor(),
            Behavior::Factor(f) => f.is_factor(),
        }
    }

    /// The fixed arity this behavior declares, if any.
    pub fn number_inputs(&self) -> (r: Option<usize>)
        ensures
            r == behavior_number_inputs(self@),
    {
        match self {
            Behavior::Variable(v) => v.number_inputs(),
            Behavior::Factor(f) => f.number_inputs(),
        }
    }

    /// Whether this behavior contributes messages this step.
    pub fn is_ready(&self, recv_from: &Vec<(usize, Message)>, step: usize) -> (r: BPResult<bool>)
        requires
            self@ is Variable ==> behavior_initialized(self@),
        ensures
            r is Ok,
            r->Ok_0 == behavior_ready(self@, recv_from@.len()),
    {
        match self {
            Behavior::Variable(v) => v.is_ready(recv_from, step),
            Behavior::Factor(f) => f.is_ready(recv_from, step),
        }
    }

    /// The standing prior, if any.
    pub fn get_prior(&self) -> (r: Option<Message>)
        ensures
            r is Some <==> behavior_prior(self@) is Some,
            r is Some ==> r->0@ == behavior_prior(self@)->0,
    {
        match self {
            Behavior::Variable(v) => v.get_prior(),
            Behavior::Factor(f) => f.get_prior(),
        }
    }

    /// Receives the final neighbor list.
    pub fn initialize(&mut self, connections: Vec<usize>) -> (r: BPResult<()>)
        ensures
            r is Ok <==> behavior_init_ok(old(self)@, connections@),
            r is Ok ==> final(self)@ == behavior_after_init(old(self)@, connections@),
            r matches Err(e) ==> final(self)@ == old(self)@ && e.spec_kind()
                == ErrorKind::ArityMismatch,
    {
        match self {
            Behavior::Variable(v) => v.initialize(connections),
            Behavior::Factor(f) => f.initialize(connections),
        }
    }

    /// Returns the behavior to its pre-initialization state.
    pub fn reset(&mut self) -> (r: BPResult<()>)
        ensures
            r is Ok,
            final(self)@ == behavior_after_reset(old(self)@),
    {
        match self {
            Behavior::Variable(v) => v.reset(),
            Behavior::Factor(f) => f.reset(),
        }
    }

    /// Turns the drained inbox into the outbound messages of this step; see
    /// [`behavior_outbox`].
    pub fn node_function(&mut self, inbox: Vec<(usize, Message)>) -> (r: BPResult<
        Vec<(usize, Message)>,
    >)
        requires
            old(self)@ is Variable ==> behavior_initialized(old(self)@),
        ensures
            final(self)@ == behavior_after_outbox(old(self)@, inbox@.len()),
            r is Ok <==> behavior_outbox_ok(old(self)@, posts(inbox@)),
            r matches Ok(out) ==> posts(out@) == behavior_outbox(old(self)@, posts(inbox@)),
            r matches Err(e) ==> e.spec_kind() == ErrorKind::EmptyInbox || e.spec_kind()
                == ErrorKind::BehaviorError,
    {
        match self {
            Behavior::Variable(v) => v.node_function(inbox),
            Behavior::Factor(f) => f.node_function(inbox),
        }
    }

    /// Answers a control value; both behaviors return the default ack.
    pub fn send_control_message(&mut self, _ctrl_msg: CtrlMsg) -> (r: BPResult<CtrlAck>)
        ensures
            final(self)@ == old(self)@,
            r is Ok,
    {
        Ok(CtrlAck::default())
    }

    /// Reserved hint; always off.
    pub fn discard_mode(&self) -> (r: bool)
        ensures
            r == false,
    {
        false
    }
}

} // verus!
