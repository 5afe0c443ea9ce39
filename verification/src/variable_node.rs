//! The standard variable-node behavior.
//!
//! A variable node combines its incoming messages with an optional prior and
//! sends, to each addressed neighbor, a product of the other inputs. The
//! combine runs in two passes (prefix products forward, a running suffix
//! backward) so a step costs O(n) message products instead of O(n^2). The
//! contracts here state the two-pass computation exactly, pass by pass; see
//! [`lemma_two_pass_pair`] for where it meets the naive product definition.

use vstd::prelude::*;

use crate::bperror::{BPError, BPResult, ErrorKind};
use crate::msg::{posts, spec_mult, Message};

verus! {

/// When a variable node is ready after the first step, given a partial inbox.
#[derive(Clone, Copy, PartialEq, Eq, Structural, Debug)]
pub enum InputNeed {
    /// Needs a full inbox every step after the first.
    AlwaysExceptFirst,
    /// Needs a full inbox every step.
    Always,
    /// Needs a full inbox only for the first step.
    NeverExceptFirst,
    /// Never needs a full inbox.
    Never,
}

/// The abstract state of a [`VariableNode`].
pub struct VariableNodeV {
    /// Reserved log-space toggle; never set by this crate.
    pub is_log: bool,
    /// The neighbor list received at initialization.
    pub connections: Option<Seq<usize>>,
    /// The standing prior distribution, if any.
    pub prior: Option<Seq<(i64, u64)>>,
    /// Hint that the node may run under the threaded driver.
    pub is_threaded: bool,
    /// The readiness policy after the first step.
    pub needs_all_inputs: InputNeed,
    /// Whether the node has produced messages at least once.
    pub has_propagated: bool,
    /// Whether unreached neighbors receive a fallback message.
    pub send_to_all: bool,
}

/// A behavior implementing the standard variable-side combine.
pub struct VariableNode {
    is_log: bool,
    connections: Option<Vec<usize>>,
    prior: Option<Message>,
    is_threaded: bool,
    needs_all_inputs: InputNeed,
    has_propagated: bool,
    send_to_all: bool,
}

impl View for VariableNode {
    type V = VariableNodeV;

    closed spec fn view(&self) -> VariableNodeV {
        VariableNodeV {
            is_log: self.is_log,
            connections: match self.connections {
                Some(c) => Some(c@),
                None => None,
            },
            prior: match self.prior {
                Some(p) => Some(p@),
                None => None,
            },
            is_threaded: self.is_threaded,
            needs_all_inputs: self.needs_all_inputs,
            has_propagated: self.has_propagated,
            send_to_all: self.send_to_all,
        }
    }
}

/// The senders of an inbox, in arrival order.
pub open spec fn senders(inbox: Seq<(usize, Seq<(i64, u64)>)>) -> Seq<usize> {
    inbox.map_values(|e: (usize, Seq<(i64, u64)>)| e.0)
}

/// The connections that none of `snd` addresses, in connection order.
pub open spec fn spec_missing(cons: Seq<usize>, snd: Seq<usize>) -> Seq<usize>
    decreases cons.len(),
{
    if cons.len() == 0 {
        Seq::empty()
    } else {
        let rest = spec_missing(cons.skip(1), snd);
        if snd.contains(cons[0]) {
            rest
        } else {
            seq![cons[0]] + rest
        }
    }
}

/// The forward pass: consumes `msgs` in order, emitting for each one the
/// running prefix product `acc` and then folding the message into `acc`.
pub open spec fn forward_pass(
    entries: Seq<(usize, Seq<(i64, u64)>)>,
    acc: Seq<(i64, u64)>,
    msgs: Seq<(usize, Seq<(i64, u64)>)>,
) -> (Seq<(usize, Seq<(i64, u64)>)>, Seq<(i64, u64)>)
    decreases msgs.len(),
{
    if msgs.len() == 0 {
        (entries, acc)
    } else {
        forward_pass(
            entries.push((msgs[0].0, acc)),
            spec_mult(acc, msgs[0].1),
            msgs.skip(1),
        )
    }
}

/// The backward pass: walks the stored prefix products from index `i` down
/// to 0, multiplying each by the running suffix `acc` and folding the updated
/// entry back into `acc`.
pub open spec fn backward_pass(
    entries: Seq<(usize, Seq<(i64, u64)>)>,
    acc: Seq<(i64, u64)>,
    i: int,
) -> (Seq<(usize, Seq<(i64, u64)>)>, Seq<(i64, u64)>)
    decreases i + 1,
{
    if i < 0 {
        (entries, acc)
    } else {
        let e = spec_mult(entries[i].1, acc);
        backward_pass(entries.update(i, (entries[i].0, e)), spec_mult(acc, e), i - 1)
    }
}

/// The two-pass combine over an inbox of at least two messages: the forward
/// pass seeded with the prior (or, without one, with the first message, which
/// is also emitted as the first entry), then the backward pass seeded with
/// the last message. Yields the outbound entries and the final suffix
/// accumulator.
pub open spec fn two_pass(
    prior: Option<Seq<(i64, u64)>>,
    inbox: Seq<(usize, Seq<(i64, u64)>)>,
) -> (Seq<(usize, Seq<(i64, u64)>)>, Seq<(i64, u64)>)
    recommends
        inbox.len() >= 2,
{
    let fw = match prior {
        Some(p) => forward_pass(Seq::empty(), p, inbox),
        None => forward_pass(seq![inbox[0]], inbox[0].1, inbox.skip(1)),
    };
    backward_pass(fw.0, inbox.last().1, inbox.len() - 2)
}

/// What [`VariableNode::node_function`] sends for a non-empty inbox, given
/// the node's state. A single message is answered with the prior (to its
/// sender) and the message, multiplied by the prior if any, to every other
/// neighbor; two or more run the two-pass combine, and with `send_to_all`
/// every unreached neighbor also receives the final suffix accumulator.
pub open spec fn variable_outbox(
    v: VariableNodeV,
    inbox: Seq<(usize, Seq<(i64, u64)>)>,
) -> Seq<(usize, Seq<(i64, u64)>)>
    recommends
        v.connections is Some,
        inbox.len() > 0 || v.prior is Some,
{
    let cons = v.connections->0;
    if inbox.len() == 0 {
        cons.map_values(|c: usize| (c, v.prior->0))
    } else if inbox.len() == 1 {
        let m = match v.prior {
            Some(p) => spec_mult(inbox[0].1, p),
            None => inbox[0].1,
        };
        let head: Seq<(usize, Seq<(i64, u64)>)> = match v.prior {
            Some(p) => seq![(inbox[0].0, p)],
            None => Seq::empty(),
        };
        head + spec_missing(cons, seq![inbox[0].0]).map_values(|c: usize| (c, m))
    } else if inbox.len() == cons.len() || !v.send_to_all {
        two_pass(v.prior, inbox).0
    } else {
        let tp = two_pass(v.prior, inbox);
        tp.0 + spec_missing(cons, senders(inbox)).map_values(|c: usize| (c, tp.1))
    }
}

/// Whether a variable node in state `v` contributes messages this step,
/// given how many messages it has received: always with a full inbox; never
/// with an empty inbox and no prior; otherwise by its [`InputNeed`] policy.
pub open spec fn spec_is_ready(v: VariableNodeV, n_recv: nat) -> bool
    recommends
        v.connections is Some,
{
    if n_recv == v.connections->0.len() {
        true
    } else if n_recv == 0 && v.prior is None {
        false
    } else {
        match v.needs_all_inputs {
            InputNeed::AlwaysExceptFirst => !v.has_propagated,
            InputNeed::NeverExceptFirst => v.has_propagated,
            InputNeed::Never => true,
            InputNeed::Always => false,
        }
    }
}


/// With a standing prior and an empty inbox, one step broadcasts the prior
/// to every neighbor and leaves the node's own state exactly as it was:
/// prior-only steps are idempotent and repeat.
pub proof fn lemma_prior_only_idempotent(v: VariableNodeV)
    requires
        v.connections is Some,
        v.prior is Some,
    ensures
        variable_outbox(v, Seq::empty()) == v.connections->0.map_values(
            |c: usize| (c, v.prior->0),
        ),
        (VariableNodeV { has_propagated: v.has_propagated || false, ..v }) == v,
{
}

/// The two-pass combine over a prior and a two-message inbox equals the
/// naive product definition, entry by entry: each sender is answered with
/// the product of the prior and the other sender's message.
pub proof fn lemma_two_pass_pair(
    p: Seq<(i64, u64)>,
    a: (usize, Seq<(i64, u64)>),
    b: (usize, Seq<(i64, u64)>),
)
    ensures
        two_pass(Some(p), seq![a, b]).0 == seq![
            (a.0, spec_mult(p, b.1)),
            (b.0, spec_mult(p, a.1)),
        ],
{
    let ib = seq![a, b];
    assert(ib.skip(1) =~= seq![b]);
    assert(seq![b].skip(1) =~= Seq::<(usize, Seq<(i64, u64)>)>::empty());
    let e0 = Seq::<(usize, Seq<(i64, u64)>)>::empty();
    let f1 = e0.push((a.0, p));
    let f2 = f1.push((b.0, spec_mult(p, a.1)));
    assert(forward_pass(e0, p, ib) == forward_pass(f1, spec_mult(p, a.1), seq![b]));
    assert(forward_pass(f1, spec_mult(p, a.1), seq![b]) == forward_pass(
        f2,
        spec_mult(spec_mult(p, a.1), b.1),
        Seq::<(usize, Seq<(i64, u64)>)>::empty(),
    ));
    assert(two_pass(Some(p), ib).0 == backward_pass(f2, b.1, 0).0);
    assert(f2[0].1 == p);
    let upd = f2.update(0, (a.0, spec_mult(p, b.1)));
    assert(backward_pass(f2, b.1, 0) == backward_pass(
        upd,
        spec_mult(b.1, spec_mult(p, b.1)),
        -1,
    ));
    assert(upd =~= seq![(a.0, spec_mult(p, b.1)), (b.0, spec_mult(p, a.1))]);
}

/// Variable combine symmetry, for a prior and two inputs: swapping the two
/// inbox entries permutes the outbox, but the message each sender receives
/// is unchanged, bit for bit.
pub proof fn lemma_combine_two_symmetric(
    v: VariableNodeV,
    a: (usize, Seq<(i64, u64)>),
    b: (usize, Seq<(i64, u64)>),
)
    requires
        v.connections is Some,
        v.prior is Some,
        v.connections->0.len() == 2 || !v.send_to_all,
    ensures
        variable_outbox(v, seq![a, b])[0] == (a.0, spec_mult(v.prior->0, b.1)),
        variable_outbox(v, seq![b, a])[1] == (a.0, spec_mult(v.prior->0, b.1)),
        variable_outbox(v, seq![a, b])[1] == (b.0, spec_mult(v.prior->0, a.1)),
        variable_outbox(v, seq![b, a])[0] == (b.0, spec_mult(v.prior->0, a.1)),
{
    let p = v.prior->0;
    lemma_two_pass_pair(p, a, b);
    lemma_two_pass_pair(p, b, a);
    assert(seq![a, b].len() == 2);
    assert(variable_outbox(v, seq![a, b]) == two_pass(Some(p), seq![a, b]).0);
    assert(variable_outbox(v, seq![b, a]) == two_pass(Some(p), seq![b, a]).0);
}

/// The naive product: `acc` folded with every message, left to right, one
/// [`spec_mult`] per message.
pub open spec fn fold_mult(acc: Seq<(i64, u64)>, msgs: Seq<Seq<(i64, u64)>>) -> Seq<(i64, u64)>
    decreases msgs.len(),
{
    if msgs.len() == 0 {
        acc
    } else {
        fold_mult(spec_mult(acc, msgs[0]), msgs.skip(1))
    }
}

/// What the forward pass emits: the stored entries, then one entry per
/// message carrying the running prefix product.
proof fn lemma_forward_entries(
    entries: Seq<(usize, Seq<(i64, u64)>)>,
    acc: Seq<(i64, u64)>,
    msgs: Seq<(usize, Seq<(i64, u64)>)>,
)
    ensures
        forward_pass(entries, acc, msgs).0.len() == entries.len() + msgs.len(),
        forall|k: int|
            0 <= k < entries.len() ==> forward_pass(entries, acc, msgs).0[k] == entries[k],
        forall|t: int|
            0 <= t < msgs.len() ==> forward_pass(entries, acc, msgs).0[entries.len() + t] == (
                msgs[t].0,
                fold_mult(
                    acc,
                    msgs.map_values(|e: (usize, Seq<(i64, u64)>)| e.1).take(t),
                ),
            ),
    decreases msgs.len(),
{
    if msgs.len() > 0 {
        let e2 = entries.push((msgs[0].0, acc));
        let a2 = spec_mult(acc, msgs[0].1);
        assert(forward_pass(entries, acc, msgs) == forward_pass(e2, a2, msgs.skip(1)));
        lemma_forward_entries(e2, a2, msgs.skip(1));
        assert(forall|k: int|
            0 <= k < entries.len() ==> forward_pass(e2, a2, msgs.skip(1)).0[k] == e2[k]
                && e2[k] == entries[k]);
        let pay = msgs.map_values(|e: (usize, Seq<(i64, u64)>)| e.1);
        let pay2 = msgs.skip(1).map_values(|e: (usize, Seq<(i64, u64)>)| e.1);
        assert forall|t: int|
            0 <= t < msgs.len() implies forward_pass(entries, acc, msgs).0[entries.len() + t] == (
            msgs[t].0,
            fold_mult(acc, pay.take(t)),
        ) by {
            if t == 0 {
                assert(forward_pass(entries, acc, msgs).0[entries.len() as int] == e2[entries.len() as int]);
                assert(pay.take(0) =~= Seq::<Seq<(i64, u64)>>::empty());
            } else {
                assert(forward_pass(entries, acc, msgs).0[entries.len() + t] == (
                    msgs.skip(1)[t - 1].0,
                    fold_mult(a2, pay2.take(t - 1)),
                ));
                assert(pay.take(t)[0] == msgs[0].1);
                assert(pay.take(t).skip(1) =~= pay2.take(t - 1));
                assert(fold_mult(acc, pay.take(t)) == fold_mult(a2, pay2.take(t - 1)));
            }
        }
    }
}

/// The backward pass rewrites only the entries it walks: everything past
/// index `i` stays, and entry `i` itself is multiplied by the entering
/// suffix accumulator.
proof fn lemma_backward_untouched(
    entries: Seq<(usize, Seq<(i64, u64)>)>,
    acc: Seq<(i64, u64)>,
    i: int,
)
    requires
        i < entries.len(),
    ensures
        backward_pass(entries, acc, i).0.len() == entries.len(),
        forall|j: int|
            i < j < entries.len() ==> backward_pass(entries, acc, i).0[j] == entries[j],
        0 <= i < entries.len() ==> backward_pass(entries, acc, i).0[i] == (
            entries[i].0,
            spec_mult(entries[i].1, acc),
        ),
    decreases i + 1,
{
    if i >= 0 {
        let e = spec_mult(entries[i].1, acc);
        let upd = entries.update(i, (entries[i].0, e));
        assert(backward_pass(entries, acc, i) == backward_pass(upd, spec_mult(acc, e), i - 1));
        lemma_backward_untouched(upd, spec_mult(acc, e), i - 1);
        assert(backward_pass(upd, spec_mult(acc, e), i - 1).0[i] == upd[i]);
        assert forall|j: int|
            i < j < entries.len() implies backward_pass(entries, acc, i).0[j] == entries[j] by {
            assert(backward_pass(upd, spec_mult(acc, e), i - 1).0[j] == upd[j]);
            assert(upd[j] == entries[j]);
        }
    }
}

/// Two-pass equivalence with the naive definition, for the senders the pass
/// answers exactly: with a prior, the last sender of any inbox receives the
/// naive left-fold product of the prior and every other message, and the
/// sender before it likewise. ([`lemma_two_pass_pair`] shows that for two
/// senders the whole outbox is naive; the earlier entries of a longer inbox
/// carry the pass's running partial products instead.)
pub proof fn lemma_two_pass_last_entries(p: Seq<(i64, u64)>, inbox: Seq<(usize, Seq<(i64, u64)>)>)
    requires
        inbox.len() >= 2,
    ensures
        two_pass(Some(p), inbox).0.len() == inbox.len(),
        two_pass(Some(p), inbox).0.last() == (
            inbox.last().0,
            fold_mult(
                p,
                inbox.map_values(|e: (usize, Seq<(i64, u64)>)| e.1).take(inbox.len() - 1),
            ),
        ),
        two_pass(Some(p), inbox).0[inbox.len() - 2] == (
            inbox[inbox.len() - 2].0,
            spec_mult(
                fold_mult(
                    p,
                    inbox.map_values(|e: (usize, Seq<(i64, u64)>)| e.1).take(inbox.len() - 2),
                ),
                inbox.last().1,
            ),
        ),
{
    let n = inbox.len() as int;
    let e0 = Seq::<(usize, Seq<(i64, u64)>)>::empty();
    lemma_forward_entries(e0, p, inbox);
    let fw = forward_pass(e0, p, inbox).0;
    lemma_backward_untouched(fw, inbox.last().1, n - 2);
    assert(fw[n - 1] == two_pass(Some(p), inbox).0[n - 1]);
}

/// Whether some entry of `inbox` came from `c`.
fn sender_present(inbox: &Vec<(usize, Message)>, c: usize) -> (r: bool)
    ensures
        r == senders(posts(inbox@)).contains(c),
{
    let n = inbox.len();
    let mut i: usize = 0;
    while i < n
        invariant
            n == inbox@.len(),
            i <= n,
            forall|j: int| 0 <= j < i ==> senders(posts(inbox@))[j] != c,
        decreases n - i,
    {
        if inbox[i].0 == c {
            proof {
                assert(senders(posts(inbox@))[i as int] == c);
            }
            return true;
        }
        i += 1;
    }
    proof {
        assert(!senders(posts(inbox@)).contains(c));
    }
    false
}

/// The connections that no inbox entry addresses, in connection order.
fn compute_missing(cons: &Vec<usize>, inbox: &Vec<(usize, Message)>) -> (r: Vec<usize>)
    ensures
        r@ == spec_missing(cons@, senders(posts(inbox@))),
{
    let ghost snd = senders(posts(inbox@));
    let mut r: Vec<usize> = Vec::new();
    let n = cons.len();
    let mut i: usize = 0;
    proof {
        assert(cons@.skip(0) =~= cons@);
    }
    while i < n
        invariant
            n == cons@.len(),
            i <= n,
            snd == senders(posts(inbox@)),
            spec_missing(cons@, snd) == r@ + spec_missing(cons@.skip(i as int), snd),
        decreases n - i,
    {
        let c = cons[i];
        let ghost rest = cons@.skip(i as int);
        proof {
            assert(rest[0] == cons@[i as int]);
            assert(rest.skip(1) =~= cons@.skip(i + 1 as int));
        }
        if !sender_present(inbox, c) {
            r.push(c);
            proof {
                assert(r@ =~= r@.take(r@.len() - 1) + seq![c]);
                assert((r@.take(r@.len() - 1) + seq![c]) + spec_missing(cons@.skip(i + 1 as int), snd)
                    =~= r@.take(r@.len() - 1) + (seq![c] + spec_missing(cons@.skip(i + 1 as int), snd)));
            }
        }
        i += 1;
    }
    proof {
        assert(cons@.skip(n as int) =~= Seq::<usize>::empty());
        assert(r@ + Seq::<usize>::empty() =~= r@);
    }
    r
}

impl VariableNode {
    /// A fresh variable node: no prior, no connections, default readiness
    /// policy (`AlwaysExceptFirst`), fallback messages off.
    pub fn new() -> (r: Self)
        ensures
            r@ == (VariableNodeV {
                is_log: false,
                connections: None::<Seq<usize>>,
                prior: None::<Seq<(i64, u64)>>,
                is_threaded: true,
                needs_all_inputs: InputNeed::AlwaysExceptFirst,
                has_propagated: false,
                send_to_all: false,
            }),
    {
        VariableNode {
            is_log: false,
            connections: None,
            prior: None,
            is_threaded: true,
            needs_all_inputs: InputNeed::AlwaysExceptFirst,
            has_propagated: false,
            send_to_all: false,
        }
    }

    /// Sets the standing prior. Fails when one is already set.
    pub fn set_prior(&mut self, prior: &Message) -> (r: BPResult<()>)
        ensures
            r is Ok <==> old(self)@.prior is None,
            r is Ok ==> final(self)@ == (VariableNodeV { prior: Some(prior@), ..old(self)@ }),
            r is Err ==> final(self)@ == old(self)@ && r->Err_0.spec_kind()
                == ErrorKind::BehaviorError,
    {
        if self.prior.is_some() {
            return Err(
                BPError::new(
                    "VariableNode::set_prior".to_owned(),
                    "prior is already set".to_owned(),
                ),
            );
        }
        self.prior = Some(prior.clone());
        Ok(())
    }

    /// Sets the readiness policy.
    pub fn set_input_need(&mut self, input_need: InputNeed)
        ensures
            final(self)@ == (VariableNodeV { needs_all_inputs: input_need, ..old(self)@ }),
    {
        self.needs_all_inputs = input_need;
    }

    /// Sets the threading hint.
    pub fn set_threaded(&mut self, is_threaded: bool)
        ensures
            final(self)@ == (VariableNodeV { is_threaded: is_threaded, ..old(self)@ }),
    {
        self.is_threaded = is_threaded;
    }

    /// Sets whether unreached neighbors receive a fallback message.
    pub fn set_send_to_all(&mut self, send_to_all: bool)
        ensures
            final(self)@ == (VariableNodeV { send_to_all: send_to_all, ..old(self)@ }),
    {
        self.send_to_all = send_to_all;
    }

    /// Whether the node contributes messages this step; see [`spec_is_ready`].
    pub fn is_ready(&self, recv_from: &Vec<(usize, Message)>, _step: usize) -> (r: BPResult<bool>)
        requires
            self@.connections is Some,
        ensures
            r is Ok,
            r->Ok_0 == spec_is_ready(self@, recv_from@.len()),
    {
        let cons = self.connections.as_ref().unwrap();
        Ok(
            if recv_from.len() == cons.len() {
                true
            } else if recv_from.len() == 0 && self.prior.is_none() {
                false
            } else {
                match self.needs_all_inputs {
                    InputNeed::AlwaysExceptFirst => !self.has_propagated,
                    InputNeed::NeverExceptFirst => self.has_propagated,
                    InputNeed::Never => true,
                    InputNeed::Always => false,
                }
            },
        )
    }

    /// The standing prior, if any.
    pub fn get_prior(&self) -> (r: Option<Message>)
        ensures
            r is Some <==> self@.prior is Some,
            r is Some ==> r->0@ == self@.prior->0,
    {
        match &self.prior {
            Some(p) => Some(p.clone()),
            None => None,
        }
    }

    /// Receives the final neighbor list.
    pub fn initialize(&mut self, connections: Vec<usize>) -> (r: BPResult<()>)
        ensures
            r is Ok,
            final(self)@ == (VariableNodeV { connections: Some(connections@), ..old(self)@ }),
    {
        self.connections = Some(connections);
        Ok(())
    }

    /// Returns to the pre-initialization state: the neighbor list and the
    /// propagation flag are forgotten. The prior and the policy settings are
    /// build data and stay, so a reset graph rebuilds to the state it was
    /// built in.
    pub fn reset(&mut self) -> (r: BPResult<()>)
        ensures
            r is Ok,
            final(self)@ == (VariableNodeV {
                connections: None::<Seq<usize>>,
                has_propagated: false,
                ..old(self)@
            }),
    {
        self.connections = None;
        self.has_propagated = false;
        Ok(())
    }

    /// A variable node is not a factor.
    pub fn is_factor(&self) -> (r: bool)
        ensures
            r == false,
    {
        false
    }

    /// A variable node declares no fixed arity.
    pub fn number_inputs(&self) -> (r: Option<usize>)
        ensures
            r is None,
    {
        None
    }

    /// Computes the outbound messages for this step from the drained inbox:
    /// an empty inbox broadcasts the prior (or fails with `EmptyInbox` when
    /// none is set), a single message is answered directly, and two or more
    /// run the two-pass combine; see [`variable_outbox`] for the exact
    /// result. Consuming at least one message marks the node as having
    /// propagated; a prior-only broadcast leaves the node's own state
    /// unchanged, so such steps repeat.
    pub fn node_function(&mut self, inbox: Vec<(usize, Message)>) -> (r: BPResult<
        Vec<(usize, Message)>,
    >)
        requires
            old(self)@.connections is Some,
        ensures
            final(self)@ == (VariableNodeV {
                has_propagated: old(self)@.has_propagated || inbox@.len() > 0,
                ..old(self)@
            }),
            r is Ok <==> (inbox@.len() > 0 || old(self)@.prior is Some),
            r matches Err(e) ==> e.spec_kind() == ErrorKind::EmptyInbox,
            r matches Ok(out) ==> posts(out@) == variable_outbox(old(self)@, posts(inbox@)),
    {
        let ghost v = old(self)@;
        let ghost ib = posts(inbox@);
        if inbox.len() > 0 {
            self.has_propagated = true;
        }
        let prior: Option<Message> = match &self.prior {
            Some(p) => Some(p.clone()),
            None => None,
        };
        let cons_len = match &self.connections {
            Some(c) => c.len(),
            None => 0,
        };
        let n = inbox.len();
        if n == 0 {
            match prior {
                Some(p) => {
                    let cons = self.connections.as_ref().unwrap();
                    let mut out: Vec<(usize, Message)> = Vec::new();
                    let mut i: usize = 0;
                    while i < cons.len()
                        invariant
                            self@ == v,
                            v.connections == Some(cons@),
                            p@ == v.prior->0,
                            i <= cons@.len(),
                            posts(out@) =~= cons@.take(i as int).map_values(
                                |c: usize| (c, v.prior->0),
                            ),
                        decreases cons@.len() - i,
                    {
                        let ghost beforeo = posts(out@);
                        out.push((cons[i], p.clone()));
                        proof {
                            assert(posts(out@) =~= beforeo.push((cons@[i as int], v.prior->0)));
                            assert(cons@.take(i + 1 as int) =~= cons@.take(i as int).push(
                                cons@[i as int],
                            ));
                            assert(posts(out@) =~= cons@.take(i + 1 as int).map_values(
                                |c: usize| (c, v.prior->0),
                            ));
                        }
                        i += 1;
                    }
                    proof {
                        assert(cons@.take(cons@.len() as int) =~= cons@);
                        assert(posts(out@) =~= variable_outbox(v, ib));
                    }
                    Ok(out)
                },
                None => Err(
                    BPError::with_kind(
                        ErrorKind::EmptyInbox,
                        "VariableNode::node_function".to_owned(),
                        "inbox is empty".to_owned(),
                    ),
                ),
            }
        } else if n == 1 {
            let idx_in = inbox[0].0;
            let mut msg_in = inbox[0].1.clone();
            let mut out: Vec<(usize, Message)> = Vec::new();
            let ghost m = match v.prior {
                Some(pv) => spec_mult(ib[0].1, pv),
                None => ib[0].1,
            };
            let ghost head: Seq<(usize, Seq<(i64, u64)>)> = match v.prior {
                Some(pv) => seq![(ib[0].0, pv)],
                None => Seq::empty(),
            };
            match &prior {
                Some(p) => {
                    msg_in.mult_msg(p);
                    out.push((idx_in, p.clone()));
                },
                None => {},
            }
            proof {
                assert(posts(out@) =~= head);
                assert(msg_in@ == m);
            }
            let cons = self.connections.as_ref().unwrap();
            let ghost snd: Seq<usize> = seq![ib[0].0];
            let mut i: usize = 0;
            proof {
                assert(cons@.skip(0) =~= cons@);
                assert(head + spec_missing(cons@.skip(0), snd).map_values(|c: usize| (c, m))
                    =~= head + spec_missing(cons@, snd).map_values(|c: usize| (c, m)));
            }
            while i < cons.len()
                invariant
                    self@ == (VariableNodeV { has_propagated: true, ..v }),
                    v.connections == Some(cons@),
                    i <= cons@.len(),
                    msg_in@ == m,
                    snd == seq![ib[0].0],
                    idx_in == ib[0].0,
                    posts(out@) + spec_missing(cons@.skip(i as int), snd).map_values(
                        |c: usize| (c, m),
                    ) == head + spec_missing(cons@, snd).map_values(|c: usize| (c, m)),
                decreases cons@.len() - i,
            {
                let c = cons[i];
                let ghost rest = cons@.skip(i as int);
                proof {
                    assert(rest[0] == cons@[i as int]);
                    assert(rest.skip(1) =~= cons@.skip(i + 1 as int));
                    assert(snd.len() == 1);
                    if c == idx_in {
                        assert(snd[0] == c);
                        assert(snd.contains(c));
                    }
                    if snd.contains(c) {
                        let wi = choose|wi: int| 0 <= wi < snd.len() && snd[wi] == c;
                        assert(wi == 0);
                        assert(c == idx_in);
                    }
                }
                if c != idx_in {
                    out.push((c, msg_in.clone()));
                    proof {
                        assert(posts(out@) =~= posts(out@).take(posts(out@).len() - 1) + seq![
                            (c, m),
                        ]);
                        assert((seq![c] + spec_missing(cons@.skip(i + 1 as int), snd)).map_values(
                            |c: usize| (c, m),
                        ) =~= seq![(c, m)] + spec_missing(cons@.skip(i + 1 as int), snd).map_values(
                            |c: usize| (c, m),
                        ));
                        assert(posts(out@) + spec_missing(cons@.skip(i + 1 as int), snd).map_values(
                            |c: usize| (c, m),
                        ) =~= head + spec_missing(cons@, snd).map_values(|c: usize| (c, m)));
                    }
                }
                i += 1;
            }
            proof {
                assert(cons@.skip(cons@.len() as int) =~= Seq::<usize>::empty());
                assert(spec_missing(Seq::<usize>::empty(), snd).map_values(|c: usize| (c, m))
                    =~= Seq::<(usize, Seq<(i64, u64)>)>::empty());
                assert(posts(out@) + Seq::<(usize, Seq<(i64, u64)>)>::empty() =~= posts(out@));
                assert(posts(out@) == variable_outbox(v, ib));
            }
            Ok(out)
        } else {
            let mut result: Vec<(usize, Message)> = Vec::new();
            let mut acc: Message;
            let start: usize;
            match &prior {
                Some(p) => {
                    acc = p.clone();
                    start = 0;
                },
                None => {
                    result.push((inbox[0].0, inbox[0].1.clone()));
                    acc = inbox[0].1.clone();
                    start = 1;
                },
            }
            let ghost e0 = posts(result@);
            let ghost a0 = acc@;
            let ghost ms = ib.skip(start as int);
            proof {
                if v.prior is Some {
                    assert(ib.skip(0) =~= ib);
                    assert(e0 =~= Seq::<(usize, Seq<(i64, u64)>)>::empty());
                } else {
                    assert(e0 =~= seq![ib[0]]);
                }
            }
            let mut i = start;
            while i < n
                invariant
                    self@ == (VariableNodeV { has_propagated: true, ..v }),
                    n == inbox@.len(),
                    ib == posts(inbox@),
                    start <= i <= n,
                    result@.len() == i,
                    forward_pass(e0, a0, ms) == forward_pass(
                        posts(result@),
                        acc@,
                        ib.skip(i as int),
                    ),
                decreases n - i,
            {
                proof {
                    assert(ib.skip(i as int)[0] == ib[i as int]);
                    assert(ib.skip(i as int).skip(1) =~= ib.skip(i + 1 as int));
                }
                let ghost before = posts(result@);
                result.push((inbox[i].0, acc.clone()));
                proof {
                    assert(posts(result@) =~= before.push((ib[i as int].0, acc@)));
                }
                acc.mult_msg(&inbox[i].1);
                i += 1;
            }
            proof {
                assert(ib.skip(n as int) =~= Seq::<(usize, Seq<(i64, u64)>)>::empty());
                assert(forward_pass(e0, a0, ms) == (posts(result@), acc@));
            }
            let ghost fw = forward_pass(e0, a0, ms);
            acc = inbox[n - 1].1.clone();
            let ghost eb = fw.0;
            let ghost ab0 = ib.last().1;
            proof {
                assert(acc@ == ab0);
                assert(posts(result@) == eb);
            }
            let mut bi: usize = n - 1;
            while bi > 0
                invariant
                    self@ == (VariableNodeV { has_propagated: true, ..v }),
                    n == inbox@.len(),
                    n >= 2,
                    ib == posts(inbox@),
                    bi <= n - 1,
                    result@.len() == n,
                    backward_pass(eb, ab0, n - 2) == backward_pass(
                        posts(result@),
                        acc@,
                        bi - 1,
                    ),
                decreases bi,
            {
                bi -= 1;
                let to = result[bi].0;
                let mut mcur = result[bi].1.clone();
                let ghost before = posts(result@);
                let ghost acc_before = acc@;
                mcur.mult_msg(&acc);
                acc.mult_msg(&mcur);
                result[bi] = (to, mcur);
                proof {
                    assert(posts(result@) =~= before.update(
                        bi as int,
                        (before[bi as int].0, spec_mult(before[bi as int].1, acc_before)),
                    ));
                }
            }
            proof {
                assert(backward_pass(eb, ab0, n - 2) == (posts(result@), acc@));
                assert(two_pass(v.prior, ib) == (posts(result@), acc@));
            }
            if n == cons_len || !self.send_to_all {
                proof {
                    assert(posts(result@) == variable_outbox(v, ib));
                }
                Ok(result)
            } else {
                let cons = self.connections.as_ref().unwrap();
                let missing = compute_missing(cons, &inbox);
                let ghost tp = two_pass(v.prior, ib);
                let ghost base = posts(result@);
                let mut k: usize = 0;
                proof {
                    assert(senders(posts(inbox@)) =~= senders(ib));
                }
                while k < missing.len()
                    invariant
                        self@ == (VariableNodeV { has_propagated: true, ..v }),
                        k <= missing@.len(),
                        acc@ == tp.1,
                        posts(result@) =~= base + missing@.take(k as int).map_values(
                            |c: usize| (c, tp.1),
                        ),
                    decreases missing@.len() - k,
                {
                    let ghost beforep = posts(result@);
                    result.push((missing[k], acc.clone()));
                    proof {
                        assert(posts(result@) =~= beforep.push((missing@[k as int], tp.1)));
                        assert(posts(result@) =~= base + missing@.take(k + 1 as int).map_values(
                            |c: usize| (c, tp.1),
                        ));
                    }
                    k += 1;
                }
                proof {
                    assert(missing@.take(missing@.len() as int) =~= missing@);
                    assert(posts(result@) == variable_outbox(v, ib));
                }
                Ok(result)
            }
        }
    }
}

} // verus!
