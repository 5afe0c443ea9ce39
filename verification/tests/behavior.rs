use belief_propagation::{
    BPError, ErrorKind, FactorNode, InputNeed, Message, Probability, VariableNode,
};

/// The fixed-point image of 1.
const ONE: u64 = 4294967296;

fn msg(pairs: &[(i64, Probability)]) -> Message {
    let mut m = Message::new();
    for (v, p) in pairs {
        m.insert(*v, *p);
    }
    m
}

fn outbox_map(out: Vec<(usize, Message)>) -> Vec<(usize, Vec<(i64, Probability)>)> {
    out.into_iter().map(|(to, m)| (to, m.to_vec())).collect()
}

#[test]
fn empty_inbox_without_prior_is_empty_inbox_error() {
    let mut v = VariableNode::new();
    v.initialize(vec![1, 2]).unwrap();
    let err = v.node_function(Vec::new()).unwrap_err();
    assert_eq!(err.kind(), ErrorKind::EmptyInbox);
}

#[test]
fn prior_only_step_broadcasts_and_is_idempotent() {
    let mut v = VariableNode::new();
    v.set_prior(&msg(&[(1, ONE / 2), (2, ONE / 2)])).unwrap();
    v.initialize(vec![4, 7]).unwrap();
    let first = outbox_map(v.node_function(Vec::new()).unwrap());
    // the prior goes to every neighbor, untouched
    assert_eq!(
        first,
        vec![(4, vec![(1, ONE / 2), (2, ONE / 2)]), (7, vec![(1, ONE / 2), (2, ONE / 2)])]
    );
    // a second prior-only step repeats it exactly
    let second = outbox_map(v.node_function(Vec::new()).unwrap());
    assert_eq!(first, second);
}

#[test]
fn single_message_is_answered_with_the_prior() {
    let mut v = VariableNode::new();
    v.set_prior(&msg(&[(1, ONE)])).unwrap();
    v.initialize(vec![4, 7]).unwrap();
    let out = outbox_map(v.node_function(vec![(4, msg(&[(1, ONE / 2)]))]).unwrap());
    // the sender gets the prior; the other neighbor gets the message times
    // the prior, max-scaled
    assert_eq!(out, vec![(4, vec![(1, ONE)]), (7, vec![(1, ONE)])]);
}

#[test]
fn combine_two_with_prior_is_symmetric() {
    // the outbound to each sender is the product of the prior and the other
    // sender's message, whichever order the two arrived in
    let a = (4usize, msg(&[(1, ONE / 2), (2, ONE)]));
    let b = (7usize, msg(&[(1, ONE), (2, ONE / 4)]));
    let mut v1 = VariableNode::new();
    v1.set_prior(&msg(&[(1, ONE), (2, ONE)])).unwrap();
    v1.initialize(vec![4, 7]).unwrap();
    let out1 = outbox_map(v1.node_function(vec![(a.0, a.1.clone()), (b.0, b.1.clone())]).unwrap());
    let mut v2 = VariableNode::new();
    v2.set_prior(&msg(&[(1, ONE), (2, ONE)])).unwrap();
    v2.initialize(vec![4, 7]).unwrap();
    let out2 = outbox_map(v2.node_function(vec![(b.0, b.1), (a.0, a.1)]).unwrap());
    let to4_first = out1.iter().find(|(to, _)| *to == 4).unwrap().clone();
    let to4_second = out2.iter().find(|(to, _)| *to == 4).unwrap().clone();
    assert_eq!(to4_first, to4_second);
    let to7_first = out1.iter().find(|(to, _)| *to == 7).unwrap().clone();
    let to7_second = out2.iter().find(|(to, _)| *to == 7).unwrap().clone();
    assert_eq!(to7_first, to7_second);
    // and each equals the naive product of the prior and the other message
    assert_eq!(to4_first.1, vec![(1, ONE), (2, ONE / 4)]);
    assert_eq!(to7_first.1, vec![(1, ONE / 2), (2, ONE)]);
}

#[test]
fn two_pass_equals_naive_products_for_two_inputs() {
    // naive definition, computed by hand with mult_msg
    let prior = msg(&[(1, ONE / 2), (2, ONE)]);
    let ma = msg(&[(1, ONE), (2, ONE / 2)]);
    let mb = msg(&[(1, ONE / 4), (2, ONE)]);
    let mut naive_to_a = prior.clone();
    naive_to_a.mult_msg(&mb);
    let mut naive_to_b = prior.clone();
    naive_to_b.mult_msg(&ma);

    let mut v = VariableNode::new();
    v.set_prior(&prior).unwrap();
    v.initialize(vec![4, 7]).unwrap();
    let out = outbox_map(v.node_function(vec![(4, ma), (7, mb)]).unwrap());
    assert_eq!(out[0], (4, naive_to_a.to_vec()));
    assert_eq!(out[1], (7, naive_to_b.to_vec()));
}

#[test]
fn send_to_all_fills_unreached_neighbors() {
    let mut v = VariableNode::new();
    v.set_prior(&msg(&[(1, ONE)])).unwrap();
    v.set_send_to_all(true);
    v.initialize(vec![4, 7, 9]).unwrap();
    let out = outbox_map(
        v.node_function(vec![(4, msg(&[(1, ONE)])), (7, msg(&[(1, ONE)]))]).unwrap(),
    );
    // the two senders are answered, and the unreached neighbor receives the
    // running suffix accumulator
    assert_eq!(out.len(), 3);
    assert_eq!(out[0].0, 4);
    assert_eq!(out[1].0, 7);
    assert_eq!(out[2].0, 9);
}

#[test]
fn readiness_follows_the_input_need_policy() {
    let mut v = VariableNode::new();
    v.set_prior(&msg(&[(1, ONE)])).unwrap();
    v.initialize(vec![4, 7]).unwrap();
    let empty: Vec<(usize, Message)> = Vec::new();
    let partial = vec![(4usize, msg(&[(1, ONE)]))];
    let full = vec![(4usize, msg(&[(1, ONE)])), (7usize, msg(&[(1, ONE)]))];
    // default policy: ready before the first step, a full inbox always works
    assert!(v.is_ready(&empty, 0).unwrap());
    assert!(v.is_ready(&partial, 0).unwrap());
    assert!(v.is_ready(&full, 0).unwrap());
    // a prior-only broadcast leaves the node's state unchanged: it stays
    // ready with a partial inbox
    v.node_function(Vec::new()).unwrap();
    assert!(v.is_ready(&partial, 1).unwrap());
    // after combining at least one message, partial inboxes are no longer
    // enough
    v.node_function(vec![(4usize, msg(&[(1, ONE)])), (7usize, msg(&[(1, ONE)]))]).unwrap();
    assert!(!v.is_ready(&partial, 1).unwrap());
    assert!(v.is_ready(&full, 1).unwrap());
    // and the other policies
    v.set_input_need(InputNeed::Never);
    assert!(v.is_ready(&partial, 1).unwrap());
    v.set_input_need(InputNeed::Always);
    assert!(!v.is_ready(&partial, 1).unwrap());
    v.set_input_need(InputNeed::NeverExceptFirst);
    assert!(v.is_ready(&partial, 1).unwrap());
}

#[test]
fn no_inbox_and_no_prior_is_never_ready() {
    let mut v = VariableNode::new();
    v.initialize(vec![4]).unwrap();
    let empty: Vec<(usize, Message)> = Vec::new();
    assert!(!v.is_ready(&empty, 0).unwrap());
}

#[test]
fn prior_can_be_set_once() {
    let mut v = VariableNode::new();
    v.set_prior(&msg(&[(1, ONE)])).unwrap();
    let err = v.set_prior(&msg(&[(2, ONE)])).unwrap_err();
    assert_eq!(err.kind(), ErrorKind::BehaviorError);
    // the prior is build data: it survives a reset
    v.reset().unwrap();
    let err2 = v.set_prior(&msg(&[(2, ONE)])).unwrap_err();
    assert_eq!(err2.kind(), ErrorKind::BehaviorError);
}

#[test]
fn factor_weights_messages_by_its_table() {
    // the table weighs (v0, v1) pairs; each side receives the weighted sums
    // over the other side's message
    let table = vec![(1i64, 2i64, ONE), (2i64, 1i64, ONE / 2)];
    let mut f = FactorNode::new(table);
    f.initialize(vec![4, 7]).unwrap();
    let m0 = msg(&[(1, ONE), (2, ONE / 2)]);
    let m1 = msg(&[(1, ONE / 4), (2, ONE)]);
    let out = outbox_map(f.node_function(vec![(4, m0), (7, m1)]).unwrap());
    // to node 4: for v0 = 1: m1[2] * 1 = ONE; for v0 = 2: m1[1] * 1/2 = ONE/8
    // to node 7: for v1 = 1: m0[2] * 1/2 = ONE/4; for v1 = 2: m0[1] * 1 = ONE
    assert_eq!(out[0], (4, vec![(1, ONE), (2, ONE / 8)]));
    assert_eq!(out[1], (7, vec![(1, ONE / 4), (2, ONE)]));
}

#[test]
fn factor_rejects_wrong_inboxes() {
    let mut f = FactorNode::new(Vec::new());
    let err = f.node_function(Vec::new()).unwrap_err();
    assert_eq!(err.kind(), ErrorKind::BehaviorError);
    f.initialize(vec![4, 7]).unwrap();
    let err2 = f.node_function(vec![(4, msg(&[(1, ONE)]))]).unwrap_err();
    assert_eq!(err2.kind(), ErrorKind::BehaviorError);
    let err3 = f
        .node_function(vec![(7, msg(&[(1, ONE)])), (4, msg(&[(1, ONE)]))])
        .unwrap_err();
    assert_eq!(err3.kind(), ErrorKind::BehaviorError);
    let err4 = f.initialize(vec![1]).unwrap_err();
    assert_eq!(err4.kind(), ErrorKind::ArityMismatch);
}

#[test]
fn error_trail_keeps_the_kind() {
    let e = BPError::new("site_one".to_string(), "went wrong".to_string());
    assert_eq!(e.kind(), ErrorKind::BehaviorError);
    let e = e.attach_info("site_two".to_string(), "context".to_string());
    let e = e.attach_info_str("site_three", "more context".to_string());
    let e = e.attach_debug_info("snapshot".to_string());
    let e = e.attach_debug_object("value", &42u64);
    assert_eq!(e.kind(), ErrorKind::BehaviorError);
    let d = BPError::new_with_debug(
        "site".to_string(),
        "cause".to_string(),
        "debug".to_string(),
    );
    assert_eq!(d.kind(), ErrorKind::BehaviorError);
}

#[test]
fn three_inputs_answer_the_last_two_senders_naively() {
    // with three inputs, the last two senders receive exactly the naive
    // product of the prior and the other messages, in inbox order
    let prior = msg(&[(1, ONE), (2, ONE / 2)]);
    let ma = msg(&[(1, ONE / 2), (2, ONE)]);
    let mb = msg(&[(1, ONE), (2, ONE / 4)]);
    let mc = msg(&[(1, ONE / 8), (2, ONE)]);

    let mut naive_to_c = prior.clone();
    naive_to_c.mult_msg(&ma);
    naive_to_c.mult_msg(&mb);
    let mut naive_to_b = prior.clone();
    naive_to_b.mult_msg(&ma);
    naive_to_b.mult_msg(&mc);

    let mut v = VariableNode::new();
    v.set_prior(&prior).unwrap();
    v.initialize(vec![4, 7, 9]).unwrap();
    let out = outbox_map(v.node_function(vec![(4, ma), (7, mb), (9, mc)]).unwrap());
    assert_eq!(out.len(), 3);
    assert_eq!(out[2], (9, naive_to_c.to_vec()));
    assert_eq!(out[1], (7, naive_to_b.to_vec()));
}
