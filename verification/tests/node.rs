use belief_propagation::{Behavior, CtrlMsg, ErrorKind, FactorNode, Message, Node, VariableNode};

/// The fixed-point image of 1.
const ONE: u64 = 4294967296;

fn variable_with_prior(pairs: &[(i64, u64)]) -> Node {
    let mut v = VariableNode::new();
    let mut prior = Message::new();
    for (val, p) in pairs {
        prior.insert(*val, *p);
    }
    v.set_prior(&prior).unwrap();
    Node::new("var".to_string(), Behavior::Variable(v))
}

#[test]
fn node_lifecycle() {
    let mut n = variable_with_prior(&[(1, ONE)]);
    assert_eq!(n.get_name(), "var");
    assert!(!n.is_factor());
    assert!(!n.is_initialized());
    assert!(!n.discard_mode());
    assert_eq!(n.number_inputs(), None);
    n.add_edge(4).unwrap();
    n.add_edge(7).unwrap();
    let err = n.add_edge(4).unwrap_err();
    assert_eq!(err.kind(), ErrorKind::DuplicateEdge);
    assert_eq!(n.get_connections(), &vec![4usize, 7usize]);
    n.initialize().unwrap();
    assert!(n.is_initialized());
    let err2 = n.initialize().unwrap_err();
    assert_eq!(err2.kind(), ErrorKind::AlreadyInitialized);
    n.reset().unwrap();
    assert!(!n.is_initialized());
    // the neighbor list is kept across a reset
    assert_eq!(n.get_connections(), &vec![4usize, 7usize]);
}

#[test]
fn node_post_handling() {
    let mut n = variable_with_prior(&[(1, ONE)]);
    n.add_edge(4).unwrap();
    n.initialize().unwrap();
    assert!(!n.has_post());
    let mut m = Message::new();
    m.insert(1, ONE / 2);
    n.send_post(4, m);
    assert!(n.has_post());
    let copy = n.clone_inbox();
    assert_eq!(copy.len(), 1);
    assert_eq!(copy[0].0, 4);
    assert_eq!(copy[0].1.get(1), Some(ONE / 2));
    let drained = n.read_post();
    assert_eq!(drained.len(), 1);
    assert!(!n.has_post());
}

#[test]
fn node_creates_messages_from_its_inbox() {
    let mut n = variable_with_prior(&[(1, ONE)]);
    n.add_edge(4).unwrap();
    n.add_edge(7).unwrap();
    n.initialize().unwrap();
    assert!(n.is_ready(0).unwrap());
    let out = n.create_messages().unwrap();
    // prior-only: the prior goes to both neighbors, and the inbox is drained
    assert_eq!(out.len(), 2);
    assert_eq!(out[0].0, 4);
    assert_eq!(out[1].0, 7);
    assert!(!n.has_post());
}

#[test]
fn node_arity_cap_comes_from_the_behavior() {
    let mut n = Node::new("fac".to_string(), Behavior::Factor(FactorNode::new(Vec::new())));
    assert!(n.is_factor());
    assert_eq!(n.number_inputs(), Some(2));
    let err = n.initialize().unwrap_err();
    assert_eq!(err.kind(), ErrorKind::ArityMismatch);
    n.add_edge(1).unwrap();
    n.add_edge(2).unwrap();
    let err2 = n.add_edge(3).unwrap_err();
    assert_eq!(err2.kind(), ErrorKind::ArityMismatch);
    n.initialize().unwrap();
}

#[test]
fn node_result_combines_prior_and_inbox() {
    let mut n = variable_with_prior(&[(1, ONE), (2, ONE / 2)]);
    n.add_edge(4).unwrap();
    n.initialize().unwrap();
    // with an empty inbox the result is the max-scaled prior
    let r = n.get_result().unwrap().unwrap();
    assert_eq!(r.get(1), Some(ONE));
    assert_eq!(r.get(2), Some(ONE / 2));
    // with a message, the pointwise product, max-scaled
    let mut m = Message::new();
    m.insert(1, ONE / 2);
    m.insert(2, ONE);
    n.send_post(4, m);
    let r2 = n.get_result().unwrap().unwrap();
    assert_eq!(r2.get(1), Some(ONE));
    assert_eq!(r2.get(2), Some(ONE));
}

#[test]
fn factor_node_has_no_result() {
    let mut n = Node::new("fac".to_string(), Behavior::Factor(FactorNode::new(Vec::new())));
    n.add_edge(1).unwrap();
    n.add_edge(2).unwrap();
    n.initialize().unwrap();
    let mut m = Message::new();
    m.insert(1, ONE);
    n.send_post(1, m);
    assert!(n.get_result().unwrap().is_none());
}

#[test]
fn degenerate_prior_has_no_marginal() {
    // an all-zero prior cannot be max-scaled: readout fails instead of
    // returning it unscaled
    let mut n = variable_with_prior(&[(1, 0)]);
    n.add_edge(4).unwrap();
    n.initialize().unwrap();
    let err = n.get_result().unwrap_err();
    assert_eq!(err.kind(), ErrorKind::Degenerate);
}

#[test]
fn control_messages_are_acknowledged() {
    let mut n = variable_with_prior(&[(1, ONE)]);
    let ack = n.send_control_message(CtrlMsg {}).unwrap();
    assert_eq!(ack, Default::default());
}
