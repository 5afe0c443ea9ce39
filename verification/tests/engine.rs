use std::collections::HashMap;

use belief_propagation::{
    BPGraph, BPResult, Behavior, ErrorKind, FactorNode, Message, Probability, VariableNode,
};

/// The fixed-point image of 1.
const ONE: u64 = 4294967296;

fn prob(x: f64) -> Probability {
    (x * ONE as f64) as Probability
}

fn msg_from(pairs: &[(i64, f64)]) -> Message {
    let mut m = Message::new();
    for (v, p) in pairs {
        m.insert(*v, prob(*p));
    }
    m
}

/// The weight table of a factor enforcing `2 * x == y`, on the domain the
/// chain test uses.
fn doubling_table() -> Vec<(i64, i64, Probability)> {
    let mut table = Vec::new();
    for x in 1..=4i64 {
        for y in 1..=4i64 {
            if 2 * x == y {
                table.push((x, y, ONE));
            }
        }
    }
    table
}

#[test]
fn test() -> BPResult<()> {
    let mut g = BPGraph::new();
    let mut v0 = VariableNode::new();
    let mut v1 = VariableNode::new();
    let mut v2 = VariableNode::new();
    let dist0 = msg_from(&[(1, 1.0)]);
    let dist1 = msg_from(&[(1, 0.25), (2, 0.25), (3, 0.25), (4, 0.25)]);
    v0.set_prior(&dist0)?;
    v1.set_prior(&dist1)?;
    v2.set_prior(&dist1)?;

    let t3 = FactorNode::new(doubling_table());
    let t4 = FactorNode::new(doubling_table());
    g.add_node("0".to_string(), Behavior::Variable(v0));
    g.add_node("1".to_string(), Behavior::Variable(v1));
    g.add_node("2".to_string(), Behavior::Variable(v2));
    g.add_node("m3".to_string(), Behavior::Factor(t3));
    g.add_node("m4".to_string(), Behavior::Factor(t4));

    g.add_edge(0, 3)?;
    g.add_edge(3, 1)?;
    g.add_edge(1, 4)?;
    g.add_edge(4, 2)?;

    assert!(g.is_valid());

    g.initialize()?;

    g.propagate_threaded(2, 1)?;
    g.propagate(10)?;
    let res = g.get_result(2)?.unwrap();
    let entries = res.to_vec();
    let sum: f64 = entries
        .iter()
        .map(|(_, p)| *p as f64 / ONE as f64)
        .sum();
    let res_normed: HashMap<i64, f64> = entries
        .iter()
        .map(|(v, p)| (*v, (*p as f64 / ONE as f64) / sum))
        .collect();

    println!("{:?}", res_normed);
    for (v, p) in res_normed {
        if v == 4 {
            assert_eq!(p, 1.0);
        } else {
            assert_eq!(p, 0.0);
        }
    }

    Ok(())
}

#[test]
fn bipartite_violation_is_rejected() {
    let mut g = BPGraph::new();
    g.add_node("v0".to_string(), Behavior::Variable(VariableNode::new()));
    g.add_node("v1".to_string(), Behavior::Variable(VariableNode::new()));
    let err = g.add_edge(0, 1).unwrap_err();
    assert_eq!(err.kind(), ErrorKind::BipartiteViolation);

    let mut g2 = BPGraph::new();
    g2.add_node("f0".to_string(), Behavior::Factor(FactorNode::new(Vec::new())));
    g2.add_node("f1".to_string(), Behavior::Factor(FactorNode::new(Vec::new())));
    let err2 = g2.add_edge(0, 1).unwrap_err();
    assert_eq!(err2.kind(), ErrorKind::BipartiteViolation);
}

#[test]
fn duplicate_edge_is_rejected() {
    let mut g = BPGraph::new();
    g.add_node("v".to_string(), Behavior::Variable(VariableNode::new()));
    g.add_node("f".to_string(), Behavior::Factor(FactorNode::new(Vec::new())));
    g.add_edge(0, 1).unwrap();
    let err = g.add_edge(0, 1).unwrap_err();
    assert_eq!(err.kind(), ErrorKind::DuplicateEdge);
    let err2 = g.add_edge(1, 0).unwrap_err();
    assert_eq!(err2.kind(), ErrorKind::DuplicateEdge);
}

#[test]
fn factor_arity_is_capped() {
    let mut g = BPGraph::new();
    g.add_node("f".to_string(), Behavior::Factor(FactorNode::new(Vec::new())));
    g.add_node("a".to_string(), Behavior::Variable(VariableNode::new()));
    g.add_node("b".to_string(), Behavior::Variable(VariableNode::new()));
    g.add_node("c".to_string(), Behavior::Variable(VariableNode::new()));
    g.add_edge(0, 1).unwrap();
    g.add_edge(0, 2).unwrap();
    let err = g.add_edge(0, 3).unwrap_err();
    assert_eq!(err.kind(), ErrorKind::ArityMismatch);
    // the failed pair insert is rolled back on both endpoints
    assert!(g.get_inbox(3).unwrap().is_empty());
    assert!(g.is_valid_node(0));
}

#[test]
fn arity_mismatch_stops_initialize() {
    let mut g = BPGraph::new();
    g.add_node("f".to_string(), Behavior::Factor(FactorNode::new(Vec::new())));
    g.add_node("a".to_string(), Behavior::Variable(VariableNode::new()));
    g.add_edge(0, 1).unwrap();
    // the factor declares two neighbors but has one
    let err = g.initialize().unwrap_err();
    assert_eq!(err.kind(), ErrorKind::ArityMismatch);
    assert!(!g.is_valid());
}

#[test]
fn propagate_requires_initialization() {
    let mut g = BPGraph::new();
    g.add_node("v".to_string(), Behavior::Variable(VariableNode::new()));
    let err = g.propagate(1).unwrap_err();
    assert_eq!(err.kind(), ErrorKind::NotInitialized);
}

#[test]
fn index_out_of_bounds_is_reported() {
    let g = BPGraph::new();
    let err = g.get_result(7).unwrap_err();
    assert_eq!(err.kind(), ErrorKind::IndexOutOfBounds);
    let err2 = g.get_inbox(0).unwrap_err();
    assert_eq!(err2.kind(), ErrorKind::IndexOutOfBounds);
}

/// A small star: one variable with a prior, linked to two factors.
fn prior_star(prior: &[(i64, f64)]) -> BPGraph {
    let mut g = BPGraph::new();
    let mut v = VariableNode::new();
    v.set_prior(&msg_from(prior)).unwrap();
    g.add_node("v".to_string(), Behavior::Variable(v));
    g.add_node("fa".to_string(), Behavior::Factor(FactorNode::new(Vec::new())));
    g.add_node("fb".to_string(), Behavior::Factor(FactorNode::new(Vec::new())));
    g.add_node("u".to_string(), Behavior::Variable(VariableNode::new()));
    g.add_edge(0, 1).unwrap();
    g.add_edge(0, 2).unwrap();
    g.add_edge(1, 3).unwrap();
    g.add_edge(2, 3).unwrap();
    g
}

#[test]
fn prior_only_broadcast_reaches_every_neighbor() {
    let mut g = prior_star(&[(10, 0.5), (20, 0.5)]);
    g.initialize().unwrap();
    g.propagate(1).unwrap();
    // each factor's inbox holds the max-scaled prior from the variable
    for f in [1usize, 2usize] {
        let inbox = g.get_inbox(f).unwrap();
        let from_v: Vec<_> = inbox.iter().filter(|(from, _)| *from == 0).collect();
        assert_eq!(from_v.len(), 1);
        let m = &from_v[0].1;
        assert_eq!(m.get(10), Some(ONE));
        assert_eq!(m.get(20), Some(ONE));
    }
}

#[test]
fn invalid_message_fails_checked_step() {
    // a prior above 1 is invalid as a partial belief
    let mut g = prior_star(&[(10, 2.0)]);
    g.set_check_validity(true);
    g.set_normalize(false);
    g.initialize().unwrap();
    let err = g.propagate(1).unwrap_err();
    assert_eq!(err.kind(), ErrorKind::InvalidMessage);
}

#[test]
fn degenerate_message_fails_normalization() {
    // an all-zero prior has no scale
    let mut g = prior_star(&[(10, 0.0)]);
    g.initialize().unwrap();
    let err = g.propagate(1).unwrap_err();
    assert_eq!(err.kind(), ErrorKind::Degenerate);
}

#[test]
fn missing_edge_seed_is_not_deposited() {
    let mut g = BPGraph::new();
    g.add_node("v".to_string(), Behavior::Variable(VariableNode::new()));
    g.add_node("f".to_string(), Behavior::Factor(FactorNode::new(Vec::new())));
    g.add_node("w".to_string(), Behavior::Variable(VariableNode::new()));
    g.add_edge(0, 1).unwrap();
    g.add_edge(1, 2).unwrap();
    // the seed is addressed to node 2 itself, which is no neighbor of node
    // 2: the delivery dies on the missing edge, the error propagates, and
    // nothing lands anywhere
    let err = g
        .initialize_node(2, Some(vec![(2usize, msg_from(&[(1, 1.0)]))]))
        .unwrap_err();
    assert_eq!(err.kind(), ErrorKind::MissingEdge);
    assert!(g.get_inbox(2).unwrap().is_empty());
}

#[test]
fn initialize_node_constant_msg_seeds_own_inbox() {
    let mut g = BPGraph::new();
    let mut v = VariableNode::new();
    v.set_prior(&msg_from(&[(1, 1.0)])).unwrap();
    g.add_node("v".to_string(), Behavior::Variable(v));
    g.add_node("fa".to_string(), Behavior::Factor(FactorNode::new(Vec::new())));
    g.add_node("fb".to_string(), Behavior::Factor(FactorNode::new(Vec::new())));
    g.add_edge(0, 1).unwrap();
    g.add_edge(0, 2).unwrap();
    let seed = msg_from(&[(5, 0.5)]);
    g.initialize_node_constant_msg(0, seed).unwrap();
    let inbox = g.get_inbox(0).unwrap();
    // one seed per neighbor, as if each neighbor had sent it, not normalized
    assert_eq!(inbox.len(), 2);
    assert_eq!(inbox[0].0, 1);
    assert_eq!(inbox[1].0, 2);
    assert_eq!(inbox[0].1.get(5), Some(prob(0.5)));
    // a second initialization is refused
    let err = g.initialize_node(0, None).unwrap_err();
    assert_eq!(err.kind(), ErrorKind::AlreadyInitialized);
}

#[test]
fn counts_and_emptiness() {
    let mut g = BPGraph::new();
    assert!(g.is_empty());
    g.reserve(4);
    g.add_node("v".to_string(), Behavior::Variable(VariableNode::new()));
    g.add_node("f".to_string(), Behavior::Factor(FactorNode::new(Vec::new())));
    assert_eq!(g.len(), 2);
    assert_eq!(g.nodes_count(), 2);
    assert_eq!(g.factor_nodes_count(), 1);
    assert_eq!(g.variable_nodes_count(), 1);
    assert!(!g.is_empty());
    assert!(!g.is_initialized());
}

fn doubling_chain() -> BPGraph {
    let mut g = BPGraph::new();
    let mut v0 = VariableNode::new();
    let mut v1 = VariableNode::new();
    let mut v2 = VariableNode::new();
    v0.set_prior(&msg_from(&[(1, 1.0)])).unwrap();
    let uniform = msg_from(&[(1, 0.25), (2, 0.25), (3, 0.25), (4, 0.25)]);
    v1.set_prior(&uniform).unwrap();
    v2.set_prior(&uniform).unwrap();
    g.add_node("0".to_string(), Behavior::Variable(v0));
    g.add_node("1".to_string(), Behavior::Variable(v1));
    g.add_node("2".to_string(), Behavior::Variable(v2));
    g.add_node("m3".to_string(), Behavior::Factor(FactorNode::new(doubling_table())));
    g.add_node("m4".to_string(), Behavior::Factor(FactorNode::new(doubling_table())));
    g.add_edge(0, 3).unwrap();
    g.add_edge(3, 1).unwrap();
    g.add_edge(1, 4).unwrap();
    g.add_edge(4, 2).unwrap();
    g
}

#[test]
fn threaded_equals_sequential() {
    let mut seq = doubling_chain();
    let mut thr = doubling_chain();
    seq.initialize().unwrap();
    thr.initialize().unwrap();
    seq.propagate(12).unwrap();
    thr.propagate_threaded(12, 4).unwrap();
    for i in 0..3usize {
        let a = seq.get_result(i).unwrap().unwrap().to_vec();
        let b = thr.get_result(i).unwrap().unwrap().to_vec();
        assert_eq!(a, b);
    }
}

#[test]
fn reset_then_initialize_rebuilds_the_graph() {
    // no priors and no propagation: reset + initialize restores the
    // post-initialization state for every public observer
    let mut g = BPGraph::new();
    g.add_node("v".to_string(), Behavior::Variable(VariableNode::new()));
    g.add_node("f".to_string(), Behavior::Factor(FactorNode::new(Vec::new())));
    g.add_node("w".to_string(), Behavior::Variable(VariableNode::new()));
    g.add_edge(0, 1).unwrap();
    g.add_edge(1, 2).unwrap();
    g.initialize().unwrap();
    assert!(g.is_initialized());
    g.reset().unwrap();
    assert!(!g.is_initialized());
    g.initialize().unwrap();
    assert!(g.is_initialized());
    assert!(g.is_valid());
    assert_eq!(g.nodes_count(), 3);
    assert_eq!(g.factor_nodes_count(), 1);
    for i in 0..3usize {
        assert!(g.get_inbox(i).unwrap().is_empty());
        assert!(g.is_valid_node(i));
    }
}

#[test]
fn reset_matches_a_fresh_build() {
    // propagate, reset, and run again: the marginals equal those of a graph
    // that was freshly built and ran the same schedule
    let mut g = doubling_chain();
    g.initialize().unwrap();
    g.propagate(5).unwrap();
    g.reset().unwrap();
    g.initialize().unwrap();
    g.propagate(12).unwrap();
    let mut h = doubling_chain();
    h.initialize().unwrap();
    h.propagate(12).unwrap();
    for i in 0..3usize {
        let a = g.get_result(i).unwrap().unwrap().to_vec();
        let b = h.get_result(i).unwrap().unwrap().to_vec();
        assert_eq!(a, b);
    }
}

#[test]
fn reset_restores_the_built_graph() {
    let mut g = prior_star(&[(10, 0.5), (20, 0.5)]);
    g.initialize().unwrap();
    g.propagate(1).unwrap();
    let first = g.get_inbox(1).unwrap();
    assert!(!first.is_empty());
    g.reset().unwrap();
    for i in 0..4usize {
        assert!(g.get_inbox(i).unwrap().is_empty());
    }
    g.initialize().unwrap();
    // the prior is build data and survived the reset: the same first step
    // plays out again, message for message
    g.propagate(1).unwrap();
    let second = g.get_inbox(1).unwrap();
    assert_eq!(first.len(), second.len());
    assert_eq!(first[0].0, second[0].0);
    assert_eq!(first[0].1.to_vec(), second[0].1.to_vec());
    // and the marginal readout matches the freshly built graph's
    let r = g.get_result(0).unwrap().unwrap();
    assert_eq!(r.get(10), Some(ONE));
    assert_eq!(r.get(20), Some(ONE));
}

#[test]
fn seeds_over_an_existing_edge_are_delivered() {
    let mut g = BPGraph::new();
    g.add_node("v".to_string(), Behavior::Variable(VariableNode::new()));
    g.add_node("f".to_string(), Behavior::Factor(FactorNode::new(Vec::new())));
    g.add_node("w".to_string(), Behavior::Variable(VariableNode::new()));
    g.add_edge(0, 1).unwrap();
    g.add_edge(1, 2).unwrap();
    // seeds are outbound: they travel from the seeded node to the listed
    // destinations, and phase B normalizes them on the way
    g.initialize_node(1, Some(vec![(0usize, msg_from(&[(3, 0.5)]))]))
        .unwrap();
    let inbox = g.get_inbox(0).unwrap();
    assert_eq!(inbox.len(), 1);
    assert_eq!(inbox[0].0, 1);
    assert_eq!(inbox[0].1.get(3), Some(ONE));
}

#[test]
fn a_step_drains_every_ready_node() {
    let mut g = prior_star(&[(10, 0.5), (20, 0.5)]);
    g.initialize().unwrap();
    g.propagate(1).unwrap();
    // the variable was ready (prior, first step) and was drained; nothing
    // was sent back to it, so its inbox is empty after the step
    assert!(g.get_inbox(0).unwrap().is_empty());
    g.propagate(1).unwrap();
    // a two-sided factor with one message stays unready and keeps its
    // inbox; the variable's prior-only broadcast repeated, so a second
    // message from it has arrived meanwhile
    assert_eq!(g.get_inbox(1).unwrap().len(), 2);
}
