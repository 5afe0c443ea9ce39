use belief_propagation::msg::mult_hashmaps;
use belief_propagation::node::{hashmap_to_distribution, norm_hashmap};
use belief_propagation::{ErrorKind, Message};

/// The fixed-point image of 1.
const ONE: u64 = 4294967296;

#[test]
fn insert_and_get() {
    let mut m = Message::new();
    assert!(m.is_empty());
    m.insert(3, 100);
    m.insert(5, 200);
    assert_eq!(m.len(), 2);
    assert_eq!(m.get(3), Some(100));
    assert_eq!(m.get(5), Some(200));
    assert_eq!(m.get(7), None);
    // insertion overwrites in place
    m.insert(3, 999);
    assert_eq!(m.get(3), Some(999));
    assert_eq!(m.len(), 2);
    assert_eq!(m.to_vec(), vec![(3, 999), (5, 200)]);
}

#[test]
fn normalize_is_max_scaling() {
    let mut m = Message::new();
    m.insert(1, ONE / 4);
    m.insert(2, ONE / 2);
    m.insert(3, 0);
    m.normalize().unwrap();
    // the largest entry becomes exactly 1, the rest scale with it
    assert_eq!(m.get(2), Some(ONE));
    assert_eq!(m.get(1), Some(ONE / 2));
    assert_eq!(m.get(3), Some(0));
}

#[test]
fn normalize_fails_on_empty_and_all_zero() {
    let mut empty = Message::new();
    let err = empty.normalize().unwrap_err();
    assert_eq!(err.kind(), ErrorKind::NormalizationFailure);

    let mut zero = Message::new();
    zero.insert(1, 0);
    let err2 = zero.normalize().unwrap_err();
    assert_eq!(err2.kind(), ErrorKind::Degenerate);
    // the message is unchanged on failure
    assert_eq!(zero.get(1), Some(0));
}

#[test]
fn is_valid_bounds_probabilities() {
    let mut m = Message::new();
    m.insert(1, ONE);
    assert!(m.is_valid());
    m.insert(2, ONE + 1);
    assert!(!m.is_valid());
}

#[test]
fn mult_msg_multiplies_intersection_and_rescales() {
    let mut a = Message::new();
    a.insert(1, ONE / 2);
    a.insert(2, ONE / 4);
    a.insert(3, ONE / 8);
    let mut b = Message::new();
    b.insert(1, ONE / 2);
    b.insert(2, ONE);
    a.mult_msg(&b);
    // products: 1 -> 1/4, 2 -> 1/4, 3 kept at 1/8; max-scaled by 1/4
    assert_eq!(a.get(1), Some(ONE));
    assert_eq!(a.get(2), Some(ONE));
    assert_eq!(a.get(3), Some(ONE / 2));
}

#[test]
fn mult_hashmaps_matches_mult_msg() {
    let mut a = Message::new();
    a.insert(1, ONE / 2);
    let b = {
        let mut b = Message::new();
        b.insert(1, ONE / 2);
        b
    };
    mult_hashmaps(&mut a, &b);
    assert_eq!(a.get(1), Some(ONE));
}

#[test]
fn node_mult_hashmaps_reports_degenerate_products() {
    let mut a = Message::new();
    a.insert(1, ONE);
    let mut zero = Message::new();
    zero.insert(1, 0);
    let err = belief_propagation::node::mult_hashmaps(&mut a, &zero).unwrap_err();
    assert_eq!(err.kind(), ErrorKind::Degenerate);
    // the unscaled product stays
    assert_eq!(a.get(1), Some(0));
}

#[test]
fn norm_hashmap_matches_normalize() {
    let mut m = Message::new();
    m.insert(4, ONE / 8);
    m.insert(5, ONE / 2);
    norm_hashmap(&mut m).unwrap();
    assert_eq!(m.get(5), Some(ONE));
    assert_eq!(m.get(4), Some(ONE / 4));
}

#[test]
fn distribution_scales_by_the_sum() {
    let mut m = Message::new();
    m.insert(1, ONE / 2);
    m.insert(2, ONE / 2);
    m.insert(3, ONE);
    hashmap_to_distribution(&mut m).unwrap();
    assert_eq!(m.get(1), Some(ONE / 4));
    assert_eq!(m.get(2), Some(ONE / 4));
    assert_eq!(m.get(3), Some(ONE / 2));

    let mut zero = Message::new();
    zero.insert(1, 0);
    let err = hashmap_to_distribution(&mut zero).unwrap_err();
    assert_eq!(err.kind(), ErrorKind::Degenerate);
}

#[test]
fn clone_keeps_entries() {
    let mut m = Message::new();
    m.insert(9, 123);
    let c = m.clone();
    assert_eq!(c.to_vec(), vec![(9, 123)]);
}
