//! Digest, message/digest pairs, and suffix comparison.

use hashattacks::hellman::bytes_to_string;
use hashattacks::messagehash::{get_suffix_index, HashValue, MessageHash};
use hashattacks::messagetransform::MessageTransform;
use hashattacks::AttackState;

fn state_with(message: &str, transform: MessageTransform) -> AttackState {
    AttackState::new(message, transform)
}

#[test]
fn hash_determinism() {
    let state = state_with("Some huge message", MessageTransform::Mutate);
    let first = state.messagehash();
    let second = state.messagehash();
    assert_eq!(first.hash_value().hash, second.hash_value().hash);
}

#[test]
fn hash_known_value() {
    let state = state_with("", MessageTransform::Mutate);
    let digest = state.hash_message(b"Hello world!");
    assert_eq!(
        bytes_to_string(&digest.hash),
        "7f772647d88750add82d8e1a7a3e5c0902a346a3"
    );
}

#[test]
fn hash_width_is_twenty() {
    assert_eq!(HashValue::len(), 20);
    let state = state_with("abc", MessageTransform::Mutate);
    assert_eq!(state.messagehash().hash_value().hash.len(), 20);
}

#[test]
fn suffix_index_clamps() {
    assert_eq!(get_suffix_index(20, 2), 18);
    assert_eq!(get_suffix_index(20, 20), 0);
    assert_eq!(get_suffix_index(20, 25), 0);
    assert_eq!(get_suffix_index(20, 0), 20);
}

#[test]
fn equal_under_zero_suffix_is_true() {
    let a = HashValue::new(vec![1u8; 20]);
    let b = HashValue::new(vec![2u8; 20]);
    assert!(a.equal_to(&b, 0));
}

#[test]
fn truncation_monotonicity() {
    // Digests that differ only in byte 18 (second-to-last).
    let mut bytes1 = vec![0u8; 20];
    let mut bytes2 = vec![0u8; 20];
    bytes1[18] = 7;
    bytes2[18] = 9;
    let a = HashValue::new(bytes1);
    let b = HashValue::new(bytes2);
    assert!(a.equal_to(&b, 1));
    // Once unequal under s = 2, unequal under every wider suffix.
    for s in 2..=20 {
        assert!(!a.equal_to(&b, s));
    }
}

#[test]
fn collision_requires_different_messages() {
    let hash = HashValue::new(vec![5u8; 20]);
    let a = MessageHash::new("same", hash.clone());
    let b = MessageHash::new("same", hash.clone());
    let c = MessageHash::new("other", hash);
    assert!(!a.collides_with(&b, 4));
    assert!(a.collides_with(&c, 4));
}

#[test]
fn collision_compares_suffix_only() {
    let mut bytes1 = vec![0u8; 20];
    let bytes2 = vec![0u8; 20];
    bytes1[0] = 1;
    let a = MessageHash::new("first", HashValue::new(bytes1));
    let b = MessageHash::new("second", HashValue::new(bytes2));
    // Leading byte differs: collides under suffixes that skip it.
    assert!(a.collides_with(&b, 19));
    assert!(!a.collides_with(&b, 20));
}

#[test]
fn attack_state_set_and_restore_message() {
    let mut state = state_with("base", MessageTransform::AppendNumberInSequence(1));
    assert_eq!(state.message().as_str(), "base");
    state.set_message("changed");
    assert_eq!(state.message().as_str(), "changed");
    state.set_message("base");
    assert_eq!(state.message().as_str(), "base");
}

#[test]
fn messagehash_with_transform_keeps_stored_message() {
    let mut state = state_with("base", MessageTransform::AppendNumberInSequence(7));
    let produced = state.messagehash_with_transform();
    assert_eq!(produced.message().as_str(), "base7");
    assert_eq!(state.message().as_str(), "base");
    let next = state.messagehash_with_transform();
    assert_eq!(next.message().as_str(), "base8");
}

#[test]
fn hex_rendering() {
    assert_eq!(bytes_to_string(&vec![]), "");
    assert_eq!(bytes_to_string(&vec![0, 15, 16, 255]), "000f10ff");
}
