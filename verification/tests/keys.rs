use crdt_enc::crdt::DeepClone;
use crdt_enc::key_cryptor::{Key, Keys};
use crdt_enc::utils::version_bytes::VersionBytes;

const KEY_VERSION: u128 = 0x5df28591_439a_4cef_8ca6_8433276cc9ed;

fn material(fill: u8) -> VersionBytes {
    VersionBytes::new(KEY_VERSION, vec![fill; 32])
}

const ACTOR_A: u128 = 0xa1;
const ACTOR_B: u128 = 0xb2;

#[test]
fn empty_registry_has_no_latest() {
    let keys = Keys::default();
    assert!(keys.latest_key().is_none());
    assert!(keys.get_key(7).is_none());
}

#[test]
fn insert_latest_key_designates_it() {
    let mut keys = Keys::default();
    let k = Key::new_with_id(0x10, material(1));
    keys.insert_latest_key(ACTOR_A, k);
    let latest = keys.latest_key().unwrap();
    assert_eq!(latest.id(), 0x10);
    assert_eq!(latest.key().as_ref(), &[1u8; 32]);
    assert_eq!(keys.get_key(0x10).unwrap().id(), 0x10);
}

#[test]
fn newer_insert_takes_over() {
    let mut keys = Keys::default();
    keys.insert_latest_key(ACTOR_A, Key::new_with_id(0x10, material(1)));
    keys.insert_latest_key(ACTOR_A, Key::new_with_id(0x05, material(2)));
    // the later insert dominates the earlier one, whatever its id
    assert_eq!(keys.latest_key().unwrap().id(), 0x05);
    keys.insert_latest_key(ACTOR_A, Key::new_with_id(0x20, material(3)));
    assert_eq!(keys.latest_key().unwrap().id(), 0x20);
    // all keys stay in the set
    assert!(keys.get_key(0x10).is_some());
    assert!(keys.get_key(0x05).is_some());
    assert!(keys.get_key(0x20).is_some());
}

#[test]
fn concurrent_inserts_converge_to_min_id() {
    let mut a = Keys::default();
    let mut b = Keys::default();
    a.insert_latest_key(ACTOR_A, Key::new_with_id(0x30, material(1)));
    b.insert_latest_key(ACTOR_B, Key::new_with_id(0x07, material(2)));

    let mut ab = a.deep_clone();
    ab.merge(b.deep_clone());
    let mut ba = b.deep_clone();
    ba.merge(a.deep_clone());

    // both orders designate the same key: the smallest candidate id
    assert_eq!(ab.latest_key().unwrap().id(), 0x07);
    assert_eq!(ba.latest_key().unwrap().id(), 0x07);
    // both concurrent keys are present on both sides
    assert!(ab.get_key(0x30).is_some());
    assert!(ba.get_key(0x30).is_some());
}

#[test]
fn merge_is_idempotent() {
    let mut a = Keys::default();
    a.insert_latest_key(ACTOR_A, Key::new_with_id(0x42, material(9)));
    let before = a.latest_key().unwrap().id();
    let copy = a.deep_clone();
    a.merge(copy);
    assert_eq!(a.latest_key().unwrap().id(), before);
    assert!(a.get_key(0x42).is_some());
}

#[test]
fn merge_after_sequential_inserts_keeps_later() {
    // b saw a's insert, then inserted its own: the later write dominates
    let mut a = Keys::default();
    a.insert_latest_key(ACTOR_A, Key::new_with_id(0x50, material(1)));
    let mut b = a.deep_clone();
    b.insert_latest_key(ACTOR_B, Key::new_with_id(0x60, material(2)));
    a.merge(b.deep_clone());
    assert_eq!(a.latest_key().unwrap().id(), 0x60);
}

#[test]
fn key_equality_is_by_id() {
    let k1 = Key::new_with_id(0x77, material(1));
    let k2 = Key::new_with_id(0x77, material(2));
    let k3 = Key::new_with_id(0x78, material(1));
    assert!(k1 == k2);
    assert!(k1 != k3);
    assert!(k1 < k3);
}

#[test]
fn fresh_key_gets_fresh_id() {
    let k1 = Key::new(material(1));
    let k2 = Key::new(material(1));
    assert_ne!(k1.id(), k2.id());
}

#[test]
fn merge_is_associative() {
    let mut a = Keys::default();
    let mut b = Keys::default();
    let mut c = Keys::default();
    a.insert_latest_key(ACTOR_A, Key::new_with_id(0x31, material(1)));
    b.insert_latest_key(ACTOR_B, Key::new_with_id(0x12, material(2)));
    c.insert_latest_key(0xc3, Key::new_with_id(0x23, material(3)));

    let mut ab_c = a.deep_clone();
    ab_c.merge(b.deep_clone());
    ab_c.merge(c.deep_clone());

    let mut bc = b.deep_clone();
    bc.merge(c.deep_clone());
    let mut a_bc = a.deep_clone();
    a_bc.merge(bc);

    assert_eq!(ab_c.latest_key().unwrap().id(), a_bc.latest_key().unwrap().id());
    for id in [0x31u128, 0x12, 0x23] {
        assert_eq!(ab_c.get_key(id).is_some(), a_bc.get_key(id).is_some());
    }
    assert_eq!(ab_c.latest_key().unwrap().id(), 0x12);
}
