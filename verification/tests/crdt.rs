use crdt_enc::crdt::mvreg::MVReg;
use crdt_enc::crdt::vclock::VClock;
use crdt_enc::crdt::{CmCrdt, CvCrdt, DeepClone};

#[test]
fn vclock_get_and_increment() {
    let mut clock = VClock::new();
    assert_eq!(clock.get(1), 0);
    clock.increment(1);
    clock.increment(1);
    clock.increment(2);
    assert_eq!(clock.get(1), 2);
    assert_eq!(clock.get(2), 1);
    assert_eq!(clock.get(3), 0);
}

#[test]
fn vclock_apply_dot_keeps_maximum() {
    let mut clock = VClock::new();
    clock.apply_dot(5, 7);
    clock.apply_dot(5, 3);
    assert_eq!(clock.get(5), 7);
    clock.apply_dot(5, 9);
    assert_eq!(clock.get(5), 9);
}

#[test]
fn vclock_merge_is_pointwise_max() {
    let mut a = VClock::new();
    a.apply_dot(1, 4);
    a.apply_dot(2, 1);
    let mut b = VClock::new();
    b.apply_dot(1, 2);
    b.apply_dot(3, 6);
    a.merge(&b);
    assert_eq!(a.get(1), 4);
    assert_eq!(a.get(2), 1);
    assert_eq!(a.get(3), 6);
}

#[test]
fn vclock_le_is_pointwise() {
    let mut a = VClock::new();
    a.apply_dot(1, 1);
    let mut b = VClock::new();
    b.apply_dot(1, 2);
    b.apply_dot(2, 1);
    assert!(a.le(&b));
    assert!(!b.le(&a));
    assert!(a.le(&a));
}

#[test]
fn mvreg_write_dominates_own_read() {
    let mut reg: MVReg<u64> = MVReg::new();
    let ctx = reg.read().derive_add_ctx(10);
    let op = reg.write(1, ctx);
    reg.apply(op);
    assert_eq!(reg.read().val, vec![1]);
    let ctx = reg.read().derive_add_ctx(10);
    let op = reg.write(2, ctx);
    reg.apply(op);
    assert_eq!(reg.read().val, vec![2]);
}

#[test]
fn mvreg_concurrent_writes_both_kept() {
    let mut a: MVReg<u64> = MVReg::new();
    let mut b: MVReg<u64> = MVReg::new();
    let op_a = a.write(1, a.read().derive_add_ctx(10));
    a.apply(op_a);
    let op_b = b.write(2, b.read().derive_add_ctx(20));
    b.apply(op_b);
    let mut ab = a.deep_clone();
    ab.merge(b.deep_clone());
    let mut vals = ab.read().val;
    vals.sort_unstable();
    assert_eq!(vals, vec![1, 2]);
    // the other order keeps the same values
    let mut ba = b.deep_clone();
    ba.merge(a.deep_clone());
    let mut vals = ba.read().val;
    vals.sort_unstable();
    assert_eq!(vals, vec![1, 2]);
}

#[test]
fn mvreg_merge_is_idempotent() {
    let mut a: MVReg<u64> = MVReg::new();
    let op = a.write(7, a.read().derive_add_ctx(1));
    a.apply(op);
    let copy = a.deep_clone();
    a.merge(copy);
    assert_eq!(a.read().val, vec![7]);
}

#[test]
fn mvreg_informed_write_collapses() {
    let mut a: MVReg<u64> = MVReg::new();
    let mut b: MVReg<u64> = MVReg::new();
    let op_a = a.write(1, a.read().derive_add_ctx(10));
    a.apply(op_a);
    b.merge(a.deep_clone());
    // b read a's write before writing: its write dominates
    let op_b = b.write(2, b.read().derive_add_ctx(20));
    b.apply(op_b);
    let mut ab = a.deep_clone();
    ab.merge(b.deep_clone());
    assert_eq!(ab.read().val, vec![2]);
}

#[test]
fn lock_box_holds_and_updates() {
    let mut cell = crdt_enc::utils::LockBox::new(41u64);
    let out = cell.with(|v: u64| (v + 1, v));
    assert_eq!(out, 41);
    let out = cell.try_with(|v: u64| (v, Ok::<u64, crdt_enc::error::Error>(v)));
    assert_eq!(out.unwrap(), 42);
}
