//! The replicated long.

use bonsaigrid::raft::atomiclong::{decode, encode, AlOp, AlReply, AtomicLongSm};

#[test]
fn atomiclong_encode_decode_roundtrip() {
    for op in [
        AlOp::Get,
        AlOp::SetTo(42),
        AlOp::GetAndSet(-7),
        AlOp::AddAndGet(3),
        AlOp::GetAndAdd(9),
        AlOp::CompareAndSet(1, 2),
    ] {
        let b = encode("counter", &op);
        let (name, decoded) = decode(&b).unwrap();
        assert_eq!(name, "counter");
        assert_eq!(decoded, op);
    }
}

#[test]
fn atomiclong_apply_semantics() {
    let mut sm = AtomicLongSm::new();
    assert_eq!(sm.apply(&encode("c", &AlOp::Get)), AlReply::Long(0));
    assert_eq!(
        sm.apply(&encode("c", &AlOp::AddAndGet(5))),
        AlReply::Long(5)
    );
    assert_eq!(
        sm.apply(&encode("c", &AlOp::GetAndAdd(3))),
        AlReply::Long(5)
    );
    assert_eq!(sm.get("c"), 8);
    assert_eq!(
        sm.apply(&encode("c", &AlOp::GetAndSet(100))),
        AlReply::Long(8)
    );
    assert_eq!(
        sm.apply(&encode("c", &AlOp::CompareAndSet(100, 200))),
        AlReply::Bool(true)
    );
    assert_eq!(
        sm.apply(&encode("c", &AlOp::CompareAndSet(100, 999))),
        AlReply::Bool(false)
    );
    assert_eq!(sm.get("c"), 200);
}

#[test]
fn keys_are_independent() {
    let mut sm = AtomicLongSm::new();
    sm.apply(&encode("a", &AlOp::SetTo(1)));
    sm.apply(&encode("b", &AlOp::SetTo(2)));
    assert_eq!(sm.get("a"), 1);
    assert_eq!(sm.get("b"), 2);
}
