//! The replicated reference.

use bonsaigrid::raft::atomicref::{decode, encode, ArOp, AtomicReferenceSm};
use bonsaigrid::raft::reply::CpReply;

#[test]
fn atomicref_encode_decode_roundtrip() {
    for op in [
        ArOp::Get,
        ArOp::SetTo(Some(b"v".to_vec())),
        ArOp::SetTo(None),
        ArOp::GetAndSet(Some(b"x".to_vec())),
        ArOp::CompareAndSet(Some(b"a".to_vec()), Some(b"b".to_vec())),
        ArOp::CompareAndSet(None, Some(b"b".to_vec())),
        ArOp::Contains(Some(b"c".to_vec())),
        ArOp::IsNull,
        ArOp::Clear,
    ] {
        let b = encode("ref", &op);
        let (name, decoded) = decode(&b).unwrap();
        assert_eq!(name, "ref");
        assert_eq!(decoded, op);
    }
}

#[test]
fn atomicref_apply_semantics() {
    let mut sm = AtomicReferenceSm::new();
    assert_eq!(sm.apply(&encode("r", &ArOp::IsNull)), CpReply::Bool(true));
    assert_eq!(sm.apply(&encode("r", &ArOp::Get)), CpReply::Data(None));
    assert_eq!(
        sm.apply(&encode("r", &ArOp::SetTo(Some(b"hi".to_vec())))),
        CpReply::Nil
    );
    assert_eq!(
        sm.apply(&encode("r", &ArOp::Get)),
        CpReply::Data(Some(b"hi".to_vec()))
    );
    assert_eq!(
        sm.apply(&encode(
            "r",
            &ArOp::CompareAndSet(Some(b"hi".to_vec()), Some(b"bye".to_vec()))
        )),
        CpReply::Bool(true)
    );
    assert_eq!(
        sm.apply(&encode(
            "r",
            &ArOp::CompareAndSet(Some(b"hi".to_vec()), None)
        )),
        CpReply::Bool(false)
    );
    assert_eq!(
        sm.apply(&encode("r", &ArOp::GetAndSet(None))),
        CpReply::Data(Some(b"bye".to_vec()))
    );
    assert_eq!(sm.apply(&encode("r", &ArOp::IsNull)), CpReply::Bool(true));
}
