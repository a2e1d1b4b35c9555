//! The replicated map.

use bonsaigrid::raft::cpmap::{decode, encode, CpMapSm, MapOp};
use bonsaigrid::raft::reply::CpReply;

#[test]
fn cpmap_encode_decode_roundtrip() {
    let ops = [
        MapOp::Get(b"k".to_vec()),
        MapOp::Put(b"k".to_vec(), b"v".to_vec()),
        MapOp::SetTo(b"k".to_vec(), b"v".to_vec()),
        MapOp::PutIfAbsent(b"k".to_vec(), b"v".to_vec()),
        MapOp::Remove(b"k".to_vec()),
        MapOp::RemoveIfEquals(b"k".to_vec(), b"v".to_vec()),
        MapOp::Replace(b"k".to_vec(), b"v".to_vec()),
        MapOp::CompareAndSet(b"k".to_vec(), b"e".to_vec(), b"n".to_vec()),
        MapOp::ContainsKey(b"k".to_vec()),
        MapOp::Size,
        MapOp::Clear,
    ];
    for op in ops {
        let b = encode("m", &op);
        let (name, got) = decode(&b).unwrap();
        assert_eq!(name, "m");
        assert_eq!(got, op);
    }
}

#[test]
fn linearizable_map_semantics() {
    let mut sm = CpMapSm::new();
    let ap = |sm: &mut CpMapSm, op: MapOp| sm.apply(&encode("m", &op));

    // put returns previous (None first, then old)
    assert_eq!(
        ap(&mut sm, MapOp::Put(b"a".to_vec(), b"1".to_vec())),
        CpReply::Data(None)
    );
    assert_eq!(
        ap(&mut sm, MapOp::Put(b"a".to_vec(), b"2".to_vec())),
        CpReply::Data(Some(b"1".to_vec()))
    );
    assert_eq!(
        ap(&mut sm, MapOp::Get(b"a".to_vec())),
        CpReply::Data(Some(b"2".to_vec()))
    );

    // putIfAbsent keeps existing
    assert_eq!(
        ap(&mut sm, MapOp::PutIfAbsent(b"a".to_vec(), b"9".to_vec())),
        CpReply::Data(Some(b"2".to_vec()))
    );
    assert_eq!(
        ap(&mut sm, MapOp::PutIfAbsent(b"b".to_vec(), b"3".to_vec())),
        CpReply::Data(None)
    );

    // CAS
    assert_eq!(
        ap(
            &mut sm,
            MapOp::CompareAndSet(b"a".to_vec(), b"2".to_vec(), b"4".to_vec())
        ),
        CpReply::Bool(true)
    );
    assert_eq!(
        ap(
            &mut sm,
            MapOp::CompareAndSet(b"a".to_vec(), b"2".to_vec(), b"5".to_vec())
        ),
        CpReply::Bool(false)
    );
    assert_eq!(sm.get("m", b"a"), Some(b"4".to_vec()));

    // replace only if present
    assert_eq!(
        ap(&mut sm, MapOp::Replace(b"absent".to_vec(), b"x".to_vec())),
        CpReply::Data(None)
    );
    assert_eq!(sm.get("m", b"absent"), None);

    // removeIfEquals + size + contains + clear
    assert_eq!(
        ap(&mut sm, MapOp::ContainsKey(b"a".to_vec())),
        CpReply::Bool(true)
    );
    assert_eq!(ap(&mut sm, MapOp::Size), CpReply::Long(2));
    assert_eq!(
        ap(
            &mut sm,
            MapOp::RemoveIfEquals(b"a".to_vec(), b"WRONG".to_vec())
        ),
        CpReply::Bool(false)
    );
    assert_eq!(
        ap(&mut sm, MapOp::RemoveIfEquals(b"a".to_vec(), b"4".to_vec())),
        CpReply::Bool(true)
    );
    assert_eq!(
        ap(&mut sm, MapOp::Remove(b"b".to_vec())),
        CpReply::Data(Some(b"3".to_vec()))
    );
    assert_eq!(ap(&mut sm, MapOp::Size), CpReply::Long(0));
    ap(&mut sm, MapOp::Put(b"x".to_vec(), b"1".to_vec()));
    assert_eq!(ap(&mut sm, MapOp::Clear), CpReply::Nil);
    assert_eq!(sm.size("m"), 0);
}
