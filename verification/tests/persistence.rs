//! Records, segments, snapshots and recovery.

use bonsaigrid::persistence::generations::{
    generation_of, latest_generation, plan_recovery, prune_below, recover, Durability,
    SNAPSHOT_PREFIX, WAL_PREFIX,
};
use bonsaigrid::persistence::record::{
    decode_record, encode_aux_state, encode_map_put, encode_map_remove, parse_aux_state,
    parse_map_put, parse_map_remove, Decoded, RecordType,
};
use bonsaigrid::persistence::snapshot::{load_snapshot, write_snapshot, SnapshotError};
use bonsaigrid::persistence::wal::{read_segment, replay_segment, StoreOp};
use std::collections::BTreeMap;

/// A store that keeps what is asked of it.
#[derive(Default)]
struct Store {
    maps: BTreeMap<(String, Vec<u8>), (Vec<u8>, u64)>,
    aux: BTreeMap<(u8, String), Vec<u8>>,
}

impl Store {
    fn apply(&mut self, ops: Vec<StoreOp>) {
        for op in ops {
            match op {
                StoreOp::PutMerge { map, key, value, stamp, .. } => {
                    let newer = self.maps.get(&(map.clone(), key.clone())).is_some_and(|e| e.1 > stamp);
                    if !newer {
                        self.maps.insert((map, key), (value, stamp));
                    }
                }
                StoreOp::Remove { map, key } => {
                    self.maps.remove(&(map, key));
                }
                StoreOp::InstallAux { kind, name, state } => {
                    self.aux.insert((kind, name), state);
                }
            }
        }
    }

    fn get(&self, map: &str, key: &[u8]) -> Option<Vec<u8>> {
        self.maps.get(&(map.to_string(), key.to_vec())).map(|e| e.0.clone())
    }
}

fn segment_ops(seg: &[u8]) -> Vec<StoreOp> {
    let mut ops = Vec::new();
    replay_segment(seg, &mut ops);
    ops
}

#[test]
fn durability_parse() {
    assert_eq!(Durability::parse("none"), Durability::Off);
    assert_eq!(Durability::parse("Async"), Durability::Async);
    assert_eq!(Durability::parse("SYNC"), Durability::Sync);
    assert_eq!(Durability::parse("x"), Durability::Off);
    assert!(Durability::Async.enabled());
    assert!(!Durability::Off.enabled());
}

#[test]
fn map_put_roundtrip() {
    let mut buf = Vec::new();
    encode_map_put(&mut buf, 42, 1000, "orders", b"k1", b"value1");
    match decode_record(&buf) {
        Decoded::Record { rtype, payload, consumed } => {
            assert_eq!(rtype, RecordType::MapPut);
            assert_eq!(consumed, buf.len());
            let mp = parse_map_put(payload).unwrap();
            assert_eq!(mp.stamp, 42);
            assert_eq!(mp.ttl_ms, 1000);
            assert_eq!(mp.map, "orders");
            assert_eq!(mp.key, b"k1");
            assert_eq!(mp.value, b"value1");
        }
        other => panic!("expected Record, got {other:?}"),
    }
}

#[test]
fn map_remove_roundtrip() {
    let mut buf = Vec::new();
    encode_map_remove(&mut buf, 7, "m", b"gone");
    match decode_record(&buf) {
        Decoded::Record { rtype, payload, .. } => {
            assert_eq!(rtype, RecordType::MapRemove);
            let mr = parse_map_remove(payload).unwrap();
            assert_eq!(mr.stamp, 7);
            assert_eq!(mr.map, "m");
            assert_eq!(mr.key, b"gone");
        }
        other => panic!("expected Record, got {other:?}"),
    }
}

#[test]
fn aux_state_roundtrip() {
    let mut buf = Vec::new();
    encode_aux_state(&mut buf, 3, "queue", b"state");
    match decode_record(&buf) {
        Decoded::Record { rtype, payload, consumed } => {
            assert_eq!(rtype, RecordType::AuxState);
            assert_eq!(consumed, buf.len());
            let a = parse_aux_state(payload).unwrap();
            assert_eq!((a.kind, a.name, a.state), (3, "queue", &b"state"[..]));
        }
        other => panic!("expected Record, got {other:?}"),
    }
}

#[test]
fn two_records_decode_sequentially() {
    let mut buf = Vec::new();
    encode_map_put(&mut buf, 1, 0, "m", b"a", b"1");
    encode_map_put(&mut buf, 2, 0, "m", b"b", b"2");
    let Decoded::Record { consumed: c1, .. } = decode_record(&buf) else {
        panic!("first record");
    };
    let Decoded::Record { payload, consumed, .. } = decode_record(&buf[c1..]) else {
        panic!("second record");
    };
    assert_eq!(c1 + consumed, buf.len());
    assert_eq!(parse_map_put(payload).unwrap().key, b"b");
}

#[test]
fn truncated_is_need_more() {
    let mut buf = Vec::new();
    encode_map_put(&mut buf, 1, 0, "m", b"k", b"v");
    buf.truncate(buf.len() - 3);
    assert!(matches!(decode_record(&buf), Decoded::NeedMore));
}

#[test]
fn corrupt_payload_is_torn() {
    let mut buf = Vec::new();
    encode_map_put(&mut buf, 1, 0, "m", b"k", b"v");
    let last = buf.len() - 1;
    buf[last] ^= 0xFF; // flip a payload byte: the checksum does not match
    assert!(matches!(decode_record(&buf), Decoded::Torn));
}

#[test]
fn records_carry_the_checksum_of_their_body() {
    let mut buf = Vec::new();
    encode_aux_state(&mut buf, 1, "n", b"");
    let crc = u32::from_le_bytes([buf[4], buf[5], buf[6], buf[7]]);
    assert_eq!(crc, crc32fast::hash(&buf[8..]));
}

#[test]
fn segments_read_back_and_torn_tails_are_ignored() {
    let mut seg = Vec::new();
    encode_map_put(&mut seg, 1, 0, "m", b"a", b"1");
    encode_map_put(&mut seg, 2, 0, "m", b"b", b"2");
    let keys = |s: &[u8]| -> Vec<Vec<u8>> {
        read_segment(s).iter().map(|r| parse_map_put(&r.payload).unwrap().key.to_vec()).collect()
    };
    assert_eq!(keys(&seg), vec![b"a".to_vec(), b"b".to_vec()]);
    // A crash in the middle of writing the second record.
    seg.truncate(seg.len() - 3);
    assert_eq!(keys(&seg), vec![b"a".to_vec()]);
}

#[test]
fn snapshots_read_back() {
    let entries = vec![
        ("a".to_string(), b"k1".to_vec(), b"v1".to_vec(), 1),
        ("a".to_string(), b"k2".to_vec(), b"v2".to_vec(), 2),
        ("b".to_string(), b"k3".to_vec(), b"v3".to_vec(), 3),
    ];
    let aux = vec![(4u8, "q".to_string(), b"q1q2".to_vec())];
    let bytes = write_snapshot(&entries, &aux);
    let mut dst = Store::default();
    dst.apply(load_snapshot(&bytes).unwrap());
    assert_eq!(dst.get("a", b"k1"), Some(b"v1".to_vec()));
    assert_eq!(dst.get("a", b"k2"), Some(b"v2".to_vec()));
    assert_eq!(dst.get("b", b"k3"), Some(b"v3".to_vec()));
    assert_eq!(dst.aux.get(&(4, "q".to_string())), Some(&b"q1q2".to_vec()));
}

#[test]
fn what_is_no_snapshot_is_refused() {
    assert_eq!(load_snapshot(b"nope").unwrap_err(), SnapshotError::BadMagic);
    assert_eq!(load_snapshot(b"").unwrap_err(), SnapshotError::BadMagic);
}

#[test]
fn recovery_takes_the_newest_snapshot_and_the_segments_from_there_on() {
    let names: Vec<String> =
        ["wal.6", "snapshot.3", "wal.5", "wal.2", "snapshot.5", "other", "wal.x", "wal.12"]
            .iter()
            .map(|s| s.to_string())
            .collect();
    let plan = plan_recovery(&names);
    assert_eq!(plan.snapshot, Some(4));
    assert_eq!(plan.segments, vec![2, 0, 7]);
    assert_eq!(latest_generation(&names), 12);
    let mut stale = prune_below(&names, 5);
    stale.sort();
    assert_eq!(stale, vec![1, 3]);
    assert_eq!(generation_of("wal.12", WAL_PREFIX), Some(12));
    assert_eq!(generation_of("snapshot.5", SNAPSHOT_PREFIX), Some(5));
    assert_eq!(generation_of("wal.x", WAL_PREFIX), None);
    assert_eq!(latest_generation(&vec![]), 0);
}

#[test]
fn recovers_snapshot_and_tail_with_remove_and_torn_record() {
    // The snapshot holds k0..k4.
    let base: Vec<(String, Vec<u8>, Vec<u8>, u64)> = (0..5)
        .map(|i| {
            ("m".to_string(), format!("k{i}").into_bytes(), format!("v{i}").into_bytes(), i)
        })
        .collect();
    let snapshot = write_snapshot(&base, &vec![]);

    // The segment after it: put k5..k9, then remove k2.
    let mut seg = Vec::new();
    for i in 5..10 {
        encode_map_put(
            &mut seg,
            100 + i,
            0,
            "m",
            format!("k{i}").as_bytes(),
            format!("v{i}").as_bytes(),
        );
    }
    encode_map_remove(&mut seg, 200, "m", b"k2");
    // A partial final record, from a crash in the middle of writing it.
    let mut torn = Vec::new();
    encode_map_put(&mut torn, 300, 0, "m", b"k99", b"never");
    torn.truncate(torn.len() - 4);
    seg.extend_from_slice(&torn);

    let mut store = Store::default();
    store.apply(recover(Some(&snapshot), &vec![seg]).unwrap());

    // k0,k1,k3,k4 from the snapshot; k5..k9 from the segment; k2 removed; k99 torn.
    for i in [0, 1, 3, 4] {
        assert_eq!(
            store.get("m", format!("k{i}").as_bytes()),
            Some(format!("v{i}").into_bytes()),
            "snapshot key k{i}"
        );
    }
    for i in 5..10 {
        assert_eq!(
            store.get("m", format!("k{i}").as_bytes()),
            Some(format!("v{i}").into_bytes()),
            "segment key k{i}"
        );
    }
    assert_eq!(store.get("m", b"k2"), None, "k2 removed by the segment");
    assert_eq!(store.get("m", b"k99"), None, "torn record dropped");
}

#[test]
fn missing_dir_is_ok() {
    // A directory that is not there has no files.
    let plan = plan_recovery(&vec![]);
    assert!(plan.snapshot.is_none() && plan.segments.is_empty());
    let mut store = Store::default();
    store.apply(recover(None, &vec![]).unwrap());
    assert_eq!(store.maps.len(), 0);
}

#[test]
fn structures_recover_from_segments() {
    let mut seg = Vec::new();
    encode_aux_state(&mut seg, 1, "l", b"old");
    encode_aux_state(&mut seg, 1, "l", b"l1l2");
    encode_aux_state(&mut seg, 2, "s", b"s1");
    let mut store = Store::default();
    store.apply(segment_ops(&seg));
    assert_eq!(store.aux.get(&(1, "l".to_string())), Some(&b"l1l2".to_vec()));
    assert_eq!(store.aux.get(&(2, "s".to_string())), Some(&b"s1".to_vec()));
}

#[test]
fn a_bad_snapshot_stops_recovery() {
    assert_eq!(recover(Some(&b"xxxx".to_vec()), &vec![]).unwrap_err(), SnapshotError::BadMagic);
}

#[test]
fn recovering_twice_is_recovering_once() {
    let base = vec![
        ("m".to_string(), b"a".to_vec(), b"1".to_vec(), 5u64),
        ("m".to_string(), b"b".to_vec(), b"2".to_vec(), 6u64),
    ];
    let snapshot = write_snapshot(&base, &vec![]);
    let mut seg = Vec::new();
    encode_map_put(&mut seg, 9, 0, "m", b"a", b"newer");
    encode_map_put(&mut seg, 3, 0, "m", b"a", b"stale");
    encode_map_remove(&mut seg, 10, "m", b"b");
    encode_aux_state(&mut seg, 1, "l", b"one");
    encode_aux_state(&mut seg, 1, "l", b"two");
    let segments = vec![seg];

    let mut store = Store::default();
    store.apply(recover(Some(&snapshot), &segments).unwrap());
    assert_eq!(store.get("m", b"a"), Some(b"newer".to_vec()));
    assert_eq!(store.get("m", b"b"), None);
    assert_eq!(store.aux.get(&(1, "l".to_string())), Some(&b"two".to_vec()));

    let (maps, aux) = (store.maps.clone(), store.aux.clone());
    store.apply(recover(Some(&snapshot), &segments).unwrap());
    assert_eq!(store.maps, maps);
    assert_eq!(store.aux, aux);
}

#[test]
fn a_directory_recovers_to_what_was_written() {
    let mut older = Vec::new();
    encode_map_put(&mut older, 1, 0, "m", b"gone", b"superseded");
    let mut first = Vec::new();
    encode_map_put(&mut first, 20, 0, "m", b"a", b"first");
    let mut second = Vec::new();
    encode_map_put(&mut second, 30, 0, "m", b"a", b"second");
    encode_map_remove(&mut second, 31, "m", b"b");
    encode_aux_state(&mut second, 1, "l", b"state");
    second.extend_from_slice(&[1, 2, 3]); // torn
    let base = vec![
        ("m".to_string(), b"a".to_vec(), b"old".to_vec(), 10u64),
        ("m".to_string(), b"b".to_vec(), b"kept".to_vec(), 11u64),
        ("m".to_string(), b"c".to_vec(), b"kept".to_vec(), 12u64),
    ];
    let names: Vec<String> = ["wal.11", "snapshot.4", "wal.3", "wal.4", "snapshot.2"]
        .iter()
        .map(|s| s.to_string())
        .collect();
    let contents =
        vec![second, write_snapshot(&base, &vec![]), older, first, b"unread".to_vec()];

    let plan = plan_recovery(&names);
    let segments: Vec<Vec<u8>> = plan.segments.iter().map(|k| contents[*k].clone()).collect();
    let snapshot = plan.snapshot.map(|k| contents[k].clone());
    let mut store = Store::default();
    store.apply(recover(snapshot.as_ref(), &segments).unwrap());
    assert_eq!(store.get("m", b"a"), Some(b"second".to_vec()));
    assert_eq!(store.get("m", b"b"), None);
    assert_eq!(store.get("m", b"c"), Some(b"kept".to_vec()));
    assert_eq!(store.get("m", b"gone"), None);
    assert_eq!(store.aux.get(&(1, "l".to_string())), Some(&b"state".to_vec()));
    let maps = store.maps.clone();
    store.apply(recover(snapshot.as_ref(), &segments).unwrap());
    assert_eq!(store.maps, maps);
}
