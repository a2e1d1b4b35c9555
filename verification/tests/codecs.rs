//! The layouts of requests and responses.

use bonsaigrid::codecs::atomiclong::AtomicLongOp;
use bonsaigrid::codecs::atomicref::ArReq;
use bonsaigrid::codecs::cpmap::CpMapReq;
use bonsaigrid::codecs::fencedlock::FlReq;
use bonsaigrid::codecs::{
    address, atomiclong, atomicref, cpcount, cpmap, cpsession, executor, fencedlock, mc,
    member_info, partition_table,
};
use bonsaigrid::protocol::fixed::{read_i32_le, read_i64_le, read_uuid, write_i64_le};
use bonsaigrid::protocol::frame::{BEGIN_DS, END_DS};
use bonsaigrid::protocol::primitives::{data_frame, decode_string, initial_frame, string_frame};

#[test]
fn address_encodes_begin_port_host_end() {
    let mut frames = Vec::new();
    address::encode(&mut frames, "127.0.0.1", 5701);
    assert!(frames[0].flags & BEGIN_DS != 0);
    assert_eq!(read_i32_le(&frames[1].content, 0), 5701);
    assert_eq!(decode_string(&frames[2]), "127.0.0.1");
    assert!(frames[3].flags & END_DS != 0);
}

fn atomiclong_roundtrip(req_type: i32, op: atomiclong::AtomicLongOp) {
    let frames = atomiclong::encode_request(req_type, "default", "counter", &op);
    let req = atomiclong::decode_request(req_type, &frames).expect("decodes");
    assert_eq!(req.name, "counter");
    assert_eq!(req.op, op);
}

#[test]
fn atomiclong_request_roundtrip_all_ops() {
    atomiclong_roundtrip(atomiclong::GET_REQ, AtomicLongOp::Get);
    atomiclong_roundtrip(atomiclong::SET_REQ, AtomicLongOp::SetTo(42));
    atomiclong_roundtrip(atomiclong::GET_AND_SET_REQ, AtomicLongOp::GetAndSet(-7));
    atomiclong_roundtrip(atomiclong::ADD_AND_GET_REQ, AtomicLongOp::AddAndGet(5));
    atomiclong_roundtrip(atomiclong::GET_AND_ADD_REQ, AtomicLongOp::GetAndAdd(9));
    atomiclong_roundtrip(atomiclong::COMPARE_AND_SET_REQ, AtomicLongOp::CompareAndSet(1, 2));
}

#[test]
fn long_response_layout() {
    let f = atomiclong::encode_long_response(atomiclong::ADD_AND_GET_RESP, 123);
    assert_eq!(read_i32_le(&f[0].content, 0), atomiclong::ADD_AND_GET_RESP);
    assert_eq!(read_i64_le(&f[0].content, 13), 123);
}

#[test]
fn atomiclong_bool_response_layout() {
    let f = atomiclong::encode_bool_response(atomiclong::COMPARE_AND_SET_RESP, true);
    assert_eq!(read_i32_le(&f[0].content, 0), atomiclong::COMPARE_AND_SET_RESP);
    assert_eq!(f[0].content[13], 1);
}

#[test]
fn atomiclong_response_type_mapping() {
    assert_eq!(
        atomiclong::response_type(atomiclong::ADD_AND_GET_REQ),
        Some(atomiclong::ADD_AND_GET_RESP)
    );
    assert_eq!(
        atomiclong::response_type(atomiclong::COMPARE_AND_SET_REQ),
        Some(atomiclong::COMPARE_AND_SET_RESP)
    );
    assert!(atomiclong::is_atomiclong(atomiclong::GET_REQ));
    assert!(!atomiclong::is_atomiclong(12345));
}

fn atomicref_roundtrip(req_type: i32, op: atomicref::ArReq) {
    let frames = atomicref::encode_request(req_type, "default", "ref", &op);
    let req = atomicref::decode_request(req_type, &frames).expect("decodes");
    assert_eq!(req.name, "ref");
    assert_eq!(req.op, op);
}

#[test]
fn atomicref_request_roundtrip_all_ops() {
    atomicref_roundtrip(atomicref::GET_REQ, ArReq::Get);
    atomicref_roundtrip(
        atomicref::SET_REQ,
        ArReq::SetTo { new: Some(b"v".to_vec()), return_old: true },
    );
    atomicref_roundtrip(atomicref::SET_REQ, ArReq::SetTo { new: None, return_old: false });
    atomicref_roundtrip(
        atomicref::COMPARE_AND_SET_REQ,
        ArReq::CompareAndSet { old: Some(b"a".to_vec()), new: Some(b"b".to_vec()) },
    );
    atomicref_roundtrip(
        atomicref::COMPARE_AND_SET_REQ,
        ArReq::CompareAndSet { old: None, new: Some(b"b".to_vec()) },
    );
    atomicref_roundtrip(atomicref::CONTAINS_REQ, ArReq::Contains { value: Some(b"c".to_vec()) });
}

#[test]
fn data_response_layout() {
    let mut f = atomicref::encode_data_response(atomicref::GET_RESP, Some(b"hi"));
    atomicref::set_correlation(&mut f, 77);
    assert_eq!(read_i32_le(&f[0].content, 0), atomicref::GET_RESP);
    assert_eq!(read_i64_le(&f[0].content, 4), 77);
    assert_eq!(f[1].content, b"hi");
    // A null value is a null frame.
    let n = atomicref::encode_data_response(atomicref::GET_RESP, None);
    assert!(n[1].is_null());
}

#[test]
fn atomicref_bool_response_layout() {
    let f = atomicref::encode_bool_response(atomicref::COMPARE_AND_SET_RESP, true);
    assert_eq!(read_i32_le(&f[0].content, 0), atomicref::COMPARE_AND_SET_RESP);
    assert_eq!(f[0].content[13], 1);
}

#[test]
fn cdl_trysetcount_roundtrip() {
    let f = cpcount::encode_request(cpcount::CDL_TRY_SET_COUNT_REQ, "g", "latch", 16, 5);
    let r = cpcount::decode_request(cpcount::CDL_TRY_SET_COUNT_REQ, &f).unwrap();
    assert_eq!(r.name, "latch");
    assert_eq!(r.op, cpcount::CpCountReq::CdlTrySetCount(5));
}

#[test]
fn sem_acquire_permits_at_offset_49() {
    let f = cpcount::encode_request(cpcount::SEM_ACQUIRE_REQ, "g", "sem", 49, 3);
    let r = cpcount::decode_request(cpcount::SEM_ACQUIRE_REQ, &f).unwrap();
    assert_eq!(r.name, "sem");
    assert_eq!(r.op, cpcount::CpCountReq::SemAcquire(3));
}

#[test]
fn no_param_ops_and_responses() {
    let f = cpcount::encode_request(cpcount::SEM_AVAILABLE_REQ, "g", "sem", 0, 0);
    assert_eq!(
        cpcount::decode_request(cpcount::SEM_AVAILABLE_REQ, &f).unwrap().op,
        cpcount::CpCountReq::SemAvailablePermits
    );
    assert_eq!(
        read_i32_le(&cpcount::encode_int_response(cpcount::SEM_AVAILABLE_RESP, 7)[0].content, 13),
        7
    );
    assert_eq!(cpcount::encode_bool_response(cpcount::SEM_INIT_RESP, true)[0].content[13], 1);
}

#[test]
fn cpcount_response_type_mapping() {
    assert_eq!(
        cpcount::response_type(cpcount::CDL_GET_COUNT_REQ),
        Some(cpcount::CDL_GET_COUNT_RESP)
    );
    assert!(cpcount::is_cp_count(cpcount::SEM_DRAIN_REQ));
    assert!(!cpcount::is_cp_count(12345));
}

#[test]
fn request_roundtrips() {
    let cases = [
        (cpmap::GET_REQ, CpMapReq::Get(b"k".to_vec())),
        (cpmap::PUT_REQ, CpMapReq::Put(b"k".to_vec(), b"v".to_vec())),
        (cpmap::SET_REQ, CpMapReq::SetTo(b"k".to_vec(), b"v".to_vec())),
        (cpmap::REMOVE_REQ, CpMapReq::Remove(b"k".to_vec())),
        (cpmap::DELETE_REQ, CpMapReq::Delete(b"k".to_vec())),
        (cpmap::PUT_IF_ABSENT_REQ, CpMapReq::PutIfAbsent(b"k".to_vec(), b"v".to_vec())),
        (
            cpmap::CAS_REQ,
            CpMapReq::CompareAndSet(b"k".to_vec(), b"e".to_vec(), b"n".to_vec()),
        ),
    ];
    for (ty, op) in cases {
        let frames = cpmap::encode_request(ty, "default", "m", &op);
        let dec = cpmap::decode_request(ty, &frames).expect("decodes");
        assert_eq!(dec.name, "m");
        assert_eq!(dec.op, op);
    }
}

#[test]
fn unknown_requests_are_not_decoded() {
    let f = cpmap::encode_request(cpmap::GET_REQ, "g", "m", &cpmap::CpMapReq::Get(vec![1]));
    assert!(cpmap::decode_request(1, &f).is_none());
    assert!(!cpmap::is_cpmap(1));
    let g = atomiclong::encode_request(
        atomiclong::GET_REQ,
        "g",
        "n",
        &atomiclong::AtomicLongOp::Get,
    );
    assert!(atomiclong::decode_request(1, &g).is_none());
    assert!(atomiclong::response_type(1).is_none());
}

#[test]
fn decode_and_responses() {
    assert_eq!(
        cpsession::decode_request(cpsession::CREATE_REQ, &[initial_frame(vec![0u8; 16])]),
        Some(cpsession::CpSessionReq::Create)
    );
    // sessionId at offset 16 for close and heartbeat.
    let mut init = vec![0u8; 24];
    write_i64_le(&mut init, 16, 42);
    assert_eq!(
        cpsession::decode_request(cpsession::CLOSE_REQ, &[initial_frame(init.clone())]),
        Some(cpsession::CpSessionReq::Close(42))
    );
    assert_eq!(
        cpsession::decode_request(cpsession::HEARTBEAT_REQ, &[initial_frame(init)]),
        Some(cpsession::CpSessionReq::Heartbeat(42))
    );
    // Create response fields.
    let f = cpsession::encode_create_response(cpsession::CREATE_RESP, 7, 30000, 5000);
    assert_eq!(read_i64_le(&f[0].content, 13), 7);
    assert_eq!(read_i64_le(&f[0].content, 21), 30000);
    assert_eq!(read_i64_le(&f[0].content, 29), 5000);
    assert!(cpsession::is_cp_session(cpsession::GENERATE_THREAD_ID_REQ));
    assert!(!cpsession::is_cp_session(1));
}

#[test]
fn request_roundtrip() {
    for (t, op) in [
        (fencedlock::LOCK_REQ, FlReq::Lock),
        (fencedlock::TRY_LOCK_REQ, FlReq::TryLock),
        (fencedlock::UNLOCK_REQ, FlReq::Unlock),
    ] {
        let f = fencedlock::encode_request(t, "g", "lk", 11, 22);
        let r = fencedlock::decode_request(t, &f).unwrap();
        assert_eq!(r.name, "lk");
        assert_eq!(r.session, 11);
        assert_eq!(r.thread, 22);
        assert_eq!(r.op, op);
    }
    assert!(fencedlock::is_fencedlock(fencedlock::LOCK_REQ));
    assert!(!fencedlock::is_fencedlock(1));
    assert_eq!(
        fencedlock::response_type(fencedlock::UNLOCK_REQ),
        Some(fencedlock::UNLOCK_RESP)
    );
}

#[test]
fn member_encodes_begin_uuid_lite_then_nested_then_end() {
    let mut f = Vec::new();
    member_info::encode(&mut f, (123456789, 987654321), "127.0.0.1", 5701, false, (5, 8, 0));
    assert!(f[0].flags & BEGIN_DS != 0);
    assert_eq!(read_uuid(&f[1].content, 0), Some((123456789, 987654321)));
    assert_eq!(f[1].content[17], 0); // not lite
    assert!(f.last().unwrap().flags & END_DS != 0);
}

#[test]
fn member_list_wraps_in_begin_end() {
    let mut f = Vec::new();
    member_info::encode_list(
        &mut f,
        &[((1, 1), "127.0.0.1".to_string(), 5701, false, (5, 8, 0))],
    );
    assert!(f[0].flags & BEGIN_DS != 0);
    assert!(f.last().unwrap().flags & END_DS != 0);
}

#[test]
fn single_member_owns_all_partitions() {
    let parts: Vec<i32> = (0..271).collect();
    let mut f = Vec::new();
    partition_table::encode(&mut f, &[((7, 9), parts.clone())]);
    // BEGIN, value-frame, END, key-frame
    assert!(f[0].flags & BEGIN_DS != 0);
    assert_eq!(f[1].content.len(), 271 * 4);
    assert_eq!(read_i32_le(&f[1].content, 0), 0);
    assert_eq!(read_i32_le(&f[1].content, 270 * 4), 270);
    assert!(f[2].flags & END_DS != 0);
    assert_eq!(read_uuid(&f[3].content, 0), Some((7, 9)));
}

#[test]
fn submissions_carry_name_uuid_and_task() {
    let mut init = vec![0u8; 32];
    write_i64_le(&mut init, 16, 11);
    write_i64_le(&mut init, 24, 22);
    let frames = [initial_frame(init), string_frame("exec"), data_frame(b"task")];
    let (name, uuid, task) = executor::decode_submit_to_partition(&frames);
    assert_eq!(name, "exec");
    assert_eq!(uuid, (11, 22));
    assert_eq!(task, b"task");
    let r = executor::encode_submit_response(7, Some(b"done"));
    assert_eq!(read_i32_le(&r[0].content, 0), 7);
    assert_eq!(r[1].content, b"done");
    assert!(executor::encode_submit_response(7, None)[1].is_null());
}

#[test]
fn member_state_response_has_header_and_text() {
    let f = mc::encode_get_timed_member_state_response("{}");
    assert_eq!(read_i32_le(&f[0].content, 0), mc::TIMED_MEMBER_STATE_RESP);
    assert_eq!(decode_string(&f[1]), "{}");
}

#[test]
fn members_without_partitions_are_listed() {
    let mut f = Vec::new();
    partition_table::encode(&mut f, &[((7, 9), vec![]), ((1, 2), vec![5])]);
    assert_eq!(f.len(), 5);
    assert!(f[1].content.is_empty());
    assert_eq!(read_i32_le(&f[2].content, 0), 5);
    assert_eq!(read_uuid(&f[4].content, 0), Some((7, 9)));
    assert_eq!(read_uuid(&f[4].content, 17), Some((1, 2)));
}
