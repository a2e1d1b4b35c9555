//! Requests of a load driver.

use bonsaigrid::bench::{
    authenticate, expected_value, get_request, response_value, store_request, Session, Tally,
    MAP_GET, MAP_SET,
};
use bonsaigrid::protocol::fixed::{read_i32_le, read_i64_le};
use bonsaigrid::protocol::frame::{read_message, write_message};
use bonsaigrid::protocol::message::{correlation_id, msg_type, partition_id};
use bonsaigrid::protocol::primitives::{data_frame, decode_string, initial_frame, null_frame};

#[test]
fn requests_have_their_layout() {
    let a = authenticate();
    assert_eq!(msg_type(&a), 256);
    assert_eq!(partition_id(&a), -1);
    assert_eq!(decode_string(&a[1]), "dev");
    assert!(a[2].is_null() && a[3].is_null());
    assert_eq!(decode_string(&a[4]), "rust-bench");
    let g = get_request("m", b"k");
    assert_eq!(read_i32_le(&g[0].content, 0), MAP_GET);
    assert_eq!(read_i64_le(&g[0].content, 16), 1);
    assert_eq!(g[2].content, b"k");
    let s = store_request(MAP_SET, "m", b"k", b"v", 250);
    assert_eq!(msg_type(&s), MAP_SET);
    assert_eq!(read_i64_le(&s[0].content, 24), 250);
    assert_eq!(s[3].content, b"v");
}

#[test]
fn a_session_numbers_requests_and_collects_responses() {
    let mut s = Session::new();
    let first = s.request(get_request("m", b"k"));
    let second = s.request(get_request("m", b"k"));
    assert_eq!(correlation_id(&read_message(&first).unwrap().0), 1);
    assert_eq!(correlation_id(&read_message(&second).unwrap().0), 2);
    let answer = write_message(&[initial_frame(vec![0; 13]), data_frame(b"v")]);
    let (head, tail) = answer.split_at(9);
    s.receive(head);
    assert!(s.response().is_none());
    s.receive(tail);
    s.receive(&[7]);
    let frames = s.response().unwrap();
    assert_eq!(response_value(&frames), Some(b"v".to_vec()));
    assert_eq!(s.buf, vec![7]);
    assert_eq!(response_value(&[initial_frame(vec![]), null_frame()]), None);
    assert_eq!(response_value(&[initial_frame(vec![])]), None);
}

#[test]
fn reads_are_counted_against_what_was_stored() {
    assert_eq!(expected_value(258, 10), vec![2, 1, 0, 0, 0, 0, 0, 0, 14, 15]);
    assert_eq!(expected_value(258, 3), vec![2, 1, 0]);
    let mut t = Tally { hit: 0, miss: 0, mismatch: 0 };
    t.count(&Some(expected_value(1, 4)), &expected_value(1, 4));
    t.count(&Some(expected_value(2, 4)), &expected_value(1, 4));
    t.count(&None, &expected_value(1, 4));
    assert_eq!(t, Tally { hit: 1, miss: 1, mismatch: 1 });
}
