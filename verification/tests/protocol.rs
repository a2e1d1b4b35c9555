//! Fixed-size fields, frames, messages and fragments.

use bonsaigrid::protocol::fixed::{
    read_i32_le, read_i64_le, read_u16_le, read_uuid, write_i32_le, write_i64_le, write_u16_le,
    write_uuid, UUID_SIZE,
};
use bonsaigrid::protocol::fragment::Reassembler;
use bonsaigrid::protocol::frame::{
    read_message, write_message, Frame, BEGIN_FRAGMENT, END_FRAGMENT, IS_FINAL, UNFRAGMENTED,
};
use bonsaigrid::protocol::message::{correlation_id, msg_type, partition_id, set_correlation_id};
use bonsaigrid::protocol::primitives::{data_frame, decode_string, null_frame, string_frame};

#[test]
fn i32_roundtrip_is_little_endian() {
    let mut b = [0u8; 4];
    write_i32_le(&mut b, 0, 66048); // MapGet request type 0x010200
    assert_eq!(b, [0x00, 0x02, 0x01, 0x00]);
    assert_eq!(read_i32_le(&b, 0), 66048);
}

#[test]
fn other_fields_roundtrip() {
    let mut b = [0u8; 10];
    write_i64_le(&mut b, 1, -2);
    assert_eq!(b[1], 0xfe);
    assert_eq!(b[8], 0xff);
    assert_eq!(read_i64_le(&b, 1), -2);
    write_u16_le(&mut b, 0, 0x1234);
    assert_eq!((b[0], b[1]), (0x34, 0x12));
    assert_eq!(read_u16_le(&b, 0), 0x1234);
}

#[test]
fn uuid_null_is_single_flag_byte() {
    let mut b = [0xFFu8; UUID_SIZE];
    write_uuid(&mut b, 0, None);
    assert_eq!(b[0], 1); // isNull = true
}

#[test]
fn uuid_present_roundtrips() {
    let mut b = [0u8; UUID_SIZE];
    write_uuid(&mut b, 0, Some((0x1122334455667788, 0x99AABBCCDDEEFF00u64 as i64)));
    assert_eq!(b[0], 0); // isNull = false
    assert_eq!(read_uuid(&b, 0), Some((0x1122334455667788, 0x99AABBCCDDEEFF00u64 as i64)));
}

fn frag_frame(flags: u16, frag_id: u64) -> Frame {
    let mut content = vec![0u8; 8];
    write_i64_le(&mut content, 0, frag_id as i64);
    Frame { flags, content }
}

#[test]
fn reassembles_a_two_fragment_message() {
    // A message of 3 frames (an initial frame + two data frames).
    let mut initial = vec![0u8; 16];
    write_i32_le(&mut initial, 0, 65792); // a MapPut-ish header
    let real = vec![
        Frame { flags: UNFRAGMENTED, content: initial },
        Frame { flags: 0, content: vec![1, 2, 3] },
        Frame { flags: 0, content: vec![4, 5, 6, 7] },
    ];
    let expected = write_message(&real);

    // Split into two fragments (frag id 99): [fragFrame(BEGIN), real[0], real[1]]
    // and [fragFrame(END), real[2]]. Each fragment is its own wire message.
    let frag1 =
        write_message(&[frag_frame(BEGIN_FRAGMENT, 99), real[0].clone(), real[1].clone()]);
    let frag2 = write_message(&[frag_frame(END_FRAGMENT, 99), real[2].clone()]);

    let mut r = Reassembler::new();
    assert!(r.push(&frag1).is_none(), "first fragment is incomplete");
    let assembled = r.push(&frag2).expect("END fragment completes the message");
    assert_eq!(assembled, expected, "reassembled bytes equal the original message");
}

#[test]
fn three_fragment_message_with_middle() {
    let real: Vec<Frame> = (0..3)
        .map(|i| Frame {
            flags: if i == 0 { UNFRAGMENTED } else { 0 },
            content: vec![i as u8; 5],
        })
        .collect();
    let expected = write_message(&real);
    let f1 = write_message(&[frag_frame(BEGIN_FRAGMENT, 7), real[0].clone()]);
    let f2 = write_message(&[frag_frame(0, 7), real[1].clone()]); // middle
    let f3 = write_message(&[frag_frame(END_FRAGMENT, 7), real[2].clone()]);
    let mut r = Reassembler::new();
    assert!(r.push(&f1).is_none());
    assert!(r.push(&f2).is_none());
    assert_eq!(r.push(&f3).unwrap(), expected);
}

#[test]
fn fragments_of_two_messages_do_not_mix() {
    let a = vec![Frame { flags: UNFRAGMENTED, content: vec![1; 5] }, Frame { flags: 0, content: vec![2] }];
    let b = vec![Frame { flags: UNFRAGMENTED, content: vec![3; 5] }, Frame { flags: 0, content: vec![4] }];
    let mut r = Reassembler::new();
    assert!(r.push(&write_message(&[frag_frame(BEGIN_FRAGMENT, 1), a[0].clone()])).is_none());
    assert!(r.push(&write_message(&[frag_frame(BEGIN_FRAGMENT, 2), b[0].clone()])).is_none());
    let second = r.push(&write_message(&[frag_frame(END_FRAGMENT, 2), b[1].clone()])).unwrap();
    assert_eq!(second, write_message(&b));
    let first = r.push(&write_message(&[frag_frame(END_FRAGMENT, 1), a[1].clone()])).unwrap();
    assert_eq!(first, write_message(&a));
}

#[test]
fn reads_type_correlation_partition_from_initial_frame() {
    let mut content = vec![0u8; 16];
    write_i32_le(&mut content, 0, 66048); // type
    write_i64_le(&mut content, 4, 42); // correlation
    write_i32_le(&mut content, 12, 7); // partition
    let frames = vec![Frame { flags: UNFRAGMENTED, content }];
    assert_eq!(msg_type(&frames), 66048);
    assert_eq!(correlation_id(&frames), 42);
    assert_eq!(partition_id(&frames), 7);
}

#[test]
fn set_correlation_id_overwrites() {
    let mut frames = vec![Frame { flags: UNFRAGMENTED, content: vec![0u8; 16] }];
    set_correlation_id(&mut frames, 99);
    assert_eq!(correlation_id(&frames), 99);
}

#[test]
fn string_frame_is_utf8_content() {
    let f = string_frame("dev");
    assert_eq!(f.content, b"dev");
    assert_eq!(decode_string(&f), "dev");
}

#[test]
fn data_frame_is_verbatim_blob() {
    let blob = [0x00u8, 0x00, 0x00, 0x01, 0xAB];
    assert_eq!(data_frame(&blob).content, blob);
}

#[test]
fn null_frame_sets_null_flag() {
    assert!(null_frame().is_null());
}

#[test]
fn messages_read_back_with_what_follows_left_over() {
    let frames = vec![string_frame("a"), data_frame(&[1, 2, 3])];
    let mut bytes = write_message(&frames);
    assert_eq!(&bytes[0..7], &[7, 0, 0, 0, 0, 0, b'a']);
    assert_eq!(bytes.len(), 7 + 9);
    let n = bytes.len();
    assert!(read_message(&bytes[..n - 1]).is_none());
    bytes.extend_from_slice(&[9, 9]);
    let (back, used) = read_message(&bytes).unwrap();
    assert_eq!(used, n);
    assert_eq!(back.len(), 2);
    assert_eq!(back[0], frames[0]);
    assert!(back[1].is_final());
    assert_eq!(back[1].flags, IS_FINAL);
    assert_eq!(back[1].content, vec![1, 2, 3]);
}
