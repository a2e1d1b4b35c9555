//! Stream processors and connectors.

use bonsaigrid::jet::codecs::{
    decode_get_job_status, decode_join_submitted_job, decode_submit_job,
    encode_get_job_status_response, encode_join_submitted_job_response,
    encode_submit_job_response, GET_JOB_STATUS_RESP, JOIN_SUBMITTED_JOB_RESP, SUBMIT_JOB_RESP,
};
use bonsaigrid::jet::connectors::{lines_of, sink_bytes, FileSource, SocketSource};
use bonsaigrid::jet::dag::Dag;
use bonsaigrid::jet::join::{decode_joined, encode_input, JoinProcessor, LEFT, RIGHT};
use bonsaigrid::jet::processor::{FilterProcessor, Item, MapProcessor, Processor};
use bonsaigrid::jet::window::{decode_result, encode_event, Agg, WindowKind, WindowProcessor};
use bonsaigrid::protocol::fixed::{read_i32_le, read_i64_le, write_i64_le};
use bonsaigrid::protocol::primitives::{data_frame, initial_frame};
use std::collections::VecDeque;

fn run(src: &mut FileSource) -> (Vec<Vec<u8>>, bool) {
    let mut inbox = VecDeque::new();
    let mut outbox = VecDeque::new();
    src.process(&mut inbox, &mut outbox);
    split(outbox)
}

fn split(outbox: VecDeque<Item>) -> (Vec<Vec<u8>>, bool) {
    let mut data = Vec::new();
    let mut done = false;
    for i in outbox {
        match i {
            Item::Data(b) => data.push(b),
            Item::Done => done = true,
            _ => {}
        }
    }
    (data, done)
}

#[test]
fn emits_each_line_then_done() {
    let mut src = FileSource::from_lines(vec![b"a".to_vec(), b"b".to_vec(), b"c".to_vec()]);
    let (data, done) = run(&mut src);
    assert_eq!(data, vec![b"a".to_vec(), b"b".to_vec(), b"c".to_vec()]);
    assert!(done, "source terminates with Done");
    // Idempotent: a second pass produces nothing.
    assert_eq!(run(&mut src), (vec![], false));
}

#[test]
fn reads_the_lines_of_a_file() {
    let mut src = FileSource::open(b"line1\nline2\n");
    let (data, done) = run(&mut src);
    assert_eq!(data, vec![b"line1".to_vec(), b"line2".to_vec()]);
    assert!(done);
}

#[test]
fn missing_file_is_empty_source() {
    // A file that cannot be read has no contents.
    let mut src = FileSource::open(b"");
    assert_eq!(run(&mut src), (vec![], true)); // just Done
}

#[test]
fn lines_end_at_newlines_and_lose_carriage_returns() {
    assert_eq!(lines_of(b"a\r\nb\n\nc"), vec![b"a".to_vec(), b"b".to_vec(), vec![], b"c".to_vec()]);
    assert!(lines_of(b"").is_empty());
}

fn socket_lines(chunks: &[&[u8]]) -> (Vec<Vec<u8>>, bool) {
    let mut src = SocketSource::new();
    let mut outbox = VecDeque::new();
    for c in chunks {
        src.receive(c);
        src.advance(false, &mut outbox);
    }
    assert!(!src.is_done());
    src.advance(true, &mut outbox);
    assert!(src.is_done());
    split(outbox)
}

#[test]
fn socket_lines_then_done_at_the_end() {
    let want =
        vec![b"alpha".to_vec(), b"beta".to_vec(), b"gamma".to_vec(), b"delta".to_vec()];
    assert_eq!(
        socket_lines(&[b"alpha\nbeta\ngamma\r\n", b"delta"]),
        (want.clone(), true)
    );
    // The chunks make no difference.
    assert_eq!(socket_lines(&[b"al", b"pha\nbe", b"ta\ngamma\r", b"\ndel", b"ta"]), (want, true));
}

#[test]
fn sink_writes_newline_records() {
    let mut inbox: VecDeque<Item> = VecDeque::new();
    inbox.push_back(Item::Data(b"one".to_vec()));
    inbox.push_back(Item::Data(b"two".to_vec()));
    let (bytes, _) = sink_bytes(&mut inbox);
    assert_eq!(bytes, b"one\ntwo\n");
    assert!(inbox.is_empty());
}

fn join(p: &mut JoinProcessor, items: Vec<Item>) -> Vec<(Vec<u8>, Vec<u8>, Vec<u8>)> {
    let mut inbox: VecDeque<Item> = items.into();
    let mut outbox = VecDeque::new();
    p.process(&mut inbox, &mut outbox);
    outbox
        .into_iter()
        .filter_map(|i| match i {
            Item::Data(b) => decode_joined(&b),
            _ => None,
        })
        .collect()
}

#[test]
fn matches_across_arrival_orders() {
    let mut p = JoinProcessor::new();
    let out = join(
        &mut p,
        vec![
            Item::Data(encode_input(LEFT, b"k", b"L1")),
            // right arrives after left -> emits (L1, R1)
            Item::Data(encode_input(RIGHT, b"k", b"R1")),
            // second left after right -> emits (L2, R1)
            Item::Data(encode_input(LEFT, b"k", b"L2")),
            // no match for a different key
            Item::Data(encode_input(RIGHT, b"other", b"X")),
        ],
    );
    assert_eq!(
        out,
        vec![
            (b"k".to_vec(), b"L1".to_vec(), b"R1".to_vec()),
            (b"k".to_vec(), b"L2".to_vec(), b"R1".to_vec()),
        ]
    );
}

#[test]
fn fans_out_to_all_matches_on_a_key() {
    let mut p = JoinProcessor::new();
    let out = join(
        &mut p,
        vec![
            Item::Data(encode_input(LEFT, b"k", b"L1")),
            Item::Data(encode_input(LEFT, b"k", b"L2")),
            // one right joins both buffered lefts
            Item::Data(encode_input(RIGHT, b"k", b"R1")),
        ],
    );
    assert_eq!(
        out,
        vec![
            (b"k".to_vec(), b"L1".to_vec(), b"R1".to_vec()),
            (b"k".to_vec(), b"L2".to_vec(), b"R1".to_vec()),
        ]
    );
}

fn drive(p: &mut WindowProcessor, items: Vec<Item>) -> Vec<(i64, i64, i64, Vec<u8>)> {
    let mut inbox: VecDeque<Item> = items.into();
    let mut outbox = VecDeque::new();
    p.process(&mut inbox, &mut outbox);
    outbox
        .into_iter()
        .filter_map(|i| match i {
            Item::Data(b) => decode_result(&b),
            _ => None,
        })
        .collect()
}

#[test]
fn tumbling_sums_per_window_on_watermark() {
    let mut p = WindowProcessor::new(WindowKind::Tumbling { size: 10 }, Agg::Sum);
    let out = drive(
        &mut p,
        vec![
            Item::Data(encode_event(1, 5, b"k")),
            Item::Data(encode_event(3, 7, b"k")), // window [0,10) -> 12
            Item::Data(encode_event(11, 4, b"k")), // window [10,20)
            Item::Watermark(10),                  // closes [0,10) only
        ],
    );
    assert_eq!(out, vec![(0, 10, 12, b"k".to_vec())]);
}

#[test]
fn tumbling_separates_keys() {
    let mut p = WindowProcessor::new(WindowKind::Tumbling { size: 10 }, Agg::Count);
    let out = drive(
        &mut p,
        vec![
            Item::Data(encode_event(1, 0, b"a")),
            Item::Data(encode_event(2, 0, b"a")),
            Item::Data(encode_event(2, 0, b"b")),
            Item::Watermark(10),
        ],
    );
    assert_eq!(out, vec![(0, 10, 2, b"a".to_vec()), (0, 10, 1, b"b".to_vec())]);
}

#[test]
fn sliding_assigns_event_to_overlapping_windows() {
    // size 10, slide 5: ts=7 -> windows [0,10) and [5,15).
    let mut p = WindowProcessor::new(WindowKind::Sliding { size: 10, slide: 5 }, Agg::Sum);
    let out = drive(&mut p, vec![Item::Data(encode_event(7, 3, b"k")), Item::Watermark(20)]);
    assert_eq!(out, vec![(0, 10, 3, b"k".to_vec()), (5, 15, 3, b"k".to_vec())]);
}

#[test]
fn session_merges_within_gap_and_closes_after() {
    let mut p = WindowProcessor::new(WindowKind::Session { gap: 5 }, Agg::Sum);
    // 1 and 4 merge (gap 5); 100 is a separate session.
    let out = drive(
        &mut p,
        vec![
            Item::Data(encode_event(1, 2, b"k")),
            Item::Data(encode_event(4, 3, b"k")),
            Item::Data(encode_event(100, 9, b"k")),
            Item::Watermark(50), // closes the [1,4] session (4+5<=50), not the 100 one
        ],
    );
    assert_eq!(out, vec![(1, 5, 5, b"k".to_vec())]);
}

#[test]
fn min_max_avg_aggregates() {
    for (agg, expect) in [(Agg::Min, 3), (Agg::Max, 10), (Agg::Avg, 6)] {
        let mut p = WindowProcessor::new(WindowKind::Tumbling { size: 100 }, agg);
        let out = drive(
            &mut p,
            vec![
                Item::Data(encode_event(1, 5, b"k")),
                Item::Data(encode_event(2, 10, b"k")),
                Item::Data(encode_event(3, 3, b"k")), // {5,10,3}: min 3, max 10, avg 6
                Item::Watermark(100),
            ],
        );
        assert_eq!(out, vec![(0, 100, expect, b"k".to_vec())], "agg {agg:?}");
    }
}

#[test]
fn done_flushes_all_open_windows() {
    let mut p = WindowProcessor::new(WindowKind::Tumbling { size: 10 }, Agg::Sum);
    let out = drive(
        &mut p,
        vec![
            Item::Data(encode_event(1, 5, b"k")),
            Item::Data(encode_event(25, 8, b"k")),
            Item::Done,
        ],
    );
    assert_eq!(out, vec![(0, 10, 5, b"k".to_vec()), (20, 30, 8, b"k".to_vec())]);
}

#[test]
fn mapping_appends_a_zero_and_filtering_drops_empty_data() {
    let items = vec![Item::Data(b"x".to_vec()), Item::Data(vec![]), Item::Watermark(3), Item::Done];
    let mut inbox: VecDeque<Item> = items.clone().into();
    let mut outbox = VecDeque::new();
    assert!(MapProcessor {}.process(&mut inbox, &mut outbox));
    assert_eq!(
        outbox.into_iter().collect::<Vec<_>>(),
        vec![Item::Data(b"x\0".to_vec()), Item::Data(vec![0]), Item::Watermark(3), Item::Done]
    );
    let mut inbox: VecDeque<Item> = items.into();
    let mut outbox = VecDeque::new();
    assert!(FilterProcessor {}.process(&mut inbox, &mut outbox));
    assert_eq!(
        outbox.into_iter().collect::<Vec<_>>(),
        vec![Item::Data(b"x".to_vec()), Item::Watermark(3), Item::Done]
    );
    assert!(!FilterProcessor {}.process(&mut VecDeque::new(), &mut VecDeque::new()));
}

#[test]
fn job_requests_and_responses() {
    let mut init = vec![0u8; 24];
    write_i64_le(&mut init, 16, 5);
    let frames = [initial_frame(init), data_frame(b"dag")];
    assert_eq!(decode_submit_job(&frames), (5, vec![]));
    assert_eq!(decode_get_job_status(&frames), 5);
    assert_eq!(decode_join_submitted_job(&frames), 5);
    let r = encode_submit_job_response(9);
    assert_eq!(read_i32_le(&r[0].content, 0), SUBMIT_JOB_RESP);
    assert_eq!(read_i64_le(&r[0].content, 14), 9);
    let s = encode_get_job_status_response(2);
    assert_eq!(read_i32_le(&s[0].content, 0), GET_JOB_STATUS_RESP);
    assert_eq!(read_i32_le(&s[0].content, 14), 2);
    let j = encode_join_submitted_job_response();
    assert_eq!(read_i32_le(&j[0].content, 0), JOIN_SUBMITTED_JOB_RESP);
}

#[test]
fn a_new_dag_is_empty() {
    let d = Dag::new();
    assert!(d.vertices.is_empty());
    assert!(d.edges.is_empty());
}

#[test]
fn sessions_of_a_key_go_by_start() {
    let mut p = WindowProcessor::new(WindowKind::Session { gap: 5 }, Agg::Count);
    // 95 lies within the gap of both sessions; the one that starts earlier takes it.
    let out = drive(
        &mut p,
        vec![
            Item::Data(encode_event(100, 0, b"k")),
            Item::Data(encode_event(90, 0, b"k")),
            Item::Data(encode_event(95, 0, b"k")),
            Item::Data(encode_event(101, 0, b"a")),
            Item::Done,
        ],
    );
    assert_eq!(
        out,
        vec![
            (90, 96, 2, b"k".to_vec()),
            (100, 101, 1, b"k".to_vec()),
            (101, 102, 1, b"a".to_vec()),
        ]
    );
}

#[test]
fn sessions_grow_at_both_ends_and_hold_each_event_once() {
    let mut p = WindowProcessor::new(WindowKind::Session { gap: 3 }, Agg::Sum);
    let out = drive(
        &mut p,
        vec![
            Item::Data(encode_event(10, 1, b"k")),
            Item::Data(encode_event(20, 10, b"j")),
            Item::Data(encode_event(8, 100, b"k")),
            Item::Data(encode_event(13, 1000, b"k")),
            Item::Watermark(15), // 13 + 3 > 15: nothing is complete
            Item::Watermark(16),
        ],
    );
    assert_eq!(out, vec![(8, 14, 1101, b"k".to_vec())]);
    assert_eq!(drive(&mut p, vec![Item::Done]), vec![(20, 21, 10, b"j".to_vec())]);
}

#[test]
fn complete_windows_are_put_out_once_in_order() {
    let mut p = WindowProcessor::new(WindowKind::Sliding { size: 4, slide: 2 }, Agg::Sum);
    let out = drive(
        &mut p,
        vec![
            Item::Data(encode_event(5, 1, b"b")),
            Item::Data(encode_event(3, 10, b"b")),
            Item::Data(encode_event(4, 100, b"a")),
            Item::Watermark(8),
        ],
    );
    // [0,4) and [2,6) hold 3; [2,6) and [4,8) hold 4 and 5.
    assert_eq!(
        out,
        vec![
            (0, 4, 10, b"b".to_vec()),
            (2, 6, 100, b"a".to_vec()),
            (2, 6, 11, b"b".to_vec()),
            (4, 8, 100, b"a".to_vec()),
            (4, 8, 1, b"b".to_vec()),
        ]
    );
    assert_eq!(drive(&mut p, vec![Item::Watermark(100)]), vec![]);
}

#[test]
fn every_pair_joins_once_over_all_calls() {
    let mut p = JoinProcessor::new();
    let mut all = Vec::new();
    for item in [
        encode_input(LEFT, b"k", b"a"),
        encode_input(RIGHT, b"k", b"x"),
        encode_input(RIGHT, b"j", b"x"),
        encode_input(LEFT, b"k", b"a"),
        encode_input(RIGHT, b"k", b"y"),
    ] {
        all.extend(join(&mut p, vec![Item::Data(item), Item::Watermark(1)]));
    }
    let pair = |r: &str| (b"k".to_vec(), b"a".to_vec(), r.as_bytes().to_vec());
    assert_eq!(all, vec![pair("x"), pair("x"), pair("y"), pair("y")]);
    let mut inbox: VecDeque<Item> = vec![Item::Watermark(7), Item::Done].into();
    let mut outbox = VecDeque::new();
    assert!(p.process(&mut inbox, &mut outbox));
    assert_eq!(outbox, vec![Item::Watermark(7), Item::Done]);
}

#[test]
fn a_sliding_window_may_end_near_the_end_of_time() {
    let mut p = WindowProcessor::new(WindowKind::Sliding { size: 5, slide: 5 }, Agg::Sum);
    let ts = i64::MAX - 3;
    let out = drive(&mut p, vec![Item::Data(encode_event(ts, 4, b"k")), Item::Done]);
    assert_eq!(out, vec![(i64::MAX - 7, i64::MAX - 2, 4, b"k".to_vec())]);
}
