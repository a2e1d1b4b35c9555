//! The durable log survives a restart: entries, conflict truncations, and
//! term/vote all recover, and a torn final record is dropped (not fatal).

use bonsaigrid::raft::log::{DiskWrite, Entry, RaftLog};

/// The two files of a log.
#[derive(Default)]
struct Files {
    segment: Vec<u8>,
    meta: Vec<u8>,
}

impl Files {
    fn open(&mut self) -> RaftLog {
        let mut log = RaftLog::recover(&self.segment, &self.meta);
        self.write(&mut log);
        log
    }

    fn write(&mut self, log: &mut RaftLog) {
        for w in log.take_writes() {
            match w {
                DiskWrite::Append(b) => self.segment.extend_from_slice(&b),
                DiskWrite::Rewrite(b) => self.segment = b,
                DiskWrite::Meta(b) => self.meta = b,
            }
        }
    }
}

fn e(term: u64, index: u64, c: &[u8]) -> Entry {
    Entry { term, index, command: c.to_vec() }
}

#[test]
fn entries_and_term_and_vote_recover() {
    let mut files = Files::default();
    let mut log = files.open();
    log.persist_term_vote(3, Some(2));
    log.append(e(1, 1, b"a"));
    log.append(e(1, 2, b"b"));
    log.append(e(2, 3, b"c"));
    log.persist_term_vote(4, Some(1)); // latest vote wins
    files.write(&mut log);
    // Reopen: everything recovers.
    let log = files.open();
    assert_eq!(log.last_index(), 3);
    assert_eq!(log.last_term(), 2);
    assert_eq!(log.command_at(3), Some(b"c".as_slice()));
    assert_eq!(log.persisted_term(), 4);
    assert_eq!(log.persisted_vote(), Some(1));
    assert!(log.is_durable());
    assert!(!RaftLog::new().is_durable());
}

#[test]
fn truncation_persists_over_a_restart() {
    let mut files = Files::default();
    let mut log = files.open();
    for i in 1..=5 {
        log.append(e(1, i, format!("v{i}").as_bytes()));
    }
    log.truncate_from(3); // drop 3,4,5
    log.append(e(2, 3, b"c3")); // conflicting entry at 3
    files.write(&mut log);
    let log = files.open();
    assert_eq!(log.last_index(), 3);
    assert_eq!(log.term_at(3), 2);
    assert_eq!(log.command_at(3), Some(b"c3".as_slice()));
}

#[test]
fn a_torn_tail_is_dropped() {
    let mut files = Files::default();
    let mut log = files.open();
    log.append(e(1, 1, b"ok1"));
    log.append(e(1, 2, b"ok2"));
    files.write(&mut log);
    let whole = files.segment.clone();
    // A crash in the middle of an append leaves part of a record.
    files.segment.extend_from_slice(&[0xFF, 0xFF, 0xFF, 0xFF, 0x01, 0x02]);
    let log = files.open();
    assert_eq!(log.last_index(), 2, "torn tail dropped, intact prefix kept");
    assert_eq!(log.command_at(2), Some(b"ok2".as_slice()));
    assert_eq!(files.segment, whole, "the torn bytes are gone from the file too");
}

#[test]
fn a_changed_byte_ends_the_log() {
    let mut files = Files::default();
    let mut log = files.open();
    log.append(e(1, 1, b"ok1"));
    log.append(e(1, 2, b"ok2"));
    files.write(&mut log);
    let last = files.segment.len() - 1;
    files.segment[last] ^= 1;
    assert_eq!(files.open().last_index(), 1);
}
