//! The log.

use bonsaigrid::raft::log::{Entry, RaftLog};

fn e(term: u64, index: u64, c: &[u8]) -> Entry {
    Entry {
        term,
        index,
        command: c.to_vec(),
    }
}

#[test]
fn append_index_term_lookup() {
    let mut l = RaftLog::new();
    assert_eq!(l.last_index(), 0);
    assert_eq!(l.term_at(0), 0);
    l.append(e(1, 1, b"a"));
    l.append(e(1, 2, b"b"));
    l.append(e(2, 3, b"c"));
    assert_eq!(l.last_index(), 3);
    assert_eq!(l.last_term(), 2);
    assert_eq!(l.term_at(2), 1);
    assert_eq!(l.term_at(3), 2);
    assert_eq!(l.term_at(4), 0); // beyond the log
    assert_eq!(l.command_at(3), Some(b"c".as_slice()));
}

#[test]
fn truncate_and_entries_from() {
    let mut l = RaftLog::new();
    for i in 1..=5 {
        l.append(e(1, i, b"x"));
    }
    assert_eq!(l.entries_from(3).len(), 3); // indices 3,4,5
    l.truncate_from(3); // drop 3,4,5
    assert_eq!(l.last_index(), 2);
    assert_eq!(l.entries_from(3).len(), 0);
}

#[test]
fn persist_term_vote_roundtrip() {
    let mut l = RaftLog::new();
    l.persist_term_vote(7, Some(2));
    assert_eq!(l.persisted_term(), 7);
    assert_eq!(l.persisted_vote(), Some(2));
}
