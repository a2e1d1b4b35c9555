//! Messages between group members.

use bonsaigrid::raft::atomiclong::AlOp;
use bonsaigrid::raft::cp::al_command;
use bonsaigrid::raft::cp_wire::{decode_msg, encode_msg, CpMsg};
use bonsaigrid::raft::log::Entry;
use bonsaigrid::raft::node::RaftMsg;
use bonsaigrid::raft::reply::CpReply;

fn roundtrip(m: CpMsg) {
    let bytes = encode_msg(&m);
    let back = decode_msg(&bytes).expect("decodes");
    // Compare via re-encoding (CpMsg holds CpReply, which nests bytes).
    assert_eq!(encode_msg(&back), bytes, "roundtrip stable");
}

#[test]
fn cpmsg_wire_roundtrip() {
    roundtrip(CpMsg::Raft(RaftMsg::RequestVote {
        term: 3,
        candidate: 2,
        last_log_index: 5,
        last_log_term: 2,
    }));
    roundtrip(CpMsg::Raft(RaftMsg::RequestVoteResp {
        term: 3,
        granted: true,
    }));
    roundtrip(CpMsg::Raft(RaftMsg::AppendEntries {
        term: 4,
        leader: 1,
        prev_log_index: 2,
        prev_log_term: 3,
        entries: vec![
            Entry {
                term: 4,
                index: 3,
                command: b"cmd1".to_vec(),
            },
            Entry {
                term: 4,
                index: 4,
                command: b"cmd2".to_vec(),
            },
        ],
        leader_commit: 2,
    }));
    roundtrip(CpMsg::Raft(RaftMsg::AppendEntriesResp {
        term: 4,
        success: true,
        match_index: 4,
    }));
    roundtrip(CpMsg::Forward {
        client: 42,
        origin: 3,
        command: al_command("c", &AlOp::AddAndGet(7)),
    });
    roundtrip(CpMsg::Reply {
        client: 42,
        reply: CpReply::Long(7),
    });
    roundtrip(CpMsg::Reply {
        client: 43,
        reply: CpReply::Bool(false),
    });
    roundtrip(CpMsg::Reply {
        client: 44,
        reply: CpReply::Data(Some(b"hello".to_vec())),
    });
    roundtrip(CpMsg::Reply {
        client: 45,
        reply: CpReply::Data(None),
    });
}

#[test]
fn what_follows_a_message_does_not_matter_and_what_is_missing_does() {
    let messages = [
        CpMsg::Raft(RaftMsg::AppendEntries {
            term: 4,
            leader: 1,
            prev_log_index: 2,
            prev_log_term: 3,
            entries: vec![Entry { term: 4, index: 3, command: b"cmd".to_vec() }],
            leader_commit: 2,
        }),
        CpMsg::Forward { client: 42, origin: 3, command: b"c".to_vec() },
        CpMsg::Reply { client: 1, reply: CpReply::Data(None) },
        CpMsg::Reply { client: 1, reply: CpReply::Data(Some(Vec::new())) },
    ];
    for m in messages {
        let b = encode_msg(&m);
        let mut longer = b.clone();
        longer.extend_from_slice(b"more");
        assert_eq!(decode_msg(&b), Some(m.clone()));
        assert_eq!(decode_msg(&longer), Some(m.clone()));
        for k in 0..b.len() {
            assert!(decode_msg(&b[..k]).is_none());
        }
    }
}
