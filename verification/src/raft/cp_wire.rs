//! The messages between CP group members, and their bytes (little-endian).

use vstd::prelude::*;
use super::log::{Entry, EntryView};
use super::node::{MsgView, NodeId, RaftMsg};
use super::reply::{CpReply, ReplyView};
use crate::bytes::{i64_le, lemma_le_digits_len, put_i64, put_u64, u64_le};
use crate::model::{lemma_views_push, views};
use crate::wire::{
    blob64, carries, lemma_prefix_reads, lemma_read_blob64, lemma_read_i64, lemma_read_u64, lemma_read_u8, lemma_stands_split,
    lemma_stands_front, lemma_stands_whole, put_blob64, read_blob64, read_i64, read_u64, read_u8, stands_at,
    take_blob64, take_i64, take_u64, take_u8,
};

verus! {

/// A message exchanged between CP group members.
#[derive(Clone, Debug, PartialEq, Eq)]
pub enum CpMsg {
    /// A raw Raft message.
    Raft(RaftMsg),
    /// A member forwards a client's command to the leader.
    Forward { client: u64, origin: NodeId, command: Vec<u8> },
    /// The proposing member returns a committed reply to the origin member.
    Reply { client: u64, reply: CpReply },
}

/// What a [`CpMsg`] holds.
pub enum CpMsgView {
    Raft(MsgView),
    Forward { client: u64, origin: usize, command: Seq<u8> },
    Reply { client: u64, reply: ReplyView },
}

impl View for CpMsg {
    type V = CpMsgView;

    open spec fn view(&self) -> CpMsgView {
        match self {
            CpMsg::Raft(m) => CpMsgView::Raft(m@),
            CpMsg::Forward { client, origin, command } => CpMsgView::Forward {
                client: *client,
                origin: *origin,
                command: command@,
            },
            CpMsg::Reply { client, reply } => CpMsgView::Reply { client: *client, reply: reply@ },
        }
    }
}

pub open spec fn bool_byte(b: bool) -> u8 {
    if b {
        1
    } else {
        0
    }
}

pub open spec fn read_bool(b: Seq<u8>, p: int) -> Option<(bool, int)> {
    match read_u8(b, p) {
        Some((v, q)) => Some((v != 0, q)),
        None => None,
    }
}

pub open spec fn entry_bytes(e: EntryView) -> Seq<u8> {
    u64_le(e.term) + u64_le(e.index) + blob64(e.command)
}

pub open spec fn read_entry(b: Seq<u8>, p: int) -> Option<(EntryView, int)> {
    match read_u64(b, p) {
        None => None,
        Some((term, q)) => match read_u64(b, q) {
            None => None,
            Some((index, r)) => match read_blob64(b, r) {
                None => None,
                Some((command, s)) => Some((EntryView { term, index, command }, s)),
            },
        },
    }
}

pub open spec fn entries_bytes(es: Seq<EntryView>) -> Seq<u8>
    decreases es.len(),
{
    if es.len() == 0 {
        Seq::empty()
    } else {
        entries_bytes(es.drop_last()) + entry_bytes(es.last())
    }
}

pub open spec fn read_entries(b: Seq<u8>, p: int, n: nat) -> Option<(Seq<EntryView>, int)>
    decreases n,
{
    if n == 0 {
        Some((Seq::empty(), p))
    } else {
        match read_entries(b, p, (n - 1) as nat) {
            None => None,
            Some((es, q)) => match read_entry(b, q) {
                None => None,
                Some((e, r)) => Some((es.push(e), r)),
            },
        }
    }
}

/// The marker that stands in the place of a length for a null value.
pub const NULL_LEN: u64 = 0xffff_ffff_ffff_ffff;

pub open spec fn reply_bytes(r: ReplyView) -> Seq<u8> {
    match r {
        ReplyView::Long(v) => seq![0u8] + i64_le(v),
        ReplyView::Bool(v) => seq![1u8, bool_byte(v)],
        ReplyView::Data(Some(d)) => seq![2u8] + blob64(d),
        ReplyView::Data(None) => seq![2u8] + u64_le(NULL_LEN),
        ReplyView::Nil => seq![3u8],
    }
}

pub open spec fn read_reply(b: Seq<u8>, p: int) -> Option<(ReplyView, int)> {
    match read_u8(b, p) {
        None => None,
        Some((tag, q)) => if tag == 0 {
            match read_i64(b, q) {
                Some((v, r)) => Some((ReplyView::Long(v), r)),
                None => None,
            }
        } else if tag == 1 {
            match read_bool(b, q) {
                Some((v, r)) => Some((ReplyView::Bool(v), r)),
                None => None,
            }
        } else if tag == 2 {
            match read_u64(b, q) {
                None => None,
                Some((len, r)) => if len == NULL_LEN {
                    Some((ReplyView::Data(None), r))
                } else {
                    match read_blob64(b, q) {
                        Some((d, s)) => Some((ReplyView::Data(Some(d)), s)),
                        None => None,
                    }
                },
            }
        } else {
            Some((ReplyView::Nil, q))
        },
    }
}

pub open spec fn raft_bytes(m: MsgView) -> Seq<u8> {
    match m {
        MsgView::RequestVote { term, candidate, last_log_index, last_log_term } => seq![0u8]
            + u64_le(term) + u64_le(candidate as u64) + u64_le(last_log_index) + u64_le(
            last_log_term,
        ),
        MsgView::RequestVoteResp { term, granted } => seq![1u8] + u64_le(term) + seq![
            bool_byte(granted),
        ],
        MsgView::AppendEntries {
            term,
            leader,
            prev_log_index,
            prev_log_term,
            entries,
            leader_commit,
        } => seq![2u8] + u64_le(term) + u64_le(leader as u64) + u64_le(prev_log_index) + u64_le(
            prev_log_term,
        ) + u64_le(entries.len() as u64) + entries_bytes(entries) + u64_le(leader_commit),
        MsgView::AppendEntriesResp { term, success, match_index } => seq![3u8] + u64_le(term)
            + seq![bool_byte(success)] + u64_le(match_index),
    }
}

pub open spec fn read_request_vote(b: Seq<u8>, p: int) -> Option<(MsgView, int)> {
    match read_u64(b, p) {
        None => None,
        Some((term, q)) => match read_u64(b, q) {
            None => None,
            Some((candidate, r)) => match read_u64(b, r) {
                None => None,
                Some((last_log_index, s)) => match read_u64(b, s) {
                    None => None,
                    Some((last_log_term, t)) => Some(
                        (
                            MsgView::RequestVote {
                                term,
                                candidate: candidate as usize,
                                last_log_index,
                                last_log_term,
                            },
                            t,
                        ),
                    ),
                },
            },
        },
    }
}

pub open spec fn read_append(b: Seq<u8>, p: int) -> Option<(MsgView, int)> {
    match read_u64(b, p) {
        None => None,
        Some((term, q)) => match read_u64(b, q) {
            None => None,
            Some((leader, r)) => match read_u64(b, r) {
                None => None,
                Some((prev_log_index, s)) => match read_u64(b, s) {
                    None => None,
                    Some((prev_log_term, t)) => match read_u64(b, t) {
                        None => None,
                        Some((n, u)) => match read_entries(b, u, n as nat) {
                            None => None,
                            Some((entries, v)) => match read_u64(b, v) {
                                None => None,
                                Some((leader_commit, w)) => Some(
                                    (
                                        MsgView::AppendEntries {
                                            term,
                                            leader: leader as usize,
                                            prev_log_index,
                                            prev_log_term,
                                            entries,
                                            leader_commit,
                                        },
                                        w,
                                    ),
                                ),
                            },
                        },
                    },
                },
            },
        },
    }
}

pub open spec fn read_raft(b: Seq<u8>, p: int) -> Option<(MsgView, int)> {
    match read_u8(b, p) {
        None => None,
        Some((tag, q)) => if tag == 0 {
            read_request_vote(b, q)
        } else if tag == 1 {
            match read_u64(b, q) {
                None => None,
                Some((term, r)) => match read_bool(b, r) {
                    None => None,
                    Some((granted, s)) => Some((MsgView::RequestVoteResp { term, granted }, s)),
                },
            }
        } else if tag == 2 {
            read_append(b, q)
        } else if tag == 3 {
            match read_u64(b, q) {
                None => None,
                Some((term, r)) => match read_bool(b, r) {
                    None => None,
                    Some((success, s)) => match read_u64(b, s) {
                        None => None,
                        Some((match_index, t)) => Some(
                            (MsgView::AppendEntriesResp { term, success, match_index }, t),
                        ),
                    },
                },
            }
        } else {
            None
        },
    }
}

/// The bytes of a message.
pub open spec fn msg_bytes(m: CpMsgView) -> Seq<u8> {
    match m {
        CpMsgView::Raft(r) => seq![0u8] + raft_bytes(r),
        CpMsgView::Forward { client, origin, command } => seq![1u8] + u64_le(client) + u64_le(
            origin as u64,
        ) + blob64(command),
        CpMsgView::Reply { client, reply } => seq![2u8] + u64_le(client) + reply_bytes(reply),
    }
}

/// The message that bytes hold.
pub open spec fn msg_of(b: Seq<u8>) -> Option<CpMsgView> {
    match read_u8(b, 0) {
        None => None,
        Some((tag, p)) => if tag == 0 {
            match read_raft(b, p) {
                Some((m, q)) => Some(CpMsgView::Raft(m)),
                None => None,
            }
        } else if tag == 1 {
            match read_u64(b, p) {
                None => None,
                Some((client, q)) => match read_u64(b, q) {
                    None => None,
                    Some((origin, r)) => match read_blob64(b, r) {
                        None => None,
                        Some((command, s)) => Some(
                            CpMsgView::Forward { client, origin: origin as usize, command },
                        ),
                    },
                },
            }
        } else if tag == 2 {
            match read_u64(b, p) {
                None => None,
                Some((client, q)) => match read_reply(b, q) {
                    None => None,
                    Some((reply, r)) => Some(CpMsgView::Reply { client, reply }),
                },
            }
        } else {
            None
        },
    }
}

fn put_bool(o: &mut Vec<u8>, v: bool)
    ensures
        final(o)@ == old(o)@.push(bool_byte(v)),
{
    o.push(
        if v {
            1
        } else {
            0
        },
    );
}

fn take_bool(b: &[u8], p: &mut usize) -> (r: Option<bool>)
    requires
        *old(p) <= b@.len(),
    ensures
        *final(p) <= b@.len(),
        match r {
            Some(v) => read_bool(b@, *old(p) as int) == Some((v, *final(p) as int)),
            None => read_bool(b@, *old(p) as int) is None,
        },
{
    match take_u8(b, p) {
        Some(v) => Some(v != 0),
        None => None,
    }
}

fn put_entry(o: &mut Vec<u8>, e: &Entry)
    ensures
        final(o)@ == old(o)@ + entry_bytes(e@),
{
    put_u64(o, e.term);
    put_u64(o, e.index);
    put_blob64(o, e.command.as_slice());
    assert(o@ =~= old(o)@ + entry_bytes(e@));
}

fn get_entry(b: &[u8], p: &mut usize) -> (r: Option<Entry>)
    requires
        *old(p) <= b@.len(),
    ensures
        *final(p) <= b@.len(),
        match r {
            Some(e) => read_entry(b@, *old(p) as int) == Some((e@, *final(p) as int)),
            None => read_entry(b@, *old(p) as int) is None,
        },
{
    let term: u64 = match take_u64(b, p) {
        Some(v) => v,
        None => {
            return None;
        },
    };
    let index: u64 = match take_u64(b, p) {
        Some(v) => v,
        None => {
            return None;
        },
    };
    match take_blob64(b, p) {
        Some(command) => Some(Entry { term, index, command }),
        None => None,
    }
}

fn put_entries(o: &mut Vec<u8>, es: &Vec<Entry>)
    ensures
        final(o)@ == old(o)@ + entries_bytes(views(es@)),
{
    let ghost before = o@;
    let ghost all = views(es@);
    let mut i: usize = 0;
    assert(before + entries_bytes(all.take(0)) =~= before);
    while i < es.len()
        invariant
            i <= es@.len(),
            all == views(es@),
            o@ == before + entries_bytes(all.take(i as int)),
        decreases es@.len() - i,
    {
        put_entry(o, &es[i]);
        proof {
            let next = all.take(i + 1);
            assert(next.drop_last() =~= all.take(i as int));
            assert(next.last() == es@[i as int]@);
            assert(o@ =~= before + entries_bytes(next));
        }
        i = i + 1;
    }
    assert(all.take(i as int) =~= all);
}

/// Fewer entries cannot be read where even less stands: once reading fails it keeps failing.
proof fn lemma_read_entries_fails(b: Seq<u8>, p: int, k: nat, n: nat)
    requires
        k <= n,
        read_entries(b, p, k) is None,
    ensures
        read_entries(b, p, n) is None,
    decreases n,
{
    if k < n {
        lemma_read_entries_fails(b, p, k, (n - 1) as nat);
    }
}

fn get_entries(b: &[u8], p: &mut usize, n: u64) -> (r: Option<Vec<Entry>>)
    requires
        *old(p) <= b@.len(),
    ensures
        *final(p) <= b@.len(),
        match r {
            Some(es) => read_entries(b@, *old(p) as int, n as nat) == Some(
                (views(es@), *final(p) as int),
            ),
            None => read_entries(b@, *old(p) as int, n as nat) is None,
        },
{
    broadcast use lemma_views_push;

    let ghost start = *p as int;
    let mut es: Vec<Entry> = Vec::new();
    assert(views(es@) =~= Seq::empty());
    let mut i: u64 = 0;
    while i < n
        invariant
            i <= n,
            *p <= b@.len(),
            start == *old(p),
            read_entries(b@, start, i as nat) == Some((views(es@), *p as int)),
        decreases n - i,
    {
        match get_entry(b, p) {
            Some(e) => {
                let ghost so_far = views(es@);
                es.push(e);
                assert(views(es@) =~= so_far.push(e@));
            },
            None => {
                proof {
                    lemma_read_entries_fails(b@, start, (i + 1) as nat, n as nat);
                }
                return None;
            },
        }
        i = i + 1;
    }
    Some(es)
}

fn put_reply(o: &mut Vec<u8>, r: &CpReply)
    ensures
        final(o)@ == old(o)@ + reply_bytes(r@),
{
    match r {
        CpReply::Long(v) => {
            o.push(0);
            put_i64(o, *v);
        },
        CpReply::Bool(v) => {
            o.push(1);
            put_bool(o, *v);
        },
        CpReply::Data(d) => {
            o.push(2);
            match d {
                Some(b) => put_blob64(o, b.as_slice()),
                None => put_u64(o, NULL_LEN),
            }
        },
        CpReply::Nil => o.push(3),
    }
    assert(o@ =~= old(o)@ + reply_bytes(r@));
}

fn get_reply(b: &[u8], p: &mut usize) -> (r: Option<CpReply>)
    requires
        *old(p) <= b@.len(),
    ensures
        *final(p) <= b@.len(),
        match r {
            Some(v) => read_reply(b@, *old(p) as int) == Some((v@, *final(p) as int)),
            None => read_reply(b@, *old(p) as int) is None,
        },
{
    let tag: u8 = match take_u8(b, p) {
        Some(t) => t,
        None => {
            return None;
        },
    };
    match tag {
        0 => match take_i64(b, p) {
            Some(v) => Some(CpReply::Long(v)),
            None => None,
        },
        1 => match take_bool(b, p) {
            Some(v) => Some(CpReply::Bool(v)),
            None => None,
        },
        2 => {
            let mut q: usize = *p;
            let len: u64 = match take_u64(b, &mut q) {
                Some(n) => n,
                None => {
                    return None;
                },
            };
            if len == NULL_LEN {
                *p = q;
                Some(CpReply::Data(None))
            } else {
                match take_blob64(b, p) {
                    Some(d) => Some(CpReply::Data(Some(d))),
                    None => None,
                }
            }
        },
        _ => Some(CpReply::Nil),
    }
}

fn encode_raft(o: &mut Vec<u8>, m: &RaftMsg)
    ensures
        final(o)@ == old(o)@ + raft_bytes(m@),
{
    match m {
        RaftMsg::RequestVote { term, candidate, last_log_index, last_log_term } => {
            o.push(0);
            put_u64(o, *term);
            put_u64(o, *candidate as u64);
            put_u64(o, *last_log_index);
            put_u64(o, *last_log_term);
        },
        RaftMsg::RequestVoteResp { term, granted } => {
            o.push(1);
            put_u64(o, *term);
            put_bool(o, *granted);
        },
        RaftMsg::AppendEntries {
            term,
            leader,
            prev_log_index,
            prev_log_term,
            entries,
            leader_commit,
        } => {
            o.push(2);
            put_u64(o, *term);
            put_u64(o, *leader as u64);
            put_u64(o, *prev_log_index);
            put_u64(o, *prev_log_term);
            put_u64(o, entries.len() as u64);
            put_entries(o, entries);
            put_u64(o, *leader_commit);
        },
        RaftMsg::AppendEntriesResp { term, success, match_index } => {
            o.push(3);
            put_u64(o, *term);
            put_bool(o, *success);
            put_u64(o, *match_index);
        },
    }
    assert(o@ =~= old(o)@ + raft_bytes(m@));
}

fn decode_request_vote(b: &[u8], p: &mut usize) -> (r: Option<RaftMsg>)
    requires
        *old(p) <= b@.len(),
    ensures
        *final(p) <= b@.len(),
        match r {
            Some(m) => read_request_vote(b@, *old(p) as int) == Some((m@, *final(p) as int)),
            None => read_request_vote(b@, *old(p) as int) is None,
        },
{
    let term: u64 = match take_u64(b, p) {
        Some(v) => v,
        None => {
            return None;
        },
    };
    let candidate: u64 = match take_u64(b, p) {
        Some(v) => v,
        None => {
            return None;
        },
    };
    let last_log_index: u64 = match take_u64(b, p) {
        Some(v) => v,
        None => {
            return None;
        },
    };
    let last_log_term: u64 = match take_u64(b, p) {
        Some(v) => v,
        None => {
            return None;
        },
    };
    Some(
        RaftMsg::RequestVote { term, candidate: candidate as NodeId, last_log_index, last_log_term },
    )
}

fn decode_append(b: &[u8], p: &mut usize) -> (r: Option<RaftMsg>)
    requires
        *old(p) <= b@.len(),
    ensures
        *final(p) <= b@.len(),
        match r {
            Some(m) => read_append(b@, *old(p) as int) == Some((m@, *final(p) as int)),
            None => read_append(b@, *old(p) as int) is None,
        },
{
    let term: u64 = match take_u64(b, p) {
        Some(v) => v,
        None => {
            return None;
        },
    };
    let leader: u64 = match take_u64(b, p) {
        Some(v) => v,
        None => {
            return None;
        },
    };
    let prev_log_index: u64 = match take_u64(b, p) {
        Some(v) => v,
        None => {
            return None;
        },
    };
    let prev_log_term: u64 = match take_u64(b, p) {
        Some(v) => v,
        None => {
            return None;
        },
    };
    let n: u64 = match take_u64(b, p) {
        Some(v) => v,
        None => {
            return None;
        },
    };
    let entries: Vec<Entry> = match get_entries(b, p, n) {
        Some(v) => v,
        None => {
            return None;
        },
    };
    let leader_commit: u64 = match take_u64(b, p) {
        Some(v) => v,
        None => {
            return None;
        },
    };
    Some(
        RaftMsg::AppendEntries {
            term,
            leader: leader as NodeId,
            prev_log_index,
            prev_log_term,
            entries,
            leader_commit,
        },
    )
}

fn decode_raft(b: &[u8], p: &mut usize) -> (r: Option<RaftMsg>)
    requires
        *old(p) <= b@.len(),
    ensures
        *final(p) <= b@.len(),
        match r {
            Some(m) => read_raft(b@, *old(p) as int) == Some((m@, *final(p) as int)),
            None => read_raft(b@, *old(p) as int) is None,
        },
{
    let tag: u8 = match take_u8(b, p) {
        Some(t) => t,
        None => {
            return None;
        },
    };
    match tag {
        0 => decode_request_vote(b, p),
        1 => {
            let term: u64 = match take_u64(b, p) {
                Some(v) => v,
                None => {
                    return None;
                },
            };
            match take_bool(b, p) {
                Some(granted) => Some(RaftMsg::RequestVoteResp { term, granted }),
                None => None,
            }
        },
        2 => decode_append(b, p),
        3 => {
            let term: u64 = match take_u64(b, p) {
                Some(v) => v,
                None => {
                    return None;
                },
            };
            let success: bool = match take_bool(b, p) {
                Some(v) => v,
                None => {
                    return None;
                },
            };
            match take_u64(b, p) {
                Some(match_index) => Some(
                    RaftMsg::AppendEntriesResp { term, success, match_index },
                ),
                None => None,
            }
        },
        _ => None,
    }
}

/// Serializes a [`CpMsg`] for the member transport.
pub fn encode_msg(msg: &CpMsg) -> (o: Vec<u8>)
    ensures
        o@ == msg_bytes(msg@),
{
    let mut o: Vec<u8> = Vec::new();
    match msg {
        CpMsg::Raft(rm) => {
            o.push(0);
            encode_raft(&mut o, rm);
        },
        CpMsg::Forward { client, origin, command } => {
            o.push(1);
            put_u64(&mut o, *client);
            put_u64(&mut o, *origin as u64);
            put_blob64(&mut o, command.as_slice());
        },
        CpMsg::Reply { client, reply } => {
            o.push(2);
            put_u64(&mut o, *client);
            put_reply(&mut o, reply);
        },
    }
    assert(o@ =~= msg_bytes(msg@));
    o
}

/// Deserializes a [`CpMsg`] that [`encode_msg`] produced.
pub fn decode_msg(b: &[u8]) -> (r: Option<CpMsg>)
    ensures
        match r {
            Some(m) => msg_of(b@) == Some(m@),
            None => msg_of(b@) is None,
        },
{
    let mut p: usize = 0;
    let tag: u8 = match take_u8(b, &mut p) {
        Some(t) => t,
        None => {
            return None;
        },
    };
    match tag {
        0 => match decode_raft(b, &mut p) {
            Some(m) => Some(CpMsg::Raft(m)),
            None => None,
        },
        1 => {
            let client: u64 = match take_u64(b, &mut p) {
                Some(v) => v,
                None => {
                    return None;
                },
            };
            let origin: u64 = match take_u64(b, &mut p) {
                Some(v) => v,
                None => {
                    return None;
                },
            };
            match take_blob64(b, &mut p) {
                Some(command) => Some(
                    CpMsg::Forward { client, origin: origin as NodeId, command },
                ),
                None => None,
            }
        },
        2 => {
            let client: u64 = match take_u64(b, &mut p) {
                Some(v) => v,
                None => {
                    return None;
                },
            };
            match get_reply(b, &mut p) {
                Some(reply) => Some(CpMsg::Reply { client, reply }),
                None => None,
            }
        },
        _ => None,
    }
}

/// Whether every length in a message has a field that holds it.
pub open spec fn fits(m: CpMsgView) -> bool {
    match m {
        CpMsgView::Raft(MsgView::AppendEntries { entries, .. }) => {
            &&& entries.len() <= u64::MAX
            &&& forall|i: int|
                0 <= i < entries.len() ==> (#[trigger] entries[i]).command.len() <= u64::MAX
        },
        CpMsgView::Raft(_) => true,
        CpMsgView::Forward { client, origin, command } => command.len() <= u64::MAX,
        CpMsgView::Reply { client, reply } => reply matches ReplyView::Data(Some(d)) ==> d.len()
            < u64::MAX,
    }
}

proof fn lemma_read_entries(b: Seq<u8>, p: int, es: Seq<EntryView>)
    requires
        stands_at(b, p, entries_bytes(es)),
        forall|i: int| 0 <= i < es.len() ==> (#[trigger] es[i]).command.len() <= u64::MAX,
    ensures
        read_entries(b, p, es.len()) == Some((es, p + entries_bytes(es).len())),
    decreases es.len(),
{
    broadcast use lemma_le_digits_len;

    if es.len() > 0 {
        let init = es.drop_last();
        let e = es.last();
        let q = p + entries_bytes(init).len();
        lemma_stands_split(b, p, entries_bytes(init), entry_bytes(e));
        assert forall|i: int| 0 <= i < init.len() implies (#[trigger] init[i]).command.len()
            <= u64::MAX by {
            assert(es[i] == init[i]);
        }
        lemma_read_entries(b, p, init);
        assert(es[es.len() - 1] == e);
        lemma_stands_split(b, q, u64_le(e.term) + u64_le(e.index), blob64(e.command));
        lemma_stands_split(b, q, u64_le(e.term), u64_le(e.index));
        lemma_read_u64(b, q, e.term);
        lemma_read_u64(b, q + 8, e.index);
        lemma_read_blob64(b, q + 16, e.command);
        assert(init.push(e) =~= es);
    }
}

proof fn lemma_read_reply(b: Seq<u8>, p: int, r: ReplyView)
    requires
        stands_at(b, p, reply_bytes(r)),
        r matches ReplyView::Data(Some(d)) ==> d.len() < u64::MAX,
    ensures
        read_reply(b, p) == Some((r, p + reply_bytes(r).len())),
{
    broadcast use lemma_le_digits_len;

    match r {
        ReplyView::Long(v) => {
            lemma_stands_split(b, p, seq![0u8], i64_le(v));
            lemma_read_u8(b, p, 0);
            lemma_read_i64(b, p + 1, v);
        },
        ReplyView::Bool(v) => {
            assert(seq![1u8, bool_byte(v)] =~= seq![1u8] + seq![bool_byte(v)]);
            lemma_stands_split(b, p, seq![1u8], seq![bool_byte(v)]);
            lemma_read_u8(b, p, 1);
            lemma_read_u8(b, p + 1, bool_byte(v));
        },
        ReplyView::Data(Some(d)) => {
            lemma_stands_split(b, p, seq![2u8], blob64(d));
            lemma_read_u8(b, p, 2);
            lemma_read_blob64(b, p + 1, d);
            lemma_stands_split(b, p + 1, u64_le(d.len() as u64), d);
            lemma_read_u64(b, p + 1, d.len() as u64);
        },
        ReplyView::Data(None) => {
            lemma_stands_split(b, p, seq![2u8], u64_le(NULL_LEN));
            lemma_read_u8(b, p, 2);
            lemma_read_u64(b, p + 1, NULL_LEN);
        },
        ReplyView::Nil => {
            lemma_read_u8(b, p, 3);
        },
    }
}

proof fn lemma_read_raft(b: Seq<u8>, p: int, m: MsgView)
    requires
        stands_at(b, p, raft_bytes(m)),
        fits(CpMsgView::Raft(m)),
    ensures
        read_raft(b, p) == Some((m, p + raft_bytes(m).len())),
{
    broadcast use lemma_le_digits_len;

    match m {
        MsgView::RequestVote { term, candidate, last_log_index, last_log_term } => {
            let a0 = seq![0u8];
            let a1 = a0 + u64_le(term);
            let a2 = a1 + u64_le(candidate as u64);
            let a3 = a2 + u64_le(last_log_index);
            lemma_stands_split(b, p, a3, u64_le(last_log_term));
            lemma_stands_split(b, p, a2, u64_le(last_log_index));
            lemma_stands_split(b, p, a1, u64_le(candidate as u64));
            lemma_stands_split(b, p, a0, u64_le(term));
            lemma_read_u8(b, p, 0);
            lemma_read_u64(b, p + 1, term);
            lemma_read_u64(b, p + 9, candidate as u64);
            lemma_read_u64(b, p + 17, last_log_index);
            lemma_read_u64(b, p + 25, last_log_term);
        },
        MsgView::RequestVoteResp { term, granted } => {
            let a0 = seq![1u8];
            let a1 = a0 + u64_le(term);
            lemma_stands_split(b, p, a1, seq![bool_byte(granted)]);
            lemma_stands_split(b, p, a0, u64_le(term));
            lemma_read_u8(b, p, 1);
            lemma_read_u64(b, p + 1, term);
            lemma_read_u8(b, p + 9, bool_byte(granted));
        },
        MsgView::AppendEntries {
            term,
            leader,
            prev_log_index,
            prev_log_term,
            entries,
            leader_commit,
        } => {
            let n = entries.len() as u64;
            let a0 = seq![2u8];
            let a1 = a0 + u64_le(term);
            let a2 = a1 + u64_le(leader as u64);
            let a3 = a2 + u64_le(prev_log_index);
            let a4 = a3 + u64_le(prev_log_term);
            let a5 = a4 + u64_le(n);
            let a6 = a5 + entries_bytes(entries);
            lemma_stands_split(b, p, a6, u64_le(leader_commit));
            lemma_stands_split(b, p, a5, entries_bytes(entries));
            lemma_stands_split(b, p, a4, u64_le(n));
            lemma_stands_split(b, p, a3, u64_le(prev_log_term));
            lemma_stands_split(b, p, a2, u64_le(prev_log_index));
            lemma_stands_split(b, p, a1, u64_le(leader as u64));
            lemma_stands_split(b, p, a0, u64_le(term));
            lemma_read_u8(b, p, 2);
            lemma_read_u64(b, p + 1, term);
            lemma_read_u64(b, p + 9, leader as u64);
            lemma_read_u64(b, p + 17, prev_log_index);
            lemma_read_u64(b, p + 25, prev_log_term);
            lemma_read_u64(b, p + 33, n);
            lemma_read_entries(b, p + 41, entries);
            lemma_read_u64(b, p + a6.len(), leader_commit);
        },
        MsgView::AppendEntriesResp { term, success, match_index } => {
            let a0 = seq![3u8];
            let a1 = a0 + u64_le(term);
            let a2 = a1 + seq![bool_byte(success)];
            lemma_stands_split(b, p, a2, u64_le(match_index));
            lemma_stands_split(b, p, a1, seq![bool_byte(success)]);
            lemma_stands_split(b, p, a0, u64_le(term));
            lemma_read_u8(b, p, 3);
            lemma_read_u64(b, p + 1, term);
            lemma_read_u8(b, p + 9, bool_byte(success));
            lemma_read_u64(b, p + 10, match_index);
        },
    }
}

/// Where a message ends, if bytes hold one.
spec fn end_of_msg(b: Seq<u8>) -> Option<int> {
    match read_u8(b, 0) {
        None => None,
        Some((tag, p)) => if tag == 0 {
            match read_raft(b, p) {
                Some((m, q)) => Some(q),
                None => None,
            }
        } else if tag == 1 {
            match read_u64(b, p) {
                None => None,
                Some((client, q)) => match read_u64(b, q) {
                    None => None,
                    Some((origin, r)) => match read_blob64(b, r) {
                        None => None,
                        Some((command, s)) => Some(s),
                    },
                },
            }
        } else if tag == 2 {
            match read_u64(b, p) {
                None => None,
                Some((client, q)) => match read_reply(b, q) {
                    None => None,
                    Some((reply, r)) => Some(r),
                },
            }
        } else {
            None
        },
    }
}

proof fn lemma_msg_reads_back(b: Seq<u8>, m: CpMsgView)
    requires
        fits(m),
        stands_at(b, 0, msg_bytes(m)),
    ensures
        msg_of(b) == Some(m),
        end_of_msg(b) == Some(msg_bytes(m).len() as int),
{
    broadcast use lemma_le_digits_len;

    match m {
        CpMsgView::Raft(r) => {
            lemma_stands_split(b, 0, seq![0u8], raft_bytes(r));
            lemma_read_u8(b, 0, 0);
            lemma_read_raft(b, 1, r);
        },
        CpMsgView::Forward { client, origin, command } => {
            let a0 = seq![1u8];
            let a1 = a0 + u64_le(client);
            let a2 = a1 + u64_le(origin as u64);
            lemma_stands_split(b, 0, a2, blob64(command));
            lemma_stands_split(b, 0, a1, u64_le(origin as u64));
            lemma_stands_split(b, 0, a0, u64_le(client));
            lemma_read_u8(b, 0, 1);
            lemma_read_u64(b, 1, client);
            lemma_read_u64(b, 9, origin as u64);
            lemma_read_blob64(b, 17, command);
        },
        CpMsgView::Reply { client, reply } => {
            let a0 = seq![2u8];
            let a1 = a0 + u64_le(client);
            lemma_stands_split(b, 0, a1, reply_bytes(reply));
            lemma_stands_split(b, 0, a0, u64_le(client));
            lemma_read_u8(b, 0, 2);
            lemma_read_u64(b, 1, client);
            lemma_read_reply(b, 9, reply);
        },
    }
}

proof fn lemma_entries_prefix(b: Seq<u8>, k: int, p: int, n: nat)
    requires
        0 <= k <= b.len(),
        p <= k,
    ensures
        carries(read_entries(b.take(k), p, n), read_entries(b, p, n), k),
    decreases n,
{
    lemma_prefix_reads(b, k);
    if n > 0 {
        lemma_entries_prefix(b, k, p, (n - 1) as nat);
    }
}

proof fn lemma_append_prefix(b: Seq<u8>, k: int, p: int)
    requires
        0 <= k <= b.len(),
    ensures
        carries(read_append(b.take(k), p), read_append(b, p), k),
{
    lemma_prefix_reads(b, k);
    let c = b.take(k);
    if let Some((term, q)) = read_u64(c, p) {
        if let Some((leader, r)) = read_u64(c, q) {
            if let Some((index, s)) = read_u64(c, r) {
                if let Some((prev, t)) = read_u64(c, s) {
                    if let Some((n, u)) = read_u64(c, t) {
                        lemma_entries_prefix(b, k, u, n as nat);
                    }
                }
            }
        }
    }
}

/// Bytes that follow do not change a message, nor where it ends.
proof fn lemma_msg_prefix(b: Seq<u8>, k: int)
    requires
        0 <= k <= b.len(),
        msg_of(b.take(k)) is Some,
    ensures
        end_of_msg(b) matches Some(e) && e <= k,
{
    lemma_prefix_reads(b, k);
    lemma_append_prefix(b, k, 2);
}

/// A message decodes to what it was encoded from, whatever follows it; a message with bytes
/// missing at the end is not decoded.
pub proof fn law_messages_read_back(m: CpMsgView, rest: Seq<u8>, k: int)
    requires
        fits(m),
        0 <= k < msg_bytes(m).len(),
    ensures
        msg_of(msg_bytes(m)) == Some(m),
        msg_of(msg_bytes(m) + rest) == Some(m),
        msg_of(msg_bytes(m).take(k)) is None,
{
    let b = msg_bytes(m);
    lemma_stands_whole(b);
    lemma_msg_reads_back(b, m);
    lemma_stands_front(b, rest);
    lemma_msg_reads_back(b + rest, m);
    if msg_of(b.take(k)) is Some {
        lemma_msg_prefix(b, k);
    }
}

/// The bytes of messages between CP group members: a tag, then the fields, each integer in eight
/// bytes, each flag in one, each command and value behind its length; the entries behind their
/// number. A reply with any other tag
/// is an empty one; other bytes with another tag hold no message.
pub proof fn law_message_layout(
    a: u64,
    n: NodeId,
    b: u64,
    c: u64,
    d: u64,
    v: i64,
    flag: bool,
    x: Seq<u8>,
    es: Seq<EntryView>,
    e: EntryView,
    tag: u8,
)
    ensures
        msg_bytes(
            CpMsgView::Raft(
                MsgView::RequestVote { term: a, candidate: n, last_log_index: b, last_log_term: c },
            ),
        ) == seq![0u8, 0u8] + u64_le(a) + u64_le(n as u64) + u64_le(b) + u64_le(c),
        msg_bytes(CpMsgView::Raft(MsgView::RequestVoteResp { term: a, granted: flag })) == seq![
            0u8,
            1u8,
        ] + u64_le(a) + seq![
            if flag {
                1u8
            } else {
                0u8
            },
        ],
        msg_bytes(
            CpMsgView::Raft(
                MsgView::AppendEntries {
                    term: a,
                    leader: n,
                    prev_log_index: b,
                    prev_log_term: c,
                    entries: es,
                    leader_commit: d,
                },
            ),
        ) == seq![0u8, 2u8] + u64_le(a) + u64_le(n as u64) + u64_le(b) + u64_le(c) + u64_le(
            es.len() as u64,
        ) + entries_bytes(es) + u64_le(d),
        entries_bytes(Seq::empty()) == Seq::<u8>::empty(),
        entries_bytes(es.push(e)) == entries_bytes(es) + u64_le(e.term) + u64_le(e.index) + u64_le(
            e.command.len() as u64,
        ) + e.command,
        msg_bytes(
            CpMsgView::Raft(
                MsgView::AppendEntriesResp { term: a, success: flag, match_index: b },
            ),
        ) == seq![0u8, 3u8] + u64_le(a) + seq![
            if flag {
                1u8
            } else {
                0u8
            },
        ] + u64_le(b),
        msg_bytes(CpMsgView::Forward { client: a, origin: n, command: x }) == seq![1u8] + u64_le(a)
            + u64_le(n as u64) + u64_le(x.len() as u64) + x,
        msg_bytes(CpMsgView::Reply { client: a, reply: ReplyView::Long(v) }) == seq![2u8] + u64_le(
            a,
        ) + seq![0u8] + i64_le(v),
        msg_bytes(CpMsgView::Reply { client: a, reply: ReplyView::Bool(flag) }) == seq![2u8]
            + u64_le(a) + seq![
            1u8,
            if flag {
                1u8
            } else {
                0u8
            },
        ],
        msg_bytes(CpMsgView::Reply { client: a, reply: ReplyView::Data(Some(x)) }) == seq![2u8]
            + u64_le(a) + seq![2u8] + u64_le(x.len() as u64) + x,
        msg_bytes(CpMsgView::Reply { client: a, reply: ReplyView::Data(None) }) == seq![2u8]
            + u64_le(a) + seq![2u8] + u64_le(u64::MAX),
        msg_bytes(CpMsgView::Reply { client: a, reply: ReplyView::Nil }) == seq![2u8] + u64_le(a)
            + seq![3u8],
        tag > 2 ==> msg_of(seq![tag] + x) is None,
        tag > 3 ==> msg_of(seq![0u8, tag] + x) is None,
        tag > 2 ==> msg_of(seq![2u8] + u64_le(a) + seq![tag] + x) == Some(
            CpMsgView::Reply { client: a, reply: ReplyView::Nil },
        ),
        msg_of(Seq::empty()) is None,
{
    broadcast use lemma_le_digits_len;

    assert(seq![0u8] + (seq![0u8] + u64_le(a) + u64_le(n as u64) + u64_le(b) + u64_le(c))
        =~= seq![0u8, 0u8] + u64_le(a) + u64_le(n as u64) + u64_le(b) + u64_le(c));
    let f = seq![bool_byte(flag)];
    assert(seq![0u8] + (seq![1u8] + u64_le(a) + f) =~= seq![0u8, 1u8] + u64_le(a) + f);
    assert(seq![0u8] + (seq![3u8] + u64_le(a) + f + u64_le(b)) =~= seq![0u8, 3u8] + u64_le(a) + f
        + u64_le(b));
    assert(seq![0u8] + (seq![2u8] + u64_le(a) + u64_le(n as u64) + u64_le(b) + u64_le(c) + u64_le(
        es.len() as u64,
    ) + entries_bytes(es) + u64_le(d)) =~= seq![0u8, 2u8] + u64_le(a) + u64_le(n as u64) + u64_le(b)
        + u64_le(c) + u64_le(es.len() as u64) + entries_bytes(es) + u64_le(d));
    assert(es.push(e).drop_last() =~= es);
    assert(entries_bytes(es.push(e)) =~= entries_bytes(es) + u64_le(e.term) + u64_le(e.index)
        + u64_le(e.command.len() as u64) + e.command);
    assert(seq![1u8] + u64_le(a) + u64_le(n as u64) + blob64(x) =~= seq![1u8] + u64_le(a) + u64_le(
        n as u64,
    ) + u64_le(x.len() as u64) + x);
    let head = seq![2u8] + u64_le(a);
    assert(head + (seq![0u8] + i64_le(v)) =~= head + seq![0u8] + i64_le(v));
    assert(head + (seq![2u8] + blob64(x)) =~= head + seq![2u8] + u64_le(x.len() as u64) + x);
    assert(head + (seq![2u8] + u64_le(NULL_LEN)) =~= head + seq![2u8] + u64_le(u64::MAX));
    let whole = head + seq![tag] + x;
    assert(whole[0] == 2 && whole[9] == tag);
    lemma_stands_whole(whole);
    assert(whole =~= seq![2u8] + (u64_le(a) + (seq![tag] + x)));
    lemma_stands_split(whole, 0, seq![2u8], u64_le(a) + (seq![tag] + x));
    lemma_stands_split(whole, 1, u64_le(a), seq![tag] + x);
    lemma_read_u64(whole, 1, a);
    assert((seq![0u8, tag] + x)[1] == tag);
    assert((seq![tag] + x)[0] == tag);
}

} // verus!
