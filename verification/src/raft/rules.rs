//! The rules of the protocol, as one member follows them.

use vstd::prelude::*;
use super::log::{EntryView, LogView};
use super::node::{
    accept, commands_between, count_reached, count_set, holds, merge, mergeable, MsgView, NodeView,
    Role, Sent,
};

verus! {

/// A log's end compared with another: the later term counts, then the greater index.
pub open spec fn reaches(index: u64, term: u64, than_index: u64, than_term: u64) -> bool {
    term > than_term || (term == than_term && index >= than_index)
}

/// A vote request is answered once, to the candidate, in the later of the two terms. It is granted
/// exactly if its term is not over, the vote of that term is not given to another, and the
/// candidate's log reaches at least as far; the vote is then the candidate's.
pub proof fn law_votes_go_to_the_up_to_date(
    n: NodeView,
    from: usize,
    term: u64,
    candidate: usize,
    last_log_index: u64,
    last_log_term: u64,
)
    requires
        n.wf(),
    ensures
        ({
            let msg = MsgView::RequestVote { term, candidate, last_log_index, last_log_term };
            let (m, out) = n.step(from, msg);
            let now = if term > n.term {
                term
            } else {
                n.term
            };
            let granted = term >= n.term && (term > n.term || n.vote is None || n.vote == Some(
                candidate,
            )) && reaches(last_log_index, last_log_term, n.log.last_index(), n.log.last_term());
            &&& out == seq![(candidate, MsgView::RequestVoteResp { term: now, granted })]
            &&& m.term == now
            &&& granted ==> m.vote == Some(candidate)
            &&& !granted && term <= n.term ==> m == n
            &&& !granted && term > n.term ==> m.vote is None && m.role == Role::Follower
            &&& m.log.entries == n.log.entries && m.commit == n.commit
        }),
{
}

/// A message of a later term makes any member a follower of that term; one of an earlier term
/// changes nothing.
pub proof fn law_later_terms_are_followed(n: NodeView, from: usize, msg: MsgView)
    requires
        n.wf(),
    ensures
        msg.term() > n.term ==> n.step(from, msg).0.term == msg.term() && n.step(
            from,
            msg,
        ).0.role == Role::Follower,
        msg.term() < n.term ==> n.step(from, msg).0 == n,
        msg.term() < n.term ==> match msg {
            MsgView::AppendEntries { leader, .. } => n.step(from, msg).1 == seq![
                (
                    leader,
                    MsgView::AppendEntriesResp { term: n.term, success: false, match_index: 0 },
                ),
            ],
            MsgView::RequestVote { candidate, .. } => n.step(from, msg).1 == seq![
                (candidate, MsgView::RequestVoteResp { term: n.term, granted: false }),
            ],
            _ => n.step(from, msg).1.len() == 0,
        },
{
}

/// Whether entries follow one another behind an index.
pub open spec fn follow(entries: Seq<EntryView>, prev: u64) -> bool {
    prev + entries.len() < u64::MAX && forall|k: int|
        0 <= k < entries.len() ==> (#[trigger] entries[k]).index == prev + 1 + k
}

/// Whether a log has an entry: one of its index and term, with its command or with the command that
/// stood there under that term before.
pub open spec fn has_entry(log: LogView, old: LogView, e: EntryView) -> bool {
    &&& log.term_at(e.index) == e.term
    &&& log.last_index() >= e.index
    &&& log.command_at(e.index) == Some(e.command) || (old.term_at(e.index) == e.term
        && old.last_index() >= e.index && log.command_at(e.index) == old.command_at(e.index))
}

proof fn lemma_merged(log: LogView, entries: Seq<EntryView>, prev: u64)
    requires
        log.wf(),
        mergeable(log, entries),
        follow(entries, prev),
    ensures
        merge(log, entries).wf(),
        merge(log, entries).snapshot_index == log.snapshot_index,
        merge(log, entries).snapshot_term == log.snapshot_term,
        forall|k: int|
            0 <= k < entries.len() ==> has_entry(merge(log, entries), log, #[trigger] entries[k]),
        forall|i: u64|
            i <= prev ==> #[trigger] merge(log, entries).command_at(i) == log.command_at(i),
        forall|i: u64| i <= prev ==> #[trigger] merge(log, entries).term_at(i) == log.term_at(i),
    decreases entries.len(),
{
    if entries.len() > 0 {
        let init = entries.drop_last();
        let e = entries.last();
        let n = entries.len() - 1;
        assert(entries[n] == e);
        assert(follow(init, prev)) by {
            assert forall|k: int| 0 <= k < init.len() implies (#[trigger] init[k]).index == prev + 1
                + k by {
                assert(init[k] == entries[k]);
            }
        }
        lemma_merged(log, init, prev);
        let l = merge(log, init);
        let r = merge(log, entries);
        l.lemma_last_index();
        if !holds(l, e) {
            let cut = l.truncated(e.index);
            let at = l.live_before(e.index);
            assert(at == e.index - l.snapshot_index - 1);
            assert(r.entries =~= l.entries.take(at).push(e));
            assert(r.wf());
            r.lemma_last_index();
            assert(r.live(e.index) == e);
            assert forall|i: u64| i < e.index implies #[trigger] r.command_at(i) == l.command_at(i)
                && r.term_at(i) == l.term_at(i) by {
                if r.is_live(i) {
                    assert(r.live(i) == l.live(i));
                }
            }
        } else {
            assert(r == l);
            assert(has_entry(r, log, e)) by {
                // An entry at this index that was not there before came from no earlier entry.
                lemma_untouched(log, init, prev, e.index);
            }
        }
        assert forall|i: u64| i <= prev implies #[trigger] r.term_at(i) == log.term_at(i) by {
            assert(l.term_at(i) == log.term_at(i));
            assert(r.command_at(i) == l.command_at(i));
        }
        assert forall|k: int| 0 <= k < entries.len() implies has_entry(
            r,
            log,
            #[trigger] entries[k],
        ) by {
            if k < n {
                assert(init[k] == entries[k]);
                assert(has_entry(l, log, init[k]));
            }
        }
    }
}

/// Beyond the entries taken over, the log holds what it held, or ends.
proof fn lemma_untouched(log: LogView, entries: Seq<EntryView>, prev: u64, i: u64)
    requires
        log.wf(),
        mergeable(log, entries),
        follow(entries, prev),
        i > prev + entries.len(),
    ensures
        merge(log, entries).wf(),
        merge(log, entries).last_index() >= i ==> merge(log, entries).command_at(i)
            == log.command_at(i) && merge(log, entries).term_at(i) == log.term_at(i)
            && log.last_index() >= i,
    decreases entries.len(),
{
    if entries.len() > 0 {
        let init = entries.drop_last();
        let e = entries.last();
        assert(entries[entries.len() - 1] == e);
        assert(follow(init, prev)) by {
            assert forall|k: int| 0 <= k < init.len() implies (#[trigger] init[k]).index == prev + 1
                + k by {
                assert(init[k] == entries[k]);
            }
        }
        lemma_untouched(log, init, prev, i);
        let l = merge(log, init);
        let r = merge(log, entries);
        l.lemma_last_index();
        if !holds(l, e) {
            let at = l.live_before(e.index);
            assert(r.entries =~= l.entries.take(at).push(e));
            r.lemma_last_index();
        }
    }
}

/// A leader's entries are taken over if and only if the log agrees with the leader's right before
/// them. A member that takes them over has each of them, keeps what stands before them, says how
/// far it then agrees, and counts as committed what the leader does, as far as its log reaches. One
/// that does not says so and keeps its log. Either way it follows the leader.
pub proof fn law_entries_are_taken_over_where_logs_agree(
    n: NodeView,
    from: usize,
    term: u64,
    leader: usize,
    prev: u64,
    prev_term: u64,
    entries: Seq<EntryView>,
    leader_commit: u64,
)
    requires
        n.wf(),
        term >= n.term,
        follow(entries, prev),
        prev == 0 || n.log.term_at(prev) == prev_term ==> mergeable(n.log, entries),
    ensures
        ({
            let msg = MsgView::AppendEntries {
                term,
                leader,
                prev_log_index: prev,
                prev_log_term: prev_term,
                entries,
                leader_commit,
            };
            let (m, out) = n.step(from, msg);
            let agrees = prev == 0 || n.log.term_at(prev) == prev_term;
            let reached = prev + entries.len();
            &&& m.role == Role::Follower && m.leader == Some(leader) && m.term == term
            &&& m.elapsed == 0
            &&& out == seq![
                (
                    leader,
                    MsgView::AppendEntriesResp {
                        term,
                        success: agrees,
                        match_index: if agrees {
                            reached as u64
                        } else {
                            0
                        },
                    },
                ),
            ]
            &&& !agrees ==> m.log.entries == n.log.entries && m.commit == n.commit
            &&& agrees ==> {
                &&& forall|k: int|
                    0 <= k < entries.len() ==> has_entry(m.log, n.log, #[trigger] entries[k])
                &&& forall|i: u64| i <= prev ==> #[trigger] m.log.command_at(i) == n.log.command_at(i)
                &&& m.commit == if leader_commit <= n.commit {
                    n.commit
                } else if leader_commit <= m.log.last_index() {
                    leader_commit
                } else {
                    m.log.last_index()
                }
            }
        }),
{
    let agrees = prev == 0 || n.log.term_at(prev) == prev_term;
    let s = n.seeing(term);
    assert(s.log.entries == n.log.entries);
    assert forall|i: u64| #[trigger] s.log.command_at(i) == n.log.command_at(i) && s.log.term_at(i)
        == n.log.term_at(i) by {}
    if agrees {
        let msg = MsgView::AppendEntries {
            term,
            leader,
            prev_log_index: prev,
            prev_log_term: prev_term,
            entries,
            leader_commit,
        };
        let m = n.step(from, msg).0;
        lemma_same_merge(n.log, s.log, entries);
        lemma_merged(s.log, entries, prev);
        assert(s.agrees_at(prev, prev_term));
        assert(m.log == merge(s.log, entries));
        if entries.len() > 0 {
            assert(entries[entries.len() - 1].index == prev + entries.len());
        }
        assert forall|k: int| 0 <= k < entries.len() implies has_entry(
            m.log,
            n.log,
            #[trigger] entries[k],
        ) by {
            assert(has_entry(m.log, s.log, entries[k]));
            assert(s.log.command_at(entries[k].index) == n.log.command_at(entries[k].index));
        }
        assert forall|i: u64| i <= prev implies #[trigger] m.log.command_at(i) == n.log.command_at(
            i,
        ) by {
            assert(m.log.command_at(i) == s.log.command_at(i));
        }
    }
}

/// Taking over does not depend on term, vote and outstanding writes.
proof fn lemma_same_merge(a: LogView, b: LogView, entries: Seq<EntryView>)
    requires
        a.wf(),
        b.wf(),
        a.entries == b.entries,
        a.snapshot_index == b.snapshot_index,
        a.snapshot_term == b.snapshot_term,
        a.durable == b.durable,
        mergeable(a, entries),
    ensures
        mergeable(b, entries),
        merge(a, entries).entries == merge(b, entries).entries,
        merge(a, entries).snapshot_index == merge(b, entries).snapshot_index,
        merge(a, entries).snapshot_term == merge(b, entries).snapshot_term,
        merge(a, entries).durable == merge(b, entries).durable,
    decreases entries.len(),
{
    if entries.len() > 0 {
        lemma_same_merge(a, b, entries.drop_last());
    }
}

/// The members on which an index is known to be replicated.
pub open spec fn supporters(n: NodeView, index: u64) -> Seq<usize> {
    n.peers.filter(|p: usize| n.matched[p as int] >= index)
}

/// Whether an entry of the leader's own term is replicated on more than half of the members.
pub open spec fn is_settled(n: NodeView, index: u64) -> bool {
    n.log.term_at(index) == n.term && 2 * supporters(n, index).len() > n.peers.len()
}

proof fn lemma_supporters(peers: Seq<usize>, matched: Seq<u64>, index: u64)
    ensures
        count_reached(peers, matched, index) == peers.filter(
            |p: usize| matched[p as int] >= index,
        ).len(),
    decreases peers.len(),
{
    reveal(Seq::filter);
    if peers.len() > 0 {
        lemma_supporters(peers.drop_last(), matched, index);
    }
}

proof fn lemma_settled(n: NodeView, index: u64)
    ensures
        n.can_commit(index) <==> is_settled(n, index),
{
    lemma_supporters(n.peers, n.matched, index);
}

proof fn lemma_commit_below(n: NodeView, top: u64)
    ensures
        n.commit_below(top) >= n.commit,
        n.commit_below(top) > n.commit ==> n.commit_below(top) <= top && is_settled(
            n,
            n.commit_below(top),
        ),
        forall|i: u64| n.commit_below(top) < i <= top ==> !#[trigger] is_settled(n, i),
    decreases top,
{
    lemma_settled(n, top);
    if top > n.commit && !n.can_commit(top) {
        lemma_commit_below(n, (top - 1) as u64);
    }
}

/// A leader commits the highest entry of its term that is replicated on more than half of the
/// members, and nothing beyond; its commit index never falls. A member's word counts once it is
/// given, and the next entries for it start behind what it has.
pub proof fn law_leaders_commit_what_a_majority_has(
    n: NodeView,
    from: usize,
    match_index: u64,
)
    requires
        n.wf(),
        n.role == Role::Leader,
        from < n.votes.len(),
        match_index < u64::MAX,
    ensures
        ({
            let msg = MsgView::AppendEntriesResp { term: n.term, success: true, match_index };
            let (m, out) = n.step(from, msg);
            &&& out.len() == 0
            &&& m.role == Role::Leader && m.term == n.term && m.log == n.log
            &&& m.matched[from as int] >= match_index && m.matched[from as int] >= n.matched[from as int]
            &&& m.matched[from as int] == match_index || m.matched[from as int]
                == n.matched[from as int]
            &&& m.next[from as int] == m.matched[from as int] + 1
            &&& forall|i: int|
                0 <= i < n.matched.len() && i != from ==> #[trigger] m.matched[i] == n.matched[i]
                    && m.next[i] == n.next[i]
            &&& m.commit >= n.commit
            &&& m.commit > n.commit ==> is_settled(m, m.commit)
            &&& forall|i: u64|
                m.commit < i <= m.log.last_index() ==> !#[trigger] is_settled(m, i)
        }),
{
    let k = if n.matched[from as int] < match_index {
        match_index
    } else {
        n.matched[from as int]
    };
    let s = NodeView {
        matched: n.matched.update(from as int, k),
        next: n.next.update(from as int, (k + 1) as u64),
        ..n
    };
    lemma_commit_below(s, s.log.last_index());
    let msg = MsgView::AppendEntriesResp { term: n.term, success: true, match_index };
    let m = n.step(from, msg).0;
    assert(m == s.advance_commit());
    assert forall|i: u64| is_settled(m, i) == #[trigger] is_settled(s, i) by {
        assert(supporters(m, i) == supporters(s, i));
    }
    assert forall|i: u64| m.commit < i <= m.log.last_index() implies !#[trigger] is_settled(m, i) by {
        assert(!is_settled(s, i));
    }
    if m.commit > n.commit {
        assert(is_settled(s, m.commit));
    }
}

/// What a leader sends to a member: its entries from the next one for that member on, the index and
/// term right before them, and how far it has committed.
pub open spec fn is_append_for(n: NodeView, peer: usize, msg: MsgView) -> bool {
    let next = n.next[peer as int];
    msg matches MsgView::AppendEntries {
        term,
        leader,
        prev_log_index,
        prev_log_term,
        entries,
        leader_commit,
    } && term == n.term && leader == n.id && prev_log_index == next - 1 && prev_log_term
        == n.log.term_at((next - 1) as u64) && leader_commit == n.commit && (next
        > n.log.snapshot_index && next <= n.log.last_index() + 1 ==> entries.len()
        == n.log.last_index() + 1 - next && forall|k: int|
        0 <= k < entries.len() ==> #[trigger] entries[k] == n.log.live((next + k) as u64)) && (next
        > n.log.last_index() ==> entries.len() == 0)
}

proof fn lemma_append_for(n: NodeView, peer: usize)
    requires
        n.wf(),
        peer < n.next.len(),
    ensures
        n.append_msg(peer).0 == peer,
        is_append_for(n, peer, n.append_msg(peer).1),
{
    n.log.lemma_last_index();
    assert(n.next[peer as int] >= 1);
}

/// A leader that is told that logs do not agree goes back one entry for that member, not below the
/// first, and sends again.
pub proof fn law_leaders_go_back_until_logs_agree(n: NodeView, from: usize, match_index: u64)
    requires
        n.wf(),
        n.role == Role::Leader,
        from < n.votes.len(),
    ensures
        ({
            let msg = MsgView::AppendEntriesResp { term: n.term, success: false, match_index };
            let (m, out) = n.step(from, msg);
            let was = n.next[from as int];
            &&& m.next[from as int] == if was > 1 {
                (was - 1) as u64
            } else {
                1
            }
            &&& out.len() == 1 && out[0].0 == from && is_append_for(m, from, out[0].1)
            &&& m.commit == n.commit && m.log == n.log && m.matched == n.matched
        }),
{
    let msg = MsgView::AppendEntriesResp { term: n.term, success: false, match_index };
    let m = n.step(from, msg).0;
    assert forall|i: int| 0 <= i < m.next.len() implies 1 <= #[trigger] m.next[i] by {
        assert(1 <= n.next[i]);
    }
    lemma_append_for(m, from);
}

/// Whether messages are one append for each other member, and nothing else.
pub open spec fn are_appends(n: NodeView, out: Seq<Sent>) -> bool {
    &&& forall|i: int|
        0 <= i < out.len() ==> is_member_message(n, #[trigger] out[i]) && is_append_for(
            n,
            out[i].0,
            out[i].1,
        )
    &&& forall|k: int|
        0 <= k < n.peers.len() && n.peers[k] != n.id ==> gets_message(out, #[trigger] n.peers[k])
}

pub open spec fn is_member_message(n: NodeView, m: Sent) -> bool {
    m.0 != n.id && n.peers.contains(m.0)
}

pub open spec fn gets_message(out: Seq<Sent>, peer: usize) -> bool {
    exists|i: int| 0 <= i < out.len() && (#[trigger] out[i]).0 == peer
}

proof fn lemma_appends(n: NodeView, k: nat)
    requires
        n.wf(),
        k <= n.peers.len(),
    ensures
        forall|i: int|
            0 <= i < n.append_msgs(k).len() ==> is_member_message(n, #[trigger] n.append_msgs(k)[i])
                && is_append_for(n, n.append_msgs(k)[i].0, n.append_msgs(k)[i].1),
        forall|j: int|
            0 <= j < k && n.peers[j] != n.id ==> gets_message(
                n.append_msgs(k),
                #[trigger] n.peers[j],
            ),
        n.append_msgs(k).len() <= k,
    decreases k,
{
    if k > 0 {
        lemma_appends(n, (k - 1) as nat);
        let before = n.append_msgs((k - 1) as nat);
        let all = n.append_msgs(k);
        let p = n.peers[k - 1];
        lemma_append_for(n, p);
        assert(n.peers.contains(p));
        assert forall|j: int| 0 <= j < k && n.peers[j] != n.id implies gets_message(
            all,
            #[trigger] n.peers[j],
        ) by {
            if j < k - 1 {
                assert(gets_message(before, n.peers[j]));
                let i = choose|i: int| 0 <= i < before.len() && (#[trigger] before[i]).0 == n.peers[j];
                assert(all[i] == before[i]);
            } else {
                assert(all[before.len() as int].0 == p);
            }
        }
        assert forall|i: int| 0 <= i < all.len() implies is_member_message(n, #[trigger] all[i])
            && is_append_for(n, all[i].0, all[i].1) by {
            if i < before.len() {
                assert(all[i] == before[i]);
            }
        }
    }
}

/// A leader sends to every other member once per heartbeat period, and nothing in between.
pub proof fn law_leaders_send_heartbeats(n: NodeView)
    requires
        n.wf(),
        n.role == Role::Leader,
    ensures
        ({
            let (m, out) = n.tick();
            if n.elapsed + 1 >= n.heartbeat {
                m.elapsed == 0 && are_appends(m, out)
            } else {
                m.elapsed == n.elapsed + 1 && out.len() == 0
            }
        }),
        n.tick().0.role == Role::Leader && n.tick().0.term == n.term && n.tick().0.log == n.log
            && n.tick().0.commit == n.commit,
{
    let t = n.tick().0;
    lemma_appends(t, t.peers.len());
}

proof fn lemma_votes(n: NodeView, k: nat)
    requires
        k <= n.peers.len(),
    ensures
        forall|i: int|
            0 <= i < n.vote_msgs(k).len() ==> is_member_message(n, #[trigger] n.vote_msgs(k)[i])
                && n.vote_msgs(k)[i].1 == n.vote_msg(),
        forall|j: int|
            0 <= j < k && n.peers[j] != n.id ==> gets_message(n.vote_msgs(k), #[trigger] n.peers[j]),
    decreases k,
{
    if k > 0 {
        lemma_votes(n, (k - 1) as nat);
        let before = n.vote_msgs((k - 1) as nat);
        let all = n.vote_msgs(k);
        let p = n.peers[k - 1];
        assert(n.peers.contains(p));
        assert forall|j: int| 0 <= j < k && n.peers[j] != n.id implies gets_message(
            all,
            #[trigger] n.peers[j],
        ) by {
            if j < k - 1 {
                assert(gets_message(before, n.peers[j]));
                let i = choose|i: int| 0 <= i < before.len() && (#[trigger] before[i]).0 == n.peers[j];
                assert(all[i] == before[i]);
            } else {
                assert(all[before.len() as int].0 == p);
            }
        }
        assert forall|i: int| 0 <= i < all.len() implies is_member_message(n, #[trigger] all[i])
            && all[i].1 == n.vote_msg() by {
            if i < before.len() {
                assert(all[i] == before[i]);
            }
        }
    }
}

proof fn lemma_one_set(flags: Seq<bool>, k: int)
    requires
        forall|i: int| 0 <= i < flags.len() ==> #[trigger] flags[i] == (i == k),
    ensures
        count_set(flags) == if 0 <= k < flags.len() {
            1nat
        } else {
            0nat
        },
    decreases flags.len(),
{
    if flags.len() > 0 {
        let init = flags.drop_last();
        assert forall|i: int| 0 <= i < init.len() implies #[trigger] init[i] == (i == k) by {
            assert(flags[i] == (i == k));
        }
        lemma_one_set(init, k);
        assert(flags[flags.len() - 1] == (flags.len() - 1 == k));
    }
}

/// A member that has not heard of a leader for its timeout becomes a candidate of the next term,
/// votes for itself, and asks every other member for its vote, with the end of its log. Before that
/// it waits.
pub proof fn law_elections_start_at_the_timeout(n: NodeView)
    requires
        n.wf(),
        n.role != Role::Leader,
        n.term < u64::MAX,
        n.peers.len() >= 2,
    ensures
        ({
            let (m, out) = n.tick();
            if n.elapsed + 1 >= n.timeout {
                &&& m.role == Role::Candidate && m.term == n.term + 1 && m.vote == Some(n.id)
                &&& m.leader is None && m.elapsed == 0
                &&& forall|i: int| 0 <= i < m.votes.len() ==> #[trigger] m.votes[i] == (i == n.id)
                &&& forall|i: int|
                    0 <= i < out.len() ==> is_member_message(m, #[trigger] out[i]) && out[i].1
                        == (MsgView::RequestVote {
                        term: (n.term + 1) as u64,
                        candidate: n.id,
                        last_log_index: n.log.last_index(),
                        last_log_term: n.log.last_term(),
                    })
                &&& forall|k: int|
                    0 <= k < n.peers.len() && n.peers[k] != n.id ==> gets_message(
                        out,
                        #[trigger] n.peers[k],
                    )
            } else {
                m == (NodeView { elapsed: (n.elapsed + 1) as u64, ..n }) && out.len() == 0
            }
        }),
        n.tick().0.log.entries == n.log.entries && n.tick().0.commit == n.commit,
{
    if n.elapsed + 1 >= n.timeout {
        let s = NodeView { elapsed: (n.elapsed + 1) as u64, ..n };
        let c = s.as_candidate();
        lemma_votes(c, c.peers.len());
        lemma_one_set(c.votes, n.id as int);
        assert(c.vote_msgs(c.peers.len()) + Seq::<Sent>::empty() =~= c.vote_msgs(c.peers.len()));
    }
}

/// A new timeout lies between ten and twenty heartbeat periods, and starts over.
pub proof fn law_timeouts_are_bounded(n: NodeView)
    requires
        n.wf(),
    ensures
        10 * n.heartbeat <= n.with_new_timeout().timeout < 20 * n.heartbeat,
        n.with_new_timeout().elapsed == 0,
{
    let base = 10 * n.heartbeat as int;
    let r = super::node::splitmix(n.rng.wrapping_add(super::node::RNG_STEP)) as int;
    vstd::arithmetic::div_mod::lemma_mod_bound(r, base);
}

/// How many votes are given.
pub open spec fn given(votes: Seq<bool>) -> nat {
    votes.filter(|v: bool| v).len()
}

proof fn lemma_given(votes: Seq<bool>)
    ensures
        count_set(votes) == given(votes),
    decreases votes.len(),
{
    reveal(Seq::filter);
    if votes.len() > 0 {
        lemma_given(votes.drop_last());
    }
}

/// A candidate that is granted a vote in its term counts it, and leads if and only if it then has
/// the votes of more than half of the members: it expects every other member to have nothing yet,
/// starts behind its own log for each, and sends to each of them. Any other answer changes nothing.
pub proof fn law_a_majority_of_votes_leads(n: NodeView, from: usize, term: u64, granted: bool)
    requires
        n.wf(),
        from < n.votes.len(),
        term <= n.term,
        n.log.last_index() < u64::MAX - 1,
    ensures
        ({
            let (m, out) = n.step(from, MsgView::RequestVoteResp { term, granted });
            let votes = n.votes.update(from as int, true);
            if n.role == Role::Candidate && term == n.term && granted {
                &&& m.votes == votes
                &&& m.term == n.term && m.vote == n.vote && m.log == n.log && m.commit == n.commit
                &&& 2 * given(votes) > n.peers.len() ==> {
                    &&& m.role == Role::Leader && m.leader == Some(n.id)
                    &&& are_appends(m, out)
                    &&& forall|k: int|
                        0 <= k < n.peers.len() ==> m.next[(#[trigger] n.peers[k]) as int]
                            == n.log.last_index() + 1 && m.matched[n.peers[k] as int] == if n.peers[k]
                            == n.id {
                            n.log.last_index()
                        } else {
                            0
                        }
                }
                &&& 2 * given(votes) <= n.peers.len() ==> m.role == Role::Candidate && out.len() == 0
            } else {
                m == n && out.len() == 0
            }
        }),
{
    if n.role == Role::Candidate && term == n.term && granted {
        let votes = n.votes.update(from as int, true);
        lemma_given(votes);
        let s = NodeView { votes, ..n };
        if count_set(votes) >= s.majority() {
            let m = s.as_leader();
            assert(m.wf()) by {
                assert forall|i: int| 0 <= i < m.next.len() implies 1 <= #[trigger] m.next[i] by {
                    assert(1 <= n.next[i]);
                }
                assert forall|i: int| 0 <= i < m.matched.len() implies (#[trigger] m.matched[i])
                    < u64::MAX by {
                    assert(n.matched[i] < u64::MAX);
                }
            }
            lemma_appends(m, m.peers.len());
            assert forall|k: int| 0 <= k < n.peers.len() implies m.next[(
            #[trigger] n.peers[k]) as int] == n.log.last_index() + 1 && m.matched[n.peers[k] as int]
                == if n.peers[k] == n.id {
                n.log.last_index()
            } else {
                0
            } by {
                assert(n.peers[k] < n.votes.len());
                assert(super::node::is_member(n.peers, n.peers[k] as int));
            }
        }
    }
}

/// A leader stores a proposal behind its log, in its term, and counts it as its own; another
/// member stores nothing.
pub proof fn law_leaders_store_proposals(n: NodeView, command: Seq<u8>)
    requires
        n.wf(),
        n.can_propose(command),
    ensures
        n.role != Role::Leader ==> n.propose(command) == n,
        n.role == Role::Leader ==> {
            let m = n.propose(command);
            let at = (n.log.last_index() + 1) as u64;
            &&& m.log.last_index() == at
            &&& m.log.command_at(at) == Some(command)
            &&& m.log.term_at(at) == n.term
            &&& m.matched[n.id as int] == at
            &&& m.commit == n.commit
            &&& forall|i: u64| i < at ==> #[trigger] m.log.command_at(i) == n.log.command_at(i)
        },
{
    n.log.lemma_last_index();
    if n.role == Role::Leader {
        let m = n.propose(command);
        let at = (n.log.last_index() + 1) as u64;
        assert(m.log.live(at) == n.next_entry(command));
        assert forall|i: u64| i < at implies #[trigger] m.log.command_at(i) == n.log.command_at(i) by {
            if n.log.is_live(i) {
                assert(m.log.live(i) == n.log.live(i));
            }
        }
        let k = choose|k: int| 0 <= k < n.peers.len() && #[trigger] n.peers[k] == n.id;
        assert(n.peers[k] < n.votes.len());
    }
}

/// What is drained are the commands behind what was applied, up to what is committed, in order, each
/// with its index; after that nothing is left to drain.
pub proof fn law_committed_commands_are_drained_in_order(n: NodeView, k: int)
    requires
        n.wf(),
        n.log.snapshot_index <= n.applied <= n.commit <= n.log.last_index(),
        0 <= k < n.commit - n.applied,
    ensures
        ({
            let out = commands_between(n.log, n.applied, n.commit);
            let at = (n.applied + 1 + k) as u64;
            &&& out.len() == n.commit - n.applied
            &&& out[k].0 == at && n.log.command_at(at) == Some(out[k].1)
        }),
        n.take_committed().applied == n.commit,
        commands_between(n.log, n.commit, n.commit).len() == 0,
{
    n.log.lemma_last_index();
    lemma_commands(n.log, n.applied, n.commit, k);
}

proof fn lemma_commands(log: LogView, from: u64, to: u64, k: int)
    requires
        log.wf(),
        log.snapshot_index <= from <= to <= log.last_index(),
    ensures
        commands_between(log, from, to).len() == to - from,
        0 <= k < to - from ==> commands_between(log, from, to)[k].0 == from + 1 + k
            && log.command_at((from + 1 + k) as u64) == Some(commands_between(log, from, to)[k].1),
    decreases to,
{
    log.lemma_last_index();
    if to > from {
        lemma_commands(log, from, (to - 1) as u64, k);
        assert(log.is_live(to));
    }
}

/// Folding away a live prefix keeps everything behind it, and the term at its end. Nothing else is
/// folded away, and a durable log is kept whole.
pub proof fn law_compaction_keeps_the_rest(log: LogView, up_to: u64, i: u64)
    requires
        log.wf(),
    ensures
        ({
            let c = log.compacted(up_to);
            &&& c.wf() && c.last_index() == log.last_index() && c.last_term() == log.last_term()
            &&& i > up_to ==> c.command_at(i) == log.command_at(i)
            &&& i >= up_to ==> c.term_at(i) == log.term_at(i) || i == 0
            &&& log.durable || !log.is_live(up_to) ==> c == log
            &&& !log.durable && log.is_live(up_to) ==> c.snapshot_index == up_to && (i <= up_to
                ==> c.command_at(i) is None)
        }),
{
    log.lemma_last_index();
    let c = log.compacted(up_to);
    if !log.durable && log.is_live(up_to) {
        let k = up_to - log.snapshot_index;
        assert forall|j: int| 0 <= j < c.entries.len() implies (#[trigger] c.entries[j]).index
            == c.snapshot_index + 1 + j by {
            assert(c.entries[j] == log.entries[j + k]);
        }
        if c.entries.len() > 0 {
            assert(c.entries.last() == log.entries.last());
        } else {
            assert(log.live(up_to) == log.entries.last());
        }
        c.lemma_last_index();
        if c.is_live(i) {
            assert(c.live(i) == log.live(i));
        }
    }
}

/// A leader folds away only what it has applied and what every member has; no other member folds
/// anything away.
pub proof fn law_only_what_all_have_is_folded_away(n: NodeView, keep: usize, k: int)
    requires
        n.wf(),
        0 <= k < n.peers.len(),
    ensures
        ({
            let m = n.maybe_compact(keep);
            &&& m.log.snapshot_index > n.log.snapshot_index ==> n.role == Role::Leader
                && m.log.snapshot_index <= n.applied && m.log.snapshot_index
                <= n.matched[n.peers[k] as int] && n.log.entries.len() > keep
            &&& m.commit == n.commit && m.applied == n.applied && m.term == n.term
        }),
{
    lemma_least(n.peers, n.matched, n.applied, k);
}

proof fn lemma_least(peers: Seq<usize>, matched: Seq<u64>, cap: u64, k: int)
    ensures
        super::node::least_matched(peers, matched, cap) <= cap,
        0 <= k < peers.len() ==> super::node::least_matched(peers, matched, cap)
            <= matched[peers[k] as int],
    decreases peers.len(),
{
    if peers.len() > 0 {
        lemma_least(peers.drop_last(), matched, cap, k);
    }
}

} // verus!
