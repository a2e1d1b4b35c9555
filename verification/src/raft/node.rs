//! One Raft member (Ongaro & Ousterhout), as a deterministic state machine.
//!
//! The caller feeds messages via [`RaftNode::step`], advances logical time via
//! [`RaftNode::tick`], proposes commands via [`RaftNode::propose`] and drains committed commands
//! via [`RaftNode::take_committed`]. The contracts say of each call which state and which messages
//! it leads to, as functions on [`NodeView`].

use vstd::prelude::*;
use super::log::{DiskWrite, DiskWriteView, Entry, EntryView, LogView, RaftLog, MAX_COMMAND};
use crate::model::{lemma_views_push, views};

verus! {

/// Member index within the group.
pub type NodeId = usize;

/// Raft messages exchanged between group members.
#[derive(Clone, Debug, PartialEq, Eq)]
pub enum RaftMsg {
    RequestVote { term: u64, candidate: NodeId, last_log_index: u64, last_log_term: u64 },
    RequestVoteResp { term: u64, granted: bool },
    AppendEntries {
        term: u64,
        leader: NodeId,
        prev_log_index: u64,
        prev_log_term: u64,
        entries: Vec<Entry>,
        leader_commit: u64,
    },
    /// On success, `match_index` is the last index that agrees with the leader.
    AppendEntriesResp { term: u64, success: bool, match_index: u64 },
}

/// What a [`RaftMsg`] holds.
pub enum MsgView {
    RequestVote { term: u64, candidate: usize, last_log_index: u64, last_log_term: u64 },
    RequestVoteResp { term: u64, granted: bool },
    AppendEntries {
        term: u64,
        leader: usize,
        prev_log_index: u64,
        prev_log_term: u64,
        entries: Seq<EntryView>,
        leader_commit: u64,
    },
    AppendEntriesResp { term: u64, success: bool, match_index: u64 },
}

impl View for RaftMsg {
    type V = MsgView;

    open spec fn view(&self) -> MsgView {
        match self {
            RaftMsg::RequestVote { term, candidate, last_log_index, last_log_term } =>
                MsgView::RequestVote {
                term: *term,
                candidate: *candidate,
                last_log_index: *last_log_index,
                last_log_term: *last_log_term,
            },
            RaftMsg::RequestVoteResp { term, granted } => MsgView::RequestVoteResp {
                term: *term,
                granted: *granted,
            },
            RaftMsg::AppendEntries {
                term,
                leader,
                prev_log_index,
                prev_log_term,
                entries,
                leader_commit,
            } => MsgView::AppendEntries {
                term: *term,
                leader: *leader,
                prev_log_index: *prev_log_index,
                prev_log_term: *prev_log_term,
                entries: views(entries@),
                leader_commit: *leader_commit,
            },
            RaftMsg::AppendEntriesResp { term, success, match_index } =>
                MsgView::AppendEntriesResp {
                term: *term,
                success: *success,
                match_index: *match_index,
            },
        }
    }
}

impl MsgView {
    pub open spec fn term(self) -> u64 {
        match self {
            MsgView::RequestVote { term, .. } => term,
            MsgView::RequestVoteResp { term, .. } => term,
            MsgView::AppendEntries { term, .. } => term,
            MsgView::AppendEntriesResp { term, .. } => term,
        }
    }
}

#[derive(Clone, Copy, Debug, PartialEq, Eq, Structural)]
pub enum Role {
    Follower,
    Candidate,
    Leader,
}

/// The step of the timeout generator's state.
pub const RNG_STEP: u64 = 0x9E37_79B9_7F4A_7C15;

/// The splitmix64 output for a generator state.
pub open spec fn splitmix(state: u64) -> u64 {
    let a = (state ^ (state >> 30)).wrapping_mul(0xBF58_476D_1CE4_E5B9u64);
    let b = (a ^ (a >> 27)).wrapping_mul(0x94D0_49BB_1331_11EBu64);
    b ^ (b >> 31)
}

/// A message on its way: the receiver and the message.
pub type Sent = (usize, MsgView);

/// What a [`RaftNode`] holds.
pub struct NodeView {
    pub id: usize,
    /// All members, this one among them.
    pub peers: Seq<usize>,
    pub role: Role,
    pub term: u64,
    pub vote: Option<usize>,
    pub log: LogView,
    pub commit: u64,
    pub applied: u64,
    pub leader: Option<usize>,
    /// Candidate: the members that granted their vote in this election.
    pub votes: Seq<bool>,
    /// Leader: the next entry to send to each member.
    pub next: Seq<u64>,
    /// Leader: the highest index known to be replicated on each member.
    pub matched: Seq<u64>,
    /// Ticks since the last contact with a leader, or since the last heartbeat.
    pub elapsed: u64,
    pub timeout: u64,
    pub heartbeat: u64,
    pub rng: u64,
}

/// How many of `flags` are set.
pub open spec fn count_set(flags: Seq<bool>) -> nat
    decreases flags.len(),
{
    if flags.len() == 0 {
        0
    } else {
        count_set(flags.drop_last()) + if flags.last() {
            1nat
        } else {
            0nat
        }
    }
}

/// How many of `peers` have `matched` at `index` or beyond.
pub open spec fn count_reached(peers: Seq<usize>, matched: Seq<u64>, index: u64) -> nat
    decreases peers.len(),
{
    if peers.len() == 0 {
        0
    } else {
        count_reached(peers.drop_last(), matched, index) + if matched[peers.last() as int]
            >= index {
            1nat
        } else {
            0nat
        }
    }
}

/// Whether member `i` is one of `peers`.
pub open spec fn is_member(peers: Seq<usize>, i: int) -> bool {
    exists|k: int| 0 <= k < peers.len() && #[trigger] peers[k] == i
}

/// The least of `cap` and what is matched on each of `peers`.
pub open spec fn least_matched(peers: Seq<usize>, matched: Seq<u64>, cap: u64) -> u64
    decreases peers.len(),
{
    if peers.len() == 0 {
        cap
    } else {
        let rest = least_matched(peers.drop_last(), matched, cap);
        if matched[peers.last() as int] < rest {
            matched[peers.last() as int]
        } else {
            rest
        }
    }
}

/// Whether `log` already holds `e`: an entry of that index and term.
pub open spec fn holds(log: LogView, e: EntryView) -> bool {
    log.term_at(e.index) == e.term && log.last_index() >= e.index
}

/// `log` after taking over one entry of the leader: unchanged if it holds the entry, else cut at
/// its index and extended by it.
pub open spec fn accept(log: LogView, e: EntryView) -> LogView {
    if holds(log, e) {
        log
    } else {
        log.truncated(e.index).appended(e)
    }
}

/// Whether taking over `e` leaves the log without a gap.
pub open spec fn acceptable(log: LogView, e: EntryView) -> bool {
    holds(log, e) || {
        &&& log.snapshot_index < e.index <= log.last_index() + 1
        &&& e.index < u64::MAX
        &&& log.durable ==> e.command.len() <= MAX_COMMAND
    }
}

/// `log` after taking over the leader's entries in order.
pub open spec fn merge(log: LogView, entries: Seq<EntryView>) -> LogView
    decreases entries.len(),
{
    if entries.len() == 0 {
        log
    } else {
        accept(merge(log, entries.drop_last()), entries.last())
    }
}

/// Whether the leader's entries can be taken over in order without a gap.
pub open spec fn mergeable(log: LogView, entries: Seq<EntryView>) -> bool
    decreases entries.len(),
{
    entries.len() == 0 || {
        &&& mergeable(log, entries.drop_last())
        &&& acceptable(merge(log, entries.drop_last()), entries.last())
    }
}

/// The live entries of `log` with indices in `from+1 ..= to`, as the commands to apply.
pub open spec fn commands_between(log: LogView, from: u64, to: u64) -> Seq<(u64, Seq<u8>)>
    decreases to,
{
    if to <= from {
        Seq::empty()
    } else {
        let before = commands_between(log, from, (to - 1) as u64);
        match log.command_at(to) {
            Some(c) => before.push((to, c)),
            None => before,
        }
    }
}

/// The longest heartbeat period: election timeouts of up to twenty periods still fit.
pub const MAX_HEARTBEAT: u64 = 0x0ccc_cccc_cccc_cccc;

impl NodeView {
    /// What holds of a node between calls.
    pub open spec fn wf(self) -> bool {
        &&& self.log.wf()
        &&& self.log.term == self.term
        &&& self.log.vote == self.vote
        &&& is_member(self.peers, self.id as int)
        &&& forall|i: int|
            0 <= i < self.peers.len() ==> (#[trigger] self.peers[i]) < self.votes.len()
        &&& self.votes.len() == self.next.len() == self.matched.len()
        &&& forall|i: int| 0 <= i < self.next.len() ==> 1 <= #[trigger] self.next[i]
        &&& forall|i: int| 0 <= i < self.matched.len() ==> (#[trigger] self.matched[i]) < u64::MAX
        &&& self.commit < u64::MAX
        &&& 1 <= self.heartbeat <= MAX_HEARTBEAT
        &&& self.elapsed <= 20 * self.heartbeat
        &&& self.timeout < 20 * self.heartbeat
    }

    pub open spec fn majority(self) -> nat {
        self.peers.len() / 2 + 1
    }

    /// A new election timeout in `[base, 2 * base)` ticks, where `base` is ten heartbeat periods.
    pub open spec fn with_new_timeout(self) -> NodeView {
        let base = 10 * self.heartbeat;
        let rng = self.rng.wrapping_add(RNG_STEP);
        NodeView { rng, timeout: (base + splitmix(rng) as int % base) as u64, elapsed: 0, ..self }
    }

    pub open spec fn with_term_vote(self, term: u64, vote: Option<usize>) -> NodeView {
        NodeView { term, vote, log: self.log.with_term_vote(term, vote), ..self }
    }

    /// The node as a follower in a newer term, with its vote free again.
    pub open spec fn as_follower(self, term: u64) -> NodeView {
        NodeView { role: Role::Follower, leader: None, ..self }.with_term_vote(
            term,
            None,
        ).with_new_timeout()
    }

    /// The entry that a proposal of `command` adds.
    pub open spec fn next_entry(self, command: Seq<u8>) -> EntryView {
        EntryView { term: self.term, index: (self.log.last_index() + 1) as u64, command }
    }

    pub open spec fn propose(self, command: Seq<u8>) -> NodeView {
        if self.role != Role::Leader {
            self
        } else {
            let e = self.next_entry(command);
            NodeView {
                log: self.log.appended(e),
                matched: self.matched.update(self.id as int, e.index),
                ..self
            }
        }
    }

    /// Whether a proposal of `command` can be stored.
    pub open spec fn can_propose(self, command: Seq<u8>) -> bool {
        self.role == Role::Leader ==> self.log.takes(self.next_entry(command))
    }

    pub open spec fn append_msg(self, peer: usize) -> Sent {
        let next = self.next[peer as int];
        (
            peer,
            MsgView::AppendEntries {
                term: self.term,
                leader: self.id,
                prev_log_index: (next - 1) as u64,
                prev_log_term: self.log.term_at((next - 1) as u64),
                entries: self.log.entries_from(next),
                leader_commit: self.commit,
            },
        )
    }

    /// What the leader sends to the first `k` members, itself left out.
    pub open spec fn append_msgs(self, k: nat) -> Seq<Sent>
        decreases k,
    {
        if k == 0 {
            Seq::empty()
        } else {
            let before = self.append_msgs((k - 1) as nat);
            if self.peers[k - 1] == self.id {
                before
            } else {
                before.push(self.append_msg(self.peers[k - 1]))
            }
        }
    }

    pub open spec fn broadcast_append(self) -> Seq<Sent> {
        self.append_msgs(self.peers.len())
    }

    pub open spec fn vote_msg(self) -> MsgView {
        MsgView::RequestVote {
            term: self.term,
            candidate: self.id,
            last_log_index: self.log.last_index(),
            last_log_term: self.log.last_term(),
        }
    }

    /// What a candidate sends to the first `k` members, itself left out.
    pub open spec fn vote_msgs(self, k: nat) -> Seq<Sent>
        decreases k,
    {
        if k == 0 {
            Seq::empty()
        } else {
            let before = self.vote_msgs((k - 1) as nat);
            if self.peers[k - 1] == self.id {
                before
            } else {
                before.push((self.peers[k - 1], self.vote_msg()))
            }
        }
    }

    /// The node as the leader of its term.
    pub open spec fn as_leader(self) -> NodeView {
        let last = self.log.last_index();
        NodeView {
            role: Role::Leader,
            leader: Some(self.id),
            next: Seq::new(
                self.next.len(),
                |i: int|
                    if is_member(self.peers, i) {
                        (last + 1) as u64
                    } else {
                        self.next[i]
                    },
            ),
            matched: Seq::new(
                self.matched.len(),
                |i: int|
                    if i == self.id {
                        last
                    } else if is_member(self.peers, i) {
                        0
                    } else {
                        self.matched[i]
                    },
            ),
            elapsed: self.heartbeat,
            ..self
        }
    }

    /// A candidate with a majority of the votes leads.
    pub open spec fn maybe_lead(self) -> (NodeView, Seq<Sent>) {
        if self.role == Role::Candidate && count_set(self.votes) >= self.majority() {
            (self.as_leader(), self.as_leader().broadcast_append())
        } else {
            (self, Seq::empty())
        }
    }

    /// The node as a candidate in the next term, with its own vote.
    pub open spec fn as_candidate(self) -> NodeView {
        NodeView {
            role: Role::Candidate,
            leader: None,
            votes: Seq::new(self.votes.len(), |i: int| i == self.id),
            ..self
        }.with_term_vote((self.term + 1) as u64, Some(self.id)).with_new_timeout()
    }

    pub open spec fn start_election(self) -> (NodeView, Seq<Sent>) {
        let c = self.as_candidate();
        (c.maybe_lead().0, c.vote_msgs(c.peers.len()) + c.maybe_lead().1)
    }

    /// Whether the next tick starts an election.
    pub open spec fn election_due(self) -> bool {
        self.role != Role::Leader && self.elapsed + 1 >= self.timeout
    }

    pub open spec fn tick(self) -> (NodeView, Seq<Sent>) {
        let s = NodeView { elapsed: (self.elapsed + 1) as u64, ..self };
        if self.role == Role::Leader {
            if s.elapsed >= s.heartbeat {
                let t = NodeView { elapsed: 0, ..s };
                (t, t.broadcast_append())
            } else {
                (s, Seq::empty())
            }
        } else if s.elapsed >= s.timeout {
            s.start_election()
        } else {
            (s, Seq::empty())
        }
    }

    /// Whether a log that ends at `(last_log_index, last_log_term)` is at least as up to date.
    pub open spec fn up_to_date(self, last_log_index: u64, last_log_term: u64) -> bool {
        last_log_term > self.log.last_term() || (last_log_term == self.log.last_term()
            && last_log_index >= self.log.last_index())
    }

    /// Whether a vote request of the current term is granted.
    pub open spec fn grants(self, candidate: usize, last_log_index: u64, last_log_term: u64) -> bool {
        (self.vote is None || self.vote == Some(candidate)) && self.up_to_date(
            last_log_index,
            last_log_term,
        )
    }

    pub open spec fn on_request_vote(
        self,
        term: u64,
        candidate: usize,
        last_log_index: u64,
        last_log_term: u64,
    ) -> (NodeView, Seq<Sent>) {
        let granted = term >= self.term && self.grants(candidate, last_log_index, last_log_term);
        (
            if granted {
                self.with_term_vote(self.term, Some(candidate)).with_new_timeout()
            } else {
                self
            },
            seq![(candidate, MsgView::RequestVoteResp { term: self.term, granted })],
        )
    }

    pub open spec fn on_vote_resp(self, from: usize, term: u64, granted: bool) -> (
        NodeView,
        Seq<Sent>,
    ) {
        if self.role != Role::Candidate || term != self.term || !granted {
            (self, Seq::empty())
        } else {
            NodeView { votes: self.votes.update(from as int, true), ..self }.maybe_lead()
        }
    }

    /// Whether the entry before the leader's agrees.
    pub open spec fn agrees_at(self, prev_log_index: u64, prev_log_term: u64) -> bool {
        prev_log_index == 0 || self.log.term_at(prev_log_index) == prev_log_term
    }

    pub open spec fn on_append(
        self,
        term: u64,
        leader: usize,
        prev_log_index: u64,
        prev_log_term: u64,
        entries: Seq<EntryView>,
        leader_commit: u64,
    ) -> (NodeView, Seq<Sent>) {
        if term < self.term {
            (
                self,
                seq![
                    (
                        leader,
                        MsgView::AppendEntriesResp {
                            term: self.term,
                            success: false,
                            match_index: 0,
                        },
                    ),
                ],
            )
        } else {
            let s = NodeView {
                role: Role::Follower,
                leader: Some(leader),
                ..self
            }.with_new_timeout();
            if !self.agrees_at(prev_log_index, prev_log_term) {
                (
                    s,
                    seq![
                        (
                            leader,
                            MsgView::AppendEntriesResp {
                                term: self.term,
                                success: false,
                                match_index: 0,
                            },
                        ),
                    ],
                )
            } else {
                let log = merge(self.log, entries);
                let reached = if entries.len() > 0 && entries.last().index > prev_log_index {
                    entries.last().index
                } else {
                    prev_log_index
                };
                let commit = if leader_commit <= self.commit {
                    self.commit
                } else if leader_commit < log.last_index() {
                    leader_commit
                } else {
                    log.last_index()
                };
                (
                    NodeView { log, commit, ..s },
                    seq![
                        (
                            leader,
                            MsgView::AppendEntriesResp {
                                term: self.term,
                                success: true,
                                match_index: reached,
                            },
                        ),
                    ],
                )
            }
        }
    }

    /// Whether an entry of this term at `index` is on a majority.
    pub open spec fn can_commit(self, index: u64) -> bool {
        self.log.term_at(index) == self.term && count_reached(self.peers, self.matched, index)
            >= self.majority()
    }

    /// The highest index up to `top` that can be committed, or else the present commit index.
    pub open spec fn commit_below(self, top: u64) -> u64
        decreases top,
    {
        if top <= self.commit {
            self.commit
        } else if self.can_commit(top) {
            top
        } else {
            self.commit_below((top - 1) as u64)
        }
    }

    pub open spec fn advance_commit(self) -> NodeView {
        NodeView { commit: self.commit_below(self.log.last_index()), ..self }
    }

    pub open spec fn on_append_resp(
        self,
        from: usize,
        term: u64,
        success: bool,
        match_index: u64,
    ) -> (NodeView, Seq<Sent>) {
        if self.role != Role::Leader || term != self.term {
            (self, Seq::empty())
        } else if success {
            let m = if self.matched[from as int] < match_index {
                match_index
            } else {
                self.matched[from as int]
            };
            (
                NodeView {
                    matched: self.matched.update(from as int, m),
                    next: self.next.update(from as int, (m + 1) as u64),
                    ..self
                }.advance_commit(),
                Seq::empty(),
            )
        } else {
            let back = if self.next[from as int] > 1 {
                (self.next[from as int] - 1) as u64
            } else {
                1
            };
            let s = NodeView { next: self.next.update(from as int, back), ..self };
            (s, seq![s.append_msg(from)])
        }
    }

    /// The node in the term that a message finds it in.
    pub open spec fn seeing(self, term: u64) -> NodeView {
        if term > self.term {
            self.as_follower(term)
        } else {
            self
        }
    }

    pub open spec fn step(self, from: usize, msg: MsgView) -> (NodeView, Seq<Sent>) {
        let s = self.seeing(msg.term());
        match msg {
            MsgView::RequestVote { term, candidate, last_log_index, last_log_term } =>
                s.on_request_vote(term, candidate, last_log_index, last_log_term),
            MsgView::RequestVoteResp { term, granted } => s.on_vote_resp(from, term, granted),
            MsgView::AppendEntries {
                term,
                leader,
                prev_log_index,
                prev_log_term,
                entries,
                leader_commit,
            } => s.on_append(term, leader, prev_log_index, prev_log_term, entries, leader_commit),
            MsgView::AppendEntriesResp { term, success, match_index } => s.on_append_resp(
                from,
                term,
                success,
                match_index,
            ),
        }
    }

    /// Whether a message can be processed: it comes from a member, and its entries leave no gap
    /// in the log.
    pub open spec fn admits(self, from: usize, msg: MsgView) -> bool {
        match msg {
            MsgView::RequestVote { .. } => true,
            MsgView::RequestVoteResp { term, granted } => self.role == Role::Candidate && term
                == self.term && granted ==> from < self.votes.len(),
            MsgView::AppendEntries {
                term,
                leader,
                prev_log_index,
                prev_log_term,
                entries,
                leader_commit,
            } => term >= self.term && self.agrees_at(prev_log_index, prev_log_term)
                ==> mergeable(self.log, entries),
            MsgView::AppendEntriesResp { term, success, match_index } => self.role == Role::Leader
                && term == self.term ==> from < self.votes.len() && (success ==> match_index
                < u64::MAX),
        }
    }

    pub open spec fn take_committed(self) -> NodeView {
        if self.applied < self.commit {
            NodeView { applied: self.commit, ..self }
        } else {
            self
        }
    }

    /// The leader folds away what is applied and on every member, once the live log is longer
    /// than `keep`.
    pub open spec fn maybe_compact(self, keep: usize) -> NodeView {
        if self.role == Role::Leader && self.log.entries.len() > keep {
            NodeView {
                log: self.log.compacted(
                    least_matched(self.peers, self.matched, self.applied),
                ),
                ..self
            }
        } else {
            self
        }
    }
}

/// One more than the largest member index: how many slots the per-member tables have.
pub open spec fn slots(peers: Seq<usize>) -> int
    decreases peers.len(),
{
    if peers.len() == 0 {
        1
    } else {
        let rest = slots(peers.drop_last());
        if peers.last() + 1 > rest {
            peers.last() + 1
        } else {
            rest
        }
    }
}

/// A node as it starts, with the term and vote that its log kept.
pub open spec fn fresh_node(id: usize, peers: Seq<usize>, log: LogView, seed: u64) -> NodeView {
    let n = slots(peers) as nat;
    NodeView {
        id,
        peers,
        role: Role::Follower,
        term: log.term,
        vote: log.vote,
        log,
        commit: 0,
        applied: 0,
        leader: None,
        votes: Seq::new(n, |i: int| false),
        next: Seq::new(n, |i: int| 1u64),
        matched: Seq::new(n, |i: int| 0u64),
        elapsed: 0,
        timeout: 0,
        heartbeat: 1,
        rng: seed.wrapping_mul(RNG_STEP) | 1,
    }.with_new_timeout()
}

pub proof fn lemma_slots_bound(peers: Seq<usize>)
    ensures
        slots(peers) >= 1,
        forall|i: int| 0 <= i < peers.len() ==> (#[trigger] peers[i]) < slots(peers),
    decreases peers.len(),
{
    if peers.len() > 0 {
        lemma_slots_bound(peers.drop_last());
        assert forall|i: int| 0 <= i < peers.len() implies (#[trigger] peers[i]) < slots(
            peers,
        ) by {
            if i < peers.len() - 1 {
                assert(peers.drop_last()[i] == peers[i]);
            }
        }
    }
}

/// Taking over entries keeps the log well formed and leaves everything but the entries and the
/// outstanding writes alone.
pub proof fn lemma_merge_wf(log: LogView, entries: Seq<EntryView>)
    requires
        log.wf(),
        mergeable(log, entries),
    ensures
        merge(log, entries).wf(),
        merge(log, entries).term == log.term,
        merge(log, entries).vote == log.vote,
        merge(log, entries).durable == log.durable,
        merge(log, entries).snapshot_index == log.snapshot_index,
        merge(log, entries).snapshot_term == log.snapshot_term,
    decreases entries.len(),
{
    if entries.len() > 0 {
        lemma_merge_wf(log, entries.drop_last());
        let l = merge(log, entries.drop_last());
        let e = entries.last();
        if !holds(l, e) {
            l.lemma_last_index();
        }
    }
}

/// A single Raft node of one group.
pub struct RaftNode {
    id: NodeId,
    peers: Vec<NodeId>,
    role: Role,
    current_term: u64,
    voted_for: Option<NodeId>,
    log: RaftLog,
    commit_index: u64,
    last_applied: u64,
    leader: Option<NodeId>,
    votes: Vec<bool>,
    next_index: Vec<u64>,
    match_index: Vec<u64>,
    elapsed: u64,
    election_timeout: u64,
    heartbeat_period: u64,
    rng: u64,
}

impl View for RaftNode {
    type V = NodeView;

    closed spec fn view(&self) -> NodeView {
        NodeView {
            id: self.id,
            peers: self.peers@,
            role: self.role,
            term: self.current_term,
            vote: self.voted_for,
            log: self.log@,
            commit: self.commit_index,
            applied: self.last_applied,
            leader: self.leader,
            votes: self.votes@,
            next: self.next_index@,
            matched: self.match_index@,
            elapsed: self.elapsed,
            timeout: self.election_timeout,
            heartbeat: self.heartbeat_period,
            rng: self.rng,
        }
    }
}

impl RaftNode {
    /// A node of the group `peers` (all members, `id` among them). `seed` drives the randomized
    /// election timeout.
    pub fn new(id: NodeId, peers: Vec<NodeId>, log: RaftLog, seed: u64) -> (node: RaftNode)
        requires
            log@.wf(),
            is_member(peers@, id as int),
            forall|i: int| 0 <= i < peers@.len() ==> (#[trigger] peers@[i]) < usize::MAX,
        ensures
            node@ == fresh_node(id, peers@, log@, seed),
            node@.wf(),
    {
        let mut n: usize = 1;
        let mut i: usize = 0;
        while i < peers.len()
            invariant
                i <= peers@.len(),
                n == slots(peers@.take(i as int)),
                forall|i: int| 0 <= i < peers@.len() ==> (#[trigger] peers@[i]) < usize::MAX,
            decreases peers@.len() - i,
        {
            assert(peers@.take(i + 1).drop_last() =~= peers@.take(i as int));
            if peers[i] + 1 > n {
                n = peers[i] + 1;
            }
            i = i + 1;
        }
        assert(peers@.take(i as int) =~= peers@);
        proof {
            lemma_slots_bound(peers@);
        }
        let current_term: u64 = log.persisted_term();
        let voted_for: Option<NodeId> = log.persisted_vote();
        let votes: Vec<bool> = vec![false; n];
        let next_index: Vec<u64> = vec![1; n];
        let match_index: Vec<u64> = vec![0; n];
        assert(votes@ =~= Seq::new(n as nat, |i: int| false));
        assert(next_index@ =~= Seq::new(n as nat, |i: int| 1u64));
        assert(match_index@ =~= Seq::new(n as nat, |i: int| 0u64));
        let mut node = RaftNode {
            id,
            peers,
            role: Role::Follower,
            current_term,
            voted_for,
            log,
            commit_index: 0,
            last_applied: 0,
            leader: None,
            votes,
            next_index,
            match_index,
            elapsed: 0,
            election_timeout: 0,
            heartbeat_period: 1,
            rng: seed.wrapping_mul(RNG_STEP) | 1,
        };
        node.reset_election_timeout();
        node
    }

    pub fn id(&self) -> (r: NodeId)
        ensures
            r == self@.id,
    {
        self.id
    }

    pub fn term(&self) -> (r: u64)
        ensures
            r == self@.term,
    {
        self.current_term
    }

    pub fn is_leader(&self) -> (r: bool)
        ensures
            r == (self@.role == Role::Leader),
    {
        self.role == Role::Leader
    }

    pub fn leader(&self) -> (r: Option<NodeId>)
        ensures
            r == self@.leader,
    {
        self.leader
    }

    pub fn commit_index(&self) -> (r: u64)
        ensures
            r == self@.commit,
    {
        self.commit_index
    }

    pub fn log(&self) -> (r: &RaftLog)
        ensures
            r@ == self@.log,
    {
        &self.log
    }

    /// Hands out the log's writes that are not on disk yet, oldest first. They must be on disk
    /// before any message that was emitted with them is sent.
    pub fn take_writes(&mut self) -> (w: Vec<DiskWrite>)
        requires
            old(self)@.wf(),
        ensures
            views(w@) == old(self)@.log.writes,
            final(self)@ == (NodeView {
                log: LogView { writes: Seq::<DiskWriteView>::empty(), ..old(self)@.log },
                ..old(self)@
            }),
            final(self)@.wf(),
    {
        self.log.take_writes()
    }

    fn majority(&self) -> (m: usize)
        ensures
            m == self@.majority(),
    {
        self.peers.len() / 2 + 1
    }

    fn next_rand(&mut self) -> (r: u64)
        ensures
            final(self)@ == (NodeView { rng: old(self)@.rng.wrapping_add(RNG_STEP), ..old(self)@ }),
            r == splitmix(final(self)@.rng),
    {
        self.rng = self.rng.wrapping_add(RNG_STEP);
        let mut z: u64 = self.rng;
        z = (z ^ (z >> 30)).wrapping_mul(0xBF58_476D_1CE4_E5B9);
        z = (z ^ (z >> 27)).wrapping_mul(0x94D0_49BB_1331_11EB);
        z ^ (z >> 31)
    }

    /// Draws an election timeout in `[base, 2 * base)` ticks, where `base` is ten heartbeat
    /// periods.
    fn reset_election_timeout(&mut self)
        requires
            1 <= old(self)@.heartbeat <= MAX_HEARTBEAT,
        ensures
            final(self)@ == old(self)@.with_new_timeout(),
            final(self)@.timeout < 20 * final(self)@.heartbeat,
    {
        let base: u64 = 10 * self.heartbeat_period;
        let r: u64 = self.next_rand();
        self.election_timeout = base + r % base;
        self.elapsed = 0;
    }

    /// Sets the heartbeat period (ticks). The election timeout is derived from it.
    pub fn set_heartbeat_period(&mut self, ticks: u64)
        requires
            old(self)@.wf(),
            ticks <= MAX_HEARTBEAT,
        ensures
            final(self)@ == (NodeView {
                heartbeat: if ticks == 0 {
                    1
                } else {
                    ticks
                },
                ..old(self)@
            }).with_new_timeout(),
            final(self)@.wf(),
    {
        self.heartbeat_period = if ticks == 0 {
            1
        } else {
            ticks
        };
        self.reset_election_timeout();
    }

    /// Adopts a newer term, reverts to follower and clears the vote.
    fn become_follower(&mut self, term: u64)
        requires
            old(self)@.wf(),
        ensures
            final(self)@ == old(self)@.as_follower(term),
            final(self)@.wf(),
    {
        self.current_term = term;
        self.voted_for = None;
        self.role = Role::Follower;
        self.leader = None;
        self.log.persist_term_vote(self.current_term, self.voted_for);
        self.reset_election_timeout();
    }

    /// Proposes a command (leader only). Returns the index given to it, or `None` if this node is
    /// not the leader.
    pub fn propose(&mut self, command: Vec<u8>) -> (r: Option<u64>)
        requires
            old(self)@.wf(),
            old(self)@.can_propose(command@),
        ensures
            final(self)@ == old(self)@.propose(command@),
            final(self)@.wf(),
            r == (if old(self)@.role == Role::Leader {
                Some((old(self)@.log.last_index() + 1) as u64)
            } else {
                None
            }),
    {
        if self.role != Role::Leader {
            return None;
        }
        let ghost before = self@;
        proof {
            let i = choose|i: int| 0 <= i < self.peers@.len() && self.peers@[i] == self.id;
            assert(self.peers@[i] < self.votes@.len());
        }
        let index: u64 = self.log.last_index() + 1;
        let e = Entry { term: self.current_term, index, command };
        assert(e@ == before.next_entry(command@));
        self.log.append(e);
        self.match_index.set(self.id, index);
        Some(index)
    }

    /// Advances logical time. Emits heartbeats, or the vote requests of a new election.
    pub fn tick(&mut self, out: &mut Vec<(NodeId, RaftMsg)>)
        requires
            old(self)@.wf(),
            old(self)@.election_due() ==> old(self)@.term < u64::MAX,
        ensures
            final(self)@ == old(self)@.tick().0,
            final(self)@.wf(),
            views(final(out)@) == views(old(out)@) + old(self)@.tick().1,
    {
        let ghost before = self@;
        self.elapsed = self.elapsed + 1;
        match self.role {
            Role::Leader => {
                if self.elapsed >= self.heartbeat_period {
                    self.elapsed = 0;
                    self.broadcast_append(out);
                }
            },
            Role::Follower | Role::Candidate => {
                if self.elapsed >= self.election_timeout {
                    self.start_election(out);
                }
            },
        }
        assert(views(out@) =~= views(old(out)@) + before.tick().1);
    }

    fn start_election(&mut self, out: &mut Vec<(NodeId, RaftMsg)>)
        requires
            (NodeView { elapsed: 0, ..old(self)@ }).wf(),
            old(self)@.term < u64::MAX,
        ensures
            final(self)@ == old(self)@.start_election().0,
            final(self)@.wf(),
            views(final(out)@) == views(old(out)@) + old(self)@.start_election().1,
    {
        broadcast use lemma_views_push;

        let ghost before = self@;
        let ghost sent_before = views(out@);
        proof {
            let i = choose|i: int| 0 <= i < self.peers@.len() && self.peers@[i] == self.id;
            assert(self.peers@[i] < self.votes@.len());
        }
        self.current_term = self.current_term + 1;
        self.role = Role::Candidate;
        self.voted_for = Some(self.id);
        self.leader = None;
        self.log.persist_term_vote(self.current_term, self.voted_for);
        let slots: usize = self.votes.len();
        self.votes = vec![false; slots];
        self.votes.set(self.id, true);
        assert(self.votes@ =~= Seq::new(before.votes.len(), |i: int| i == self.id));
        self.reset_election_timeout();
        let ghost c = before.as_candidate();
        assert(self@ == c);
        let last_log_index: u64 = self.log.last_index();
        let last_log_term: u64 = self.log.last_term();
        let mut i: usize = 0;
        while i < self.peers.len()
            invariant
                i <= self.peers@.len(),
                self@ == c,
                last_log_index == c.log.last_index(),
                last_log_term == c.log.last_term(),
                views(out@) =~= sent_before + c.vote_msgs(i as nat),
            decreases self.peers@.len() - i,
        {
            let p: usize = self.peers[i];
            assert(c.peers[i as int] == p && c.id == self.id);
            if p != self.id {
                let m = RaftMsg::RequestVote {
                    term: self.current_term,
                    candidate: self.id,
                    last_log_index,
                    last_log_term,
                };
                let ghost so_far = views(out@);
                assert((p, m)@ == (p, c.vote_msg()));
                out.push((p, m));
                assert(views(out@) =~= so_far.push((p, c.vote_msg())));
            }
            i = i + 1;
        }
        self.maybe_become_leader(out);
        assert(views(out@) =~= sent_before + before.start_election().1);
    }

    /// How many votes this election has brought in.
    fn count_votes(&self) -> (n: usize)
        ensures
            n == count_set(self@.votes),
    {
        let mut n: usize = 0;
        let mut i: usize = 0;
        while i < self.votes.len()
            invariant
                i <= self.votes@.len(),
                n <= i,
                n == count_set(self.votes@.take(i as int)),
            decreases self.votes@.len() - i,
        {
            assert(self.votes@.take(i + 1).drop_last() =~= self.votes@.take(i as int));
            if self.votes[i] {
                n = n + 1;
            }
            i = i + 1;
        }
        assert(self.votes@.take(i as int) =~= self.votes@);
        n
    }

    fn maybe_become_leader(&mut self, out: &mut Vec<(NodeId, RaftMsg)>)
        requires
            old(self)@.wf(),
        ensures
            final(self)@ == old(self)@.maybe_lead().0,
            final(self)@.wf(),
            views(final(out)@) == views(old(out)@) + old(self)@.maybe_lead().1,
    {
        let ghost before = self@;
        let ghost sent_before = views(out@);
        if self.role != Role::Candidate {
            assert(sent_before + Seq::<Sent>::empty() =~= sent_before);
            return;
        }
        if self.count_votes() >= self.majority() {
            self.role = Role::Leader;
            self.leader = Some(self.id);
            let last: u64 = self.log.last_index();
            proof {
                before.log.lemma_last_index();
                let i = choose|i: int| 0 <= i < self.peers@.len() && self.peers@[i] == self.id;
                assert(self.peers@[i] < self.votes@.len());
            }
            let mut i: usize = 0;
            while i < self.peers.len()
                invariant
                    i <= self.peers@.len(),
                    last < u64::MAX,
                    forall|j: int|
                        0 <= j < self.peers@.len() ==> (#[trigger] self.peers@[j])
                            < before.votes.len(),
                    before.votes.len() == before.next.len() == before.matched.len(),
                    self.next_index@ =~= Seq::new(
                        before.next.len(),
                        |j: int|
                            if is_member(self.peers@.take(i as int), j) {
                                (last + 1) as u64
                            } else {
                                before.next[j]
                            },
                    ),
                    self.match_index@ =~= Seq::new(
                        before.matched.len(),
                        |j: int|
                            if is_member(self.peers@.take(i as int), j) {
                                0
                            } else {
                                before.matched[j]
                            },
                    ),
                    self@ == (NodeView {
                        role: Role::Leader,
                        leader: Some(before.id),
                        next: self.next_index@,
                        matched: self.match_index@,
                        ..before
                    }),
                decreases self.peers@.len() - i,
            {
                let p: usize = self.peers[i];
                let ghost done = self.peers@.take(i as int);
                let ghost more = self.peers@.take(i + 1);
                proof {
                    assert(more =~= done.push(p));
                    assert forall|j: int| #[trigger]
                        is_member(more, j) == (is_member(done, j) || j == p) by {
                        if is_member(more, j) {
                            let k = choose|k: int| 0 <= k < more.len() && more[k] == j;
                            if k < done.len() {
                                assert(done[k] == j);
                            }
                        }
                        if is_member(done, j) {
                            let k = choose|k: int| 0 <= k < done.len() && done[k] == j;
                            assert(more[k] == j);
                        }
                        assert(more[done.len() as int] == p);
                    }
                }
                self.next_index.set(p, last + 1);
                self.match_index.set(p, 0);
                i = i + 1;
            }
            assert(self.peers@.take(i as int) =~= self.peers@);
            self.match_index.set(self.id, last);
            self.elapsed = self.heartbeat_period;
            assert(self.next_index@ =~= before.as_leader().next);
            assert(self.match_index@ =~= before.as_leader().matched);
            assert(self@ == before.as_leader());
            self.broadcast_append(out);
        } else {
            assert(sent_before + Seq::<Sent>::empty() =~= sent_before);
        }
    }

    fn broadcast_append(&self, out: &mut Vec<(NodeId, RaftMsg)>)
        requires
            self@.wf(),
        ensures
            views(final(out)@) == views(old(out)@) + self@.broadcast_append(),
    {
        let ghost sent_before = views(out@);
        assert(sent_before + Seq::<Sent>::empty() =~= sent_before);
        let mut i: usize = 0;
        while i < self.peers.len()
            invariant
                i <= self.peers@.len(),
                self@.wf(),
                views(out@) =~= sent_before + self@.append_msgs(i as nat),
            decreases self.peers@.len() - i,
        {
            let p: usize = self.peers[i];
            assert(self.peers@[i as int] < self.votes@.len());
            if p != self.id {
                self.send_append(p, out);
            }
            i = i + 1;
        }
    }

    fn send_append(&self, peer: NodeId, out: &mut Vec<(NodeId, RaftMsg)>)
        requires
            self@.wf(),
            peer < self@.votes.len(),
        ensures
            views(final(out)@) == views(old(out)@).push(self@.append_msg(peer)),
    {
        broadcast use lemma_views_push;

        let next: u64 = self.next_index[peer];
        assert(self@.next[peer as int] >= 1);
        let prev_log_index: u64 = next - 1;
        let prev_log_term: u64 = self.log.term_at(prev_log_index);
        let entries: Vec<Entry> = self.log.entries_from(next);
        let m = RaftMsg::AppendEntries {
            term: self.current_term,
            leader: self.id,
            prev_log_index,
            prev_log_term,
            entries,
            leader_commit: self.commit_index,
        };
        assert((peer, m)@ == self@.append_msg(peer));
        out.push((peer, m));
    }

    /// Whether `step` can process a message: it comes from a member, and its entries leave no gap
    /// in the log.
    pub fn admits(&self, from: NodeId, msg: &RaftMsg) -> (b: bool)
        requires
            self@.wf(),
        ensures
            b == self@.admits(from, msg@),
    {
        match msg {
            RaftMsg::RequestVote { .. } => true,
            RaftMsg::RequestVoteResp { term, granted } => {
                !(self.role == Role::Candidate && *term == self.current_term && *granted) || from
                    < self.votes.len()
            },
            RaftMsg::AppendEntries { term, prev_log_index, prev_log_term, entries, .. } => {
                if *term < self.current_term || !(*prev_log_index == 0 || self.log.term_at(
                    *prev_log_index,
                ) == *prev_log_term) {
                    true
                } else {
                    can_take(&self.log, entries)
                }
            },
            RaftMsg::AppendEntriesResp { term, success, match_index } => {
                !(self.role == Role::Leader && *term == self.current_term) || (from
                    < self.votes.len() && (!*success || *match_index < u64::MAX))
            },
        }
    }

    /// Handles an incoming message. Emits any responses into `out`.
    pub fn step(&mut self, from: NodeId, msg: RaftMsg, out: &mut Vec<(NodeId, RaftMsg)>)
        requires
            old(self)@.wf(),
            old(self)@.admits(from, msg@),
        ensures
            final(self)@ == old(self)@.step(from, msg@).0,
            final(self)@.wf(),
            views(final(out)@) == views(old(out)@) + old(self)@.step(from, msg@).1,
    {
        let ghost before = self@;
        let term: u64 = msg_term(&msg);
        if term > self.current_term {
            self.become_follower(term);
        }
        match msg {
            RaftMsg::RequestVote { term, candidate, last_log_index, last_log_term } => {
                self.on_request_vote(term, candidate, last_log_index, last_log_term, out);
            },
            RaftMsg::RequestVoteResp { term, granted } => {
                self.on_vote_resp(from, term, granted, out);
            },
            RaftMsg::AppendEntries {
                term,
                leader,
                prev_log_index,
                prev_log_term,
                entries,
                leader_commit,
            } => {
                proof {
                    lemma_term_vote_merge(before.log, term, None, views(entries@));
                }
                self.on_append(
                    term,
                    leader,
                    prev_log_index,
                    prev_log_term,
                    entries,
                    leader_commit,
                    out,
                );
            },
            RaftMsg::AppendEntriesResp { term, success, match_index } => {
                self.on_append_resp(from, term, success, match_index, out);
            },
        }
    }

    fn on_request_vote(
        &mut self,
        term: u64,
        candidate: NodeId,
        last_log_index: u64,
        last_log_term: u64,
        out: &mut Vec<(NodeId, RaftMsg)>,
    )
        requires
            old(self)@.wf(),
        ensures
            final(self)@ == old(self)@.on_request_vote(
                term,
                candidate,
                last_log_index,
                last_log_term,
            ).0,
            final(self)@.wf(),
            views(final(out)@) == views(old(out)@) + old(self)@.on_request_vote(
                term,
                candidate,
                last_log_index,
                last_log_term,
            ).1,
    {
        broadcast use lemma_views_push;

        let mut granted: bool = false;
        if term >= self.current_term {
            let can_vote: bool = match self.voted_for {
                None => true,
                Some(v) => v == candidate,
            };
            let up_to_date: bool = last_log_term > self.log.last_term() || (last_log_term
                == self.log.last_term() && last_log_index >= self.log.last_index());
            if can_vote && up_to_date {
                granted = true;
                self.voted_for = Some(candidate);
                self.log.persist_term_vote(self.current_term, self.voted_for);
                self.reset_election_timeout();
            }
        }
        let m = RaftMsg::RequestVoteResp { term: self.current_term, granted };
        out.push((candidate, m));
        assert(views(out@) =~= views(old(out)@) + seq![(candidate, m@)]);
    }

    fn on_vote_resp(
        &mut self,
        from: NodeId,
        term: u64,
        granted: bool,
        out: &mut Vec<(NodeId, RaftMsg)>,
    )
        requires
            old(self)@.wf(),
            old(self)@.admits(from, MsgView::RequestVoteResp { term, granted }),
        ensures
            final(self)@ == old(self)@.on_vote_resp(from, term, granted).0,
            final(self)@.wf(),
            views(final(out)@) == views(old(out)@) + old(self)@.on_vote_resp(
                from,
                term,
                granted,
            ).1,
    {
        assert(views(out@) + Seq::<Sent>::empty() =~= views(out@));
        if self.role != Role::Candidate || term != self.current_term {
            return;
        }
        if granted {
            self.votes.set(from, true);
            self.maybe_become_leader(out);
        }
    }

    fn on_append(
        &mut self,
        term: u64,
        leader: NodeId,
        prev_log_index: u64,
        prev_log_term: u64,
        entries: Vec<Entry>,
        leader_commit: u64,
        out: &mut Vec<(NodeId, RaftMsg)>,
    )
        requires
            old(self)@.wf(),
            term >= old(self)@.term && old(self)@.agrees_at(prev_log_index, prev_log_term)
                ==> mergeable(old(self)@.log, views(entries@)),
        ensures
            final(self)@ == old(self)@.on_append(
                term,
                leader,
                prev_log_index,
                prev_log_term,
                views(entries@),
                leader_commit,
            ).0,
            final(self)@.wf(),
            views(final(out)@) == views(old(out)@) + old(self)@.on_append(
                term,
                leader,
                prev_log_index,
                prev_log_term,
                views(entries@),
                leader_commit,
            ).1,
    {
        broadcast use lemma_views_push;

        let ghost before = self@;
        let mut success: bool = false;
        let mut match_index: u64 = 0;
        if term >= self.current_term {
            self.role = Role::Follower;
            self.leader = Some(leader);
            self.reset_election_timeout();
            if prev_log_index == 0 || self.log.term_at(prev_log_index) == prev_log_term {
                success = true;
                self.take_entries(&entries);
                let n: usize = entries.len();
                match_index = prev_log_index;
                if n > 0 {
                    assert(views(entries@).last() == entries@[n - 1]@);
                    if entries[n - 1].index > match_index {
                        match_index = entries[n - 1].index;
                    }
                }
                if leader_commit > self.commit_index {
                    let last: u64 = self.log.last_index();
                    proof {
                        self.log@.lemma_last_index();
                    }
                    self.commit_index = if leader_commit < last {
                        leader_commit
                    } else {
                        last
                    };
                }
            }
        }
        let m = RaftMsg::AppendEntriesResp { term: self.current_term, success, match_index };
        out.push((leader, m));
        assert(views(out@) =~= views(old(out)@) + seq![(leader, m@)]);
    }

    /// Takes over the leader's entries, truncating on a conflict.
    fn take_entries(&mut self, entries: &Vec<Entry>)
        requires
            old(self)@.wf(),
            mergeable(old(self)@.log, views(entries@)),
        ensures
            final(self)@ == (NodeView {
                log: merge(old(self)@.log, views(entries@)),
                ..old(self)@
            }),
            final(self)@.wf(),
    {
        let ghost before = self@;
        let ghost all = views(entries@);
        let mut i: usize = 0;
        assert(all.take(0) =~= Seq::empty());
        assert(all.take(all.len() as int) =~= all);
        while i < entries.len()
            invariant
                i <= entries@.len(),
                all == views(entries@),
                before.wf(),
                mergeable(before.log, all),
                self@ == (NodeView { log: merge(before.log, all.take(i as int)), ..before }),
                self@.wf(),
            decreases entries@.len() - i,
        {
            proof {
                lemma_mergeable_prefix(before.log, all, i + 1);
                let next = all.take(i + 1);
                assert(next.drop_last() =~= all.take(i as int));
                assert(next.last() == entries@[i as int]@);
                assert(mergeable(before.log, next));
            }
            let index: u64 = entries[i].index;
            let t: u64 = self.log.term_at(index);
            if !(t == entries[i].term && self.log.last_index() >= index) {
                proof {
                    self.log@.lemma_last_index();
                    self.log@.truncated(index).lemma_last_index();
                }
                self.log.truncate_from(index);
                self.log.append(entries[i].duplicate());
            }
            i = i + 1;
        }
        assert(all.take(i as int) =~= all);
    }

    fn on_append_resp(
        &mut self,
        from: NodeId,
        term: u64,
        success: bool,
        match_index: u64,
        out: &mut Vec<(NodeId, RaftMsg)>,
    )
        requires
            old(self)@.wf(),
            old(self)@.admits(from, MsgView::AppendEntriesResp { term, success, match_index }),
        ensures
            final(self)@ == old(self)@.on_append_resp(from, term, success, match_index).0,
            final(self)@.wf(),
            views(final(out)@) == views(old(out)@) + old(self)@.on_append_resp(
                from,
                term,
                success,
                match_index,
            ).1,
    {
        assert(views(out@) + Seq::<Sent>::empty() =~= views(out@));
        if self.role != Role::Leader || term != self.current_term {
            return;
        }
        if success {
            let m: u64 = if self.match_index[from] < match_index {
                match_index
            } else {
                self.match_index[from]
            };
            self.match_index.set(from, m);
            self.next_index.set(from, m + 1);
            self.advance_commit();
        } else {
            let back: u64 = if self.next_index[from] > 1 {
                self.next_index[from] - 1
            } else {
                1
            };
            self.next_index.set(from, back);
            self.send_append(from, out);
            assert(views(out@) =~= views(old(out)@) + seq![self@.append_msg(from)]);
        }
    }

    /// How many members have `index`.
    fn count_replicas(&self, index: u64) -> (n: usize)
        requires
            self@.wf(),
        ensures
            n == count_reached(self@.peers, self@.matched, index),
    {
        let mut n: usize = 0;
        let mut i: usize = 0;
        while i < self.peers.len()
            invariant
                i <= self.peers@.len(),
                n <= i,
                self@.wf(),
                n == count_reached(self.peers@.take(i as int), self.match_index@, index),
            decreases self.peers@.len() - i,
        {
            assert(self.peers@.take(i + 1).drop_last() =~= self.peers@.take(i as int));
            let p: usize = self.peers[i];
            assert(self@.peers[i as int] < self@.votes.len());
            if self.match_index[p] >= index {
                n = n + 1;
            }
            i = i + 1;
        }
        assert(self.peers@.take(i as int) =~= self.peers@);
        n
    }

    /// Advances the commit index to the highest index that is on a majority and whose entry is of
    /// the current term.
    fn advance_commit(&mut self)
        requires
            old(self)@.wf(),
        ensures
            final(self)@ == old(self)@.advance_commit(),
            final(self)@.wf(),
    {
        let ghost before = self@;
        proof {
            before.log.lemma_last_index();
        }
        let mut top: u64 = self.log.last_index();
        while top > self.commit_index
            invariant_except_break
                self@ == before,
                before.wf(),
                top < u64::MAX,
                before.commit_below(top) == before.commit_below(before.log.last_index()),
            ensures
                self@ == before.advance_commit(),
                self@.wf(),
            decreases top,
        {
            if self.log.term_at(top) == self.current_term {
                if self.count_replicas(top) >= self.majority() {
                    self.commit_index = top;
                    break;
                }
            }
            top = top - 1;
        }
    }

    /// Drains the commands that are newly safe to apply, in index order.
    pub fn take_committed(&mut self) -> (out: Vec<(u64, Vec<u8>)>)
        requires
            old(self)@.wf(),
        ensures
            final(self)@ == old(self)@.take_committed(),
            final(self)@.wf(),
            views(out@) == commands_between(
                old(self)@.log,
                old(self)@.applied,
                old(self)@.commit,
            ),
    {
        broadcast use lemma_views_push;

        let ghost before = self@;
        let mut out: Vec<(u64, Vec<u8>)> = Vec::new();
        assert(views(out@) =~= Seq::empty());
        while self.last_applied < self.commit_index
            invariant
                before.wf(),
                before.applied <= self.last_applied,
                before.applied < self.last_applied ==> self.last_applied <= self.commit_index,
                self@ == (NodeView { applied: self.last_applied, ..before }),
                views(out@) == commands_between(before.log, before.applied, self.last_applied),
            decreases self.commit_index - self.last_applied,
        {
            self.last_applied = self.last_applied + 1;
            match self.log.command_at(self.last_applied) {
                Some(cmd) => {
                    let owned: Vec<u8> = crate::bytes::copy_slice(cmd);
                    out.push((self.last_applied, owned));
                },
                None => {},
            }
        }
        proof {
            if before.applied >= before.commit {
                assert(commands_between(before.log, before.applied, before.commit) =~= Seq::empty());
            }
        }
        out
    }

    /// Folds committed entries away once they are applied here and on every member, as far as the
    /// leader knows, and the live log is longer than `keep`.
    pub fn maybe_compact(&mut self, keep: usize)
        requires
            old(self)@.wf(),
        ensures
            final(self)@ == old(self)@.maybe_compact(keep),
            final(self)@.wf(),
    {
        if self.role != Role::Leader || self.log.len() <= keep {
            return;
        }
        let ghost before = self@;
        let mut least: u64 = self.last_applied;
        let mut i: usize = 0;
        while i < self.peers.len()
            invariant
                i <= self.peers@.len(),
                self@ == before,
                before.wf(),
                least == least_matched(self.peers@.take(i as int), self.match_index@, before.applied),
            decreases self.peers@.len() - i,
        {
            assert(self.peers@.take(i + 1).drop_last() =~= self.peers@.take(i as int));
            let p: usize = self.peers[i];
            assert(self@.peers[i as int] < self@.votes.len());
            if self.match_index[p] < least {
                least = self.match_index[p];
            }
            i = i + 1;
        }
        assert(self.peers@.take(i as int) =~= self.peers@);
        self.log.compact(least);
    }
}

/// Whether the entries follow one another, start inside the log or right behind it, and fit.
pub open spec fn orderly(log: LogView, entries: Seq<EntryView>) -> bool {
    entries.len() > 0 ==> {
        &&& log.snapshot_index < entries[0].index <= log.last_index() + 1
        &&& entries[0].index + entries.len() <= u64::MAX
        &&& forall|k: int|
            0 <= k < entries.len() ==> (#[trigger] entries[k]).index == entries[0].index + k
        &&& log.durable ==> forall|k: int|
            0 <= k < entries.len() ==> (#[trigger] entries[k]).command.len() <= MAX_COMMAND
    }
}

/// Entries that follow one another can be taken over, and the log then reaches at least as far.
pub proof fn lemma_orderly_mergeable(log: LogView, entries: Seq<EntryView>)
    requires
        log.wf(),
        orderly(log, entries),
    ensures
        mergeable(log, entries),
        entries.len() > 0 ==> merge(log, entries).last_index() >= entries.last().index,
    decreases entries.len(),
{
    if entries.len() > 0 {
        let init = entries.drop_last();
        let e = entries.last();
        if init.len() > 0 {
            assert(init[0] == entries[0]);
            assert(init.last() == entries[entries.len() - 2]);
            assert forall|k: int| 0 <= k < init.len() implies (#[trigger] init[k]).index
                == init[0].index + k by {
                assert(init[k] == entries[k]);
            }
            if log.durable {
                assert forall|k: int| 0 <= k < init.len() implies (
                #[trigger] init[k]).command.len() <= MAX_COMMAND by {
                    assert(init[k] == entries[k]);
                }
            }
        }
        lemma_orderly_mergeable(log, init);
        lemma_merge_wf(log, init);
        assert(entries[entries.len() - 1] == e);
    }
}

/// Whether the entries can be taken over without a gap.
fn can_take(log: &RaftLog, entries: &Vec<Entry>) -> (b: bool)
    requires
        log@.wf(),
    ensures
        b == mergeable(log@, views(entries@)),
{
    let ghost all = views(entries@);
    if is_orderly(log, entries) {
        proof {
            lemma_orderly_mergeable(log@, all);
        }
        return true;
    }
    let mut trial = log.duplicate();
    let mut i: usize = 0;
    assert(all.take(0) =~= Seq::empty());
    while i < entries.len()
        invariant
            i <= entries@.len(),
            all == views(entries@),
            log@.wf(),
            mergeable(log@, all.take(i as int)),
            trial@ == merge(log@, all.take(i as int)),
            trial@.wf(),
        decreases entries@.len() - i,
    {
        proof {
            let next = all.take(i + 1);
            assert(next.drop_last() =~= all.take(i as int));
            assert(next.last() == entries@[i as int]@);
            if mergeable(log@, all) {
                lemma_mergeable_prefix(log@, all, i + 1);
            }
            trial@.lemma_last_index();
        }
        let index: u64 = entries[i].index;
        let held: bool = trial.term_at(index) == entries[i].term && trial.last_index() >= index;
        if !held {
            if index <= trial.snapshot_index() || index > trial.last_index() + 1 || index
                == u64::MAX || (trial.is_durable() && entries[i].command.len() > MAX_COMMAND) {
                return false;
            }
            proof {
                trial@.truncated(index).lemma_last_index();
            }
            trial.truncate_from(index);
            trial.append(entries[i].duplicate());
        }
        i = i + 1;
    }
    assert(all.take(i as int) =~= all);
    true
}

/// Whether the entries follow one another, start inside the log or right behind it, and fit.
fn is_orderly(log: &RaftLog, entries: &Vec<Entry>) -> (b: bool)
    requires
        log@.wf(),
    ensures
        b == orderly(log@, views(entries@)),
{
    let n: usize = entries.len();
    if n == 0 {
        return true;
    }
    proof {
        log@.lemma_last_index();
    }
    let first: u64 = entries[0].index;
    assert(views(entries@)[0] == entries@[0]@);
    if first <= log.snapshot_index() || first > log.last_index() + 1 || n as u64 > u64::MAX - first {
        return false;
    }
    let durable: bool = log.is_durable();
    let mut i: usize = 0;
    while i < n
        invariant
            i <= n,
            n == entries@.len(),
            0 < n,
            first == views(entries@)[0].index,
            first + n <= u64::MAX,
            durable == log@.durable,
            forall|k: int| 0 <= k < i ==> (#[trigger] views(entries@)[k]).index == first + k,
            durable ==> forall|k: int|
                0 <= k < i ==> (#[trigger] views(entries@)[k]).command.len() <= MAX_COMMAND,
        decreases n - i,
    {
        assert(views(entries@)[i as int] == entries@[i as int]@);
        if entries[i].index != first + i as u64 || (durable && entries[i].command.len()
            > MAX_COMMAND) {
            return false;
        }
        i = i + 1;
    }
    true
}

fn msg_term(m: &RaftMsg) -> (t: u64)
    ensures
        t == m@.term(),
{
    match m {
        RaftMsg::RequestVote { term, .. } => *term,
        RaftMsg::RequestVoteResp { term, .. } => *term,
        RaftMsg::AppendEntries { term, .. } => *term,
        RaftMsg::AppendEntriesResp { term, .. } => *term,
    }
}

/// Every prefix of what can be taken over can be taken over.
proof fn lemma_mergeable_prefix(log: LogView, entries: Seq<EntryView>, k: int)
    requires
        mergeable(log, entries),
        0 <= k <= entries.len(),
    ensures
        mergeable(log, entries.take(k)),
    decreases entries.len(),
{
    if k == entries.len() {
        assert(entries.take(k) =~= entries);
    } else {
        lemma_mergeable_prefix(log, entries.drop_last(), k);
        assert(entries.drop_last().take(k) =~= entries.take(k));
    }
}

/// Whether entries can be taken over does not depend on the persistent term and vote.
pub proof fn lemma_term_vote_merge(
    log: LogView,
    term: u64,
    vote: Option<usize>,
    entries: Seq<EntryView>,
)
    ensures
        mergeable(log, entries) == mergeable(log.with_term_vote(term, vote), entries),
        merge(log, entries).entries == merge(log.with_term_vote(term, vote), entries).entries,
        merge(log, entries).snapshot_index == log.snapshot_index,
        merge(log.with_term_vote(term, vote), entries).snapshot_index == log.snapshot_index,
        merge(log, entries).snapshot_term == log.snapshot_term,
        merge(log.with_term_vote(term, vote), entries).snapshot_term == log.snapshot_term,
        merge(log, entries).durable == log.durable,
        merge(log.with_term_vote(term, vote), entries).durable == log.durable,
    decreases entries.len(),
{
    if entries.len() > 0 {
        lemma_term_vote_merge(log, term, vote, entries.drop_last());
    }
}

} // verus!
