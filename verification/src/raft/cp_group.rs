//! One CP group member: a Raft node, the state machines, and the routing of client operations.

use std::collections::HashMap;
use vstd::prelude::*;
use super::cp::{empty_cp, sess_command, tagged, CpSm, CpView, OBJ_SESSION};
use super::cp_wire::{CpMsg, CpMsgView};
use super::log::{DiskWrite, DiskWriteView, LogView, MAX_COMMAND};
use super::node::{commands_between, is_member, NodeId, NodeView, RaftMsg, RaftNode, Role, Sent};
use super::reply::{CpReply, ReplyView};
use super::safety::{commands_of, law_replicas_apply_the_same_commands, Cluster, Event};
use super::session::SessOp;
use crate::bytes::copy_slice;
use crate::model::{lemma_views_push, views};

verus! {

/// Live log entries retained before compaction sets in.
pub const COMPACT_KEEP: usize = 256;

/// Member ticks between two session clock advances that the leader proposes.
pub const SESSION_TICK_INTERVAL: u64 = 1000;

/// A client operation that has committed and is ready to answer the client.
#[derive(Clone, Debug, PartialEq, Eq)]
pub struct Completion {
    pub client: u64,
    pub reply: CpReply,
}

impl View for Completion {
    type V = (u64, ReplyView);

    open spec fn view(&self) -> (u64, ReplyView) {
        (self.client, self.reply@)
    }
}

/// A message to another member: the receiver and the message.
pub type CpSent = (usize, CpMsgView);

/// What a [`CpGroup`] holds.
pub struct GroupView {
    pub id: usize,
    pub raft: NodeView,
    pub sm: CpView,
    /// Client and origin member of each operation proposed here, by log index.
    pub pending: Map<u64, (u64, usize)>,
    /// Operations of local clients that wait until a leader is known.
    pub waiting: Seq<(u64, Seq<u8>)>,
    pub completions: Seq<(u64, ReplyView)>,
    /// Ticks since the last session clock advance.
    pub ticks: u64,
}

/// Raft messages, wrapped for the group.
pub open spec fn wrapped(sent: Seq<Sent>) -> Seq<CpSent> {
    Seq::new(sent.len(), |i: int| (sent[i].0, CpMsgView::Raft(sent[i].1)))
}

/// The command with which the leader advances the session clock.
pub open spec fn session_tick() -> Seq<u8> {
    tagged(OBJ_SESSION, super::session::command_bytes(SessOp::Tick))
}

impl GroupView {
    pub open spec fn wf(self) -> bool {
        &&& self.raft.wf()
        &&& self.id == self.raft.id
        &&& self.ticks < SESSION_TICK_INTERVAL
    }

    /// Routes a command that came in at member `origin`: propose it here if this member leads,
    /// forward it if a leader is known, else keep it if it came in here.
    pub open spec fn route(self, client: u64, origin: usize, command: Seq<u8>) -> (
        GroupView,
        Seq<CpSent>,
    ) {
        if self.raft.role == Role::Leader {
            (
                GroupView {
                    raft: self.raft.propose(command),
                    pending: self.pending.insert(
                        (self.raft.log.last_index() + 1) as u64,
                        (client, origin),
                    ),
                    ..self
                },
                Seq::empty(),
            )
        } else if let Some(leader) = self.raft.leader {
            (self, seq![(leader, CpMsgView::Forward { client, origin, command })])
        } else if origin == self.id {
            (GroupView { waiting: self.waiting.push((client, command)), ..self }, Seq::empty())
        } else {
            (self, Seq::empty())
        }
    }

    /// Routes a list of local operations in order.
    pub open spec fn route_all(self, ops: Seq<(u64, Seq<u8>)>) -> (GroupView, Seq<CpSent>)
        decreases ops.len(),
    {
        if ops.len() == 0 {
            (self, Seq::empty())
        } else {
            let before = self.route_all(ops.drop_last());
            let r = before.0.route(ops.last().0, self.id, ops.last().1);
            (r.0, before.1 + r.1)
        }
    }

    /// Applies one committed command; if it was proposed here, its reply goes to the member where
    /// the client is.
    pub open spec fn apply_one(self, index: u64, command: Seq<u8>) -> (GroupView, Seq<CpSent>) {
        let r = self.sm.applied(command);
        let g = GroupView { sm: r.0, pending: self.pending.remove(index), ..self };
        if !self.pending.contains_key(index) {
            (GroupView { pending: self.pending, ..g }, Seq::empty())
        } else {
            let (client, origin) = self.pending[index];
            if origin == self.id {
                (
                    GroupView { completions: self.completions.push((client, r.1)), ..g },
                    Seq::empty(),
                )
            } else {
                (g, seq![(origin, CpMsgView::Reply { client, reply: r.1 })])
            }
        }
    }

    /// Applies committed commands in order.
    pub open spec fn apply_all(self, commands: Seq<(u64, Seq<u8>)>) -> (GroupView, Seq<CpSent>)
        decreases commands.len(),
    {
        if commands.len() == 0 {
            (self, Seq::empty())
        } else {
            let before = self.apply_all(commands.drop_last());
            let r = before.0.apply_one(commands.last().0, commands.last().1);
            (r.0, before.1 + r.1)
        }
    }

    /// Applies what has newly committed.
    pub open spec fn apply_committed(self) -> (GroupView, Seq<CpSent>) {
        let drained = GroupView { raft: self.raft.take_committed(), ..self };
        drained.apply_all(commands_between(self.raft.log, self.raft.applied, self.raft.commit))
    }

    /// What a message does before newly committed commands are applied.
    pub open spec fn receive(self, from: usize, msg: CpMsgView) -> (GroupView, Seq<CpSent>) {
        match msg {
            CpMsgView::Raft(m) => {
                let r = self.raft.step(from, m);
                (GroupView { raft: r.0, ..self }, wrapped(r.1))
            },
            CpMsgView::Forward { client, origin, command } => self.route(client, origin, command),
            CpMsgView::Reply { client, reply } => (
                GroupView { completions: self.completions.push((client, reply)), ..self },
                Seq::empty(),
            ),
        }
    }

    pub open spec fn step(self, from: usize, msg: CpMsgView) -> (GroupView, Seq<CpSent>) {
        let a = self.receive(from, msg);
        let b = a.0.apply_committed();
        (b.0, a.1 + b.1)
    }

    /// Whether a message can be processed.
    pub open spec fn admits(self, from: usize, msg: CpMsgView) -> bool {
        match msg {
            CpMsgView::Raft(m) => self.raft.admits(from, m),
            CpMsgView::Forward { client, origin, command } => self.raft.can_propose(command),
            CpMsgView::Reply { client, reply } => true,
        }
    }

    /// Routes the operations that waited, once a leader is known.
    pub open spec fn flush_waiting(self) -> (GroupView, Seq<CpSent>) {
        if self.raft.role == Role::Leader || self.raft.leader is Some {
            GroupView { waiting: Seq::empty(), ..self }.route_all(self.waiting)
        } else {
            (self, Seq::empty())
        }
    }

    /// The leader's share in the session clock.
    pub open spec fn session_clock(self) -> GroupView {
        if self.raft.role != Role::Leader {
            self
        } else if self.ticks + 1 >= SESSION_TICK_INTERVAL {
            GroupView { raft: self.raft.propose(session_tick()), ticks: 0, ..self }
        } else {
            GroupView { ticks: (self.ticks + 1) as u64, ..self }
        }
    }

    pub open spec fn tick(self) -> (GroupView, Seq<CpSent>) {
        let r = self.raft.tick();
        let a = GroupView { raft: r.0, ..self }.flush_waiting();
        let b = a.0.session_clock().apply_committed();
        (
            GroupView { raft: b.0.raft.maybe_compact(COMPACT_KEEP), ..b.0 },
            wrapped(r.1) + a.1 + b.1,
        )
    }

    /// Whether there is room in the log for what waits and for a session tick.
    pub open spec fn has_room(self) -> bool {
        &&& self.raft.log.last_index() + self.waiting.len() + 2 < u64::MAX
        &&& self.raft.log.durable ==> forall|i: int|
            0 <= i < self.waiting.len() ==> (#[trigger] self.waiting[i]).1.len() <= MAX_COMMAND
    }
}

/// One CP group member.
pub struct CpGroup {
    id: NodeId,
    raft: RaftNode,
    sm: CpSm,
    pending: HashMap<u64, (u64, NodeId)>,
    waiting: Vec<(u64, Vec<u8>)>,
    completions: Vec<Completion>,
    ticks_since_session: u64,
}

impl View for CpGroup {
    type V = GroupView;

    closed spec fn view(&self) -> GroupView {
        GroupView {
            id: self.id,
            raft: self.raft@,
            sm: self.sm@,
            pending: self.pending@,
            waiting: views(self.waiting@),
            completions: views(self.completions@),
            ticks: self.ticks_since_session,
        }
    }
}

impl CpGroup {
    pub fn new(raft: RaftNode) -> (g: CpGroup)
        requires
            raft@.wf(),
        ensures
            g@ == (GroupView {
                id: raft@.id,
                raft: raft@,
                sm: empty_cp(),
                pending: Map::empty(),
                waiting: Seq::empty(),
                completions: Seq::empty(),
                ticks: 0,
            }),
            g@.wf(),
    {
        broadcast use vstd::std_specs::hash::group_hash_axioms;

        let id: NodeId = raft.id();
        let g = CpGroup {
            id,
            raft,
            sm: CpSm::new(),
            pending: HashMap::new(),
            waiting: Vec::new(),
            completions: Vec::new(),
            ticks_since_session: 0,
        };
        assert(g@.waiting =~= Seq::empty());
        assert(g@.completions =~= Seq::empty());
        g
    }

    pub fn id(&self) -> (r: NodeId)
        ensures
            r == self@.id,
    {
        self.id
    }

    pub fn is_leader(&self) -> (r: bool)
        ensures
            r == (self@.raft.role == Role::Leader),
    {
        self.raft.is_leader()
    }

    pub fn leader(&self) -> (r: Option<NodeId>)
        ensures
            r == self@.raft.leader,
    {
        self.raft.leader()
    }

    pub fn sm(&self) -> (r: &CpSm)
        ensures
            r@ == self@.sm,
    {
        &self.sm
    }

    /// The Raft node of this member.
    pub fn raft(&self) -> (r: &RaftNode)
        ensures
            r@ == self@.raft,
    {
        &self.raft
    }

    /// Whether a command can be proposed here, if it comes to that: there is room in the log.
    pub fn can_submit(&self, command: &Vec<u8>) -> (b: bool)
        requires
            self@.wf(),
        ensures
            b == self@.raft.can_propose(command@),
    {
        proof {
            self@.raft.log.lemma_last_index();
        }
        !self.raft.is_leader() || (self.raft.log().last_index() < u64::MAX - 1
            && !(self.raft.log().is_durable() && command.len() > MAX_COMMAND))
    }

    /// Whether a message can be processed.
    pub fn admits(&self, from: NodeId, msg: &CpMsg) -> (b: bool)
        requires
            self@.wf(),
        ensures
            b == self@.admits(from, msg@),
    {
        match msg {
            CpMsg::Raft(m) => self.raft.admits(from, m),
            CpMsg::Forward { client, origin, command } => self.can_submit(command),
            CpMsg::Reply { client, reply } => true,
        }
    }

    /// Whether there is room in the log for what a tick may add.
    pub fn has_room(&self) -> (b: bool)
        requires
            self@.wf(),
        ensures
            b == self@.has_room(),
    {
        let n: usize = self.waiting.len();
        let last: u64 = self.raft.log().last_index();
        if n as u64 > u64::MAX - 3 || last > u64::MAX - 3 - n as u64 {
            return false;
        }
        if self.raft.log().is_durable() {
            let mut i: usize = 0;
            while i < n
                invariant
                    i <= n,
                    n == self.waiting@.len(),
                    self@.raft.log.durable,
                    forall|j: int|
                        0 <= j < i ==> (#[trigger] self@.waiting[j]).1.len() <= MAX_COMMAND,
                decreases n - i,
            {
                assert(self@.waiting[i as int] == self.waiting@[i as int]@);
                if self.waiting[i].1.len() > MAX_COMMAND {
                    return false;
                }
                i = i + 1;
            }
        }
        true
    }

    /// A client connected to this member submits a command.
    pub fn submit(&mut self, client: u64, command: Vec<u8>, out: &mut Vec<(NodeId, CpMsg)>)
        requires
            old(self)@.wf(),
            old(self)@.raft.can_propose(command@),
        ensures
            final(self)@ == old(self)@.route(client, old(self)@.id, command@).0,
            final(self)@.wf(),
            views(final(out)@) == views(old(out)@) + old(self)@.route(
                client,
                old(self)@.id,
                command@,
            ).1,
    {
        let id: NodeId = self.id;
        self.route(client, id, command, out);
    }

    /// Routes a command that came in at member `origin` to wherever it can be proposed. A
    /// forwarded command for which no leader is known is dropped, so that the origin's timeout
    /// drives progress.
    fn route(
        &mut self,
        client: u64,
        origin: NodeId,
        command: Vec<u8>,
        out: &mut Vec<(NodeId, CpMsg)>,
    )
        requires
            old(self)@.wf(),
            old(self)@.raft.can_propose(command@),
        ensures
            final(self)@ == old(self)@.route(client, origin, command@).0,
            final(self)@.wf(),
            views(final(out)@) == views(old(out)@) + old(self)@.route(
                client,
                origin,
                command@,
            ).1,
    {
        broadcast use {vstd::std_specs::hash::group_hash_axioms, lemma_views_push};

        assert(views(out@) + Seq::<CpSent>::empty() =~= views(out@));
        if self.raft.is_leader() {
            if let Some(index) = self.raft.propose(command) {
                self.pending.insert(index, (client, origin));
            }
        } else if let Some(leader) = self.raft.leader() {
            let m = CpMsg::Forward { client, origin, command };
            let ghost sent = (leader, m)@;
            out.push((leader, m));
            assert(views(out@) =~= views(old(out)@) + seq![sent]);
        } else if origin == self.id {
            let ghost op = (client, command)@;
            let ghost before = self@.waiting;
            self.waiting.push((client, command));
            assert(self@.waiting =~= before.push(op));
        }
    }

    /// Handles an incoming message.
    pub fn step(&mut self, from: NodeId, msg: CpMsg, out: &mut Vec<(NodeId, CpMsg)>)
        requires
            old(self)@.wf(),
            old(self)@.admits(from, msg@),
        ensures
            final(self)@ == old(self)@.step(from, msg@).0,
            final(self)@.wf(),
            views(final(out)@) == views(old(out)@) + old(self)@.step(from, msg@).1,
    {
        let ghost before = self@;
        let ghost a = before.receive(from, msg@);
        assert(views(out@) + Seq::<CpSent>::empty() =~= views(out@));
        match msg {
            CpMsg::Raft(rm) => {
                let mut rout: Vec<(NodeId, RaftMsg)> = Vec::new();
                assert(views(rout@) =~= Seq::empty());
                self.raft.step(from, rm, &mut rout);
                assert(views(rout@) =~= before.raft.step(from, rm@).1);
                wrap_all(rout, out);
            },
            CpMsg::Forward { client, origin, command } => {
                self.route(client, origin, command, out);
            },
            CpMsg::Reply { client, reply } => {
                let c = Completion { client, reply };
                let ghost done = self@.completions;
                self.completions.push(c);
                assert(self@.completions =~= done.push(c@));
            },
        }
        assert(self@ == a.0);
        assert(views(out@) == views(old(out)@) + a.1);
        self.apply_committed(out);
        assert(views(out@) =~= views(old(out)@) + before.step(from, msg@).1);
    }

    /// Advances logical time: drives Raft, flushes buffered operations once a leader exists,
    /// applies newly committed commands, and bounds the log by compaction.
    pub fn tick(&mut self, out: &mut Vec<(NodeId, CpMsg)>)
        requires
            old(self)@.wf(),
            old(self)@.raft.election_due() ==> old(self)@.raft.term < u64::MAX,
            old(self)@.has_room(),
        ensures
            final(self)@ == old(self)@.tick().0,
            final(self)@.wf(),
            views(final(out)@) == views(old(out)@) + old(self)@.tick().1,
    {
        let ghost before = self@;
        let ghost sent0 = views(out@);
        let ghost r = before.raft.tick();
        let mut rout: Vec<(NodeId, RaftMsg)> = Vec::new();
        assert(views(rout@) =~= Seq::empty());
        self.raft.tick(&mut rout);
        assert(views(rout@) =~= r.1);
        proof {
            lemma_tick_keeps_log(before.raft);
        }
        wrap_all(rout, out);
        let ghost g1 = self@;
        let ghost a = g1.flush_waiting();
        assert(g1 == (GroupView { raft: r.0, ..before }));
        let ghost sent1 = views(out@);
        assert(sent1 + Seq::<CpSent>::empty() =~= sent1);
        if self.raft.is_leader() || self.raft.leader().is_some() {
            self.flush_waiting(out);
        }
        assert(self@ == a.0 && views(out@) == sent1 + a.1);
        if self.raft.is_leader() {
            self.ticks_since_session = self.ticks_since_session + 1;
            if self.ticks_since_session >= SESSION_TICK_INTERVAL {
                self.ticks_since_session = 0;
                let command: Vec<u8> = sess_command(&SessOp::Tick);
                assert(command@.len() == 2);
                self.raft.propose(command);
            }
        }
        assert(self@ == a.0.session_clock());
        self.apply_committed(out);
        self.raft.maybe_compact(COMPACT_KEEP);
        assert(views(out@) =~= sent0 + before.tick().1);
    }

    /// Routes the operations that waited for a leader.
    fn flush_waiting(&mut self, out: &mut Vec<(NodeId, CpMsg)>)
        requires
            old(self)@.wf(),
            old(self)@.has_room(),
            old(self)@.raft.role == Role::Leader || old(self)@.raft.leader is Some,
        ensures
            final(self)@ == old(self)@.flush_waiting().0,
            final(self)@.wf(),
            views(final(out)@) == views(old(out)@) + old(self)@.flush_waiting().1,
            final(self)@.raft.log.last_index() + 2 < u64::MAX,
            final(self)@.raft.log.durable == old(self)@.raft.log.durable,
    {
        let ghost before = self@;
        let ghost sent0 = views(out@);
        let mut ops: Vec<(u64, Vec<u8>)> = Vec::new();
        std::mem::swap(&mut ops, &mut self.waiting);
        let ghost all = before.waiting;
        let ghost start = GroupView { waiting: Seq::empty(), ..before };
        assert(views(ops@) == all);
        assert(self@.waiting =~= Seq::empty());
        assert(sent0 + Seq::<CpSent>::empty() =~= sent0);
        let mut i: usize = 0;
        while i < ops.len()
            invariant
                i <= ops@.len(),
                all == views(ops@),
                before.has_room(),
                all == before.waiting,
                self@ == start.route_all(all.take(i as int)).0,
                self@.wf(),
                self@.id == start.id,
                self@.raft.log.last_index() <= before.raft.log.last_index() + i,
                self@.raft.log.durable == before.raft.log.durable,
                views(out@) =~= sent0 + start.route_all(all.take(i as int)).1,
            decreases ops@.len() - i,
        {
            proof {
                let next = all.take(i + 1);
                assert(next.drop_last() =~= all.take(i as int));
                assert(next.last() == ops@[i as int]@);
                assert(all[i as int] == ops@[i as int]@);
                self@.raft.log.lemma_last_index();
            }
            let command: Vec<u8> = copy_slice(ops[i].1.as_slice());
            let id: NodeId = self.id;
            self.route(ops[i].0, id, command, out);
            proof {
                self@.raft.log.lemma_last_index();
            }
            i = i + 1;
        }
        assert(all.take(i as int) =~= all);
    }

    /// Applies committed commands and delivers the replies of pending operations.
    fn apply_committed(&mut self, out: &mut Vec<(NodeId, CpMsg)>)
        requires
            old(self)@.wf(),
        ensures
            final(self)@ == old(self)@.apply_committed().0,
            final(self)@.wf(),
            views(final(out)@) == views(old(out)@) + old(self)@.apply_committed().1,
    {
        let ghost before = self@;
        let ghost sent0 = views(out@);
        let ready: Vec<(u64, Vec<u8>)> = self.raft.take_committed();
        let ghost all = views(ready@);
        let ghost start = GroupView { raft: before.raft.take_committed(), ..before };
        assert(sent0 + Seq::<CpSent>::empty() =~= sent0);
        let mut i: usize = 0;
        while i < ready.len()
            invariant
                i <= ready@.len(),
                all == views(ready@),
                self@ == start.apply_all(all.take(i as int)).0,
                self@.wf(),
                views(out@) =~= sent0 + start.apply_all(all.take(i as int)).1,
            decreases ready@.len() - i,
        {
            proof {
                let next = all.take(i + 1);
                assert(next.drop_last() =~= all.take(i as int));
                assert(next.last() == ready@[i as int]@);
            }
            self.apply_one(ready[i].0, ready[i].1.as_slice(), out);
            i = i + 1;
        }
        assert(all.take(i as int) =~= all);
    }

    fn apply_one(&mut self, index: u64, command: &[u8], out: &mut Vec<(NodeId, CpMsg)>)
        requires
            old(self)@.wf(),
        ensures
            final(self)@ == old(self)@.apply_one(index, command@).0,
            final(self)@.wf(),
            views(final(out)@) == views(old(out)@) + old(self)@.apply_one(index, command@).1,
    {
        broadcast use {vstd::std_specs::hash::group_hash_axioms, lemma_views_push};

        assert(views(out@) + Seq::<CpSent>::empty() =~= views(out@));
        let ghost pending = self.pending@;
        let reply: CpReply = self.sm.apply(command);
        match self.pending.remove(&index) {
            Some((client, origin)) => {
                if origin == self.id {
                    let c = Completion { client, reply };
                    let ghost done = self@.completions;
                    self.completions.push(c);
                    assert(self@.completions =~= done.push(c@));
                } else {
                    let m = CpMsg::Reply { client, reply };
                    let ghost sent = (origin, m)@;
                    out.push((origin, m));
                    assert(views(out@) =~= views(old(out)@) + seq![sent]);
                }
            },
            None => {
                assert(self.pending@ =~= pending);
            },
        }
    }

    /// Drains the client operations that have committed.
    pub fn take_completions(&mut self) -> (r: Vec<Completion>)
        requires
            old(self)@.wf(),
        ensures
            views(r@) == old(self)@.completions,
            final(self)@ == (GroupView {
                completions: Seq::<(u64, ReplyView)>::empty(),
                ..old(self)@
            }),
            final(self)@.wf(),
    {
        let mut r: Vec<Completion> = Vec::new();
        std::mem::swap(&mut r, &mut self.completions);
        assert(self@.completions =~= Seq::empty());
        r
    }

    /// Hands out the log's writes that are not on disk yet, oldest first.
    pub fn take_writes(&mut self) -> (w: Vec<DiskWrite>)
        requires
            old(self)@.wf(),
        ensures
            views(w@) == old(self)@.raft.log.writes,
            final(self)@ == (GroupView {
                raft: NodeView {
                    log: LogView {
                        writes: Seq::<DiskWriteView>::empty(),
                        ..old(self)@.raft.log
                    },
                    ..old(self)@.raft
                },
                ..old(self)@
            }),
            final(self)@.wf(),
    {
        self.raft.take_writes()
    }
}

/// A tick neither adds to the log nor takes from it.
proof fn lemma_tick_keeps_log(n: NodeView)
    ensures
        n.tick().0.log.last_index() == n.log.last_index(),
        n.tick().0.log.durable == n.log.durable,
{
}

fn wrap_all(rout: Vec<(NodeId, RaftMsg)>, out: &mut Vec<(NodeId, CpMsg)>)
    ensures
        views(final(out)@) == views(old(out)@) + wrapped(views(rout@)),
{
    broadcast use lemma_views_push;

    let ghost sent0 = views(out@);
    let ghost all = views(rout@);
    let mut rest = rout;
    let mut kept: Vec<(NodeId, RaftMsg)> = Vec::new();
    while rest.len() > 0
        invariant
            rest@.len() + kept@.len() == all.len(),
            forall|i: int| 0 <= i < rest@.len() ==> (#[trigger] rest@[i])@ == all[i],
            forall|i: int|
                0 <= i < kept@.len() ==> (#[trigger] kept@[i])@ == all[all.len() - 1 - i],
        decreases rest@.len(),
    {
        let ghost n = rest@.len();
        match rest.pop() {
            Some(x) => {
                assert(x@ == all[n - 1]);
                kept.push(x);
            },
            None => {},
        }
    }
    let ghost done: int = 0;
    while kept.len() > 0
        invariant
            0 <= done <= all.len(),
            kept@.len() == all.len() - done,
            forall|i: int|
                0 <= i < kept@.len() ==> (#[trigger] kept@[i])@ == all[all.len() - 1 - i],
            views(out@) =~= sent0 + wrapped(all).take(done),
        decreases kept@.len(),
    {
        match kept.pop() {
            Some((to, m)) => {
                let c = CpMsg::Raft(m);
                assert((to, m)@ == all[done]);
                let ghost so_far = views(out@);
                out.push((to, c));
                assert(views(out@) =~= so_far.push((to, c)@));
                proof {
                    done = done + 1;
                }
            },
            None => {},
        }
    }
    assert(wrapped(all).take(done) =~= wrapped(all));
}

/// What has committed is applied in order and once: the state machines move as the commands say,
/// and nothing stays pending that was answered.
pub proof fn law_commits_reach_the_state_machines(g: GroupView, commands: Seq<(u64, Seq<u8>)>)
    ensures
        g.apply_all(commands).0.sm == g.sm.applied_all(commands),
        g.apply_all(commands).0.raft == g.raft,
        g.apply_all(commands).0.id == g.id,
        forall|i: int|
            0 <= i < commands.len() ==> !g.apply_all(commands).0.pending.contains_key(
                (#[trigger] commands[i]).0,
            ),
        forall|x: u64| #[trigger]
            g.apply_all(commands).0.pending.contains_key(x) ==> g.pending.contains_key(x),
    decreases commands.len(),
{
    if commands.len() > 0 {
        let init = commands.drop_last();
        law_commits_reach_the_state_machines(g, init);
        assert forall|i: int| 0 <= i < commands.len() implies !g.apply_all(
            commands,
        ).0.pending.contains_key((#[trigger] commands[i]).0) by {
            if i < init.len() {
                assert(init[i] == commands[i]);
            }
        }
    }
}

/// Replicas converge: the state machines of two members that have applied the same number of
/// committed commands are in the same state.
pub proof fn law_replicas_converge(
    c: Cluster,
    events: Seq<Event>,
    i: usize,
    j: usize,
    k: u64,
)
    requires
        c.is_initial(),
        c.allows(events),
        is_member(c.members, i as int),
        is_member(c.members, j as int),
        k <= c.after(events).nodes[i].commit,
        k <= c.after(events).nodes[j].commit,
    ensures
        empty_cp().applied_all(commands_of(c.after(events).stored(i).take(k as int)))
            == empty_cp().applied_all(commands_of(c.after(events).stored(j).take(k as int))),
{
    law_replicas_apply_the_same_commands(c, events, i, j, k);
}

/// A command whose proposer is the member where the client is completes that client with the
/// reply of the state machine; for another member a reply is sent there.
pub proof fn law_replies_go_to_the_origin(g: GroupView, index: u64, command: Seq<u8>)
    requires
        g.pending.contains_key(index),
    ensures
        ({
            let (client, origin) = g.pending[index];
            let r = g.apply_one(index, command);
            let reply = g.sm.applied(command).1;
            if origin == g.id {
                r.0.completions == g.completions.push((client, reply)) && r.1.len() == 0
            } else {
                r.0.completions == g.completions && r.1 == seq![
                    (origin, CpMsgView::Reply { client, reply }),
                ]
            }
        }),
{
}

/// An operation goes to the leader: a leader stores its command and remembers whom to answer; a
/// member that knows the leader forwards it there with where it came from; a member that knows none
/// keeps an operation of its own clients until it does.
pub proof fn law_operations_go_to_the_leader(
    g: GroupView,
    client: u64,
    origin: usize,
    command: Seq<u8>,
)
    requires
        g.wf(),
        g.raft.can_propose(command),
    ensures
        ({
            let (h, out) = g.route(client, origin, command);
            let at = (g.raft.log.last_index() + 1) as u64;
            &&& h.sm == g.sm && h.completions == g.completions
            &&& if g.raft.role == Role::Leader {
                &&& h.raft.log.last_index() == at
                &&& h.raft.log.command_at(at) == Some(command)
                &&& h.pending.contains_key(at) && h.pending[at] == (client, origin)
                &&& out.len() == 0
            } else {
                &&& h.raft == g.raft && h.pending == g.pending
                &&& match g.raft.leader {
                    Some(leader) => out == seq![
                        (leader, CpMsgView::Forward { client, origin, command }),
                    ] && h.waiting == g.waiting,
                    None => out.len() == 0 && h.waiting == if origin == g.id {
                        g.waiting.push((client, command))
                    } else {
                        g.waiting
                    },
                }
            }
        }),
{
    super::rules::law_leaders_store_proposals(g.raft, command);
}

/// An operation that the leader stored is answered when it is applied, with what the state machines
/// reply: its own client at once, a client of another member by a reply to that member, which
/// completes it there.
pub proof fn law_operations_are_answered(
    g: GroupView,
    client: u64,
    origin: usize,
    command: Seq<u8>,
    there: GroupView,
)
    requires
        g.wf(),
        g.raft.role == Role::Leader,
        g.raft.can_propose(command),
        there.id == origin,
    ensures
        ({
            let at = (g.raft.log.last_index() + 1) as u64;
            let h = g.route(client, origin, command).0;
            let (k, out) = h.apply_one(at, command);
            let reply = g.sm.applied(command).1;
            &&& k.sm == g.sm.applied(command).0
            &&& !k.pending.contains_key(at)
            &&& origin == g.id ==> k.completions == g.completions.push((client, reply)) && out.len()
                == 0
            &&& origin != g.id ==> k.completions == g.completions && out == seq![
                (origin, CpMsgView::Reply { client, reply }),
            ]
            &&& there.receive(g.id, CpMsgView::Reply { client, reply }).0.completions
                == there.completions.push((client, reply))
        }),
{
}

/// Operations that waited are routed in order once a leader is known, and none waits any more.
pub proof fn law_waiting_operations_are_routed(g: GroupView)
    ensures
        g.raft.role != Role::Leader && g.raft.leader is None ==> g.flush_waiting() == (
            g,
            Seq::<CpSent>::empty(),
        ),
        g.raft.role != Role::Leader ==> (g.raft.leader matches Some(leader) ==> {
            let (h, out) = g.flush_waiting();
            &&& h.waiting.len() == 0
            &&& out.len() == g.waiting.len()
            &&& forall|i: int|
                0 <= i < out.len() ==> #[trigger] out[i] == (
                    leader,
                    CpMsgView::Forward {
                        client: g.waiting[i].0,
                        origin: g.id,
                        command: g.waiting[i].1,
                    },
                )
        }),
{
    if g.raft.role != Role::Leader {
        if let Some(leader) = g.raft.leader {
            let f = GroupView { waiting: Seq::empty(), ..g };
            lemma_forwarded(f, g.waiting, leader);
        }
    }
}

proof fn lemma_forwarded(g: GroupView, ops: Seq<(u64, Seq<u8>)>, leader: usize)
    requires
        g.raft.role != Role::Leader,
        g.raft.leader == Some(leader),
    ensures
        g.route_all(ops).0 == g,
        g.route_all(ops).1.len() == ops.len(),
        forall|i: int|
            0 <= i < ops.len() ==> #[trigger] g.route_all(ops).1[i] == (
                leader,
                CpMsgView::Forward { client: ops[i].0, origin: g.id, command: ops[i].1 },
            ),
    decreases ops.len(),
{
    if ops.len() > 0 {
        let init = ops.drop_last();
        lemma_forwarded(g, init, leader);
        assert forall|i: int| 0 <= i < ops.len() implies #[trigger] g.route_all(ops).1[i] == (
            leader,
            CpMsgView::Forward { client: ops[i].0, origin: g.id, command: ops[i].1 },
        ) by {
            if i < init.len() {
                assert(g.route_all(ops).1[i] == g.route_all(init).1[i]);
                assert(init[i] == ops[i]);
            }
        }
    }
}

/// The leader, and only the leader, moves the session clock on, once in so many ticks.
pub proof fn law_leaders_move_the_session_clock(g: GroupView)
    requires
        g.wf(),
        g.raft.can_propose(session_tick()),
    ensures
        g.raft.role != Role::Leader ==> g.session_clock() == g,
        g.raft.role == Role::Leader && g.ticks + 1 < SESSION_TICK_INTERVAL ==> g.session_clock().raft
            == g.raft && g.session_clock().ticks == g.ticks + 1,
        g.raft.role == Role::Leader && g.ticks + 1 >= SESSION_TICK_INTERVAL ==> {
            let h = g.session_clock();
            let at = (g.raft.log.last_index() + 1) as u64;
            &&& h.ticks == 0
            &&& h.raft.log.command_at(at) == Some(
                seq![5u8] + super::session::command_bytes(SessOp::Tick),
            )
        },
{
    super::rules::law_leaders_store_proposals(g.raft, session_tick());
    assert(session_tick() =~= seq![5u8] + super::session::command_bytes(SessOp::Tick));
}

} // verus!
