//! One member of a CP group: a Raft node, the replicated state machines, and the routing of client
//! operations.
//!
//! A client is connected to some member. That member submits the command here; if it is the leader
//! it proposes directly, otherwise it forwards to the leader. Whichever member proposed records the
//! pending client operation against the assigned log index; when that index commits and applies,
//! the reply goes to the member the client is on, which completes the client.

use vstd::prelude::*;
use vstd::slice::slice_subrange;
use super::atomiclong::{AlOp, AlReply, AtomicLongSm};
use super::atomicref::{ArOp, AtomicReferenceSm};
use super::countdownlatch::{CdlOp, CountDownLatchSm};
use super::cpmap::{CpMapSm, Keyspace, MapOp};
use super::fencedlock::{FencedLockSm, FlOp, LocksView};
use super::semaphore::{SemOp, SemaphoreSm};
use super::session::{SessOp, SessView, SessionSm};
use crate::bytes::put_slice;

pub use super::cp_group::{Completion, CpGroup};
pub use super::cp_wire::{decode_msg, encode_msg, CpMsg, CpMsgView};
pub use super::reply::{CpReply, ReplyView};

verus! {

/// Correlation id of an in-flight client operation.
pub type ClientId = u64;

/// Object-type tags: the first byte of every replicated command selects the state machine.
pub const OBJ_ATOMIC_LONG: u8 = 0;

pub const OBJ_ATOMIC_REF: u8 = 1;

pub const OBJ_COUNTDOWN_LATCH: u8 = 2;

pub const OBJ_SEMAPHORE: u8 = 3;

pub const OBJ_FENCED_LOCK: u8 = 4;

pub const OBJ_SESSION: u8 = 5;

pub const OBJ_CP_MAP: u8 = 6;

/// A command body behind its object tag.
pub open spec fn tagged(tag: u8, body: Seq<u8>) -> Seq<u8> {
    seq![tag] + body
}

fn tag_body(tag: u8, body: Vec<u8>) -> (c: Vec<u8>)
    ensures
        c@ == tagged(tag, body@),
{
    let mut c: Vec<u8> = Vec::new();
    c.push(tag);
    put_slice(&mut c, body.as_slice());
    assert(c@ =~= tagged(tag, body@));
    c
}

/// An AtomicLong command: `[OBJ_ATOMIC_LONG][atomiclong body]`.
pub fn al_command(name: &str, op: &AlOp) -> (c: Vec<u8>)
    ensures
        c@ == tagged(OBJ_ATOMIC_LONG, super::atomiclong::command_bytes(name@, *op)),
{
    tag_body(OBJ_ATOMIC_LONG, super::atomiclong::encode(name, op))
}

/// An AtomicReference command: `[OBJ_ATOMIC_REF][atomicref body]`.
pub fn ar_command(name: &str, op: &ArOp) -> (c: Vec<u8>)
    ensures
        c@ == tagged(OBJ_ATOMIC_REF, super::atomicref::command_bytes(name@, op@)),
{
    tag_body(OBJ_ATOMIC_REF, super::atomicref::encode(name, op))
}

/// A CountDownLatch command: `[OBJ_COUNTDOWN_LATCH][body]`.
pub fn cdl_command(name: &str, op: &CdlOp) -> (c: Vec<u8>)
    ensures
        c@ == tagged(OBJ_COUNTDOWN_LATCH, super::countdownlatch::command_bytes(name@, *op)),
{
    tag_body(OBJ_COUNTDOWN_LATCH, super::countdownlatch::encode(name, op))
}

/// A Semaphore command: `[OBJ_SEMAPHORE][body]`.
pub fn sem_command(name: &str, op: &SemOp) -> (c: Vec<u8>)
    ensures
        c@ == tagged(OBJ_SEMAPHORE, super::semaphore::command_bytes(name@, *op)),
{
    tag_body(OBJ_SEMAPHORE, super::semaphore::encode(name, op))
}

/// A FencedLock command: `[OBJ_FENCED_LOCK][body]`.
pub fn fl_command(name: &str, op: &FlOp) -> (c: Vec<u8>)
    ensures
        c@ == tagged(OBJ_FENCED_LOCK, super::fencedlock::command_bytes(name@, *op)),
{
    tag_body(OBJ_FENCED_LOCK, super::fencedlock::encode(name, op))
}

/// A CPMap command: `[OBJ_CP_MAP][cpmap body]`.
pub fn cm_command(name: &str, op: &MapOp) -> (c: Vec<u8>)
    ensures
        c@ == tagged(OBJ_CP_MAP, super::cpmap::command_bytes(name@, op@)),
{
    tag_body(OBJ_CP_MAP, super::cpmap::encode(name, op))
}

/// A CP-session command: `[OBJ_SESSION][body]`.
pub fn sess_command(op: &SessOp) -> (c: Vec<u8>)
    ensures
        c@ == tagged(OBJ_SESSION, super::session::command_bytes(*op)),
{
    tag_body(OBJ_SESSION, super::session::encode(op))
}

/// What a [`CpSm`] holds.
pub struct CpView {
    pub atomic_long: Map<Seq<char>, i64>,
    pub atomic_ref: Map<Seq<char>, Seq<u8>>,
    pub countdown_latch: Map<Seq<char>, i32>,
    pub semaphore: Map<Seq<char>, i32>,
    pub fenced_lock: LocksView,
    pub sessions: SessView,
    pub cp_map: Map<Seq<char>, Keyspace>,
}

/// State machines to which nothing was applied yet.
pub open spec fn empty_cp() -> CpView {
    CpView {
        atomic_long: Map::empty(),
        atomic_ref: Map::empty(),
        countdown_latch: Map::empty(),
        semaphore: Map::empty(),
        fenced_lock: LocksView { locks: Map::empty(), next_fence: 0 },
        sessions: SessView { sessions: Map::empty(), clock: 0, next_id: 0, next_thread_id: 0 },
        cp_map: Map::empty(),
    }
}

/// The locks without those of every session that the next tick ends.
pub open spec fn without_expired(locks: LocksView, s: SessView) -> LocksView {
    LocksView {
        locks: Map::new(
            |name: Seq<char>|
                locks.locks.contains_key(name) && !s.expires(locks.locks[name].session),
            |name: Seq<char>| locks.locks[name],
        ),
        ..locks
    }
}

impl CpView {
    /// A session operation; a session that ends loses its locks.
    pub open spec fn applied_session(self, body: Seq<u8>) -> (CpView, ReplyView) {
        let s = self.sessions;
        match super::session::command_of(body) {
            None => (self, ReplyView::Nil),
            Some(SessOp::Create) => (
                CpView { sessions: s.create(), ..self },
                ReplyView::Long(s.create().next_id),
            ),
            Some(SessOp::Heartbeat(id)) => (
                CpView { sessions: s.heartbeat(id), ..self },
                ReplyView::Nil,
            ),
            Some(SessOp::Close(id)) => (
                CpView {
                    sessions: s.close(id),
                    fenced_lock: self.fenced_lock.without_session(id),
                    ..self
                },
                ReplyView::Bool(s.sessions.contains_key(id)),
            ),
            Some(SessOp::Tick) => (
                CpView {
                    sessions: s.tick(),
                    fenced_lock: without_expired(self.fenced_lock, s),
                    ..self
                },
                ReplyView::Nil,
            ),
            Some(SessOp::GenerateThreadId) => (
                CpView { sessions: s.generate_thread_id(), ..self },
                ReplyView::Long(s.generate_thread_id().next_thread_id),
            ),
        }
    }

    /// The state machines and the reply after a command; unknown types do nothing.
    pub open spec fn applied(self, command: Seq<u8>) -> (CpView, ReplyView) {
        if command.len() == 0 {
            (self, ReplyView::Nil)
        } else {
            let body = command.skip(1);
            let obj = command[0];
            if obj == OBJ_ATOMIC_LONG {
                let r = super::atomiclong::applied(self.atomic_long, body);
                (
                    CpView { atomic_long: r.0, ..self },
                    match r.1 {
                        AlReply::Long(v) => ReplyView::Long(v),
                        AlReply::Bool(b) => ReplyView::Bool(b),
                        AlReply::Nil => ReplyView::Nil,
                    },
                )
            } else if obj == OBJ_ATOMIC_REF {
                let r = super::atomicref::applied(self.atomic_ref, body);
                (CpView { atomic_ref: r.0, ..self }, r.1)
            } else if obj == OBJ_COUNTDOWN_LATCH {
                let r = super::countdownlatch::applied(self.countdown_latch, body);
                (CpView { countdown_latch: r.0, ..self }, r.1)
            } else if obj == OBJ_SEMAPHORE {
                let r = super::semaphore::applied(self.semaphore, body);
                (CpView { semaphore: r.0, ..self }, r.1)
            } else if obj == OBJ_FENCED_LOCK {
                let r = self.fenced_lock.applied(body);
                (CpView { fenced_lock: r.0, ..self }, r.1)
            } else if obj == OBJ_SESSION {
                self.applied_session(body)
            } else if obj == OBJ_CP_MAP {
                let r = super::cpmap::applied(self.cp_map, body);
                (CpView { cp_map: r.0, ..self }, r.1)
            } else {
                (self, ReplyView::Nil)
            }
        }
    }

    /// The state machines after a series of commands.
    pub open spec fn applied_all(self, commands: Seq<(u64, Seq<u8>)>) -> CpView
        decreases commands.len(),
    {
        if commands.len() == 0 {
            self
        } else {
            self.applied_all(commands.drop_last()).applied(commands.last().1).0
        }
    }
}

/// The replicated CP state machine: a registry that hands an object-tagged command to the state
/// machine of its type.
pub struct CpSm {
    atomic_long: AtomicLongSm,
    atomic_ref: AtomicReferenceSm,
    countdown_latch: CountDownLatchSm,
    semaphore: SemaphoreSm,
    fenced_lock: FencedLockSm,
    sessions: SessionSm,
    cp_map: CpMapSm,
}

impl View for CpSm {
    type V = CpView;

    closed spec fn view(&self) -> CpView {
        CpView {
            atomic_long: self.atomic_long@,
            atomic_ref: self.atomic_ref@,
            countdown_latch: self.countdown_latch@,
            semaphore: self.semaphore@,
            fenced_lock: self.fenced_lock@,
            sessions: self.sessions@,
            cp_map: self.cp_map@,
        }
    }
}

impl Default for CpSm {
    fn default() -> (s: CpSm)
        ensures
            s@ == empty_cp(),
    {
        CpSm::new()
    }
}

impl CpSm {
    pub fn new() -> (s: CpSm)
        ensures
            s@ == empty_cp(),
    {
        CpSm {
            atomic_long: AtomicLongSm::new(),
            atomic_ref: AtomicReferenceSm::new(),
            countdown_latch: CountDownLatchSm::new(),
            semaphore: SemaphoreSm::new(),
            fenced_lock: FencedLockSm::new(),
            sessions: SessionSm::new(),
            cp_map: CpMapSm::new(),
        }
    }

    /// Applies a committed `[obj_type][body]` command; unknown types do nothing.
    pub fn apply(&mut self, command: &[u8]) -> (r: CpReply)
        ensures
            (final(self)@, r@) == old(self)@.applied(command@),
    {
        if command.len() == 0 {
            return CpReply::Nil;
        }
        let body = slice_subrange(command, 1, command.len());
        assert(body@ =~= command@.skip(1));
        match command[0] {
            OBJ_ATOMIC_LONG => match self.atomic_long.apply(body) {
                AlReply::Long(v) => CpReply::Long(v),
                AlReply::Bool(b) => CpReply::Bool(b),
                AlReply::Nil => CpReply::Nil,
            },
            OBJ_ATOMIC_REF => self.atomic_ref.apply(body),
            OBJ_COUNTDOWN_LATCH => self.countdown_latch.apply(body),
            OBJ_SEMAPHORE => self.semaphore.apply(body),
            OBJ_FENCED_LOCK => self.fenced_lock.apply(body),
            OBJ_SESSION => self.apply_session(body),
            OBJ_CP_MAP => self.cp_map.apply(body),
            _ => CpReply::Nil,
        }
    }

    pub fn atomic_long(&self) -> (r: &AtomicLongSm)
        ensures
            r@ == self@.atomic_long,
    {
        &self.atomic_long
    }

    pub fn atomic_ref(&self) -> (r: &AtomicReferenceSm)
        ensures
            r@ == self@.atomic_ref,
    {
        &self.atomic_ref
    }

    pub fn countdown_latch(&self) -> (r: &CountDownLatchSm)
        ensures
            r@ == self@.countdown_latch,
    {
        &self.countdown_latch
    }

    pub fn semaphore(&self) -> (r: &SemaphoreSm)
        ensures
            r@ == self@.semaphore,
    {
        &self.semaphore
    }

    pub fn fenced_lock(&self) -> (r: &FencedLockSm)
        ensures
            r@ == self@.fenced_lock,
    {
        &self.fenced_lock
    }

    pub fn cp_map(&self) -> (r: &CpMapSm)
        ensures
            r@ == self@.cp_map,
    {
        &self.cp_map
    }

    pub fn sessions(&self) -> (r: &SessionSm)
        ensures
            r@ == self@.sessions,
    {
        &self.sessions
    }

    /// Applies a session operation and releases the locks of sessions that end.
    fn apply_session(&mut self, body: &[u8]) -> (r: CpReply)
        ensures
            (final(self)@, r@) == old(self)@.applied_session(body@),
    {
        let op = match super::session::decode(body) {
            Some(op) => op,
            None => {
                return CpReply::Nil;
            },
        };
        match op {
            SessOp::Create => CpReply::Long(self.sessions.create()),
            SessOp::Heartbeat(id) => {
                self.sessions.heartbeat(id);
                CpReply::Nil
            },
            SessOp::Close(id) => {
                let existed: bool = self.sessions.close(id);
                self.fenced_lock.release_session(id);
                CpReply::Bool(existed)
            },
            SessOp::Tick => {
                self.tick_sessions();
                CpReply::Nil
            },
            SessOp::GenerateThreadId => CpReply::Long(self.sessions.generate_thread_id()),
        }
    }

    fn tick_sessions(&mut self)
        ensures
            final(self)@ == (CpView {
                sessions: old(self)@.sessions.tick(),
                fenced_lock: without_expired(old(self)@.fenced_lock, old(self)@.sessions),
                ..old(self)@
            }),
    {
        let ghost before = self@;
        let ghost locks = before.fenced_lock;
        let expired: Vec<i64> = self.sessions.tick();
        let mut i: usize = 0;
        while i < expired.len()
            invariant
                i <= expired@.len(),
                forall|id: i64| #[trigger] expired@.contains(id) <==> before.sessions.expires(id),
                locks == before.fenced_lock,
                self@ == (CpView {
                    sessions: before.sessions.tick(),
                    fenced_lock: self.fenced_lock@,
                    ..before
                }),
                self.fenced_lock@.next_fence == locks.next_fence,
                forall|name: Seq<char>| #[trigger]
                    self.fenced_lock@.locks.contains_key(name) <==> locks.locks.contains_key(name)
                        && !expired@.take(i as int).contains(locks.locks[name].session),
                forall|name: Seq<char>| #[trigger]
                    self.fenced_lock@.locks.contains_key(name) ==> self.fenced_lock@.locks[name]
                        == locks.locks[name],
            decreases expired@.len() - i,
        {
            let id: i64 = expired[i];
            let ghost done = expired@.take(i as int);
            let ghost more = expired@.take(i + 1);
            let ghost cur = self.fenced_lock@.locks;
            self.fenced_lock.release_session(id);
            proof {
                assert(more =~= done.push(id));
                assert forall|x: i64| #[trigger] more.contains(x) == (done.contains(x) || x
                    == id) by {
                    assert(more[done.len() as int] == id);
                    if done.contains(x) {
                        let k = choose|k: int| 0 <= k < done.len() && done[k] == x;
                        assert(more[k] == x);
                    }
                }
                let next = self.fenced_lock@.locks;
                assert forall|name: Seq<char>| #[trigger]
                    next.contains_key(name) <==> locks.locks.contains_key(name) && !more.contains(
                        locks.locks[name].session,
                    ) by {
                    assert(next.contains_key(name) <==> cur.contains_key(name)
                        && cur[name].session != id);
                }
            }
            i = i + 1;
        }
        proof {
            assert(expired@.take(i as int) =~= expired@);
            assert(self.fenced_lock@.locks =~= without_expired(locks, before.sessions).locks);
        }
    }
}

/// Replicas that apply the same commands hold the same state and give the same replies; a series
/// of commands can be applied in pieces.
pub proof fn law_apply_in_pieces(
    v: CpView,
    a: Seq<(u64, Seq<u8>)>,
    b: Seq<(u64, Seq<u8>)>,
)
    ensures
        v.applied_all(a + b) == v.applied_all(a).applied_all(b),
    decreases b.len(),
{
    if b.len() == 0 {
        assert(a + b =~= a);
    } else {
        law_apply_in_pieces(v, a, b.drop_last());
        assert((a + b).drop_last() =~= a + b.drop_last());
    }
}

/// When a session closes or expires, no lock of it is left; the locks of live sessions stay.
pub proof fn law_ended_sessions_lose_their_locks(v: CpView, name: Seq<char>)
    ensures
        ({
            let after = v.applied(
                tagged(OBJ_SESSION, super::session::command_bytes(SessOp::Tick)),
            ).0;
            &&& after.fenced_lock.locks.contains_key(name) ==> !v.sessions.expires(
                after.fenced_lock.locks[name].session,
            )
            &&& v.fenced_lock.locks.contains_key(name) && !v.sessions.expires(
                v.fenced_lock.locks[name].session,
            ) ==> after.fenced_lock.locks.contains_key(name) && after.fenced_lock.locks[name]
                == v.fenced_lock.locks[name]
        }),
{
    let body = super::session::command_bytes(SessOp::Tick);
    super::session::law_commands_read_back(SessOp::Tick);
    assert(tagged(OBJ_SESSION, body).skip(1) =~= body);
}

/// A command changes only the state machine that its tag names, but for a session command, which
/// may also release locks.
pub proof fn law_objects_are_independent(v: CpView, command: Seq<u8>)
    ensures
        ({
            let after = v.applied(command).0;
            let tag = if command.len() > 0 {
                command[0]
            } else {
                OBJ_CP_MAP
            };
            &&& tag != OBJ_ATOMIC_LONG ==> after.atomic_long == v.atomic_long
            &&& tag != OBJ_ATOMIC_REF ==> after.atomic_ref == v.atomic_ref
            &&& tag != OBJ_COUNTDOWN_LATCH ==> after.countdown_latch == v.countdown_latch
            &&& tag != OBJ_SEMAPHORE ==> after.semaphore == v.semaphore
            &&& tag != OBJ_FENCED_LOCK && tag != OBJ_SESSION ==> after.fenced_lock
                == v.fenced_lock
            &&& tag != OBJ_SESSION ==> after.sessions == v.sessions
            &&& tag != OBJ_CP_MAP ==> after.cp_map == v.cp_map
        }),
{
}

/// A command reaches the state machine of the object that its first byte names, which alone
/// answers it.
pub proof fn law_commands_reach_their_object(v: CpView, body: Seq<u8>)
    ensures
        ({
            let r = super::atomiclong::applied(v.atomic_long, body);
            let s = v.applied(seq![0u8] + body);
            &&& s.0.atomic_long == r.0
            &&& match r.1 {
                AlReply::Long(n) => s.1 == ReplyView::Long(n),
                AlReply::Bool(b) => s.1 == ReplyView::Bool(b),
                AlReply::Nil => s.1 == ReplyView::Nil,
            }
        }),
        ({
            let r = super::atomicref::applied(v.atomic_ref, body);
            let s = v.applied(seq![1u8] + body);
            s.0.atomic_ref == r.0 && s.1 == r.1
        }),
        ({
            let r = super::countdownlatch::applied(v.countdown_latch, body);
            let s = v.applied(seq![2u8] + body);
            s.0.countdown_latch == r.0 && s.1 == r.1
        }),
        ({
            let r = super::semaphore::applied(v.semaphore, body);
            let s = v.applied(seq![3u8] + body);
            s.0.semaphore == r.0 && s.1 == r.1
        }),
        ({
            let r = v.fenced_lock.applied(body);
            let s = v.applied(seq![4u8] + body);
            s.0.fenced_lock == r.0 && s.1 == r.1
        }),
        ({
            let r = super::cpmap::applied(v.cp_map, body);
            let s = v.applied(seq![6u8] + body);
            s.0.cp_map == r.0 && s.1 == r.1
        }),
{
    assert((seq![0u8] + body).skip(1) =~= body);
    assert((seq![1u8] + body).skip(1) =~= body);
    assert((seq![2u8] + body).skip(1) =~= body);
    assert((seq![3u8] + body).skip(1) =~= body);
    assert((seq![4u8] + body).skip(1) =~= body);
    assert((seq![6u8] + body).skip(1) =~= body);
}

/// What session commands reply and do: creating replies a fresh id that is then alive; a heartbeat
/// and a tick reply nothing; closing says whether the session was alive, and it then is not, and
/// holds no lock; a thread id is fresh.
pub proof fn law_session_commands(v: CpView, id: i64, name: Seq<char>)
    requires
        super::session::given_out(v.sessions),
        v.sessions.next_id < i64::MAX,
        v.sessions.next_thread_id < i64::MAX,
    ensures
        ({
            let s = v.applied(seq![5u8] + super::session::command_bytes(SessOp::Create));
            let new = (v.sessions.next_id + 1) as i64;
            &&& s.1 == ReplyView::Long(new)
            &&& !v.sessions.sessions.contains_key(new)
            &&& s.0.sessions.sessions.contains_key(new)
            &&& s.0.fenced_lock == v.fenced_lock
        }),
        ({
            let s = v.applied(seq![5u8] + super::session::command_bytes(SessOp::Heartbeat(id)));
            &&& s.1 == ReplyView::Nil
            &&& s.0.sessions.sessions.contains_key(id) == v.sessions.sessions.contains_key(id)
            &&& s.0.fenced_lock == v.fenced_lock
        }),
        ({
            let s = v.applied(seq![5u8] + super::session::command_bytes(SessOp::Close(id)));
            let locks = s.0.fenced_lock.locks;
            &&& s.1 == ReplyView::Bool(v.sessions.sessions.contains_key(id))
            &&& !s.0.sessions.sessions.contains_key(id)
            &&& locks.contains_key(name) <==> v.fenced_lock.locks.contains_key(name)
                && v.fenced_lock.locks[name].session != id
            &&& locks.contains_key(name) ==> locks[name] == v.fenced_lock.locks[name]
        }),
        ({
            let s = v.applied(seq![5u8] + super::session::command_bytes(SessOp::Tick));
            &&& s.1 == ReplyView::Nil
            &&& v.sessions.clock < i64::MAX ==> s.0.sessions.clock == v.sessions.clock + 1
        }),
        ({
            let s = v.applied(seq![5u8] + super::session::command_bytes(SessOp::GenerateThreadId));
            &&& s.1 == ReplyView::Long((v.sessions.next_thread_id + 1) as i64)
            &&& s.0.sessions.sessions == v.sessions.sessions
        }),
{
    let create = super::session::command_bytes(SessOp::Create);
    let heartbeat = super::session::command_bytes(SessOp::Heartbeat(id));
    let close = super::session::command_bytes(SessOp::Close(id));
    let tick = super::session::command_bytes(SessOp::Tick);
    let thread = super::session::command_bytes(SessOp::GenerateThreadId);
    super::session::law_commands_read_back(SessOp::Create);
    super::session::law_commands_read_back(SessOp::Heartbeat(id));
    super::session::law_commands_read_back(SessOp::Close(id));
    super::session::law_commands_read_back(SessOp::Tick);
    super::session::law_commands_read_back(SessOp::GenerateThreadId);
    assert((seq![5u8] + create).skip(1) =~= create);
    assert((seq![5u8] + heartbeat).skip(1) =~= heartbeat);
    assert((seq![5u8] + close).skip(1) =~= close);
    assert((seq![5u8] + tick).skip(1) =~= tick);
    assert((seq![5u8] + thread).skip(1) =~= thread);
}

} // verus!
