//! CP sessions: a replicated lease registry.
//!
//! A client holds a session (a monotonic id) and heartbeats it; if it stops, the session expires
//! and the resources it held are released. Expiry must be the same on every replica, so it does
//! not read wall-clock time: a logical clock advances by one per committed tick, and a session
//! expires when the clock reaches its deadline.

use vstd::prelude::*;
use crate::bytes::{
    get_i64, i64_at, i64_le, lemma_ints_read_back, lemma_le_digits_len, put_i64,
};
use crate::table::{lemma_map_of_at, Table};

verus! {

/// Advertised session lifetime, in client-facing milliseconds.
pub const TTL_MILLIS: i64 = 30_000;

/// Advertised heartbeat period, in client-facing milliseconds.
pub const HEARTBEAT_MILLIS: i64 = 5_000;

/// Session lifetime in logical ticks (a tick is proposed roughly every second).
pub const TTL_TICKS: i64 = 30;

/// A CP session operation.
#[derive(Clone, Copy, Debug, PartialEq, Eq, Structural)]
pub enum SessOp {
    Create,
    Heartbeat(i64),
    Close(i64),
    /// Advances the logical clock and expires stale sessions.
    Tick,
    GenerateThreadId,
}

pub const TAG_CREATE: u8 = 0;

pub const TAG_HEARTBEAT: u8 = 1;

pub const TAG_CLOSE: u8 = 2;

pub const TAG_TICK: u8 = 3;

pub const TAG_GEN_THREAD: u8 = 4;

/// The command body `[tag][id:i64?]`.
pub open spec fn command_bytes(op: SessOp) -> Seq<u8> {
    match op {
        SessOp::Create => seq![TAG_CREATE],
        SessOp::Heartbeat(id) => seq![TAG_HEARTBEAT] + i64_le(id),
        SessOp::Close(id) => seq![TAG_CLOSE] + i64_le(id),
        SessOp::Tick => seq![TAG_TICK],
        SessOp::GenerateThreadId => seq![TAG_GEN_THREAD],
    }
}

/// What a command body says.
pub open spec fn command_of(b: Seq<u8>) -> Option<SessOp> {
    if b.len() == 0 {
        None
    } else if b[0] == TAG_CREATE {
        Some(SessOp::Create)
    } else if b[0] == TAG_TICK {
        Some(SessOp::Tick)
    } else if b[0] == TAG_GEN_THREAD {
        Some(SessOp::GenerateThreadId)
    } else if b.len() < 9 {
        None
    } else if b[0] == TAG_HEARTBEAT {
        Some(SessOp::Heartbeat(i64_at(b, 1)))
    } else if b[0] == TAG_CLOSE {
        Some(SessOp::Close(i64_at(b, 1)))
    } else {
        None
    }
}

pub fn encode(op: &SessOp) -> (buf: Vec<u8>)
    ensures
        buf@ == command_bytes(*op),
{
    let mut buf: Vec<u8> = Vec::new();
    match *op {
        SessOp::Create => buf.push(TAG_CREATE),
        SessOp::Heartbeat(id) => {
            buf.push(TAG_HEARTBEAT);
            put_i64(&mut buf, id);
        },
        SessOp::Close(id) => {
            buf.push(TAG_CLOSE);
            put_i64(&mut buf, id);
        },
        SessOp::Tick => buf.push(TAG_TICK),
        SessOp::GenerateThreadId => buf.push(TAG_GEN_THREAD),
    }
    assert(buf@ =~= command_bytes(*op));
    buf
}

pub fn decode(body: &[u8]) -> (r: Option<SessOp>)
    ensures
        r == command_of(body@),
{
    if body.len() == 0 {
        return None;
    }
    match body[0] {
        TAG_CREATE => Some(SessOp::Create),
        TAG_TICK => Some(SessOp::Tick),
        TAG_GEN_THREAD => Some(SessOp::GenerateThreadId),
        TAG_HEARTBEAT => if body.len() < 9 {
            None
        } else {
            Some(SessOp::Heartbeat(get_i64(body, 1)))
        },
        TAG_CLOSE => if body.len() < 9 {
            None
        } else {
            Some(SessOp::Close(get_i64(body, 1)))
        },
        _ => None,
    }
}

/// What a [`SessionSm`] holds.
pub struct SessView {
    /// Deadline of each session, in logical ticks.
    pub sessions: Map<i64, i64>,
    pub clock: i64,
    pub next_id: i64,
    pub next_thread_id: i64,
}

impl SessView {
    /// The deadline of a lease that starts now.
    pub open spec fn lease(self) -> i64 {
        self.clock.wrapping_add(TTL_TICKS)
    }

    pub open spec fn create(self) -> SessView {
        let id = self.next_id.wrapping_add(1);
        SessView { sessions: self.sessions.insert(id, self.lease()), next_id: id, ..self }
    }

    pub open spec fn heartbeat(self, id: i64) -> SessView {
        if self.sessions.contains_key(id) {
            SessView { sessions: self.sessions.insert(id, self.lease()), ..self }
        } else {
            self
        }
    }

    pub open spec fn close(self, id: i64) -> SessView {
        SessView { sessions: self.sessions.remove(id), ..self }
    }

    /// Whether the next tick ends session `id`.
    pub open spec fn expires(self, id: i64) -> bool {
        self.sessions.contains_key(id) && self.sessions[id] <= self.clock.wrapping_add(1)
    }

    pub open spec fn tick(self) -> SessView {
        SessView {
            sessions: Map::new(
                |id: i64| self.sessions.contains_key(id) && !self.expires(id),
                |id: i64| self.sessions[id],
            ),
            clock: self.clock.wrapping_add(1),
            ..self
        }
    }

    pub open spec fn generate_thread_id(self) -> SessView {
        SessView { next_thread_id: self.next_thread_id.wrapping_add(1), ..self }
    }

    /// The registry after `n` ticks.
    pub open spec fn ticks(self, n: nat) -> SessView
        decreases n,
    {
        if n == 0 {
            self
        } else {
            self.ticks((n - 1) as nat).tick()
        }
    }
}

/// The replicated session registry.
pub struct SessionSm {
    sessions: Table<i64, i64>,
    clock: i64,
    next_id: i64,
    next_thread_id: i64,
}

impl View for SessionSm {
    type V = SessView;

    closed spec fn view(&self) -> SessView {
        SessView {
            sessions: self.sessions@,
            clock: self.clock,
            next_id: self.next_id,
            next_thread_id: self.next_thread_id,
        }
    }
}

impl Default for SessionSm {
    fn default() -> (s: SessionSm)
        ensures
            s@ == (SessView { sessions: Map::empty(), clock: 0, next_id: 0, next_thread_id: 0 }),
    {
        SessionSm::new()
    }
}

impl SessionSm {
    pub fn new() -> (s: SessionSm)
        ensures
            s@ == (SessView { sessions: Map::empty(), clock: 0, next_id: 0, next_thread_id: 0 }),
    {
        SessionSm { sessions: Table::new(), clock: 0, next_id: 0, next_thread_id: 0 }
    }

    /// Creates a session and returns its id.
    pub fn create(&mut self) -> (id: i64)
        ensures
            final(self)@ == old(self)@.create(),
            id == final(self)@.next_id,
    {
        self.next_id = self.next_id.wrapping_add(1);
        let id: i64 = self.next_id;
        self.sessions.insert(id, self.clock.wrapping_add(TTL_TICKS));
        id
    }

    /// Renews a session's lease; returns whether the session existed.
    pub fn heartbeat(&mut self, id: i64) -> (existed: bool)
        ensures
            final(self)@ == old(self)@.heartbeat(id),
            existed == old(self)@.sessions.contains_key(id),
    {
        if self.sessions.contains(&id) {
            self.sessions.insert(id, self.clock.wrapping_add(TTL_TICKS));
            true
        } else {
            false
        }
    }

    /// Closes a session; returns whether it existed.
    pub fn close(&mut self, id: i64) -> (existed: bool)
        ensures
            final(self)@ == old(self)@.close(id),
            existed == old(self)@.sessions.contains_key(id),
    {
        self.sessions.remove(&id).is_some()
    }

    /// Advances the logical clock one tick and returns the sessions that expired, each once.
    pub fn tick(&mut self) -> (expired: Vec<i64>)
        ensures
            final(self)@ == old(self)@.tick(),
            forall|id: i64| #[trigger] expired@.contains(id) <==> old(self)@.expires(id),
            expired@.no_duplicates(),
    {
        let ghost before = self.sessions@;
        let ghost view = self@;
        self.clock = self.clock.wrapping_add(1);
        let now: i64 = self.clock;
        let mut expired: Vec<i64> = Vec::new();
        let mut n: usize = self.sessions.len();
        let mut i: usize = 0;
        while i < n
            invariant
                i <= n,
                n == self.sessions.pairs().len(),
                view.sessions == before,
                now == view.clock.wrapping_add(1),
                self.clock == now,
                self.next_id == old(self).next_id,
                self.next_thread_id == old(self).next_thread_id,
                forall|j: int| 0 <= j < i ==> (#[trigger] self.sessions.pairs()[j]).1 > now,
                forall|id: i64| #[trigger]
                    self.sessions@.contains_key(id) ==> before.contains_key(id)
                        && self.sessions@[id] == before[id],
                forall|id: i64| #[trigger]
                    before.contains_key(id) ==> self.sessions@.contains_key(id)
                        || expired@.contains(id),
                forall|id: i64| #[trigger]
                    expired@.contains(id) ==> before.contains_key(id) && before[id] <= now
                        && !self.sessions@.contains_key(id),
                expired@.no_duplicates(),
            decreases n - i,
        {
            let ghost pairs = self.sessions.pairs();
            let ghost so_far = expired@;
            let (id, deadline) = self.sessions.pair(i);
            let id: i64 = *id;
            if *deadline <= now {
                assert(!so_far.contains(id));
                self.sessions.remove_at(i);
                expired.push(id);
                proof {
                    assert forall|a: int, b: int| 0 <= a < b < expired@.len() implies expired@[a]
                        != expired@[b] by {
                        if b == so_far.len() {
                            assert(so_far.contains(so_far[a]));
                        } else {
                            assert(so_far[a] != so_far[b]);
                        }
                    }
                    assert forall|j: int| 0 <= j < i implies (
                    #[trigger] self.sessions.pairs()[j]).1 > now by {
                        assert(self.sessions.pairs()[j] == pairs[j]);
                    }
                    assert forall|x: i64| #[trigger] expired@.contains(x) == (so_far.contains(x)
                        || x == id) by {
                        assert(expired@[so_far.len() as int] == id);
                        if so_far.contains(x) {
                            let k = choose|k: int| 0 <= k < so_far.len() && so_far[k] == x;
                            assert(expired@[k] == x);
                        }
                    }
                }
                n = n - 1;
            } else {
                i = i + 1;
            }
        }
        let left: usize = self.sessions.len();
        proof {
            let m = self.sessions@;
            let kept = view.tick().sessions;
            assert forall|id: i64| m.dom().contains(id) implies m[id] > now by {
                let pairs = self.sessions.pairs();
                let j = choose|j: int| 0 <= j < pairs.len() && (#[trigger] pairs[j]).0 == id;
                lemma_map_of_at(pairs, j);
            }
            assert(m =~= kept);
        }
        expired
    }

    /// A fresh thread id.
    pub fn generate_thread_id(&mut self) -> (id: i64)
        ensures
            final(self)@ == old(self)@.generate_thread_id(),
            id == final(self)@.next_thread_id,
    {
        self.next_thread_id = self.next_thread_id.wrapping_add(1);
        self.next_thread_id
    }

    pub fn is_active(&self, id: i64) -> (b: bool)
        ensures
            b == self@.sessions.contains_key(id),
    {
        self.sessions.contains(&id)
    }
}

/// A command decodes to what it was encoded from.
pub proof fn law_commands_read_back(op: SessOp)
    ensures
        command_of(command_bytes(op)) == Some(op),
{
    broadcast use lemma_le_digits_len;

    let b = command_bytes(op);
    match op {
        SessOp::Heartbeat(id) | SessOp::Close(id) => {
            lemma_ints_read_back(0, 0, 0, 0, id);
            assert(b.subrange(1, 9) =~= i64_le(id));
        },
        _ => {},
    }
}

/// Ids are never used twice: a new session's id is greater than every id given before.
pub proof fn law_session_ids_are_fresh(v: SessView)
    requires
        v.next_id < i64::MAX,
        forall|id: i64| #[trigger] v.sessions.contains_key(id) ==> id <= v.next_id,
    ensures
        !v.sessions.contains_key(v.create().next_id),
        v.create().next_id > v.next_id,
        forall|id: i64| #[trigger]
            v.create().sessions.contains_key(id) ==> id <= v.create().next_id,
{
}

/// A session lives until the clock reaches its deadline, and no longer.
pub proof fn law_sessions_expire_at_their_deadline(v: SessView, id: i64, n: nat)
    requires
        v.sessions.contains_key(id),
        v.sessions[id] > v.clock,
        v.clock + n <= i64::MAX,
    ensures
        v.ticks(n).clock == v.clock + n,
        v.ticks(n).sessions.contains_key(id) <==> v.sessions[id] > v.clock + n,
        v.ticks(n).sessions.contains_key(id) ==> v.ticks(n).sessions[id] == v.sessions[id],
    decreases n,
{
    if n > 0 {
        law_sessions_expire_at_their_deadline(v, id, (n - 1) as nat);
    }
}

/// A heartbeat keeps a session through the next ticks of its lifetime; without another one the
/// last tick of the lifetime ends it.
pub proof fn law_heartbeats_renew_the_lease(v: SessView, id: i64, n: nat)
    requires
        v.sessions.contains_key(id),
        v.clock + TTL_TICKS <= i64::MAX,
        n <= TTL_TICKS,
    ensures
        v.heartbeat(id).ticks(n).sessions.contains_key(id) <==> n < TTL_TICKS,
{
    law_sessions_expire_at_their_deadline(v.heartbeat(id), id, n);
}

/// A registry in which ids up to `next_id` were given out.
pub open spec fn given_out(v: SessView) -> bool {
    forall|id: i64| #[trigger] v.sessions.contains_key(id) ==> id <= v.next_id
}

/// A new session is alive through the ticks of its lifetime but the last, and the last ends it;
/// the other sessions keep their deadlines.
pub proof fn law_new_sessions_live_their_lifetime(v: SessView, other: i64, n: nat)
    requires
        given_out(v),
        v.next_id < i64::MAX,
        v.clock + 30 <= i64::MAX,
        n <= 30,
    ensures
        ({
            let s = v.create();
            let id = s.next_id;
            &&& id == v.next_id + 1
            &&& s.sessions.contains_key(id)
            &&& s.ticks(n).sessions.contains_key(id) <==> n < 30
            &&& s.ticks(n).clock == v.clock + n
            &&& other != id ==> s.sessions.contains_key(other) == v.sessions.contains_key(other)
            &&& v.sessions.contains_key(other) ==> s.sessions[other] == v.sessions[other]
        }),
{
    law_sessions_expire_at_their_deadline(v.create(), v.create().next_id, n);
}

/// A heartbeat or a close of a session that is not there changes nothing; a closed session is gone;
/// and neither touches another session.
pub proof fn law_sessions_are_independent(v: SessView, id: i64, other: i64)
    ensures
        !v.sessions.contains_key(id) ==> v.heartbeat(id) == v,
        !v.sessions.contains_key(id) ==> v.close(id).sessions == v.sessions,
        !v.close(id).sessions.contains_key(id),
        v.heartbeat(id).sessions.contains_key(id) == v.sessions.contains_key(id),
        v.heartbeat(id).clock == v.clock && v.close(id).clock == v.clock,
        v.heartbeat(id).next_id == v.next_id && v.close(id).next_id == v.next_id,
        other != id ==> v.heartbeat(id).sessions.contains_key(other) == v.sessions.contains_key(
            other,
        ) && v.close(id).sessions.contains_key(other) == v.sessions.contains_key(other),
        other != id && v.sessions.contains_key(other) ==> v.heartbeat(id).sessions[other]
            == v.sessions[other] && v.close(id).sessions[other] == v.sessions[other],
{
    if !v.sessions.contains_key(id) {
        assert(v.close(id).sessions =~= v.sessions);
    }
}

/// Thread ids count up, and giving one out touches no session.
pub proof fn law_thread_ids_are_fresh(v: SessView)
    requires
        v.next_thread_id < i64::MAX,
    ensures
        v.generate_thread_id().next_thread_id == v.next_thread_id + 1,
        v.generate_thread_id().sessions == v.sessions,
        v.generate_thread_id().clock == v.clock,
        v.generate_thread_id().next_id == v.next_id,
{
}

/// The bytes of commands: a tag, and the session if there is one.
pub proof fn law_command_layout(id: i64)
    ensures
        command_bytes(SessOp::Create) == seq![0u8],
        command_bytes(SessOp::Heartbeat(id)) == seq![1u8] + i64_le(id),
        command_bytes(SessOp::Close(id)) == seq![2u8] + i64_le(id),
        command_bytes(SessOp::Tick) == seq![3u8],
        command_bytes(SessOp::GenerateThreadId) == seq![4u8],
{
}

} // verus!
