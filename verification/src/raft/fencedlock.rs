//! `FencedLock` as a deterministic replicated state machine: mutual exclusion with a monotonic
//! fencing token.
//!
//! Each acquisition of a free lock returns a strictly greater fence, so a client that stalls and
//! loses the lock can be fenced off by comparing tokens. The lock is reentrant for the same
//! `(session, thread)` owner and does not block: it fails at once if another owner holds it.

use vstd::prelude::*;
use vstd::slice::slice_subrange;
use vstd::utf8::encode_utf8;
use super::reply::{CpReply, ReplyView};
use crate::bytes::{
    get_i64, i64_at, i64_le, lemma_ints_read_back, lemma_le_digits_len, put_i64, put_slice,
};
use crate::table::{lemma_map_of_at, Table};
use crate::text::{lemma_text_reads_back, parse_text, text_bytes, text_of};

verus! {

/// A FencedLock operation, identified by its `(session, thread)` owner.
#[derive(Clone, Copy, Debug, PartialEq, Eq, Structural)]
pub enum FlOp {
    Lock { session: i64, thread: i64 },
    TryLock { session: i64, thread: i64 },
    Unlock { session: i64, thread: i64 },
}

pub const TAG_LOCK: u8 = 0;

pub const TAG_TRY_LOCK: u8 = 1;

pub const TAG_UNLOCK: u8 = 2;

/// The tag, session and thread of an op.
pub open spec fn op_fields(op: FlOp) -> (u8, i64, i64) {
    match op {
        FlOp::Lock { session, thread } => (TAG_LOCK, session, thread),
        FlOp::TryLock { session, thread } => (TAG_TRY_LOCK, session, thread),
        FlOp::Unlock { session, thread } => (TAG_UNLOCK, session, thread),
    }
}

pub open spec fn op_of_fields(tag: u8, session: i64, thread: i64) -> Option<FlOp> {
    if tag == TAG_LOCK {
        Some(FlOp::Lock { session, thread })
    } else if tag == TAG_TRY_LOCK {
        Some(FlOp::TryLock { session, thread })
    } else if tag == TAG_UNLOCK {
        Some(FlOp::Unlock { session, thread })
    } else {
        None
    }
}

/// The command `[tag][session:i64][thread:i64][name]`.
pub open spec fn command_bytes(name: Seq<char>, op: FlOp) -> Seq<u8> {
    let (tag, session, thread) = op_fields(op);
    seq![tag] + i64_le(session) + i64_le(thread) + encode_utf8(name)
}

/// What a command says.
pub open spec fn command_of(b: Seq<u8>) -> Option<(Seq<char>, FlOp)> {
    if b.len() < 17 {
        None
    } else {
        match (text_of(b.skip(17)), op_of_fields(b[0], i64_at(b, 1), i64_at(b, 9))) {
            (Some(name), Some(op)) => Some((name, op)),
            _ => None,
        }
    }
}

/// A held lock: its fence, its owner, and how often the owner took it.
#[derive(Clone, Copy, Debug, PartialEq, Eq, Structural)]
pub struct LockState {
    pub fence: i64,
    pub session: i64,
    pub thread: i64,
    pub count: i32,
}

impl View for LockState {
    type V = LockState;

    open spec fn view(&self) -> LockState {
        *self
    }
}

/// What a [`FencedLockSm`] holds.
pub struct LocksView {
    pub locks: Map<Seq<char>, LockState>,
    /// Group-wide source of fences.
    pub next_fence: i64,
}

impl LocksView {
    pub open spec fn is_locked(self, name: Seq<char>) -> bool {
        self.locks.contains_key(name) && self.locks[name].count > 0
    }

    pub open spec fn is_held_by(self, name: Seq<char>, session: i64, thread: i64) -> bool {
        self.is_locked(name) && self.locks[name].session == session && self.locks[name].thread
            == thread
    }

    pub open spec fn fence(self, name: Seq<char>) -> i64 {
        if self.locks.contains_key(name) {
            self.locks[name].fence
        } else {
            0
        }
    }

    /// Acquire or reenter: the locks and the fence, 0 if another owner holds the lock.
    pub open spec fn acquire(self, name: Seq<char>, session: i64, thread: i64) -> (LocksView, i64) {
        if self.is_locked(name) {
            let l = self.locks[name];
            if l.session == session && l.thread == thread {
                let again = LockState { count: l.count.wrapping_add(1), ..l };
                (LocksView { locks: self.locks.insert(name, again), ..self }, l.fence)
            } else {
                (self, 0)
            }
        } else {
            let fence = self.next_fence.wrapping_add(1);
            let l = LockState { fence, session, thread, count: 1 };
            (LocksView { locks: self.locks.insert(name, l), next_fence: fence }, fence)
        }
    }

    /// Release one hold: the locks, and whether this owner held it.
    pub open spec fn release(self, name: Seq<char>, session: i64, thread: i64) -> (
        LocksView,
        bool,
    ) {
        if self.is_held_by(name, session, thread) {
            let l = self.locks[name];
            if l.count == 1 {
                (LocksView { locks: self.locks.remove(name), ..self }, true)
            } else {
                let less = LockState { count: (l.count - 1) as i32, ..l };
                (LocksView { locks: self.locks.insert(name, less), ..self }, true)
            }
        } else {
            (self, false)
        }
    }

    /// The locks without those of one session.
    pub open spec fn without_session(self, session: i64) -> LocksView {
        LocksView {
            locks: Map::new(
                |name: Seq<char>|
                    self.locks.contains_key(name) && self.locks[name].session != session,
                |name: Seq<char>| self.locks[name],
            ),
            ..self
        }
    }

    /// The locks and the reply after a command; an unknown command does nothing.
    pub open spec fn applied(self, body: Seq<u8>) -> (LocksView, ReplyView) {
        match command_of(body) {
            None => (self, ReplyView::Nil),
            Some((name, FlOp::Unlock { session, thread })) => {
                let r = self.release(name, session, thread);
                (r.0, ReplyView::Bool(r.1))
            },
            Some((name, FlOp::Lock { session, thread })) => {
                let r = self.acquire(name, session, thread);
                (r.0, ReplyView::Long(r.1))
            },
            Some((name, FlOp::TryLock { session, thread })) => {
                let r = self.acquire(name, session, thread);
                (r.0, ReplyView::Long(r.1))
            },
        }
    }

    /// Every stored lock is held, with a fence that was given out.
    pub open spec fn sound(self) -> bool {
        &&& self.next_fence >= 0
        &&& forall|name: Seq<char>| #[trigger]
            self.locks.contains_key(name) ==> self.locks[name].count > 0 && 0
                < self.locks[name].fence <= self.next_fence
    }
}

pub fn encode(name: &str, op: &FlOp) -> (buf: Vec<u8>)
    ensures
        buf@ == command_bytes(name@, *op),
{
    let (tag, session, thread): (u8, i64, i64) = match *op {
        FlOp::Lock { session, thread } => (TAG_LOCK, session, thread),
        FlOp::TryLock { session, thread } => (TAG_TRY_LOCK, session, thread),
        FlOp::Unlock { session, thread } => (TAG_UNLOCK, session, thread),
    };
    let mut buf: Vec<u8> = Vec::new();
    buf.push(tag);
    put_i64(&mut buf, session);
    put_i64(&mut buf, thread);
    put_slice(&mut buf, text_bytes(name));
    assert(buf@ =~= command_bytes(name@, *op));
    buf
}

pub fn decode(body: &[u8]) -> (r: Option<(String, FlOp)>)
    ensures
        match r {
            Some((name, op)) => command_of(body@) == Some((name@, op)),
            None => command_of(body@) is None,
        },
{
    if body.len() < 17 {
        return None;
    }
    let session: i64 = get_i64(body, 1);
    let thread: i64 = get_i64(body, 9);
    let op = match body[0] {
        TAG_LOCK => FlOp::Lock { session, thread },
        TAG_TRY_LOCK => FlOp::TryLock { session, thread },
        TAG_UNLOCK => FlOp::Unlock { session, thread },
        _ => {
            return None;
        },
    };
    let tail = slice_subrange(body, 17, body.len());
    assert(tail@ =~= body@.skip(17));
    match parse_text(tail) {
        Some(name) => Some((name, op)),
        None => None,
    }
}

/// The replicated FencedLock state machine.
pub struct FencedLockSm {
    locks: Table<String, LockState>,
    next_fence: i64,
}

impl View for FencedLockSm {
    type V = LocksView;

    closed spec fn view(&self) -> LocksView {
        LocksView { locks: self.locks@, next_fence: self.next_fence }
    }
}

impl Default for FencedLockSm {
    fn default() -> (s: FencedLockSm)
        ensures
            s@ == (LocksView { locks: Map::empty(), next_fence: 0 }),
    {
        FencedLockSm::new()
    }
}

impl FencedLockSm {
    pub fn new() -> (s: FencedLockSm)
        ensures
            s@ == (LocksView { locks: Map::empty(), next_fence: 0 }),
    {
        FencedLockSm { locks: Table::new(), next_fence: 0 }
    }

    /// Applies a committed command. Unknown commands do nothing.
    pub fn apply(&mut self, body: &[u8]) -> (r: CpReply)
        ensures
            (final(self)@, r@) == old(self)@.applied(body@),
    {
        match decode(body) {
            None => CpReply::Nil,
            Some((name, op)) => match op {
                FlOp::Lock { session, thread } => CpReply::Long(
                    self.acquire(name, session, thread),
                ),
                FlOp::TryLock { session, thread } => CpReply::Long(
                    self.acquire(name, session, thread),
                ),
                FlOp::Unlock { session, thread } => CpReply::Bool(
                    self.release(name, session, thread),
                ),
            },
        }
    }

    /// Acquires or reenters. Returns the fence, or 0 if another owner holds the lock.
    fn acquire(&mut self, name: String, session: i64, thread: i64) -> (fence: i64)
        ensures
            (final(self)@, fence) == old(self)@.acquire(name@, session, thread),
    {
        let held: Option<LockState> = match self.locks.get(&name) {
            Some(l) => if l.count > 0 {
                Some(*l)
            } else {
                None
            },
            None => None,
        };
        match held {
            Some(l) => {
                if l.session == session && l.thread == thread {
                    self.locks.insert(name, LockState { count: l.count.wrapping_add(1), ..l });
                    l.fence
                } else {
                    0
                }
            },
            None => {
                self.next_fence = self.next_fence.wrapping_add(1);
                self.locks.insert(
                    name,
                    LockState { fence: self.next_fence, session, thread, count: 1 },
                );
                self.next_fence
            },
        }
    }

    /// Releases one hold. Returns whether this owner held the lock.
    fn release(&mut self, name: String, session: i64, thread: i64) -> (held: bool)
        ensures
            (final(self)@, held) == old(self)@.release(name@, session, thread),
    {
        let l: LockState = match self.locks.get(&name) {
            Some(l) => *l,
            None => {
                return false;
            },
        };
        if l.count > 0 && l.session == session && l.thread == thread {
            if l.count == 1 {
                self.locks.remove(&name);
            } else {
                self.locks.insert(name, LockState { count: l.count - 1, ..l });
            }
            true
        } else {
            false
        }
    }

    /// Releases every lock of an expired or closed session.
    pub fn release_session(&mut self, session: i64)
        ensures
            final(self)@ == old(self)@.without_session(session),
    {
        let ghost before = self.locks@;
        let mut n: usize = self.locks.len();
        let mut i: usize = 0;
        while i < n
            invariant
                i <= n,
                n == self.locks.pairs().len(),
                self.next_fence == old(self).next_fence,
                forall|j: int| 0 <= j < i ==> (#[trigger] self.locks.pairs()[j]).1.session != session,
                forall|name: Seq<char>| #[trigger]
                    self.locks@.contains_key(name) ==> before.contains_key(name)
                        && self.locks@[name] == before[name],
                forall|name: Seq<char>| #[trigger]
                    before.contains_key(name) && before[name].session != session
                        ==> self.locks@.contains_key(name),
            decreases n - i,
        {
            let ghost pairs = self.locks.pairs();
            let (name, l) = self.locks.pair(i);
            if l.session == session {
                self.locks.remove_at(i);
                assert forall|j: int| 0 <= j < i implies (
                #[trigger] self.locks.pairs()[j]).1.session != session by {
                    assert(self.locks.pairs()[j] == pairs[j]);
                }
                n = n - 1;
            } else {
                i = i + 1;
            }
        }
        let left: usize = self.locks.len();
        proof {
            let m = self.locks@;
            let kept = old(self)@.without_session(session).locks;
            assert forall|name: Seq<char>| m.dom().contains(name) implies m[name].session
                != session by {
                let pairs = self.locks.pairs();
                let j = choose|j: int| 0 <= j < pairs.len() && (#[trigger] pairs[j]).0 == name;
                lemma_map_of_at(pairs, j);
            }
            assert(m =~= kept);
        }
    }

    /// Current fence of `name` (0 if unlocked).
    pub fn fence(&self, name: &str) -> (f: i64)
        ensures
            f == self@.fence(name@),
    {
        match self.locks.get(&name.to_string()) {
            Some(l) => l.fence,
            None => 0,
        }
    }

    pub fn is_locked(&self, name: &str) -> (b: bool)
        ensures
            b == self@.is_locked(name@),
    {
        match self.locks.get(&name.to_string()) {
            Some(l) => l.count > 0,
            None => false,
        }
    }
}

/// A command decodes to what it was encoded from.
pub proof fn law_commands_read_back(name: Seq<char>, op: FlOp)
    ensures
        command_of(command_bytes(name, op)) == Some((name, op)),
{
    broadcast use lemma_le_digits_len;

    let (tag, a, b) = op_fields(op);
    let c = command_bytes(name, op);
    lemma_ints_read_back(0, 0, 0, 0, a);
    lemma_ints_read_back(0, 0, 0, 0, b);
    lemma_text_reads_back(name);
    assert(c.subrange(1, 9) =~= i64_le(a));
    assert(c.subrange(9, 17) =~= i64_le(b));
    assert(c.skip(17) =~= encode_utf8(name));
}

/// Every command leaves the locks sound, as long as neither the fences nor a hold count run out.
pub proof fn law_locks_stay_sound(v: LocksView, body: Seq<u8>, session: i64)
    requires
        v.sound(),
        v.next_fence < i64::MAX,
        forall|name: Seq<char>| #[trigger]
            v.locks.contains_key(name) ==> v.locks[name].count < i32::MAX,
    ensures
        v.applied(body).0.sound(),
        v.without_session(session).sound(),
{
}

/// Fencing: taking a free lock gives a fence that is greater than every fence given before, of
/// whatever lock.
pub proof fn law_fences_strictly_increase(
    v: LocksView,
    name: Seq<char>,
    session: i64,
    thread: i64,
    other: Seq<char>,
)
    requires
        v.sound(),
        v.next_fence < i64::MAX,
        !v.is_locked(name),
    ensures
        ({
            let r = v.acquire(name, session, thread);
            &&& r.1 > v.next_fence
            &&& r.1 > v.fence(other)
            &&& r.1 > 0
            &&& r.0.next_fence == r.1
            &&& r.0.fence(name) == r.1
            &&& r.0.is_held_by(name, session, thread)
        }),
{
}

/// No command lowers the source of fences.
pub proof fn law_fence_source_only_grows(v: LocksView, body: Seq<u8>)
    requires
        v.next_fence < i64::MAX,
    ensures
        v.applied(body).0.next_fence >= v.next_fence,
{
}

/// Mutual exclusion: while one owner holds a lock, another gets neither the lock nor a release.
pub proof fn law_locks_exclude(
    v: LocksView,
    name: Seq<char>,
    session: i64,
    thread: i64,
    other_session: i64,
    other_thread: i64,
)
    requires
        v.is_held_by(name, session, thread),
        (other_session, other_thread) != (session, thread),
    ensures
        v.acquire(name, other_session, other_thread) == (v, 0i64),
        v.release(name, other_session, other_thread) == (v, false),
{
}

/// Reentering and releasing once leaves the lock as it was, with the same fence.
pub proof fn law_release_undoes_reentry(
    v: LocksView,
    name: Seq<char>,
    session: i64,
    thread: i64,
)
    requires
        v.is_held_by(name, session, thread),
        v.locks[name].count < i32::MAX,
    ensures
        v.acquire(name, session, thread).1 == v.fence(name),
        v.acquire(name, session, thread).0.release(name, session, thread) == (v, true),
{
    let a = v.acquire(name, session, thread).0;
    let r = a.release(name, session, thread).0;
    assert(r.locks =~= v.locks);
}

/// A session that ends holds no lock any more, and takes none away from another session.
pub proof fn law_ended_sessions_hold_nothing(v: LocksView, session: i64, name: Seq<char>)
    ensures
        v.without_session(session).locks.contains_key(name) ==> v.without_session(
            session,
        ).locks[name].session != session,
        v.locks.contains_key(name) && v.locks[name].session != session ==> v.without_session(
            session,
        ).locks.contains_key(name) && v.without_session(session).locks[name] == v.locks[name],
{
}

/// What a command on a name replies.
pub open spec fn reply_to(v: LocksView, name: Seq<char>, op: FlOp) -> ReplyView {
    v.applied(command_bytes(name, op)).1
}

/// The locks after a command on a name.
pub open spec fn after(v: LocksView, name: Seq<char>, op: FlOp) -> LocksView {
    v.applied(command_bytes(name, op)).0
}

/// The locks after an owner took a lock `n` times more.
pub open spec fn taken(v: LocksView, name: Seq<char>, session: i64, thread: i64, n: nat) -> LocksView
    decreases n,
{
    if n == 0 {
        v
    } else {
        after(taken(v, name, session, thread, (n - 1) as nat), name, FlOp::Lock { session, thread })
    }
}

/// The locks after an owner released a lock `n` times.
pub open spec fn given_back(v: LocksView, name: Seq<char>, session: i64, thread: i64, n: nat) -> LocksView
    decreases n,
{
    if n == 0 {
        v
    } else {
        after(
            given_back(v, name, session, thread, (n - 1) as nat),
            name,
            FlOp::Unlock { session, thread },
        )
    }
}

/// A free lock is taken: the reply is its fence, which is greater than every fence given before,
/// and the lock is then held by that owner with that fence. Trying to take a lock is taking it.
pub proof fn law_free_locks_are_taken(
    v: LocksView,
    name: Seq<char>,
    session: i64,
    thread: i64,
)
    requires
        v.next_fence < i64::MAX,
        !v.is_locked(name),
    ensures
        ({
            let lock = FlOp::Lock { session, thread };
            let f = (v.next_fence + 1) as i64;
            &&& reply_to(v, name, lock) == ReplyView::Long(f)
            &&& after(v, name, lock).fence(name) == f
            &&& after(v, name, lock).is_locked(name)
            &&& after(v, name, lock).is_held_by(name, session, thread)
            &&& after(v, name, lock).next_fence == f
        }),
{
    law_commands_read_back(name, FlOp::Lock { session, thread });
}

/// Trying to take a lock is taking it, whoever holds it.
pub proof fn law_trying_is_taking(v: LocksView, name: Seq<char>, session: i64, thread: i64)
    ensures
        v.applied(command_bytes(name, FlOp::TryLock { session, thread })) == v.applied(
            command_bytes(name, FlOp::Lock { session, thread }),
        ),
{
    law_commands_read_back(name, FlOp::Lock { session, thread });
    law_commands_read_back(name, FlOp::TryLock { session, thread });
}

/// Commands on a lock that another owner holds fail and change nothing: taking it gives no fence,
/// releasing it says no. A lock that nobody holds cannot be released either.
pub proof fn law_only_the_owner_is_served(
    v: LocksView,
    name: Seq<char>,
    session: i64,
    thread: i64,
)
    requires
        !v.is_held_by(name, session, thread),
    ensures
        reply_to(v, name, FlOp::Unlock { session, thread }) == ReplyView::Bool(false),
        after(v, name, FlOp::Unlock { session, thread }) == v,
        v.is_locked(name) ==> reply_to(v, name, FlOp::Lock { session, thread }) == ReplyView::Long(
            0,
        ) && after(v, name, FlOp::Lock { session, thread }) == v,
{
    law_commands_read_back(name, FlOp::Lock { session, thread });
    law_commands_read_back(name, FlOp::Unlock { session, thread });
}

proof fn lemma_taken(v: LocksView, name: Seq<char>, session: i64, thread: i64, n: nat)
    requires
        v.next_fence < i64::MAX,
        !v.is_locked(name),
        0 < n <= i32::MAX,
    ensures
        ({
            let t = taken(v, name, session, thread, n);
            let f = (v.next_fence + 1) as i64;
            &&& t.next_fence == f
            &&& t.locks == v.locks.insert(
                name,
                LockState { fence: f, session, thread, count: n as i32 },
            )
        }),
    decreases n,
{
    law_commands_read_back(name, FlOp::Lock { session, thread });
    if n == 1 {
        assert(taken(v, name, session, thread, 0) == v);
        assert(taken(v, name, session, thread, 1).locks =~= v.locks.insert(
            name,
            LockState { fence: (v.next_fence + 1) as i64, session, thread, count: 1 },
        ));
    } else {
        lemma_taken(v, name, session, thread, (n - 1) as nat);
        let t = taken(v, name, session, thread, n);
        assert(t.locks =~= v.locks.insert(
            name,
            LockState { fence: (v.next_fence + 1) as i64, session, thread, count: n as i32 },
        ));
    }
}

proof fn lemma_given_back(
    v: LocksView,
    name: Seq<char>,
    session: i64,
    thread: i64,
    n: nat,
    k: nat,
)
    requires
        v.next_fence < i64::MAX,
        !v.is_locked(name),
        0 < n <= i32::MAX,
        k < n,
    ensures
        ({
            let g = given_back(taken(v, name, session, thread, n), name, session, thread, k);
            let f = (v.next_fence + 1) as i64;
            &&& g.next_fence == f
            &&& g.locks == v.locks.insert(
                name,
                LockState { fence: f, session, thread, count: (n - k) as i32 },
            )
        }),
    decreases k,
{
    law_commands_read_back(name, FlOp::Unlock { session, thread });
    lemma_taken(v, name, session, thread, n);
    if k > 0 {
        lemma_given_back(v, name, session, thread, n, (k - 1) as nat);
        let g = given_back(taken(v, name, session, thread, n), name, session, thread, k);
        assert(g.locks =~= v.locks.insert(
            name,
            LockState { fence: (v.next_fence + 1) as i64, session, thread, count: (n - k) as i32 },
        ));
    }
}

/// A lock that its owner took `n` times is held, with the fence of the first time, until the owner
/// has released it `n` times, each time with success; then it is free.
pub proof fn law_a_lock_is_held_as_often_as_it_was_taken(
    v: LocksView,
    name: Seq<char>,
    session: i64,
    thread: i64,
    n: nat,
    k: nat,
)
    requires
        v.next_fence < i64::MAX,
        !v.is_locked(name),
        0 < n <= i32::MAX,
        k < n,
    ensures
        ({
            let t = taken(v, name, session, thread, n);
            let g = given_back(t, name, session, thread, k);
            let f = (v.next_fence + 1) as i64;
            &&& t.is_held_by(name, session, thread)
            &&& n < i32::MAX ==> reply_to(t, name, FlOp::Lock { session, thread })
                == ReplyView::Long(f)
            &&& g.is_held_by(name, session, thread)
            &&& g.fence(name) == f
            &&& reply_to(g, name, FlOp::Unlock { session, thread }) == ReplyView::Bool(true)
            &&& !given_back(t, name, session, thread, n).is_locked(name)
            &&& given_back(t, name, session, thread, n).fence(name) == 0
        }),
{
    law_commands_read_back(name, FlOp::Lock { session, thread });
    law_commands_read_back(name, FlOp::Unlock { session, thread });
    lemma_taken(v, name, session, thread, n);
    lemma_given_back(v, name, session, thread, n, k);
    lemma_given_back(v, name, session, thread, n, (n - 1) as nat);
}

/// A command on one lock leaves every other lock alone.
pub proof fn law_keys_are_independent(v: LocksView, name: Seq<char>, op: FlOp, other: Seq<char>)
    requires
        other != name,
    ensures
        after(v, name, op).is_locked(other) == v.is_locked(other),
        after(v, name, op).fence(other) == v.fence(other),
        after(v, name, op).locks.contains_key(other) == v.locks.contains_key(other),
        v.locks.contains_key(other) ==> after(v, name, op).locks[other] == v.locks[other],
{
    law_commands_read_back(name, op);
}

/// The bytes of commands: a tag, the session, the thread, the name.
pub proof fn law_command_layout(name: Seq<char>, session: i64, thread: i64)
    ensures
        command_bytes(name, FlOp::Lock { session, thread }) == seq![0u8] + i64_le(session) + i64_le(
            thread,
        ) + encode_utf8(name),
        command_bytes(name, FlOp::TryLock { session, thread }) == seq![1u8] + i64_le(session)
            + i64_le(thread) + encode_utf8(name),
        command_bytes(name, FlOp::Unlock { session, thread }) == seq![2u8] + i64_le(session)
            + i64_le(thread) + encode_utf8(name),
{
}

} // verus!
