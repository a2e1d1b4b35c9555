//! `ISemaphore` as a deterministic replicated state machine: a named permit counter. Acquiring
//! does not block: it fails if the permits are not there.

use vstd::prelude::*;
use vstd::slice::slice_subrange;
use vstd::utf8::encode_utf8;
use super::reply::{CpReply, ReplyView};
use crate::bytes::{
    get_i32, i32_at, i32_le, lemma_ints_read_back, lemma_le_digits_len, put_i32, put_slice,
};
use crate::table::Table;
use crate::text::{lemma_text_reads_back, parse_text, text_bytes, text_of};

verus! {

/// A Semaphore operation. Permit counts are non-negative.
#[derive(Clone, Copy, Debug, PartialEq, Eq, Structural)]
pub enum SemOp {
    /// Sets the permit count, only if it was not set yet.
    Init(i32),
    /// Takes `n` permits if they are available.
    Acquire(i32),
    Release(i32),
    /// Takes all available permits and says how many.
    Drain,
    AvailablePermits,
}

pub const TAG_INIT: u8 = 0;

pub const TAG_ACQUIRE: u8 = 1;

pub const TAG_RELEASE: u8 = 2;

pub const TAG_DRAIN: u8 = 3;

pub const TAG_AVAILABLE: u8 = 4;

/// The bytes of an op.
pub open spec fn op_bytes(op: SemOp) -> Seq<u8> {
    match op {
        SemOp::Init(n) => seq![TAG_INIT] + i32_le(n),
        SemOp::Acquire(n) => seq![TAG_ACQUIRE] + i32_le(n),
        SemOp::Release(n) => seq![TAG_RELEASE] + i32_le(n),
        SemOp::Drain => seq![TAG_DRAIN],
        SemOp::AvailablePermits => seq![TAG_AVAILABLE],
    }
}

/// The op at the start of `b`, and where the name begins.
pub open spec fn read_op(b: Seq<u8>) -> Option<(SemOp, int)> {
    if b.len() == 0 {
        None
    } else if b[0] == TAG_DRAIN {
        Some((SemOp::Drain, 1))
    } else if b[0] == TAG_AVAILABLE {
        Some((SemOp::AvailablePermits, 1))
    } else if b.len() < 5 {
        None
    } else if b[0] == TAG_INIT {
        Some((SemOp::Init(i32_at(b, 1)), 5))
    } else if b[0] == TAG_ACQUIRE {
        Some((SemOp::Acquire(i32_at(b, 1)), 5))
    } else if b[0] == TAG_RELEASE {
        Some((SemOp::Release(i32_at(b, 1)), 5))
    } else {
        None
    }
}

/// The command body `[tag][i32?][name]`.
pub open spec fn command_bytes(name: Seq<char>, op: SemOp) -> Seq<u8> {
    op_bytes(op) + encode_utf8(name)
}

/// What a command body says.
pub open spec fn command_of(b: Seq<u8>) -> Option<(Seq<char>, SemOp)> {
    match read_op(b) {
        None => None,
        Some((op, p)) => match text_of(b.skip(p)) {
            Some(name) => Some((name, op)),
            None => None,
        },
    }
}

pub open spec fn permits_of(m: Map<Seq<char>, i32>, name: Seq<char>) -> i32 {
    if m.contains_key(name) {
        m[name]
    } else {
        0
    }
}

/// No semaphore owes permits.
pub open spec fn permits_ok(m: Map<Seq<char>, i32>) -> bool {
    forall|name: Seq<char>| #[trigger] m.contains_key(name) ==> m[name] >= 0
}

/// `n`, or 0 if it is negative.
pub open spec fn non_negative(n: i32) -> i32 {
    if n > 0 {
        n
    } else {
        0
    }
}

/// The permits and the reply after a command; an unknown command does nothing.
pub open spec fn applied(m: Map<Seq<char>, i32>, body: Seq<u8>) -> (
    Map<Seq<char>, i32>,
    ReplyView,
) {
    match command_of(body) {
        None => (m, ReplyView::Nil),
        Some((name, op)) => {
            let p = permits_of(m, name);
            match op {
                SemOp::Init(n) => if m.contains_key(name) {
                    (m, ReplyView::Bool(false))
                } else {
                    (m.insert(name, non_negative(n)), ReplyView::Bool(true))
                },
                SemOp::Acquire(n) => if n >= 0 && p >= n {
                    (m.insert(name, (p - n) as i32), ReplyView::Bool(true))
                } else {
                    (m.insert(name, p), ReplyView::Bool(false))
                },
                SemOp::Release(n) => (
                    m.insert(name, p.wrapping_add(non_negative(n))),
                    ReplyView::Bool(true),
                ),
                SemOp::Drain => (m.insert(name, 0), ReplyView::Long(p as i64)),
                SemOp::AvailablePermits => (m, ReplyView::Long(p as i64)),
            }
        },
    }
}

/// Encodes `(name, op)` into a command body: `[tag][i32?][name]`.
pub fn encode(name: &str, op: &SemOp) -> (buf: Vec<u8>)
    ensures
        buf@ == command_bytes(name@, *op),
{
    let mut buf: Vec<u8> = Vec::new();
    match *op {
        SemOp::Init(n) => {
            buf.push(TAG_INIT);
            put_i32(&mut buf, n);
        },
        SemOp::Acquire(n) => {
            buf.push(TAG_ACQUIRE);
            put_i32(&mut buf, n);
        },
        SemOp::Release(n) => {
            buf.push(TAG_RELEASE);
            put_i32(&mut buf, n);
        },
        SemOp::Drain => buf.push(TAG_DRAIN),
        SemOp::AvailablePermits => buf.push(TAG_AVAILABLE),
    }
    assert(buf@ =~= op_bytes(*op));
    put_slice(&mut buf, text_bytes(name));
    buf
}

pub fn decode(body: &[u8]) -> (r: Option<(String, SemOp)>)
    ensures
        match r {
            Some((name, op)) => command_of(body@) == Some((name@, op)),
            None => command_of(body@) is None,
        },
{
    if body.len() == 0 {
        return None;
    }
    let tag: u8 = body[0];
    let counted: bool = tag == TAG_INIT || tag == TAG_ACQUIRE || tag == TAG_RELEASE;
    if counted && body.len() < 5 {
        return None;
    }
    let n: i32 = if counted {
        get_i32(body, 1)
    } else {
        0
    };
    let op = match tag {
        TAG_INIT => SemOp::Init(n),
        TAG_ACQUIRE => SemOp::Acquire(n),
        TAG_RELEASE => SemOp::Release(n),
        TAG_DRAIN => SemOp::Drain,
        TAG_AVAILABLE => SemOp::AvailablePermits,
        _ => {
            return None;
        },
    };
    let p: usize = if counted {
        5
    } else {
        1
    };
    let tail = slice_subrange(body, p, body.len());
    assert(tail@ =~= body@.skip(p as int));
    match parse_text(tail) {
        Some(name) => Some((name, op)),
        None => None,
    }
}

/// The replicated Semaphore state machine.
pub struct SemaphoreSm {
    permits: Table<String, i32>,
}

impl View for SemaphoreSm {
    type V = Map<Seq<char>, i32>;

    closed spec fn view(&self) -> Map<Seq<char>, i32> {
        self.permits@
    }
}

impl Default for SemaphoreSm {
    fn default() -> (s: SemaphoreSm)
        ensures
            s@ == Map::<Seq<char>, i32>::empty(),
    {
        SemaphoreSm::new()
    }
}

impl SemaphoreSm {
    pub fn new() -> (s: SemaphoreSm)
        ensures
            s@ == Map::<Seq<char>, i32>::empty(),
    {
        SemaphoreSm { permits: Table::new() }
    }

    /// Applies a committed command. Unknown commands do nothing. A release that no `i32` can hold
    /// wraps around.
    pub fn apply(&mut self, body: &[u8]) -> (r: CpReply)
        ensures
            (final(self)@, r@) == applied(old(self)@, body@),
    {
        let (name, op) = match decode(body) {
            Some(c) => c,
            None => {
                return CpReply::Nil;
            },
        };
        let held: Option<i32> = match self.permits.get(&name) {
            Some(p) => Some(*p),
            None => None,
        };
        let p: i32 = match held {
            Some(p) => p,
            None => 0,
        };
        match op {
            SemOp::Init(n) => {
                if held.is_some() {
                    CpReply::Bool(false)
                } else {
                    let n: i32 = if n > 0 {
                        n
                    } else {
                        0
                    };
                    self.permits.insert(name, n);
                    CpReply::Bool(true)
                }
            },
            SemOp::Acquire(n) => {
                if n >= 0 && p >= n {
                    self.permits.insert(name, p - n);
                    CpReply::Bool(true)
                } else {
                    self.permits.insert(name, p);
                    CpReply::Bool(false)
                }
            },
            SemOp::Release(n) => {
                let n: i32 = if n > 0 {
                    n
                } else {
                    0
                };
                self.permits.insert(name, p.wrapping_add(n));
                CpReply::Bool(true)
            },
            SemOp::Drain => {
                self.permits.insert(name, 0);
                CpReply::Long(p as i64)
            },
            SemOp::AvailablePermits => CpReply::Long(p as i64),
        }
    }

    /// Available permits of `name` (0 if it was never set).
    pub fn available(&self, name: &str) -> (p: i32)
        ensures
            p == permits_of(self@, name@),
    {
        match self.permits.get(&name.to_string()) {
            Some(p) => *p,
            None => 0,
        }
    }
}

/// A command decodes to what it was encoded from.
pub proof fn law_commands_read_back(name: Seq<char>, op: SemOp)
    ensures
        command_of(command_bytes(name, op)) == Some((name, op)),
{
    broadcast use lemma_le_digits_len;

    let b = command_bytes(name, op);
    lemma_text_reads_back(name);
    assert(b.skip(op_bytes(op).len() as int) =~= encode_utf8(name));
    match op {
        SemOp::Init(n) | SemOp::Acquire(n) | SemOp::Release(n) => {
            lemma_ints_read_back(0, 0, 0, n, 0);
            assert(b.subrange(1, 5) =~= i32_le(n));
        },
        _ => {},
    }
}

/// Permits never become negative, unless a release goes beyond what an `i32` holds.
pub proof fn law_permits_stay_non_negative(m: Map<Seq<char>, i32>, body: Seq<u8>)
    requires
        permits_ok(m),
        command_of(body) matches Some((name, SemOp::Release(n))) ==> permits_of(m, name) + n
            <= i32::MAX,
    ensures
        permits_ok(applied(m, body).0),
{
}

/// Permits are neither made nor lost: taking and giving back the same number leaves the count.
pub proof fn law_release_undoes_acquire(m: Map<Seq<char>, i32>, name: Seq<char>, n: i32)
    requires
        0 <= n <= permits_of(m, name),
    ensures
        ({
            let taken = applied(m, command_bytes(name, SemOp::Acquire(n)));
            let given = applied(taken.0, command_bytes(name, SemOp::Release(n)));
            &&& taken.1 == ReplyView::Bool(true)
            &&& permits_of(taken.0, name) == permits_of(m, name) - n
            &&& permits_of(given.0, name) == permits_of(m, name)
        }),
{
    law_commands_read_back(name, SemOp::Acquire(n));
    law_commands_read_back(name, SemOp::Release(n));
}

/// A command on one name leaves every other semaphore alone.
pub proof fn law_keys_are_independent(
    m: Map<Seq<char>, i32>,
    name: Seq<char>,
    op: SemOp,
    other: Seq<char>,
)
    requires
        other != name,
    ensures
        permits_of(applied(m, command_bytes(name, op)).0, other) == permits_of(m, other),
{
    law_commands_read_back(name, op);
}

/// What a command on a name replies.
pub open spec fn reply_to(m: Map<Seq<char>, i32>, name: Seq<char>, op: SemOp) -> ReplyView {
    applied(m, command_bytes(name, op)).1
}

/// The permits after a command on a name.
pub open spec fn after(m: Map<Seq<char>, i32>, name: Seq<char>, op: SemOp) -> Map<Seq<char>, i32> {
    applied(m, command_bytes(name, op)).0
}

/// What a name has available: reading it changes nothing, and a name that was never touched has
/// none.
pub proof fn law_available_permits_are_read(m: Map<Seq<char>, i32>, name: Seq<char>)
    ensures
        reply_to(m, name, SemOp::AvailablePermits) == ReplyView::Long(permits_of(m, name) as i64),
        after(m, name, SemOp::AvailablePermits) == m,
        reply_to(Map::empty(), name, SemOp::AvailablePermits) == ReplyView::Long(0),
{
    law_commands_read_back(name, SemOp::AvailablePermits);
}

/// Permits are taken if and only if there are enough and the number is not negative; then that
/// many fewer are available, and else none is taken.
pub proof fn law_acquiring_takes_what_is_there(
    m: Map<Seq<char>, i32>,
    name: Seq<char>,
    n: i32,
    p: i64,
)
    requires
        reply_to(m, name, SemOp::AvailablePermits) == ReplyView::Long(p),
    ensures
        ({
            let acquire = SemOp::Acquire(n);
            let left = reply_to(after(m, name, acquire), name, SemOp::AvailablePermits);
            if 0 <= n <= p {
                reply_to(m, name, acquire) == ReplyView::Bool(true) && left == ReplyView::Long(
                    (p - n) as i64,
                )
            } else {
                reply_to(m, name, acquire) == ReplyView::Bool(false) && left == ReplyView::Long(p)
            }
        }),
{
    law_commands_read_back(name, SemOp::AvailablePermits);
    law_commands_read_back(name, SemOp::Acquire(n));
}

/// Releasing gives back as many as it says, none for a negative number; draining takes all that
/// are available and says how many those were.
pub proof fn law_releasing_gives_and_draining_takes_all(
    m: Map<Seq<char>, i32>,
    name: Seq<char>,
    n: i32,
    p: i64,
)
    requires
        reply_to(m, name, SemOp::AvailablePermits) == ReplyView::Long(p),
        p + n <= i32::MAX,
    ensures
        reply_to(m, name, SemOp::Release(n)) == ReplyView::Bool(true),
        n >= 0 ==> reply_to(after(m, name, SemOp::Release(n)), name, SemOp::AvailablePermits)
            == ReplyView::Long((p + n) as i64),
        n < 0 ==> reply_to(after(m, name, SemOp::Release(n)), name, SemOp::AvailablePermits)
            == ReplyView::Long(p),
        reply_to(m, name, SemOp::Drain) == ReplyView::Long(p),
        reply_to(after(m, name, SemOp::Drain), name, SemOp::AvailablePermits) == ReplyView::Long(0),
{
    law_commands_read_back(name, SemOp::AvailablePermits);
    law_commands_read_back(name, SemOp::Release(n));
    law_commands_read_back(name, SemOp::Drain);
}

/// A semaphore is set up once: the first time its permits are those given, none for a negative
/// number, and after that, or once it was acquired from, released to or drained, setting it up
/// again changes nothing and says so.
pub proof fn law_semaphores_are_set_up_once(
    m: Map<Seq<char>, i32>,
    name: Seq<char>,
    n: i32,
    again: i32,
    op: SemOp,
)
    requires
        !(op is AvailablePermits),
    ensures
        ({
            let fresh = m.remove(name);
            let init = SemOp::Init(n);
            let available = reply_to(after(fresh, name, init), name, SemOp::AvailablePermits);
            &&& reply_to(fresh, name, init) == ReplyView::Bool(true)
            &&& n >= 0 ==> available == ReplyView::Long(n as i64)
            &&& n < 0 ==> available == ReplyView::Long(0)
        }),
        ({
            let used = after(m, name, op);
            &&& reply_to(used, name, SemOp::Init(again)) == ReplyView::Bool(false)
            &&& after(used, name, SemOp::Init(again)) == used
        }),
{
    law_commands_read_back(name, SemOp::AvailablePermits);
    law_commands_read_back(name, SemOp::Init(n));
    law_commands_read_back(name, SemOp::Init(again));
    law_commands_read_back(name, op);
}

/// The bytes of commands: a tag, the number if there is one, the name.
pub proof fn law_command_layout(name: Seq<char>, n: i32)
    ensures
        command_bytes(name, SemOp::Init(n)) == seq![0u8] + i32_le(n) + encode_utf8(name),
        command_bytes(name, SemOp::Acquire(n)) == seq![1u8] + i32_le(n) + encode_utf8(name),
        command_bytes(name, SemOp::Release(n)) == seq![2u8] + i32_le(n) + encode_utf8(name),
        command_bytes(name, SemOp::Drain) == seq![3u8] + encode_utf8(name),
        command_bytes(name, SemOp::AvailablePermits) == seq![4u8] + encode_utf8(name),
{
}

} // verus!
