//! `ICountDownLatch` as a deterministic replicated state machine: a named counter that only
//! counts down.

use vstd::prelude::*;
use vstd::slice::slice_subrange;
use vstd::utf8::encode_utf8;
use super::reply::{CpReply, ReplyView};
use crate::bytes::{
    get_i32, i32_at, i32_le, lemma_ints_read_back, lemma_le_digits_len, put_i32, put_slice,
};
use crate::table::Table;
use crate::text::{lemma_text_reads_back, parse_text, text_bytes, text_of};

verus! {

/// A CountDownLatch operation.
#[derive(Clone, Copy, Debug, PartialEq, Eq, Structural)]
pub enum CdlOp {
    GetCount,
    CountDown,
    /// Sets the count, but only if it is zero.
    TrySetCount(i32),
}

pub const TAG_GET: u8 = 0;

pub const TAG_COUNT_DOWN: u8 = 1;

pub const TAG_TRY_SET: u8 = 2;

/// The bytes of an op.
pub open spec fn op_bytes(op: CdlOp) -> Seq<u8> {
    match op {
        CdlOp::GetCount => seq![TAG_GET],
        CdlOp::CountDown => seq![TAG_COUNT_DOWN],
        CdlOp::TrySetCount(n) => seq![TAG_TRY_SET] + i32_le(n),
    }
}

/// The op at the start of `b`, and where the name begins.
pub open spec fn read_op(b: Seq<u8>) -> Option<(CdlOp, int)> {
    if b.len() == 0 {
        None
    } else if b[0] == TAG_GET {
        Some((CdlOp::GetCount, 1))
    } else if b[0] == TAG_COUNT_DOWN {
        Some((CdlOp::CountDown, 1))
    } else if b[0] == TAG_TRY_SET && b.len() >= 5 {
        Some((CdlOp::TrySetCount(i32_at(b, 1)), 5))
    } else {
        None
    }
}

/// The command body `[tag][i32?][name]`.
pub open spec fn command_bytes(name: Seq<char>, op: CdlOp) -> Seq<u8> {
    op_bytes(op) + encode_utf8(name)
}

/// What a command body says.
pub open spec fn command_of(b: Seq<u8>) -> Option<(Seq<char>, CdlOp)> {
    match read_op(b) {
        None => None,
        Some((op, p)) => match text_of(b.skip(p)) {
            Some(name) => Some((name, op)),
            None => None,
        },
    }
}

pub open spec fn count_of(m: Map<Seq<char>, i32>, name: Seq<char>) -> i32 {
    if m.contains_key(name) {
        m[name]
    } else {
        0
    }
}

/// No latch counts below zero.
pub open spec fn counts_ok(m: Map<Seq<char>, i32>) -> bool {
    forall|name: Seq<char>| #[trigger] m.contains_key(name) ==> m[name] >= 0
}

/// The counts and the reply after a command; an unknown command does nothing.
pub open spec fn applied(m: Map<Seq<char>, i32>, body: Seq<u8>) -> (
    Map<Seq<char>, i32>,
    ReplyView,
) {
    match command_of(body) {
        None => (m, ReplyView::Nil),
        Some((name, op)) => {
            let c = count_of(m, name);
            match op {
                CdlOp::GetCount => (m, ReplyView::Long(c as i64)),
                CdlOp::CountDown => (
                    m.insert(
                        name,
                        if c > 0 {
                            (c - 1) as i32
                        } else {
                            0
                        },
                    ),
                    ReplyView::Nil,
                ),
                CdlOp::TrySetCount(n) => if c == 0 {
                    (
                        m.insert(
                            name,
                            if n > 0 {
                                n
                            } else {
                                0
                            },
                        ),
                        ReplyView::Bool(true),
                    )
                } else {
                    (m.insert(name, c), ReplyView::Bool(false))
                },
            }
        },
    }
}

/// Encodes `(name, op)` into a command body: `[tag][i32?][name]`.
pub fn encode(name: &str, op: &CdlOp) -> (buf: Vec<u8>)
    ensures
        buf@ == command_bytes(name@, *op),
{
    let mut buf: Vec<u8> = Vec::new();
    match *op {
        CdlOp::GetCount => buf.push(TAG_GET),
        CdlOp::CountDown => buf.push(TAG_COUNT_DOWN),
        CdlOp::TrySetCount(n) => {
            buf.push(TAG_TRY_SET);
            put_i32(&mut buf, n);
        },
    }
    assert(buf@ =~= op_bytes(*op));
    put_slice(&mut buf, text_bytes(name));
    buf
}

pub fn decode(body: &[u8]) -> (r: Option<(String, CdlOp)>)
    ensures
        match r {
            Some((name, op)) => command_of(body@) == Some((name@, op)),
            None => command_of(body@) is None,
        },
{
    if body.len() == 0 {
        return None;
    }
    let (op, p): (CdlOp, usize) = match body[0] {
        TAG_GET => (CdlOp::GetCount, 1),
        TAG_COUNT_DOWN => (CdlOp::CountDown, 1),
        TAG_TRY_SET => {
            if body.len() < 5 {
                return None;
            }
            (CdlOp::TrySetCount(get_i32(body, 1)), 5)
        },
        _ => {
            return None;
        },
    };
    let tail = slice_subrange(body, p, body.len());
    assert(tail@ =~= body@.skip(p as int));
    match parse_text(tail) {
        Some(name) => Some((name, op)),
        None => None,
    }
}

/// The replicated CountDownLatch state machine.
pub struct CountDownLatchSm {
    counts: Table<String, i32>,
}

impl View for CountDownLatchSm {
    type V = Map<Seq<char>, i32>;

    closed spec fn view(&self) -> Map<Seq<char>, i32> {
        self.counts@
    }
}

impl Default for CountDownLatchSm {
    fn default() -> (s: CountDownLatchSm)
        ensures
            s@ == Map::<Seq<char>, i32>::empty(),
    {
        CountDownLatchSm::new()
    }
}

impl CountDownLatchSm {
    pub fn new() -> (s: CountDownLatchSm)
        ensures
            s@ == Map::<Seq<char>, i32>::empty(),
    {
        CountDownLatchSm { counts: Table::new() }
    }

    /// Applies a committed command. Unknown commands do nothing.
    pub fn apply(&mut self, body: &[u8]) -> (r: CpReply)
        ensures
            (final(self)@, r@) == applied(old(self)@, body@),
    {
        let (name, op) = match decode(body) {
            Some(c) => c,
            None => {
                return CpReply::Nil;
            },
        };
        let c: i32 = match self.counts.get(&name) {
            Some(c) => *c,
            None => 0,
        };
        match op {
            CdlOp::GetCount => CpReply::Long(c as i64),
            CdlOp::CountDown => {
                let n: i32 = if c > 0 {
                    c - 1
                } else {
                    0
                };
                self.counts.insert(name, n);
                CpReply::Nil
            },
            CdlOp::TrySetCount(n) => {
                if c == 0 {
                    let n: i32 = if n > 0 {
                        n
                    } else {
                        0
                    };
                    self.counts.insert(name, n);
                    CpReply::Bool(true)
                } else {
                    self.counts.insert(name, c);
                    CpReply::Bool(false)
                }
            },
        }
    }

    /// Current count of `name` (0 if it was never set).
    pub fn count(&self, name: &str) -> (c: i32)
        ensures
            c == count_of(self@, name@),
    {
        match self.counts.get(&name.to_string()) {
            Some(c) => *c,
            None => 0,
        }
    }
}

/// A command decodes to what it was encoded from.
pub proof fn law_commands_read_back(name: Seq<char>, op: CdlOp)
    ensures
        command_of(command_bytes(name, op)) == Some((name, op)),
{
    broadcast use lemma_le_digits_len;

    let b = command_bytes(name, op);
    lemma_text_reads_back(name);
    assert(b.skip(op_bytes(op).len() as int) =~= encode_utf8(name));
    if let CdlOp::TrySetCount(n) = op {
        lemma_ints_read_back(0, 0, 0, n, 0);
        assert(b.subrange(1, 5) =~= i32_le(n));
    }
}

/// A latch never counts below zero, and is set anew only once it has reached zero.
pub proof fn law_latches_only_count_down(
    m: Map<Seq<char>, i32>,
    body: Seq<u8>,
    name: Seq<char>,
)
    requires
        counts_ok(m),
    ensures
        counts_ok(applied(m, body).0),
        count_of(m, name) > 0 ==> count_of(applied(m, body).0, name) <= count_of(m, name),
{
}

/// A command on one name leaves every other latch alone.
pub proof fn law_keys_are_independent(
    m: Map<Seq<char>, i32>,
    name: Seq<char>,
    op: CdlOp,
    other: Seq<char>,
)
    requires
        other != name,
    ensures
        count_of(applied(m, command_bytes(name, op)).0, other) == count_of(m, other),
{
    law_commands_read_back(name, op);
}

/// What a command on a name replies.
pub open spec fn reply_to(m: Map<Seq<char>, i32>, name: Seq<char>, op: CdlOp) -> ReplyView {
    applied(m, command_bytes(name, op)).1
}

/// The counts after a command on a name.
pub open spec fn after(m: Map<Seq<char>, i32>, name: Seq<char>, op: CdlOp) -> Map<Seq<char>, i32> {
    applied(m, command_bytes(name, op)).0
}

/// Counting down takes one off a count that is not zero, and leaves zero; it replies nothing.
/// Reading the count changes nothing, and a latch that was never set reads as zero.
pub proof fn law_counting_down_takes_one(m: Map<Seq<char>, i32>, name: Seq<char>, c: i64)
    requires
        counts_ok(m),
        reply_to(m, name, CdlOp::GetCount) == ReplyView::Long(c),
    ensures
        reply_to(m, name, CdlOp::CountDown) == ReplyView::Nil,
        c > 0 ==> reply_to(after(m, name, CdlOp::CountDown), name, CdlOp::GetCount)
            == ReplyView::Long((c - 1) as i64),
        c == 0 ==> reply_to(after(m, name, CdlOp::CountDown), name, CdlOp::GetCount)
            == ReplyView::Long(0),
        c >= 0,
        c == count_of(m, name),
        after(m, name, CdlOp::GetCount) == m,
        reply_to(Map::empty(), name, CdlOp::GetCount) == ReplyView::Long(0),
{
    law_commands_read_back(name, CdlOp::GetCount);
    law_commands_read_back(name, CdlOp::CountDown);
}

/// A latch is set if and only if it reads as zero, and says whether it was; what it is set to is
/// what it then reads as, a negative count as zero.
pub proof fn law_latches_are_set_at_zero(m: Map<Seq<char>, i32>, name: Seq<char>, n: i32)
    ensures
        ({
            let read = reply_to(m, name, CdlOp::GetCount);
            let set = CdlOp::TrySetCount(n);
            let then_read = reply_to(after(m, name, set), name, CdlOp::GetCount);
            if read == ReplyView::Long(0) {
                &&& reply_to(m, name, set) == ReplyView::Bool(true)
                &&& n >= 0 ==> then_read == ReplyView::Long(n as i64)
                &&& n < 0 ==> then_read == ReplyView::Long(0)
            } else {
                reply_to(m, name, set) == ReplyView::Bool(false) && then_read == read
            }
        }),
{
    law_commands_read_back(name, CdlOp::GetCount);
    law_commands_read_back(name, CdlOp::TrySetCount(n));
}

/// The bytes of commands: a tag, the count if there is one, the name.
pub proof fn law_command_layout(name: Seq<char>, n: i32)
    ensures
        command_bytes(name, CdlOp::GetCount) == seq![0u8] + encode_utf8(name),
        command_bytes(name, CdlOp::CountDown) == seq![1u8] + encode_utf8(name),
        command_bytes(name, CdlOp::TrySetCount(n)) == seq![2u8] + i32_le(n) + encode_utf8(name),
{
}

} // verus!
