//! `IAtomicLong` as a deterministic replicated state machine.
//!
//! A command is `(name, op)` encoded into a Raft entry's bytes; [`AtomicLongSm::apply`] runs it
//! against the replicated values and returns the reply. Additions wrap around, as the client-side
//! type does.

use vstd::prelude::*;
use vstd::slice::slice_subrange;
use vstd::utf8::encode_utf8;
use crate::bytes::{
    get_i64, i64_at, i64_le, lemma_ints_read_back, lemma_le_digits_len, put_i64, put_slice,
};
use crate::table::Table;
use crate::text::{lemma_text_reads_back, parse_text, text_bytes, text_of};

verus! {

/// An AtomicLong operation.
#[derive(Clone, Copy, Debug, PartialEq, Eq, Structural)]
pub enum AlOp {
    Get,
    SetTo(i64),
    GetAndSet(i64),
    AddAndGet(i64),
    GetAndAdd(i64),
    /// `(expected, new)`: set to `new` if the current value equals `expected`.
    CompareAndSet(i64, i64),
}

/// The reply from applying an op.
#[derive(Clone, Copy, Debug, PartialEq, Eq, Structural)]
pub enum AlReply {
    Long(i64),
    Bool(bool),
    Nil,
}

pub const TAG_GET: u8 = 0;

pub const TAG_SET: u8 = 1;

pub const TAG_GET_AND_SET: u8 = 2;

pub const TAG_ADD_AND_GET: u8 = 3;

pub const TAG_GET_AND_ADD: u8 = 4;

pub const TAG_COMPARE_AND_SET: u8 = 5;

/// The tag and the two arguments of an op.
pub open spec fn op_fields(op: AlOp) -> (u8, i64, i64) {
    match op {
        AlOp::Get => (TAG_GET, 0, 0),
        AlOp::SetTo(v) => (TAG_SET, v, 0),
        AlOp::GetAndSet(v) => (TAG_GET_AND_SET, v, 0),
        AlOp::AddAndGet(d) => (TAG_ADD_AND_GET, d, 0),
        AlOp::GetAndAdd(d) => (TAG_GET_AND_ADD, d, 0),
        AlOp::CompareAndSet(e, n) => (TAG_COMPARE_AND_SET, e, n),
    }
}

/// The op with a tag and two arguments.
pub open spec fn op_of_fields(tag: u8, a: i64, b: i64) -> Option<AlOp> {
    if tag == TAG_GET {
        Some(AlOp::Get)
    } else if tag == TAG_SET {
        Some(AlOp::SetTo(a))
    } else if tag == TAG_GET_AND_SET {
        Some(AlOp::GetAndSet(a))
    } else if tag == TAG_ADD_AND_GET {
        Some(AlOp::AddAndGet(a))
    } else if tag == TAG_GET_AND_ADD {
        Some(AlOp::GetAndAdd(a))
    } else if tag == TAG_COMPARE_AND_SET {
        Some(AlOp::CompareAndSet(a, b))
    } else {
        None
    }
}

/// The command `[tag][a:i64][b:i64][name]`.
pub open spec fn command_bytes(name: Seq<char>, op: AlOp) -> Seq<u8> {
    let (tag, a, b) = op_fields(op);
    seq![tag] + i64_le(a) + i64_le(b) + encode_utf8(name)
}

/// What a command says.
pub open spec fn command_of(b: Seq<u8>) -> Option<(Seq<char>, AlOp)> {
    if b.len() < 17 {
        None
    } else {
        match (text_of(b.skip(17)), op_of_fields(b[0], i64_at(b, 1), i64_at(b, 9))) {
            (Some(name), Some(op)) => Some((name, op)),
            _ => None,
        }
    }
}

/// The value of `name`, 0 if it was never touched.
pub open spec fn value_of(m: Map<Seq<char>, i64>, name: Seq<char>) -> i64 {
    if m.contains_key(name) {
        m[name]
    } else {
        0
    }
}

/// The new value and the reply when `op` meets the value `v`.
pub open spec fn op_result(v: i64, op: AlOp) -> (i64, AlReply) {
    match op {
        AlOp::Get => (v, AlReply::Long(v)),
        AlOp::SetTo(n) => (n, AlReply::Nil),
        AlOp::GetAndSet(n) => (n, AlReply::Long(v)),
        AlOp::AddAndGet(d) => (v.wrapping_add(d), AlReply::Long(v.wrapping_add(d))),
        AlOp::GetAndAdd(d) => (v.wrapping_add(d), AlReply::Long(v)),
        AlOp::CompareAndSet(e, n) => if v == e {
            (n, AlReply::Bool(true))
        } else {
            (v, AlReply::Bool(false))
        },
    }
}

/// The values and the reply after a command; an unknown command does nothing.
pub open spec fn applied(m: Map<Seq<char>, i64>, command: Seq<u8>) -> (
    Map<Seq<char>, i64>,
    AlReply,
) {
    match command_of(command) {
        None => (m, AlReply::Nil),
        Some((name, op)) => {
            let r = op_result(value_of(m, name), op);
            (m.insert(name, r.0), r.1)
        },
    }
}

/// Encodes `(name, op)` as `[tag][a:i64][b:i64][name]`.
pub fn encode(name: &str, op: &AlOp) -> (buf: Vec<u8>)
    ensures
        buf@ == command_bytes(name@, *op),
{
    let (tag, a, b): (u8, i64, i64) = match *op {
        AlOp::Get => (TAG_GET, 0, 0),
        AlOp::SetTo(v) => (TAG_SET, v, 0),
        AlOp::GetAndSet(v) => (TAG_GET_AND_SET, v, 0),
        AlOp::AddAndGet(d) => (TAG_ADD_AND_GET, d, 0),
        AlOp::GetAndAdd(d) => (TAG_GET_AND_ADD, d, 0),
        AlOp::CompareAndSet(e, n) => (TAG_COMPARE_AND_SET, e, n),
    };
    let mut buf: Vec<u8> = Vec::new();
    buf.push(tag);
    put_i64(&mut buf, a);
    put_i64(&mut buf, b);
    put_slice(&mut buf, text_bytes(name));
    assert(buf@ =~= command_bytes(name@, *op));
    buf
}

/// Decodes a command that [`encode`] produced.
pub fn decode(bytes: &[u8]) -> (r: Option<(String, AlOp)>)
    ensures
        match r {
            Some((name, op)) => command_of(bytes@) == Some((name@, op)),
            None => command_of(bytes@) is None,
        },
{
    if bytes.len() < 17 {
        return None;
    }
    let tag: u8 = bytes[0];
    let a: i64 = get_i64(bytes, 1);
    let b: i64 = get_i64(bytes, 9);
    let tail = slice_subrange(bytes, 17, bytes.len());
    assert(tail@ =~= bytes@.skip(17));
    let name = match parse_text(tail) {
        Some(name) => name,
        None => {
            return None;
        },
    };
    let op = match tag {
        TAG_GET => AlOp::Get,
        TAG_SET => AlOp::SetTo(a),
        TAG_GET_AND_SET => AlOp::GetAndSet(a),
        TAG_ADD_AND_GET => AlOp::AddAndGet(a),
        TAG_GET_AND_ADD => AlOp::GetAndAdd(a),
        TAG_COMPARE_AND_SET => AlOp::CompareAndSet(a, b),
        _ => {
            return None;
        },
    };
    Some((name, op))
}

/// The replicated AtomicLong state machine.
pub struct AtomicLongSm {
    values: Table<String, i64>,
}

impl View for AtomicLongSm {
    type V = Map<Seq<char>, i64>;

    closed spec fn view(&self) -> Map<Seq<char>, i64> {
        self.values@
    }
}

impl Default for AtomicLongSm {
    fn default() -> (s: AtomicLongSm)
        ensures
            s@ == Map::<Seq<char>, i64>::empty(),
    {
        AtomicLongSm::new()
    }
}

impl AtomicLongSm {
    pub fn new() -> (s: AtomicLongSm)
        ensures
            s@ == Map::<Seq<char>, i64>::empty(),
    {
        AtomicLongSm { values: Table::new() }
    }

    /// Applies a committed command. Unknown commands do nothing.
    pub fn apply(&mut self, command: &[u8]) -> (r: AlReply)
        ensures
            (final(self)@, r) == applied(old(self)@, command@),
    {
        let (name, op) = match decode(command) {
            Some(c) => c,
            None => {
                return AlReply::Nil;
            },
        };
        let v: i64 = match self.values.get(&name) {
            Some(v) => *v,
            None => 0,
        };
        let (n, reply): (i64, AlReply) = match op {
            AlOp::Get => (v, AlReply::Long(v)),
            AlOp::SetTo(n) => (n, AlReply::Nil),
            AlOp::GetAndSet(n) => (n, AlReply::Long(v)),
            AlOp::AddAndGet(d) => (v.wrapping_add(d), AlReply::Long(v.wrapping_add(d))),
            AlOp::GetAndAdd(d) => (v.wrapping_add(d), AlReply::Long(v)),
            AlOp::CompareAndSet(e, n) => if v == e {
                (n, AlReply::Bool(true))
            } else {
                (v, AlReply::Bool(false))
            },
        };
        self.values.insert(name, n);
        reply
    }

    /// Current value of `name` (0 if it was never set).
    pub fn get(&self, name: &str) -> (v: i64)
        ensures
            v == value_of(self@, name@),
    {
        match self.values.get(&name.to_string()) {
            Some(v) => *v,
            None => 0,
        }
    }
}

/// A command decodes to what it was encoded from.
pub proof fn law_commands_read_back(name: Seq<char>, op: AlOp)
    ensures
        command_of(command_bytes(name, op)) == Some((name, op)),
{
    broadcast use lemma_le_digits_len;

    let (tag, a, b) = op_fields(op);
    let c = command_bytes(name, op);
    lemma_ints_read_back(0, 0, 0, 0, a);
    lemma_ints_read_back(0, 0, 0, 0, b);
    lemma_text_reads_back(name);
    assert(c.subrange(1, 9) =~= i64_le(a));
    assert(c.subrange(9, 17) =~= i64_le(b));
    assert(c.skip(17) =~= encode_utf8(name));
}

/// A command on one name leaves every other value alone.
pub proof fn law_keys_are_independent(
    m: Map<Seq<char>, i64>,
    name: Seq<char>,
    op: AlOp,
    other: Seq<char>,
)
    requires
        other != name,
    ensures
        value_of(applied(m, command_bytes(name, op)).0, other) == value_of(m, other),
{
    law_commands_read_back(name, op);
}

/// What a command on a name replies.
pub open spec fn reply_to(m: Map<Seq<char>, i64>, name: Seq<char>, op: AlOp) -> AlReply {
    applied(m, command_bytes(name, op)).1
}

/// The values after a command on a name.
pub open spec fn after(m: Map<Seq<char>, i64>, name: Seq<char>, op: AlOp) -> Map<Seq<char>, i64> {
    applied(m, command_bytes(name, op)).0
}

/// A counter reads as it was last written, and as 0 before that; an exchange replies what was read
/// before it, and a read leaves what is read.
pub proof fn law_reads_give_back_writes(m: Map<Seq<char>, i64>, name: Seq<char>, v: i64)
    ensures
        reply_to(after(m, name, AlOp::SetTo(v)), name, AlOp::Get) == AlReply::Long(v),
        reply_to(after(m, name, AlOp::GetAndSet(v)), name, AlOp::Get) == AlReply::Long(v),
        reply_to(after(m, name, AlOp::Get), name, AlOp::Get) == reply_to(m, name, AlOp::Get),
        reply_to(m, name, AlOp::GetAndSet(v)) == reply_to(m, name, AlOp::Get),
        reply_to(m, name, AlOp::SetTo(v)) == AlReply::Nil,
        reply_to(Map::empty(), name, AlOp::Get) == AlReply::Long(0),
        reply_to(m, name, AlOp::Get) == AlReply::Long(value_of(m, name)),
{
    law_commands_read_back(name, AlOp::SetTo(v));
    law_commands_read_back(name, AlOp::GetAndSet(v));
    law_commands_read_back(name, AlOp::Get);
}

/// Adding adds: add-and-get replies the sum and get-and-add what was there, and both leave the sum
/// to be read. A sum beyond an `i64` wraps around.
pub proof fn law_additions_add(m: Map<Seq<char>, i64>, name: Seq<char>, v: i64, d: i64, sum: i64)
    requires
        reply_to(m, name, AlOp::Get) == AlReply::Long(v),
        sum == v + d || sum == v + d - 0x1_0000_0000_0000_0000 || sum == v + d
            + 0x1_0000_0000_0000_0000,
    ensures
        reply_to(m, name, AlOp::AddAndGet(d)) == AlReply::Long(sum),
        reply_to(m, name, AlOp::GetAndAdd(d)) == AlReply::Long(v),
        reply_to(after(m, name, AlOp::AddAndGet(d)), name, AlOp::Get) == AlReply::Long(sum),
        reply_to(after(m, name, AlOp::GetAndAdd(d)), name, AlOp::Get) == AlReply::Long(sum),
{
    law_commands_read_back(name, AlOp::Get);
    law_commands_read_back(name, AlOp::AddAndGet(d));
    law_commands_read_back(name, AlOp::GetAndAdd(d));
}

/// Compare-and-set writes if and only if the counter reads as expected, and says whether it did.
pub proof fn law_compare_and_set_writes_on_a_match(
    m: Map<Seq<char>, i64>,
    name: Seq<char>,
    expected: i64,
    update: i64,
)
    ensures
        ({
            let op = AlOp::CompareAndSet(expected, update);
            let read = reply_to(m, name, AlOp::Get);
            let then_read = reply_to(after(m, name, op), name, AlOp::Get);
            if read == AlReply::Long(expected) {
                reply_to(m, name, op) == AlReply::Bool(true) && then_read == AlReply::Long(update)
            } else {
                reply_to(m, name, op) == AlReply::Bool(false) && then_read == read
            }
        }),
{
    law_commands_read_back(name, AlOp::CompareAndSet(expected, update));
    law_commands_read_back(name, AlOp::Get);
}

/// The bytes of commands: a tag, two arguments, the name.
pub proof fn law_command_layout(name: Seq<char>, a: i64, b: i64)
    ensures
        command_bytes(name, AlOp::Get) == seq![0u8] + i64_le(0) + i64_le(0) + encode_utf8(name),
        command_bytes(name, AlOp::SetTo(a)) == seq![1u8] + i64_le(a) + i64_le(0) + encode_utf8(
            name,
        ),
        command_bytes(name, AlOp::GetAndSet(a)) == seq![2u8] + i64_le(a) + i64_le(0) + encode_utf8(
            name,
        ),
        command_bytes(name, AlOp::AddAndGet(a)) == seq![3u8] + i64_le(a) + i64_le(0) + encode_utf8(
            name,
        ),
        command_bytes(name, AlOp::GetAndAdd(a)) == seq![4u8] + i64_le(a) + i64_le(0) + encode_utf8(
            name,
        ),
        command_bytes(name, AlOp::CompareAndSet(a, b)) == seq![5u8] + i64_le(a) + i64_le(b)
            + encode_utf8(name),
{
}

} // verus!
