//! `IAtomicReference` as a deterministic replicated state machine: a named cell that holds an
//! opaque byte value or null. An absent name is the null reference.

use vstd::prelude::*;
use vstd::slice::slice_subrange;
use vstd::utf8::encode_utf8;
use super::reply::{copy_opt, same_opt, CpReply, ReplyView};
use crate::bytes::{lemma_le_digits_len, put_slice};
use crate::model::opt_view;
use crate::table::Table;
use crate::text::{lemma_text_reads_back, parse_text, text_bytes, text_of};
use crate::wire::{
    blob32, lemma_read_blob32, lemma_read_u8, lemma_stands_split, lemma_stands_whole, put_blob32,
    read_blob32, read_u8, stands_at, take_blob32, take_u8,
};

verus! {

/// An AtomicReference operation. Values are opaque bytes; `None` is the null reference.
#[derive(Clone, Debug, PartialEq, Eq)]
pub enum ArOp {
    Get,
    SetTo(Option<Vec<u8>>),
    GetAndSet(Option<Vec<u8>>),
    /// `(expected, update)`: set to `update` if the current value equals `expected`.
    CompareAndSet(Option<Vec<u8>>, Option<Vec<u8>>),
    Contains(Option<Vec<u8>>),
    IsNull,
    Clear,
}

/// What an [`ArOp`] holds.
pub enum ArOpView {
    Get,
    SetTo(Option<Seq<u8>>),
    GetAndSet(Option<Seq<u8>>),
    CompareAndSet(Option<Seq<u8>>, Option<Seq<u8>>),
    Contains(Option<Seq<u8>>),
    IsNull,
    Clear,
}

impl View for ArOp {
    type V = ArOpView;

    open spec fn view(&self) -> ArOpView {
        match self {
            ArOp::Get => ArOpView::Get,
            ArOp::SetTo(v) => ArOpView::SetTo(opt_view(*v)),
            ArOp::GetAndSet(v) => ArOpView::GetAndSet(opt_view(*v)),
            ArOp::CompareAndSet(e, u) => ArOpView::CompareAndSet(opt_view(*e), opt_view(*u)),
            ArOp::Contains(v) => ArOpView::Contains(opt_view(*v)),
            ArOp::IsNull => ArOpView::IsNull,
            ArOp::Clear => ArOpView::Clear,
        }
    }
}

pub const TAG_GET: u8 = 0;

pub const TAG_SET: u8 = 1;

pub const TAG_GET_AND_SET: u8 = 2;

pub const TAG_COMPARE_AND_SET: u8 = 3;

pub const TAG_CONTAINS: u8 = 4;

pub const TAG_IS_NULL: u8 = 5;

pub const TAG_CLEAR: u8 = 6;

/// The bytes of an optional value: a presence byte, then the value behind its length.
pub open spec fn opt_bytes(v: Option<Seq<u8>>) -> Seq<u8> {
    match v {
        Some(b) => seq![1u8] + blob32(b),
        None => seq![0u8],
    }
}

pub open spec fn read_opt(b: Seq<u8>, p: int) -> Option<(Option<Seq<u8>>, int)> {
    match read_u8(b, p) {
        None => None,
        Some((tag, q)) => if tag == 0 {
            Some((None, q))
        } else {
            match read_blob32(b, q) {
                Some((v, r)) => Some((Some(v), r)),
                None => None,
            }
        },
    }
}

/// The bytes of an op.
pub open spec fn op_bytes(op: ArOpView) -> Seq<u8> {
    match op {
        ArOpView::Get => seq![TAG_GET],
        ArOpView::SetTo(v) => seq![TAG_SET] + opt_bytes(v),
        ArOpView::GetAndSet(v) => seq![TAG_GET_AND_SET] + opt_bytes(v),
        ArOpView::CompareAndSet(e, u) => seq![TAG_COMPARE_AND_SET] + opt_bytes(e) + opt_bytes(u),
        ArOpView::Contains(v) => seq![TAG_CONTAINS] + opt_bytes(v),
        ArOpView::IsNull => seq![TAG_IS_NULL],
        ArOpView::Clear => seq![TAG_CLEAR],
    }
}

/// The op at the start of `b`, and where the name begins.
pub open spec fn read_op(b: Seq<u8>) -> Option<(ArOpView, int)> {
    if b.len() == 0 {
        None
    } else if b[0] == TAG_GET {
        Some((ArOpView::Get, 1))
    } else if b[0] == TAG_SET {
        match read_opt(b, 1) {
            Some((v, p)) => Some((ArOpView::SetTo(v), p)),
            None => None,
        }
    } else if b[0] == TAG_GET_AND_SET {
        match read_opt(b, 1) {
            Some((v, p)) => Some((ArOpView::GetAndSet(v), p)),
            None => None,
        }
    } else if b[0] == TAG_COMPARE_AND_SET {
        match read_opt(b, 1) {
            Some((e, p)) => match read_opt(b, p) {
                Some((u, q)) => Some((ArOpView::CompareAndSet(e, u), q)),
                None => None,
            },
            None => None,
        }
    } else if b[0] == TAG_CONTAINS {
        match read_opt(b, 1) {
            Some((v, p)) => Some((ArOpView::Contains(v), p)),
            None => None,
        }
    } else if b[0] == TAG_IS_NULL {
        Some((ArOpView::IsNull, 1))
    } else if b[0] == TAG_CLEAR {
        Some((ArOpView::Clear, 1))
    } else {
        None
    }
}

/// The command body `[tag][args...][name]`.
pub open spec fn command_bytes(name: Seq<char>, op: ArOpView) -> Seq<u8> {
    op_bytes(op) + encode_utf8(name)
}

/// What a command body says.
pub open spec fn command_of(b: Seq<u8>) -> Option<(Seq<char>, ArOpView)> {
    match read_op(b) {
        None => None,
        Some((op, p)) => match text_of(b.skip(p)) {
            Some(name) => Some((name, op)),
            None => None,
        },
    }
}

pub open spec fn value_of(m: Map<Seq<char>, Seq<u8>>, name: Seq<char>) -> Option<Seq<u8>> {
    if m.contains_key(name) {
        Some(m[name])
    } else {
        None
    }
}

/// The cells with `name` set to `v`.
pub open spec fn stored(m: Map<Seq<char>, Seq<u8>>, name: Seq<char>, v: Option<Seq<u8>>) -> Map<
    Seq<char>,
    Seq<u8>,
> {
    match v {
        Some(b) => m.insert(name, b),
        None => m.remove(name),
    }
}

/// The new value and the reply when `op` meets the value `v`.
pub open spec fn op_result(v: Option<Seq<u8>>, op: ArOpView) -> (Option<Seq<u8>>, ReplyView) {
    match op {
        ArOpView::Get => (v, ReplyView::Data(v)),
        ArOpView::SetTo(n) => (n, ReplyView::Nil),
        ArOpView::GetAndSet(n) => (n, ReplyView::Data(v)),
        ArOpView::CompareAndSet(e, u) => if v == e {
            (u, ReplyView::Bool(true))
        } else {
            (v, ReplyView::Bool(false))
        },
        ArOpView::Contains(x) => (v, ReplyView::Bool(v == x)),
        ArOpView::IsNull => (v, ReplyView::Bool(v is None)),
        ArOpView::Clear => (None, ReplyView::Nil),
    }
}

/// The cells and the reply after a command; an unknown command does nothing.
pub open spec fn applied(m: Map<Seq<char>, Seq<u8>>, body: Seq<u8>) -> (
    Map<Seq<char>, Seq<u8>>,
    ReplyView,
) {
    match command_of(body) {
        None => (m, ReplyView::Nil),
        Some((name, op)) => {
            let r = op_result(value_of(m, name), op);
            (stored(m, name, r.0), r.1)
        },
    }
}

fn put_opt(buf: &mut Vec<u8>, v: &Option<Vec<u8>>)
    ensures
        final(buf)@ == old(buf)@ + opt_bytes(opt_view(*v)),
{
    match v {
        Some(b) => {
            buf.push(1);
            put_blob32(buf, b.as_slice());
        },
        None => {
            buf.push(0);
        },
    }
    assert(buf@ =~= old(buf)@ + opt_bytes(opt_view(*v)));
}

fn get_opt(b: &[u8], p: &mut usize) -> (r: Option<Option<Vec<u8>>>)
    requires
        *old(p) <= b@.len(),
    ensures
        *final(p) <= b@.len(),
        match r {
            Some(v) => read_opt(b@, *old(p) as int) == Some((opt_view(v), *final(p) as int)),
            None => read_opt(b@, *old(p) as int) is None,
        },
{
    let tag: u8 = match take_u8(b, p) {
        Some(t) => t,
        None => {
            return None;
        },
    };
    if tag == 0 {
        return Some(None);
    }
    match take_blob32(b, p) {
        Some(v) => Some(Some(v)),
        None => None,
    }
}

/// Encodes `(name, op)` into a command body: `[tag][args...][name]`.
pub fn encode(name: &str, op: &ArOp) -> (buf: Vec<u8>)
    ensures
        buf@ == command_bytes(name@, op@),
{
    let mut buf: Vec<u8> = Vec::new();
    match op {
        ArOp::Get => buf.push(TAG_GET),
        ArOp::SetTo(v) => {
            buf.push(TAG_SET);
            put_opt(&mut buf, v);
        },
        ArOp::GetAndSet(v) => {
            buf.push(TAG_GET_AND_SET);
            put_opt(&mut buf, v);
        },
        ArOp::CompareAndSet(e, u) => {
            buf.push(TAG_COMPARE_AND_SET);
            put_opt(&mut buf, e);
            put_opt(&mut buf, u);
        },
        ArOp::Contains(v) => {
            buf.push(TAG_CONTAINS);
            put_opt(&mut buf, v);
        },
        ArOp::IsNull => buf.push(TAG_IS_NULL),
        ArOp::Clear => buf.push(TAG_CLEAR),
    }
    assert(buf@ =~= op_bytes(op@));
    put_slice(&mut buf, text_bytes(name));
    buf
}

fn decode_op(body: &[u8], p: &mut usize) -> (r: Option<ArOp>)
    requires
        *old(p) == 1,
        body@.len() >= 1,
    ensures
        *final(p) <= body@.len(),
        match r {
            Some(op) => read_op(body@) == Some((op@, *final(p) as int)),
            None => read_op(body@) is None,
        },
{
    match body[0] {
        TAG_GET => Some(ArOp::Get),
        TAG_SET => match get_opt(body, p) {
            Some(v) => Some(ArOp::SetTo(v)),
            None => None,
        },
        TAG_GET_AND_SET => match get_opt(body, p) {
            Some(v) => Some(ArOp::GetAndSet(v)),
            None => None,
        },
        TAG_COMPARE_AND_SET => match get_opt(body, p) {
            Some(e) => match get_opt(body, p) {
                Some(u) => Some(ArOp::CompareAndSet(e, u)),
                None => None,
            },
            None => None,
        },
        TAG_CONTAINS => match get_opt(body, p) {
            Some(v) => Some(ArOp::Contains(v)),
            None => None,
        },
        TAG_IS_NULL => Some(ArOp::IsNull),
        TAG_CLEAR => Some(ArOp::Clear),
        _ => None,
    }
}

/// Decodes a command body that [`encode`] produced.
pub fn decode(body: &[u8]) -> (r: Option<(String, ArOp)>)
    ensures
        match r {
            Some((name, op)) => command_of(body@) == Some((name@, op@)),
            None => command_of(body@) is None,
        },
{
    if body.len() == 0 {
        return None;
    }
    let mut p: usize = 1;
    let op = match decode_op(body, &mut p) {
        Some(op) => op,
        None => {
            return None;
        },
    };
    let tail = slice_subrange(body, p, body.len());
    assert(tail@ =~= body@.skip(p as int));
    match parse_text(tail) {
        Some(name) => Some((name, op)),
        None => None,
    }
}

/// The replicated AtomicReference state machine.
pub struct AtomicReferenceSm {
    values: Table<String, Vec<u8>>,
}

impl View for AtomicReferenceSm {
    type V = Map<Seq<char>, Seq<u8>>;

    closed spec fn view(&self) -> Map<Seq<char>, Seq<u8>> {
        self.values@
    }
}

impl Default for AtomicReferenceSm {
    fn default() -> (s: AtomicReferenceSm)
        ensures
            s@ == Map::<Seq<char>, Seq<u8>>::empty(),
    {
        AtomicReferenceSm::new()
    }
}

impl AtomicReferenceSm {
    pub fn new() -> (s: AtomicReferenceSm)
        ensures
            s@ == Map::<Seq<char>, Seq<u8>>::empty(),
    {
        AtomicReferenceSm { values: Table::new() }
    }

    /// Applies a committed command. Unknown commands do nothing.
    pub fn apply(&mut self, body: &[u8]) -> (r: CpReply)
        ensures
            (final(self)@, r@) == applied(old(self)@, body@),
    {
        let (name, op) = match decode(body) {
            Some(c) => c,
            None => {
                return CpReply::Nil;
            },
        };
        let ghost before = self@;
        proof {
            let v = value_of(before, name@);
            assert(stored(before, name@, v) =~= before);
        }
        match op {
            ArOp::Get => CpReply::Data(copy_opt(self.values.get(&name))),
            ArOp::SetTo(v) => {
                self.store(name, v);
                CpReply::Nil
            },
            ArOp::GetAndSet(v) => {
                let prev = copy_opt(self.values.get(&name));
                self.store(name, v);
                CpReply::Data(prev)
            },
            ArOp::CompareAndSet(expected, update) => {
                if same_opt(self.values.get(&name), expected.as_ref()) {
                    self.store(name, update);
                    CpReply::Bool(true)
                } else {
                    CpReply::Bool(false)
                }
            },
            ArOp::Contains(v) => CpReply::Bool(same_opt(self.values.get(&name), v.as_ref())),
            ArOp::IsNull => CpReply::Bool(!self.values.contains(&name)),
            ArOp::Clear => {
                self.values.remove(&name);
                CpReply::Nil
            },
        }
    }

    fn store(&mut self, name: String, v: Option<Vec<u8>>)
        ensures
            final(self)@ == stored(old(self)@, name@, opt_view(v)),
    {
        match v {
            Some(b) => {
                self.values.insert(name, b);
            },
            None => {
                self.values.remove(&name);
            },
        }
    }

    /// Current value of `name` (`None` if null or unset).
    pub fn get(&self, name: &str) -> (v: Option<Vec<u8>>)
        ensures
            opt_view(v) == value_of(self@, name@),
    {
        copy_opt(self.values.get(&name.to_string()))
    }
}

/// Whether every value of an op is short enough for its length field.
pub open spec fn fits(op: ArOpView) -> bool {
    match op {
        ArOpView::SetTo(Some(v)) => v.len() <= u32::MAX,
        ArOpView::GetAndSet(Some(v)) => v.len() <= u32::MAX,
        ArOpView::CompareAndSet(e, u) => {
            &&& e matches Some(v) ==> v.len() <= u32::MAX
            &&& u matches Some(v) ==> v.len() <= u32::MAX
        },
        ArOpView::Contains(Some(v)) => v.len() <= u32::MAX,
        _ => true,
    }
}

proof fn lemma_read_opt(b: Seq<u8>, p: int, v: Option<Seq<u8>>)
    requires
        stands_at(b, p, opt_bytes(v)),
        v matches Some(x) ==> x.len() <= u32::MAX,
    ensures
        read_opt(b, p) == Some((v, p + opt_bytes(v).len())),
{
    broadcast use lemma_le_digits_len;

    match v {
        Some(x) => {
            lemma_stands_split(b, p, seq![1u8], blob32(x));
            lemma_read_u8(b, p, 1);
            lemma_read_blob32(b, p + 1, x);
        },
        None => {
            lemma_read_u8(b, p, 0);
        },
    }
}

/// A command decodes to what it was encoded from.
pub proof fn law_commands_read_back(name: Seq<char>, op: ArOpView)
    requires
        fits(op),
    ensures
        command_of(command_bytes(name, op)) == Some((name, op)),
{
    let b = command_bytes(name, op);
    let t = encode_utf8(name);
    lemma_stands_whole(b);
    lemma_stands_split(b, 0, op_bytes(op), t);
    lemma_text_reads_back(name);
    assert(b.skip(op_bytes(op).len() as int) =~= t);
    match op {
        ArOpView::SetTo(v) => {
            lemma_stands_split(b, 0, seq![TAG_SET], opt_bytes(v));
            lemma_read_opt(b, 1, v);
        },
        ArOpView::GetAndSet(v) => {
            lemma_stands_split(b, 0, seq![TAG_GET_AND_SET], opt_bytes(v));
            lemma_read_opt(b, 1, v);
        },
        ArOpView::CompareAndSet(e, u) => {
            let tag = seq![TAG_COMPARE_AND_SET];
            lemma_stands_split(b, 0, tag + opt_bytes(e), opt_bytes(u));
            lemma_stands_split(b, 0, tag, opt_bytes(e));
            lemma_read_opt(b, 1, e);
            lemma_read_opt(b, (1 + opt_bytes(e).len()) as int, u);
        },
        ArOpView::Contains(v) => {
            lemma_stands_split(b, 0, seq![TAG_CONTAINS], opt_bytes(v));
            lemma_read_opt(b, 1, v);
        },
        _ => {},
    }
}

/// A command on one name leaves every other cell alone.
pub proof fn law_keys_are_independent(
    m: Map<Seq<char>, Seq<u8>>,
    name: Seq<char>,
    op: ArOpView,
    other: Seq<char>,
)
    requires
        fits(op),
        other != name,
    ensures
        value_of(applied(m, command_bytes(name, op)).0, other) == value_of(m, other),
{
    law_commands_read_back(name, op);
}

/// What a command on a name replies.
pub open spec fn reply_to(m: Map<Seq<char>, Seq<u8>>, name: Seq<char>, op: ArOpView) -> ReplyView {
    applied(m, command_bytes(name, op)).1
}

/// The cells after a command on a name.
pub open spec fn after(m: Map<Seq<char>, Seq<u8>>, name: Seq<char>, op: ArOpView) -> Map<
    Seq<char>,
    Seq<u8>,
> {
    applied(m, command_bytes(name, op)).0
}

/// A reference reads as it was last written: after a set or a get-and-set it reads as the value
/// written, after a clear it is null, and one that was never touched is null.
pub proof fn law_reads_give_back_writes(
    m: Map<Seq<char>, Seq<u8>>,
    name: Seq<char>,
    v: Option<Seq<u8>>,
)
    requires
        v matches Some(x) ==> x.len() <= u32::MAX,
    ensures
        reply_to(after(m, name, ArOpView::SetTo(v)), name, ArOpView::Get) == ReplyView::Data(v),
        reply_to(after(m, name, ArOpView::GetAndSet(v)), name, ArOpView::Get) == ReplyView::Data(v),
        reply_to(after(m, name, ArOpView::Clear), name, ArOpView::Get) == ReplyView::Data(None),
        reply_to(after(m, name, ArOpView::Clear), name, ArOpView::IsNull) == ReplyView::Bool(true),
        reply_to(Map::empty(), name, ArOpView::Get) == ReplyView::Data(None),
        reply_to(m, name, ArOpView::Get) == ReplyView::Data(value_of(m, name)),
        reply_to(m, name, ArOpView::SetTo(v)) == ReplyView::Nil,
        reply_to(m, name, ArOpView::Clear) == ReplyView::Nil,
        reply_to(m, name, ArOpView::GetAndSet(v)) == reply_to(m, name, ArOpView::Get),
{
    law_commands_read_back(name, ArOpView::SetTo(v));
    law_commands_read_back(name, ArOpView::GetAndSet(v));
    law_commands_read_back(name, ArOpView::Clear);
    law_commands_read_back(name, ArOpView::Get);
    law_commands_read_back(name, ArOpView::IsNull);
}

/// Reads change nothing, and agree: a reference is null exactly if it reads as null, and holds a
/// value exactly if it reads as that value.
pub proof fn law_reads_agree(m: Map<Seq<char>, Seq<u8>>, name: Seq<char>, v: Option<Seq<u8>>)
    requires
        v matches Some(x) ==> x.len() <= u32::MAX,
    ensures
        after(m, name, ArOpView::Get) == m,
        after(m, name, ArOpView::IsNull) == m,
        after(m, name, ArOpView::Contains(v)) == m,
        reply_to(m, name, ArOpView::IsNull) == ReplyView::Bool(
            reply_to(m, name, ArOpView::Get) == ReplyView::Data(None),
        ),
        reply_to(m, name, ArOpView::Contains(v)) == ReplyView::Bool(
            reply_to(m, name, ArOpView::Get) == ReplyView::Data(v),
        ),
{
    law_commands_read_back(name, ArOpView::Get);
    law_commands_read_back(name, ArOpView::IsNull);
    law_commands_read_back(name, ArOpView::Contains(v));
    assert(stored(m, name, value_of(m, name)) =~= m);
}

/// Compare-and-set writes if and only if the reference reads as expected, and says whether it did.
pub proof fn law_compare_and_set_writes_on_a_match(
    m: Map<Seq<char>, Seq<u8>>,
    name: Seq<char>,
    expected: Option<Seq<u8>>,
    update: Option<Seq<u8>>,
)
    requires
        expected matches Some(x) ==> x.len() <= u32::MAX,
        update matches Some(x) ==> x.len() <= u32::MAX,
    ensures
        ({
            let op = ArOpView::CompareAndSet(expected, update);
            let read = reply_to(m, name, ArOpView::Get);
            if read == ReplyView::Data(expected) {
                &&& reply_to(m, name, op) == ReplyView::Bool(true)
                &&& reply_to(after(m, name, op), name, ArOpView::Get) == ReplyView::Data(update)
            } else {
                &&& reply_to(m, name, op) == ReplyView::Bool(false)
                &&& after(m, name, op) == m
            }
        }),
{
    law_commands_read_back(name, ArOpView::CompareAndSet(expected, update));
    law_commands_read_back(name, ArOpView::Get);
    assert(stored(m, name, value_of(m, name)) =~= m);
}

/// The bytes of commands: a tag, the values if there are any, the name.
pub proof fn law_command_layout(name: Seq<char>, v: Option<Seq<u8>>, w: Option<Seq<u8>>, b: Seq<u8>)
    ensures
        command_bytes(name, ArOpView::Get) == seq![0u8] + encode_utf8(name),
        command_bytes(name, ArOpView::SetTo(v)) == seq![1u8] + opt_bytes(v) + encode_utf8(name),
        command_bytes(name, ArOpView::GetAndSet(v)) == seq![2u8] + opt_bytes(v) + encode_utf8(name),
        command_bytes(name, ArOpView::CompareAndSet(v, w)) == seq![3u8] + opt_bytes(v) + opt_bytes(
            w,
        ) + encode_utf8(name),
        command_bytes(name, ArOpView::Contains(v)) == seq![4u8] + opt_bytes(v) + encode_utf8(name),
        command_bytes(name, ArOpView::IsNull) == seq![5u8] + encode_utf8(name),
        command_bytes(name, ArOpView::Clear) == seq![6u8] + encode_utf8(name),
        opt_bytes(None) == seq![0u8],
        opt_bytes(Some(b)) == seq![1u8] + blob32(b),
{
}

} // verus!
