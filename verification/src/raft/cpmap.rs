//! `CPMap`: a linearizable key/value map as a deterministic replicated state machine. Keys and
//! values are opaque bytes; each name has a keyspace of its own.

use vstd::prelude::*;
use vstd::utf8::encode_utf8;
use super::reply::{copy_opt, same_opt, CpReply, ReplyView};
use crate::model::opt_view;
use crate::table::Table;
use crate::text::text_bytes;
use crate::wire::{
    blob32, lemma_read_blob32, lemma_read_text32, lemma_stands_split, lemma_stands_whole,
    put_blob32, read_blob32, read_text32, stands_at, take_blob32, take_text32, text32,
};

verus! {

pub const TAG_GET: u8 = 0;

pub const TAG_PUT: u8 = 1;

pub const TAG_SET: u8 = 2;

pub const TAG_PUT_IF_ABSENT: u8 = 3;

pub const TAG_REMOVE: u8 = 4;

pub const TAG_REMOVE_IF_EQ: u8 = 5;

pub const TAG_REPLACE: u8 = 6;

pub const TAG_CAS: u8 = 7;

pub const TAG_CONTAINS: u8 = 8;

pub const TAG_SIZE: u8 = 9;

pub const TAG_CLEAR: u8 = 10;

#[derive(Clone, Debug, PartialEq, Eq)]
pub enum MapOp {
    Get(Vec<u8>),
    Put(Vec<u8>, Vec<u8>),
    SetTo(Vec<u8>, Vec<u8>),
    PutIfAbsent(Vec<u8>, Vec<u8>),
    Remove(Vec<u8>),
    RemoveIfEquals(Vec<u8>, Vec<u8>),
    Replace(Vec<u8>, Vec<u8>),
    /// Key, expected value, new value.
    CompareAndSet(Vec<u8>, Vec<u8>, Vec<u8>),
    ContainsKey(Vec<u8>),
    Size,
    Clear,
}

/// What a [`MapOp`] holds.
pub enum MapOpView {
    Get(Seq<u8>),
    Put(Seq<u8>, Seq<u8>),
    SetTo(Seq<u8>, Seq<u8>),
    PutIfAbsent(Seq<u8>, Seq<u8>),
    Remove(Seq<u8>),
    RemoveIfEquals(Seq<u8>, Seq<u8>),
    Replace(Seq<u8>, Seq<u8>),
    CompareAndSet(Seq<u8>, Seq<u8>, Seq<u8>),
    ContainsKey(Seq<u8>),
    Size,
    Clear,
}

impl View for MapOp {
    type V = MapOpView;

    open spec fn view(&self) -> MapOpView {
        match self {
            MapOp::Get(k) => MapOpView::Get(k@),
            MapOp::Put(k, v) => MapOpView::Put(k@, v@),
            MapOp::SetTo(k, v) => MapOpView::SetTo(k@, v@),
            MapOp::PutIfAbsent(k, v) => MapOpView::PutIfAbsent(k@, v@),
            MapOp::Remove(k) => MapOpView::Remove(k@),
            MapOp::RemoveIfEquals(k, v) => MapOpView::RemoveIfEquals(k@, v@),
            MapOp::Replace(k, v) => MapOpView::Replace(k@, v@),
            MapOp::CompareAndSet(k, e, n) => MapOpView::CompareAndSet(k@, e@, n@),
            MapOp::ContainsKey(k) => MapOpView::ContainsKey(k@),
            MapOp::Size => MapOpView::Size,
            MapOp::Clear => MapOpView::Clear,
        }
    }
}

/// The tag of an op.
pub open spec fn op_tag(op: MapOpView) -> u8 {
    match op {
        MapOpView::Get(_) => TAG_GET,
        MapOpView::Put(..) => TAG_PUT,
        MapOpView::SetTo(..) => TAG_SET,
        MapOpView::PutIfAbsent(..) => TAG_PUT_IF_ABSENT,
        MapOpView::Remove(_) => TAG_REMOVE,
        MapOpView::RemoveIfEquals(..) => TAG_REMOVE_IF_EQ,
        MapOpView::Replace(..) => TAG_REPLACE,
        MapOpView::CompareAndSet(..) => TAG_CAS,
        MapOpView::ContainsKey(_) => TAG_CONTAINS,
        MapOpView::Size => TAG_SIZE,
        MapOpView::Clear => TAG_CLEAR,
    }
}

/// The arguments of an op, in order.
pub open spec fn op_args(op: MapOpView) -> Seq<Seq<u8>> {
    match op {
        MapOpView::Get(k) => seq![k],
        MapOpView::Put(k, v) => seq![k, v],
        MapOpView::SetTo(k, v) => seq![k, v],
        MapOpView::PutIfAbsent(k, v) => seq![k, v],
        MapOpView::Remove(k) => seq![k],
        MapOpView::RemoveIfEquals(k, v) => seq![k, v],
        MapOpView::Replace(k, v) => seq![k, v],
        MapOpView::CompareAndSet(k, e, n) => seq![k, e, n],
        MapOpView::ContainsKey(k) => seq![k],
        MapOpView::Size => Seq::empty(),
        MapOpView::Clear => Seq::empty(),
    }
}

/// How many arguments follow a tag; none for an unknown tag.
pub open spec fn arity(tag: u8) -> Option<nat> {
    if tag == TAG_SIZE || tag == TAG_CLEAR {
        Some(0)
    } else if tag == TAG_GET || tag == TAG_REMOVE || tag == TAG_CONTAINS {
        Some(1)
    } else if tag == TAG_CAS {
        Some(3)
    } else if tag == TAG_PUT || tag == TAG_SET || tag == TAG_PUT_IF_ABSENT || tag
        == TAG_REMOVE_IF_EQ || tag == TAG_REPLACE {
        Some(2)
    } else {
        None
    }
}

/// The op with a tag and its arguments.
pub open spec fn op_of(tag: u8, a: Seq<Seq<u8>>) -> MapOpView {
    if tag == TAG_GET {
        MapOpView::Get(a[0])
    } else if tag == TAG_PUT {
        MapOpView::Put(a[0], a[1])
    } else if tag == TAG_SET {
        MapOpView::SetTo(a[0], a[1])
    } else if tag == TAG_PUT_IF_ABSENT {
        MapOpView::PutIfAbsent(a[0], a[1])
    } else if tag == TAG_REMOVE {
        MapOpView::Remove(a[0])
    } else if tag == TAG_REMOVE_IF_EQ {
        MapOpView::RemoveIfEquals(a[0], a[1])
    } else if tag == TAG_REPLACE {
        MapOpView::Replace(a[0], a[1])
    } else if tag == TAG_CAS {
        MapOpView::CompareAndSet(a[0], a[1], a[2])
    } else if tag == TAG_CONTAINS {
        MapOpView::ContainsKey(a[0])
    } else if tag == TAG_SIZE {
        MapOpView::Size
    } else {
        MapOpView::Clear
    }
}

/// The bytes of a list of arguments, each behind its length.
pub open spec fn args_bytes(a: Seq<Seq<u8>>) -> Seq<u8>
    decreases a.len(),
{
    if a.len() == 0 {
        Seq::empty()
    } else {
        args_bytes(a.drop_last()) + blob32(a.last())
    }
}

/// `n` arguments at `p`, and the position behind them.
pub open spec fn read_args(b: Seq<u8>, p: int, n: nat) -> Option<(Seq<Seq<u8>>, int)>
    decreases n,
{
    if n == 0 {
        Some((Seq::empty(), p))
    } else {
        match read_args(b, p, (n - 1) as nat) {
            Some((a, q)) => match read_blob32(b, q) {
                Some((x, r)) => Some((a.push(x), r)),
                None => None,
            },
            None => None,
        }
    }
}

/// The command body `[tag][name][args...]`.
pub open spec fn command_bytes(name: Seq<char>, op: MapOpView) -> Seq<u8> {
    seq![op_tag(op)] + text32(name) + args_bytes(op_args(op))
}

/// What a command body says.
pub open spec fn command_of(b: Seq<u8>) -> Option<(Seq<char>, MapOpView)> {
    if b.len() == 0 {
        None
    } else {
        match (read_text32(b, 1), arity(b[0])) {
            (Some((name, p)), Some(n)) => match read_args(b, p, n) {
                Some((a, q)) => Some((name, op_of(b[0], a))),
                None => None,
            },
            _ => None,
        }
    }
}

/// One keyspace.
pub type Keyspace = Map<Seq<u8>, Seq<u8>>;

pub open spec fn value_of(m: Keyspace, k: Seq<u8>) -> Option<Seq<u8>> {
    if m.contains_key(k) {
        Some(m[k])
    } else {
        None
    }
}

/// The keyspace and the reply after an op.
pub open spec fn op_result(m: Keyspace, op: MapOpView) -> (Keyspace, ReplyView) {
    match op {
        MapOpView::Get(k) => (m, ReplyView::Data(value_of(m, k))),
        MapOpView::Put(k, v) => (m.insert(k, v), ReplyView::Data(value_of(m, k))),
        MapOpView::SetTo(k, v) => (m.insert(k, v), ReplyView::Nil),
        MapOpView::PutIfAbsent(k, v) => (
            if m.contains_key(k) {
                m
            } else {
                m.insert(k, v)
            },
            ReplyView::Data(value_of(m, k)),
        ),
        MapOpView::Remove(k) => (m.remove(k), ReplyView::Data(value_of(m, k))),
        MapOpView::RemoveIfEquals(k, v) => if value_of(m, k) == Some(v) {
            (m.remove(k), ReplyView::Bool(true))
        } else {
            (m, ReplyView::Bool(false))
        },
        MapOpView::Replace(k, v) => (
            if m.contains_key(k) {
                m.insert(k, v)
            } else {
                m
            },
            ReplyView::Data(value_of(m, k)),
        ),
        MapOpView::CompareAndSet(k, e, n) => if value_of(m, k) == Some(e) {
            (m.insert(k, n), ReplyView::Bool(true))
        } else {
            (m, ReplyView::Bool(false))
        },
        MapOpView::ContainsKey(k) => (m, ReplyView::Bool(m.contains_key(k))),
        MapOpView::Size => (m, ReplyView::Long(m.dom().len() as i64)),
        MapOpView::Clear => (Map::empty(), ReplyView::Nil),
    }
}

pub open spec fn keyspace_of(maps: Map<Seq<char>, Keyspace>, name: Seq<char>) -> Keyspace {
    if maps.contains_key(name) {
        maps[name]
    } else {
        Map::empty()
    }
}

/// The maps and the reply after a command; an unknown command does nothing.
pub open spec fn applied(maps: Map<Seq<char>, Keyspace>, body: Seq<u8>) -> (
    Map<Seq<char>, Keyspace>,
    ReplyView,
) {
    match command_of(body) {
        None => (maps, ReplyView::Nil),
        Some((name, op)) => {
            let r = op_result(keyspace_of(maps, name), op);
            (maps.insert(name, r.0), r.1)
        },
    }
}

/// Encodes a `[tag][name][args...]` command body.
pub fn encode(name: &str, op: &MapOp) -> (b: Vec<u8>)
    ensures
        b@ == command_bytes(name@, op@),
{
    let mut b: Vec<u8> = Vec::new();
    b.push(
        match op {
            MapOp::Get(_) => TAG_GET,
            MapOp::Put(..) => TAG_PUT,
            MapOp::SetTo(..) => TAG_SET,
            MapOp::PutIfAbsent(..) => TAG_PUT_IF_ABSENT,
            MapOp::Remove(_) => TAG_REMOVE,
            MapOp::RemoveIfEquals(..) => TAG_REMOVE_IF_EQ,
            MapOp::Replace(..) => TAG_REPLACE,
            MapOp::CompareAndSet(..) => TAG_CAS,
            MapOp::ContainsKey(_) => TAG_CONTAINS,
            MapOp::Size => TAG_SIZE,
            MapOp::Clear => TAG_CLEAR,
        },
    );
    put_blob32(&mut b, text_bytes(name));
    let ghost head = b@;
    proof {
        assert(head =~= seq![op_tag(op@)] + text32(name@));
        reveal_with_fuel(args_bytes, 4);
        let a = op_args(op@);
        assert(a.len() > 0 ==> a.drop_last() =~= a.take(a.len() - 1));
        assert(a.len() > 1 ==> a.drop_last().drop_last() =~= a.take(a.len() - 2));
        assert(a.len() > 2 ==> a.drop_last().drop_last().drop_last() =~= a.take(a.len() - 3));
    }
    match op {
        MapOp::Get(k) | MapOp::Remove(k) | MapOp::ContainsKey(k) => {
            put_blob32(&mut b, k.as_slice());
            assert(args_bytes(op_args(op@)) =~= blob32(k@));
        },
        MapOp::Put(k, v)
        | MapOp::SetTo(k, v)
        | MapOp::PutIfAbsent(k, v)
        | MapOp::RemoveIfEquals(k, v)
        | MapOp::Replace(k, v) => {
            put_blob32(&mut b, k.as_slice());
            put_blob32(&mut b, v.as_slice());
            assert(args_bytes(op_args(op@)) =~= blob32(k@) + blob32(v@));
        },
        MapOp::CompareAndSet(k, e, n) => {
            put_blob32(&mut b, k.as_slice());
            put_blob32(&mut b, e.as_slice());
            put_blob32(&mut b, n.as_slice());
            assert(args_bytes(op_args(op@)) =~= blob32(k@) + blob32(e@) + blob32(n@));
        },
        MapOp::Size | MapOp::Clear => {
            assert(args_bytes(op_args(op@)) =~= Seq::empty());
        },
    }
    assert(b@ =~= head + args_bytes(op_args(op@)));
    b
}

pub fn decode(bytes: &[u8]) -> (r: Option<(String, MapOp)>)
    ensures
        match r {
            Some((name, op)) => command_of(bytes@) == Some((name@, op@)),
            None => command_of(bytes@) is None,
        },
{
    if bytes.len() == 0 {
        return None;
    }
    let tag: u8 = bytes[0];
    let mut p: usize = 1;
    let name = match take_text32(bytes, &mut p) {
        Some(name) => name,
        None => {
            return None;
        },
    };
    let n: usize = match tag {
        TAG_SIZE | TAG_CLEAR => 0,
        TAG_GET | TAG_REMOVE | TAG_CONTAINS => 1,
        TAG_PUT | TAG_SET | TAG_PUT_IF_ABSENT | TAG_REMOVE_IF_EQ | TAG_REPLACE => 2,
        TAG_CAS => 3,
        _ => {
            return None;
        },
    };
    proof {
        reveal_with_fuel(read_args, 4);
    }
    if n == 0 {
        return Some((name, if tag == TAG_SIZE {
            MapOp::Size
        } else {
            MapOp::Clear
        }));
    }
    let k = match take_blob32(bytes, &mut p) {
        Some(k) => k,
        None => {
            return None;
        },
    };
    if n == 1 {
        let op = match tag {
            TAG_GET => MapOp::Get(k),
            TAG_REMOVE => MapOp::Remove(k),
            _ => MapOp::ContainsKey(k),
        };
        return Some((name, op));
    }
    let v = match take_blob32(bytes, &mut p) {
        Some(v) => v,
        None => {
            return None;
        },
    };
    if n == 2 {
        let op = match tag {
            TAG_PUT => MapOp::Put(k, v),
            TAG_SET => MapOp::SetTo(k, v),
            TAG_PUT_IF_ABSENT => MapOp::PutIfAbsent(k, v),
            TAG_REMOVE_IF_EQ => MapOp::RemoveIfEquals(k, v),
            _ => MapOp::Replace(k, v),
        };
        return Some((name, op));
    }
    match take_blob32(bytes, &mut p) {
        Some(w) => Some((name, MapOp::CompareAndSet(k, v, w))),
        None => None,
    }
}

/// The replicated CPMap state machine (one keyspace per named map).
pub struct CpMapSm {
    maps: Table<String, Table<Vec<u8>, Vec<u8>>>,
}

impl View for CpMapSm {
    type V = Map<Seq<char>, Keyspace>;

    closed spec fn view(&self) -> Map<Seq<char>, Keyspace> {
        self.maps@
    }
}

impl Default for CpMapSm {
    fn default() -> (s: CpMapSm)
        ensures
            s@ == Map::<Seq<char>, Keyspace>::empty(),
    {
        CpMapSm::new()
    }
}

impl CpMapSm {
    pub fn new() -> (s: CpMapSm)
        ensures
            s@ == Map::<Seq<char>, Keyspace>::empty(),
    {
        CpMapSm { maps: Table::new() }
    }

    /// Applies a committed command. Unknown commands do nothing.
    pub fn apply(&mut self, body: &[u8]) -> (r: CpReply)
        ensures
            (final(self)@, r@) == applied(old(self)@, body@),
    {
        let (name, op) = match decode(body) {
            Some(c) => c,
            None => {
                return CpReply::Nil;
            },
        };
        let ghost maps = self@;
        let mut m: Table<Vec<u8>, Vec<u8>> = match self.maps.remove(&name) {
            Some(m) => m,
            None => Table::new(),
        };
        let reply = apply_op(&mut m, op);
        self.maps.insert(name, m);
        assert(self@ =~= applied(maps, body@).0);
        reply
    }

    /// The value of `key` in the map `name`.
    pub fn get(&self, name: &str, key: &[u8]) -> (v: Option<Vec<u8>>)
        ensures
            opt_view(v) == value_of(keyspace_of(self@, name@), key@),
    {
        match self.maps.get(&name.to_string()) {
            Some(m) => copy_opt(m.get(&crate::bytes::copy_slice(key))),
            None => None,
        }
    }

    /// How many keys the map `name` has.
    pub fn size(&self, name: &str) -> (n: usize)
        ensures
            n == keyspace_of(self@, name@).dom().len(),
    {
        match self.maps.get(&name.to_string()) {
            Some(m) => m.len(),
            None => 0,
        }
    }
}

fn apply_op(m: &mut Table<Vec<u8>, Vec<u8>>, op: MapOp) -> (r: CpReply)
    ensures
        (final(m)@, r@) == op_result(old(m)@, op@),
{
    match op {
        MapOp::Get(k) => CpReply::Data(copy_opt(m.get(&k))),
        MapOp::Put(k, v) => CpReply::Data(m.insert(k, v)),
        MapOp::SetTo(k, v) => {
            m.insert(k, v);
            CpReply::Nil
        },
        MapOp::PutIfAbsent(k, v) => {
            let existing = copy_opt(m.get(&k));
            if existing.is_none() {
                m.insert(k, v);
            }
            CpReply::Data(existing)
        },
        MapOp::Remove(k) => CpReply::Data(m.remove(&k)),
        MapOp::RemoveIfEquals(k, v) => {
            if same_opt(m.get(&k), Some(&v)) {
                m.remove(&k);
                CpReply::Bool(true)
            } else {
                CpReply::Bool(false)
            }
        },
        MapOp::Replace(k, v) => {
            if m.contains(&k) {
                CpReply::Data(m.insert(k, v))
            } else {
                CpReply::Data(None)
            }
        },
        MapOp::CompareAndSet(k, e, n) => {
            if same_opt(m.get(&k), Some(&e)) {
                m.insert(k, n);
                CpReply::Bool(true)
            } else {
                CpReply::Bool(false)
            }
        },
        MapOp::ContainsKey(k) => CpReply::Bool(m.contains(&k)),
        MapOp::Size => CpReply::Long(m.len() as i64),
        MapOp::Clear => {
            m.clear();
            CpReply::Nil
        },
    }
}

/// Whether the name and every argument are short enough for their length fields.
pub open spec fn fits(name: Seq<char>, op: MapOpView) -> bool {
    &&& encode_utf8(name).len() <= u32::MAX
    &&& forall|i: int|
        0 <= i < op_args(op).len() ==> (#[trigger] op_args(op)[i]).len() <= u32::MAX
}

proof fn lemma_read_args(b: Seq<u8>, p: int, a: Seq<Seq<u8>>)
    requires
        stands_at(b, p, args_bytes(a)),
        forall|i: int| 0 <= i < a.len() ==> (#[trigger] a[i]).len() <= u32::MAX,
    ensures
        read_args(b, p, a.len()) == Some((a, p + args_bytes(a).len())),
    decreases a.len(),
{
    if a.len() > 0 {
        let init = a.drop_last();
        lemma_stands_split(b, p, args_bytes(init), blob32(a.last()));
        assert forall|i: int| 0 <= i < init.len() implies (#[trigger] init[i]).len()
            <= u32::MAX by {
            assert(a[i] == init[i]);
        }
        lemma_read_args(b, p, init);
        assert(a[a.len() - 1] == a.last());
        lemma_read_blob32(b, p + args_bytes(init).len(), a.last());
        assert(init.push(a.last()) =~= a);
    }
}

/// A command decodes to what it was encoded from.
#[verifier::spinoff_prover]
#[verifier::rlimit(40)]
pub proof fn law_commands_read_back(name: Seq<char>, op: MapOpView)
    requires
        fits(name, op),
    ensures
        command_of(command_bytes(name, op)) == Some((name, op)),
{
    let b = command_bytes(name, op);
    let tag = seq![op_tag(op)];
    lemma_stands_whole(b);
    lemma_stands_split(b, 0, tag + text32(name), args_bytes(op_args(op)));
    lemma_stands_split(b, 0, tag, text32(name));
    lemma_read_text32(b, 1, name);
    lemma_read_args(b, (tag + text32(name)).len() as int, op_args(op));
    assert(b[0] == op_tag(op));
}

/// A command on one map leaves every other map alone.
pub proof fn law_maps_are_independent(
    maps: Map<Seq<char>, Keyspace>,
    name: Seq<char>,
    op: MapOpView,
    other: Seq<char>,
)
    requires
        fits(name, op),
        other != name,
    ensures
        keyspace_of(applied(maps, command_bytes(name, op)).0, other) == keyspace_of(maps, other),
{
    law_commands_read_back(name, op);
}

/// What was put is what a read gives back, and no other key of the map changes.
pub proof fn law_reads_give_back_writes(m: Keyspace, k: Seq<u8>, v: Seq<u8>, other: Seq<u8>)
    ensures
        op_result(op_result(m, MapOpView::Put(k, v)).0, MapOpView::Get(k)).1 == ReplyView::Data(
            Some(v),
        ),
        op_result(op_result(m, MapOpView::SetTo(k, v)).0, MapOpView::Get(k)).1 == ReplyView::Data(
            Some(v),
        ),
        op_result(op_result(m, MapOpView::Remove(k)).0, MapOpView::Get(k)).1 == ReplyView::Data(
            None,
        ),
        other != k ==> value_of(op_result(m, MapOpView::Put(k, v)).0, other) == value_of(
            m,
            other,
        ),
        other != k ==> value_of(op_result(m, MapOpView::Remove(k)).0, other) == value_of(m, other),
{
}

/// What a command on a map replies.
#[verifier::opaque]
pub open spec fn reply_to(
    maps: Map<Seq<char>, Keyspace>,
    name: Seq<char>,
    op: MapOpView,
) -> ReplyView {
    applied(maps, command_bytes(name, op)).1
}

/// The maps after a command on a map.
#[verifier::opaque]
pub open spec fn after(maps: Map<Seq<char>, Keyspace>, name: Seq<char>, op: MapOpView) -> Map<
    Seq<char>,
    Keyspace,
> {
    applied(maps, command_bytes(name, op)).0
}

/// What a map reads as under a key.
pub open spec fn read(maps: Map<Seq<char>, Keyspace>, name: Seq<char>, k: Seq<u8>) -> ReplyView {
    reply_to(maps, name, MapOpView::Get(k))
}

/// What a command does to the keyspace that it names.
proof fn lemma_command(maps: Map<Seq<char>, Keyspace>, name: Seq<char>, op: MapOpView)
    requires
        fits(name, op),
    ensures
        reply_to(maps, name, op) == op_result(keyspace_of(maps, name), op).1,
        after(maps, name, op) == maps.insert(name, op_result(keyspace_of(maps, name), op).0),
{
    reveal(reply_to);
    reveal(after);
    law_commands_read_back(name, op);
}

proof fn lemma_then_read(maps: Map<Seq<char>, Keyspace>, name: Seq<char>, op: MapOpView, k: Seq<u8>)
    requires
        fits(name, op),
        k.len() <= u32::MAX,
    ensures
        reply_to(maps, name, op) == op_result(keyspace_of(maps, name), op).1,
        read(after(maps, name, op), name, k) == ReplyView::Data(
            value_of(op_result(keyspace_of(maps, name), op).0, k),
        ),
        read(maps, name, k) == ReplyView::Data(value_of(keyspace_of(maps, name), k)),
{
    lemma_command(maps, name, op);
    lemma_command(maps, name, MapOpView::Get(k));
    lemma_command(after(maps, name, op), name, MapOpView::Get(k));
}

/// Writes are read: a put or a set leaves its value to be read, a remove or a clear leaves
/// nothing, and a put, a put-if-absent, a replace and a remove reply what was read before.
pub proof fn law_map_writes_are_read(
    maps: Map<Seq<char>, Keyspace>,
    name: Seq<char>,
    k: Seq<u8>,
    v: Seq<u8>,
)
    requires
        encode_utf8(name).len() <= u32::MAX,
        k.len() <= u32::MAX,
        v.len() <= u32::MAX,
    ensures
        read(after(maps, name, MapOpView::Put(k, v)), name, k) == ReplyView::Data(Some(v)),
        read(after(maps, name, MapOpView::SetTo(k, v)), name, k) == ReplyView::Data(Some(v)),
        read(after(maps, name, MapOpView::Remove(k)), name, k) == ReplyView::Data(None),
        read(after(maps, name, MapOpView::Clear), name, k) == ReplyView::Data(None),
        read(Map::empty(), name, k) == ReplyView::Data(None),
        read(maps, name, k) == ReplyView::Data(value_of(keyspace_of(maps, name), k)),
        reply_to(maps, name, MapOpView::Put(k, v)) == read(maps, name, k),
        reply_to(maps, name, MapOpView::PutIfAbsent(k, v)) == read(maps, name, k),
        reply_to(maps, name, MapOpView::Replace(k, v)) == read(maps, name, k),
        reply_to(maps, name, MapOpView::Remove(k)) == read(maps, name, k),
        reply_to(maps, name, MapOpView::SetTo(k, v)) == ReplyView::Nil,
        reply_to(maps, name, MapOpView::Clear) == ReplyView::Nil,
{
    lemma_then_read(maps, name, MapOpView::Put(k, v), k);
    lemma_then_read(maps, name, MapOpView::SetTo(k, v), k);
    lemma_then_read(maps, name, MapOpView::Remove(k), k);
    lemma_then_read(maps, name, MapOpView::Clear, k);
    lemma_then_read(maps, name, MapOpView::PutIfAbsent(k, v), k);
    lemma_then_read(maps, name, MapOpView::Replace(k, v), k);
    lemma_command(Map::empty(), name, MapOpView::Get(k));
}

/// Conditional writes write if and only if their condition is read: put-if-absent if nothing is
/// there, replace if something is, remove-if-equals and compare-and-set if the value is the one
/// expected; the last two say whether they did. A write that is not made leaves what was read.
pub proof fn law_conditions_are_read(
    maps: Map<Seq<char>, Keyspace>,
    name: Seq<char>,
    k: Seq<u8>,
    v: Seq<u8>,
    w: Seq<u8>,
)
    requires
        encode_utf8(name).len() <= u32::MAX,
        k.len() <= u32::MAX,
        v.len() <= u32::MAX,
        w.len() <= u32::MAX,
    ensures
        ({
            let old = read(maps, name, k);
            let absent = old == ReplyView::Data(None);
            let equal = old == ReplyView::Data(Some(v));
            let put = MapOpView::PutIfAbsent(k, v);
            let replace = MapOpView::Replace(k, v);
            let remove = MapOpView::RemoveIfEquals(k, v);
            let cas = MapOpView::CompareAndSet(k, v, w);
            &&& read(after(maps, name, put), name, k) == if absent {
                ReplyView::Data(Some(v))
            } else {
                old
            }
            &&& read(after(maps, name, replace), name, k) == if absent {
                old
            } else {
                ReplyView::Data(Some(v))
            }
            &&& reply_to(maps, name, remove) == ReplyView::Bool(equal)
            &&& read(after(maps, name, remove), name, k) == if equal {
                ReplyView::Data(None)
            } else {
                old
            }
            &&& reply_to(maps, name, cas) == ReplyView::Bool(equal)
            &&& read(after(maps, name, cas), name, k) == if equal {
                ReplyView::Data(Some(w))
            } else {
                old
            }
            &&& reply_to(maps, name, MapOpView::ContainsKey(k)) == ReplyView::Bool(!absent)
        }),
{
    lemma_then_read(maps, name, MapOpView::PutIfAbsent(k, v), k);
    lemma_then_read(maps, name, MapOpView::Replace(k, v), k);
    lemma_then_read(maps, name, MapOpView::RemoveIfEquals(k, v), k);
    lemma_then_read(maps, name, MapOpView::CompareAndSet(k, v, w), k);
    lemma_then_read(maps, name, MapOpView::ContainsKey(k), k);
}

/// The key that an op is about; none for those about the whole map.
pub open spec fn key_of(op: MapOpView) -> Option<Seq<u8>> {
    match op {
        MapOpView::Get(k) => Some(k),
        MapOpView::Put(k, _) => Some(k),
        MapOpView::SetTo(k, _) => Some(k),
        MapOpView::PutIfAbsent(k, _) => Some(k),
        MapOpView::Remove(k) => Some(k),
        MapOpView::RemoveIfEquals(k, _) => Some(k),
        MapOpView::Replace(k, _) => Some(k),
        MapOpView::CompareAndSet(k, _, _) => Some(k),
        MapOpView::ContainsKey(k) => Some(k),
        MapOpView::Size => None,
        MapOpView::Clear => None,
    }
}

/// A command on a key leaves every other key of the map, and reads leave all of them.
pub proof fn law_keys_are_independent(
    maps: Map<Seq<char>, Keyspace>,
    name: Seq<char>,
    op: MapOpView,
    other: Seq<u8>,
)
    requires
        fits(name, op),
        other.len() <= u32::MAX,
        !(op is Clear),
        key_of(op) != Some(other) || op is Get || op is ContainsKey,
    ensures
        read(after(maps, name, op), name, other) == read(maps, name, other),
{
    lemma_then_read(maps, name, op, other);
}

/// The size counts the keys that are there: a map that was never touched or was cleared has none,
/// a key that is added counts one more, a key that is overwritten none, a key that is removed one
/// less.
pub proof fn law_sizes_count_keys(
    maps: Map<Seq<char>, Keyspace>,
    name: Seq<char>,
    k: Seq<u8>,
    v: Seq<u8>,
)
    requires
        encode_utf8(name).len() <= u32::MAX,
        k.len() <= u32::MAX,
        v.len() <= u32::MAX,
        keyspace_of(maps, name).dom().finite(),
        keyspace_of(maps, name).dom().len() < i64::MAX,
    ensures
        ({
            let size = reply_to(maps, name, MapOpView::Size)->Long_0;
            let put = reply_to(after(maps, name, MapOpView::Put(k, v)), name, MapOpView::Size);
            let removed = reply_to(after(maps, name, MapOpView::Remove(k)), name, MapOpView::Size);
            let absent = read(maps, name, k) == ReplyView::Data(None);
            &&& reply_to(maps, name, MapOpView::Size) == ReplyView::Long(size)
            &&& size >= 0
            &&& put == ReplyView::Long(
                if absent {
                    (size + 1) as i64
                } else {
                    size
                },
            )
            &&& removed == ReplyView::Long(
                if absent {
                    size
                } else {
                    (size - 1) as i64
                },
            )
            &&& reply_to(after(maps, name, MapOpView::Clear), name, MapOpView::Size)
                == ReplyView::Long(0)
            &&& reply_to(Map::empty(), name, MapOpView::Size) == ReplyView::Long(0)
        }),
{
    let m = keyspace_of(maps, name);
    lemma_command(maps, name, MapOpView::Size);
    lemma_then_read(maps, name, MapOpView::Put(k, v), k);
    lemma_command(maps, name, MapOpView::Put(k, v));
    lemma_command(after(maps, name, MapOpView::Put(k, v)), name, MapOpView::Size);
    lemma_command(maps, name, MapOpView::Remove(k));
    lemma_command(after(maps, name, MapOpView::Remove(k)), name, MapOpView::Size);
    lemma_command(maps, name, MapOpView::Clear);
    lemma_command(after(maps, name, MapOpView::Clear), name, MapOpView::Size);
    lemma_command(Map::empty(), name, MapOpView::Size);
    assert(m.insert(k, v).dom() =~= m.dom().insert(k));
    assert(m.remove(k).dom() =~= m.dom().remove(k));
    assert(Map::<Seq<u8>, Seq<u8>>::empty().dom() =~= Set::empty());
}

/// The bytes of commands: a tag, the name, the arguments, each behind its length.
pub proof fn law_command_layout(name: Seq<char>, k: Seq<u8>, v: Seq<u8>, w: Seq<u8>)
    ensures
        command_bytes(name, MapOpView::Get(k)) == seq![0u8] + text32(name) + blob32(k),
        command_bytes(name, MapOpView::Put(k, v)) == seq![1u8] + text32(name) + blob32(k) + blob32(v),
        command_bytes(name, MapOpView::SetTo(k, v)) == seq![2u8] + text32(name) + blob32(k)
            + blob32(v),
        command_bytes(name, MapOpView::PutIfAbsent(k, v)) == seq![3u8] + text32(name) + blob32(k)
            + blob32(v),
        command_bytes(name, MapOpView::Remove(k)) == seq![4u8] + text32(name) + blob32(k),
        command_bytes(name, MapOpView::RemoveIfEquals(k, v)) == seq![5u8] + text32(name) + blob32(k)
            + blob32(v),
        command_bytes(name, MapOpView::Replace(k, v)) == seq![6u8] + text32(name) + blob32(k)
            + blob32(v),
        command_bytes(name, MapOpView::CompareAndSet(k, v, w)) == seq![7u8] + text32(name) + blob32(
            k,
        ) + blob32(v) + blob32(w),
        command_bytes(name, MapOpView::ContainsKey(k)) == seq![8u8] + text32(name) + blob32(k),
        command_bytes(name, MapOpView::Size) == seq![9u8] + text32(name),
        command_bytes(name, MapOpView::Clear) == seq![10u8] + text32(name),
{
    reveal_with_fuel(args_bytes, 4);
    let a1 = seq![k];
    let a2 = seq![k, v];
    let a3 = seq![k, v, w];
    assert(a1.drop_last() =~= Seq::empty());
    assert(a2.drop_last() =~= a1);
    assert(a3.drop_last() =~= a2);
    assert(args_bytes(a1) =~= blob32(k));
    assert(args_bytes(a2) =~= blob32(k) + blob32(v));
    assert(args_bytes(a3) =~= blob32(k) + blob32(v) + blob32(w));
    let n = text32(name);
    assert(seq![1u8] + n + (blob32(k) + blob32(v)) =~= seq![1u8] + n + blob32(k) + blob32(v));
    assert(seq![2u8] + n + (blob32(k) + blob32(v)) =~= seq![2u8] + n + blob32(k) + blob32(v));
    assert(seq![3u8] + n + (blob32(k) + blob32(v)) =~= seq![3u8] + n + blob32(k) + blob32(v));
    assert(seq![5u8] + n + (blob32(k) + blob32(v)) =~= seq![5u8] + n + blob32(k) + blob32(v));
    assert(seq![6u8] + n + (blob32(k) + blob32(v)) =~= seq![6u8] + n + blob32(k) + blob32(v));
    assert(seq![7u8] + n + (blob32(k) + blob32(v) + blob32(w)) =~= seq![7u8] + n + blob32(k)
        + blob32(v) + blob32(w));
    assert(seq![9u8] + n + Seq::<u8>::empty() =~= seq![9u8] + n);
    assert(seq![10u8] + n + Seq::<u8>::empty() =~= seq![10u8] + n);
}

} // verus!
