//! Synchronous-backup bookkeeping.
//!
//! [`Pending`] tracks, by operation, how many backup acks remain before the primary may deliver
//! the deferred client response. When the count reaches zero, the response and the client
//! connection are handed back for delivery.
//!
//! [`apply`] is the backup side: what an inbound message asks of the local store. Backups never
//! replicate further.

use vstd::prelude::*;
use super::wire::{Msg, MsgView};
use crate::bytes::copy_slice;
use crate::model::views;
use crate::table::{distinct_keys, map_of, Table};

verus! {

/// A write that awaits acks.
struct PendingOp {
    remaining: u32,
    conn_id: u64,
    response: Vec<u8>,
    /// Ticks since registration.
    age: u32,
}

/// A write that awaits acks: how many, whom to answer and with what, and its age in ticks.
pub struct OpView {
    pub remaining: u32,
    pub conn_id: u64,
    pub response: Seq<u8>,
    pub age: u32,
}

impl View for PendingOp {
    type V = OpView;

    closed spec fn view(&self) -> OpView {
        OpView {
            remaining: self.remaining,
            conn_id: self.conn_id,
            response: self.response@,
            age: self.age,
        }
    }
}

/// The writes that await acks, by operation.
pub struct Pending {
    ops: Table<u64, PendingOp>,
}

impl View for Pending {
    type V = Map<u64, OpView>;

    closed spec fn view(&self) -> Map<u64, OpView> {
        self.ops@
    }
}

/// Whether every write awaits an ack and can grow older.
pub open spec fn sound(ops: Map<u64, OpView>) -> bool {
    forall|id: u64| #[trigger]
        ops.contains_key(id) ==> ops[id].remaining > 0 && ops[id].age < u32::MAX
}

/// A write after one more tick.
pub open spec fn older(op: OpView) -> OpView {
    OpView { age: (op.age + 1) as u32, ..op }
}

/// The writes that a tick leaves: one tick older, and younger than `max_age`.
pub open spec fn after_tick(ops: Map<u64, OpView>, max_age: u32) -> Map<u64, OpView> {
    Map::new(
        |id: u64| ops.contains_key(id) && ops[id].age + 1 < max_age,
        |id: u64| older(ops[id]),
    )
}

/// Whether a list has, for each write that a tick makes too old, its connection and response,
/// once each.
pub open spec fn are_expired(
    out: Seq<(u64, Seq<u8>)>,
    ops: Map<u64, OpView>,
    max_age: u32,
) -> bool {
    exists|ids: Seq<u64>|
        {
            &&& ids.no_duplicates()
            &&& #[trigger] ids.len() == out.len()
            &&& forall|id: u64| #[trigger]
                ids.contains(id) <==> ops.contains_key(id) && ops[id].age + 1 >= max_age
            &&& forall|i: int|
                0 <= i < out.len() ==> #[trigger] out[i] == (
                    ops[ids[i]].conn_id,
                    ops[ids[i]].response,
                )
        }
}

/// Whether one of the first `n` pairs has a key.
spec fn seen_before(pairs: Seq<(u64, OpView)>, n: int, id: u64) -> bool {
    exists|j: int| 0 <= j < n && (#[trigger] pairs[j]).0 == id
}

impl Pending {
    #[verifier::type_invariant]
    spec fn is_sound(&self) -> bool {
        sound(self.ops@)
    }

    pub fn new() -> (p: Pending)
        ensures
            p@ == Map::<u64, OpView>::empty(),
    {
        Pending { ops: Table::new() }
    }

    /// Registers a write that awaits `remaining` acks. If there are none to await, the response is
    /// returned for delivery at once and nothing is stored.
    pub fn register(
        &mut self,
        op_id: u64,
        remaining: u32,
        conn_id: u64,
        response: Vec<u8>,
    ) -> (r: Option<(u64, Vec<u8>)>)
        ensures
            match r {
                Some((c, x)) => remaining == 0 && c == conn_id && x == response && final(self)@
                    == old(self)@,
                None => remaining > 0 && final(self)@ == old(self)@.insert(
                    op_id,
                    OpView { remaining, conn_id, response: response@, age: 0 },
                ),
            },
    {
        if remaining == 0 {
            return Some((conn_id, response));
        }
        proof {
            use_type_invariant(&*self);
        }
        let mut ops: Table<u64, PendingOp> = Table::new();
        std::mem::swap(&mut ops, &mut self.ops);
        ops.insert(op_id, PendingOp { remaining, conn_id, response, age: 0 });
        *self = Pending { ops };
        None
    }

    /// Records one backup ack. With the last ack the write is removed, and its connection and
    /// response are returned for delivery.
    pub fn ack(&mut self, op_id: u64) -> (r: Option<(u64, Vec<u8>)>)
        ensures
            sound(old(self)@),
            final(self)@ == after_ack(old(self)@, op_id),
            match r {
                Some((c, x)) => old(self)@.contains_key(op_id) && old(self)@[op_id].remaining == 1
                    && c == old(self)@[op_id].conn_id && x@ == old(self)@[op_id].response
                    && final(self)@ == old(self)@.remove(op_id),
                None => if old(self)@.contains_key(op_id) {
                    old(self)@[op_id].remaining > 1 && final(self)@ == old(self)@.insert(
                        op_id,
                        OpView {
                            remaining: (old(self)@[op_id].remaining - 1) as u32,
                            ..old(self)@[op_id]
                        },
                    )
                } else {
                    final(self)@ == old(self)@
                },
            },
    {
        proof {
            use_type_invariant(&*self);
        }
        let ghost before = self.ops@;
        let mut ops: Table<u64, PendingOp> = Table::new();
        std::mem::swap(&mut ops, &mut self.ops);
        let mut r: Option<(u64, Vec<u8>)> = None;
        match ops.remove(&op_id) {
            Some(op) => {
                if op.remaining <= 1 {
                    r = Some((op.conn_id, op.response));
                } else {
                    ops.insert(
                        op_id,
                        PendingOp {
                            remaining: op.remaining - 1,
                            conn_id: op.conn_id,
                            response: op.response,
                            age: op.age,
                        },
                    );
                    assert(ops@ =~= before.insert(
                        op_id,
                        OpView {
                            remaining: (before[op_id].remaining - 1) as u32,
                            ..before[op_id]
                        },
                    ));
                }
            },
            None => {
                assert(ops@ =~= before);
            },
        }
        *self = Pending { ops };
        r
    }

    /// Makes every write one tick older, and completes those that have come to `max_age` ticks: a
    /// dead or slow backup must not hold up the primary for ever. Returns what to deliver anyway.
    pub fn sweep_expired(&mut self, max_age: u32) -> (out: Vec<(u64, Vec<u8>)>)
        ensures
            sound(old(self)@),
            final(self)@ == after_tick(old(self)@, max_age),
            are_expired(views(out@), old(self)@, max_age),
    {
        proof {
            use_type_invariant(&*self);
        }
        let ghost before = self.ops@;
        let mut ops: Table<u64, PendingOp> = Table::new();
        std::mem::swap(&mut ops, &mut self.ops);
        let n: usize = ops.len();
        let ghost pairs = ops.pairs();
        let mut kept: Table<u64, PendingOp> = Table::new();
        let mut out: Vec<(u64, Vec<u8>)> = Vec::new();
        let ghost mut ids: Seq<u64> = Seq::empty();
        let mut i: usize = 0;
        while i < n
            invariant
                i <= n,
                n == pairs.len(),
                pairs == ops.pairs(),
                before == ops@,
                before == map_of(pairs),
                distinct_keys(pairs),
                sound(before),
                forall|id: u64| #[trigger]
                    kept@.contains_key(id) <==> before.contains_key(id) && before[id].age + 1
                        < max_age && seen_before(pairs, i as int, id),
                forall|id: u64| #[trigger]
                    kept@.contains_key(id) ==> kept@[id] == older(before[id]),
                ids.no_duplicates(),
                ids.len() == out@.len(),
                forall|id: u64| #[trigger]
                    ids.contains(id) <==> before.contains_key(id) && before[id].age + 1 >= max_age
                        && seen_before(pairs, i as int, id),
                forall|k: int|
                    0 <= k < out@.len() ==> (#[trigger] out@[k])@ == (
                        before[ids[k]].conn_id,
                        before[ids[k]].response,
                    ),
            decreases n - i,
        {
            let (id, op) = ops.pair(i);
            let ghost was_kept = kept@;
            let ghost was_ids = ids;
            let key: u64 = *id;
            assert(before[key] == op@);
            assert(!seen_before(pairs, i as int, key)) by {
                if seen_before(pairs, i as int, key) {
                    let j = choose|j: int| 0 <= j < i && (#[trigger] pairs[j]).0 == key;
                    assert(pairs[j].0 != pairs[i as int].0);
                }
            }
            let age: u32 = op.age + 1;
            if age >= max_age {
                let x = (op.conn_id, copy_slice(op.response.as_slice()));
                out.push(x);
                proof {
                    ids = ids.push(key);
                }
            } else {
                let next = PendingOp {
                    remaining: op.remaining,
                    conn_id: op.conn_id,
                    response: copy_slice(op.response.as_slice()),
                    age,
                };
                kept.insert(key, next);
            }
            proof {
                assert(pairs[i as int].0 == key);
                assert forall|id: u64| #[trigger] seen_before(pairs, i + 1, id) == (seen_before(
                    pairs,
                    i as int,
                    id,
                ) || id == key) by {
                    if seen_before(pairs, i + 1, id) {
                        let j = choose|j: int| 0 <= j < i + 1 && (#[trigger] pairs[j]).0 == id;
                        assert(j == i || seen_before(pairs, i as int, id));
                    }
                }
                if age >= max_age {
                    assert(!was_ids.contains(key));
                    assert forall|a: int, b: int|
                        0 <= a < b < ids.len() implies ids[a] != ids[b] by {
                        if b == was_ids.len() && ids[a] == key {
                            assert(was_ids[a] == key);
                        }
                    }
                    assert forall|id: u64| #[trigger] ids.contains(id) == (was_ids.contains(id)
                        || id == key) by {
                        vstd::seq_lib::lemma_seq_contains_after_push(was_ids, key, id);
                    }
                }
            }
            i = i + 1;
        }
        proof {
            assert forall|id: u64| #[trigger] before.contains_key(id) implies seen_before(
                pairs,
                n as int,
                id,
            ) by {
                assert(map_of(pairs).contains_key(id));
            }
            assert(kept@ =~= after_tick(before, max_age));
            assert(ids.len() == views(out@).len());
            assert(are_expired(views(out@), before, max_age));
        }
        *self = Pending { ops: kept };
        out
    }

    pub fn len(&self) -> (n: usize)
        ensures
            n == self@.dom().len(),
            self@.dom().finite(),
    {
        self.ops.len()
    }

    pub fn is_empty(&self) -> (b: bool)
        ensures
            b == (self@ == Map::<u64, OpView>::empty()),
    {
        let n: usize = self.ops.len();
        proof {
            if n == 0 {
                assert(self@.dom().len() == 0);
                assert(self@ =~= Map::<u64, OpView>::empty());
            }
        }
        n == 0
    }
}

/// What a backup message asks of the local store.
#[derive(Debug, PartialEq, Eq)]
pub enum BackupOp {
    Put { name: String, key: Vec<u8>, value: Vec<u8>, ttl_ms: u64 },
    Remove { name: String, key: Vec<u8> },
}

/// Whether an operation is what a message asks for.
pub open spec fn asks(m: MsgView, op: Option<BackupOp>) -> bool {
    match m {
        MsgView::BackupPut { op_id, name, key, value, ttl_ms } => op matches Some(
            BackupOp::Put { name: n, key: k, value: v, ttl_ms: t },
        ) && n@ == name && k@ == key && v@ == value && t == ttl_ms,
        MsgView::BackupRemove { op_id, name, key } => op matches Some(
            BackupOp::Remove { name: n, key: k },
        ) && n@ == name && k@ == key,
        _ => op is None,
    }
}

/// What an inbound message asks of the local store (backup side).
pub fn apply(msg: &Msg) -> (op: Option<BackupOp>)
    ensures
        asks(msg@, op),
{
    match msg {
        Msg::BackupPut { name, key, value, ttl_ms, .. } => Some(
            BackupOp::Put {
                name: name.clone(),
                key: copy_slice(key.as_slice()),
                value: copy_slice(value.as_slice()),
                ttl_ms: *ttl_ms,
            },
        ),
        Msg::BackupRemove { name, key, .. } => Some(
            BackupOp::Remove { name: name.clone(), key: copy_slice(key.as_slice()) },
        ),
        _ => None,
    }
}

/// What an ack leaves of the writes.
pub open spec fn after_ack(ops: Map<u64, OpView>, id: u64) -> Map<u64, OpView> {
    if !ops.contains_key(id) {
        ops
    } else if ops[id].remaining <= 1 {
        ops.remove(id)
    } else {
        ops.insert(id, OpView { remaining: (ops[id].remaining - 1) as u32, ..ops[id] })
    }
}

/// What `n` acks of one write leave.
pub open spec fn after_acks(ops: Map<u64, OpView>, id: u64, n: nat) -> Map<u64, OpView>
    decreases n,
{
    if n == 0 {
        ops
    } else {
        after_ack(after_acks(ops, id, (n - 1) as nat), id)
    }
}

/// A write that awaits `n` acks stays until the last of them, which delivers it; acks after that
/// find nothing, and other writes are not touched.
pub proof fn law_the_last_ack_delivers(ops: Map<u64, OpView>, id: u64, n: nat, other: u64)
    requires
        ops.contains_key(id),
        ops[id].remaining > 0,
        other != id,
    ensures
        n < ops[id].remaining ==> after_acks(ops, id, n).contains_key(id) && after_acks(
            ops,
            id,
            n,
        )[id].remaining == ops[id].remaining - n,
        n >= ops[id].remaining ==> !after_acks(ops, id, n).contains_key(id),
        after_acks(ops, id, n).contains_key(other) == ops.contains_key(other),
        ops.contains_key(other) ==> after_acks(ops, id, n)[other] == ops[other],
    decreases n,
{
    if n > 0 {
        law_the_last_ack_delivers(ops, id, (n - 1) as nat, other);
    }
}

/// No write outlives `max_age` ticks: one that is `age` ticks old is gone after the tick that
/// makes it that old, and is still there before.
pub proof fn law_writes_expire(ops: Map<u64, OpView>, id: u64, max_age: u32)
    requires
        ops.contains_key(id),
        ops[id].age < u32::MAX,
    ensures
        after_tick(ops, max_age).contains_key(id) == (ops[id].age + 1 < max_age),
        after_tick(ops, max_age).contains_key(id) ==> after_tick(ops, max_age)[id] == older(ops[id]),
{
}

/// A backup message asks for the write that it carries: the same map, key, value and lifetime, or
/// the removal of the same key. No other message asks for anything.
pub proof fn law_backups_repeat_the_write(
    op_id: u64,
    name: Seq<char>,
    key: Seq<u8>,
    value: Seq<u8>,
    ttl_ms: u64,
    index: u32,
    op: Option<BackupOp>,
)
    ensures
        asks(MsgView::BackupPut { op_id, name, key, value, ttl_ms }, op) ==> (op matches Some(
            BackupOp::Put { name: n, key: k, value: v, ttl_ms: t },
        ) && n@ == name && k@ == key && v@ == value && t == ttl_ms),
        asks(MsgView::BackupRemove { op_id, name, key }, op) ==> (op matches Some(
            BackupOp::Remove { name: n, key: k },
        ) && n@ == name && k@ == key),
        asks(MsgView::Ack { op_id }, op) ==> op is None,
        asks(MsgView::Hello { index }, op) ==> op is None,
{
}

/// A sweep gives back each write that has waited for so many ticks, once, with its connection and
/// response, and keeps the others, one tick older.
pub proof fn law_sweeps_give_back_the_expired(
    out: Seq<(u64, Seq<u8>)>,
    ops: Map<u64, OpView>,
    max_age: u32,
    id: u64,
)
    requires
        are_expired(out, ops, max_age),
        sound(ops),
        ops.contains_key(id),
    ensures
        ops[id].age + 1 >= max_age ==> !after_tick(ops, max_age).contains_key(id) && exists|i: int|
            0 <= i < out.len() && #[trigger] out[i] == (ops[id].conn_id, ops[id].response),
        ops[id].age + 1 < max_age ==> after_tick(ops, max_age).contains_key(id) && after_tick(
            ops,
            max_age,
        )[id].age == ops[id].age + 1 && after_tick(ops, max_age)[id].remaining == ops[id].remaining
            && after_tick(ops, max_age)[id].response == ops[id].response && after_tick(
            ops,
            max_age,
        )[id].conn_id == ops[id].conn_id,
{
    let ids = choose|ids: Seq<u64>|
        {
            &&& ids.no_duplicates()
            &&& #[trigger] ids.len() == out.len()
            &&& forall|id: u64| #[trigger]
                ids.contains(id) <==> ops.contains_key(id) && ops[id].age + 1 >= max_age
            &&& forall|i: int|
                0 <= i < out.len() ==> #[trigger] out[i] == (
                    ops[ids[i]].conn_id,
                    ops[ids[i]].response,
                )
        };
    if ops[id].age + 1 >= max_age {
        assert(ids.contains(id));
        let i = choose|i: int| 0 <= i < ids.len() && ids[i] == id;
        assert(out[i] == (ops[id].conn_id, ops[id].response));
    }
}

} // verus!
