//! What recovery makes of a store.
//!
//! The model of a store: a put counts unless the store holds the key with a newer stamp, a remove
//! counts always, and the state of a structure that is not a map is replaced as a whole. When an
//! entry expires is not part of it.

use vstd::prelude::*;
use super::generations::{
    first_segment, generation, is_plan, law_recovery_replays_in_order, recovery_ops, segments_ops,
    WAL_PREFIX,
};
use super::record::{
    aux_payload, law_payloads_read_back, put_payload, remove_payload, RecordType, MAX_PAYLOAD,
};
use super::snapshot::{
    fits, install_ops, law_snapshots_read_back, put_ops, snapshot_bytes, AuxView, SnapshotError,
    StampedView,
};
use super::wal::{
    lemma_records_then, record_op, records_of, replay_ops, segment_bytes, StoreOpView,
};
use crate::bytes::lemma_le_digits_len;
use crate::wire::{blob32, text32};

verus! {

/// A map entry of the store.
pub struct StoredEntry {
    pub value: Seq<u8>,
    pub ttl_ms: u64,
    pub stamp: u64,
}

/// The store: map entries by map and key, other structures by kind and name.
pub struct StoreState {
    pub entries: Map<(Seq<char>, Seq<u8>), StoredEntry>,
    pub aux: Map<(u8, Seq<char>), Seq<u8>>,
}

impl StoreState {
    /// The store after an operation.
    pub open spec fn after(self, op: StoreOpView) -> StoreState {
        match op {
            StoreOpView::PutMerge { map, key, value, ttl_ms, stamp } => {
                let at = (map, key);
                if self.entries.contains_key(at) && self.entries[at].stamp > stamp {
                    self
                } else {
                    StoreState {
                        entries: self.entries.insert(at, StoredEntry { value, ttl_ms, stamp }),
                        ..self
                    }
                }
            },
            StoreOpView::Remove { map, key } => StoreState {
                entries: self.entries.remove((map, key)),
                ..self
            },
            StoreOpView::InstallAux { kind, name, state } => StoreState {
                aux: self.aux.insert((kind, name), state),
                ..self
            },
        }
    }

    /// The store after operations, one after the other.
    pub open spec fn after_all(self, ops: Seq<StoreOpView>) -> StoreState
        decreases ops.len(),
    {
        if ops.len() == 0 {
            self
        } else {
            self.after_all(ops.drop_last()).after(ops.last())
        }
    }

    /// The entry under a key.
    spec fn entry(self, at: (Seq<char>, Seq<u8>)) -> Option<StoredEntry> {
        if self.entries.contains_key(at) {
            Some(self.entries[at])
        } else {
            None
        }
    }

    /// The state of a structure.
    spec fn structure(self, at: (u8, Seq<char>)) -> Option<Seq<u8>> {
        if self.aux.contains_key(at) {
            Some(self.aux[at])
        } else {
            None
        }
    }
}

/// Of two entries the later one, unless the earlier one has a newer stamp.
spec fn newer(a: Option<StoredEntry>, b: Option<StoredEntry>) -> Option<StoredEntry> {
    match (a, b) {
        (_, None) => a,
        (None, _) => b,
        (Some(x), Some(y)) => if x.stamp > y.stamp {
            a
        } else {
            b
        },
    }
}

spec fn removes(ops: Seq<StoreOpView>, at: (Seq<char>, Seq<u8>)) -> bool {
    exists|i: int|
        0 <= i < ops.len() && ((#[trigger] ops[i]) matches StoreOpView::Remove { map, key } && (
        map,
        key,
    ) == at)
}

spec fn nothing() -> StoreState {
    StoreState { entries: Map::empty(), aux: Map::empty() }
}

/// What operations make of an entry: if they remove its key, what was there does not matter; if
/// not, the newest stamp counts.
proof fn lemma_entry_after(s: StoreState, ops: Seq<StoreOpView>, at: (Seq<char>, Seq<u8>))
    ensures
        s.after_all(ops).entry(at) == if removes(ops, at) {
            nothing().after_all(ops).entry(at)
        } else {
            newer(s.entry(at), nothing().after_all(ops).entry(at))
        },
    decreases ops.len(),
{
    if ops.len() == 0 {
        assert(!removes(ops, at));
    } else {
        let rest = ops.drop_last();
        let last = ops.last();
        lemma_entry_after(s, rest, at);
        assert(ops[ops.len() - 1] == last);
        assert(removes(ops, at) == (removes(rest, at) || (last matches StoreOpView::Remove {
            map,
            key,
        } && (map, key) == at))) by {
            if removes(rest, at) {
                let i = choose|i: int|
                    0 <= i < rest.len() && ((#[trigger] rest[i]) matches StoreOpView::Remove {
                        map,
                        key,
                    } && (map, key) == at);
                assert(ops[i] == rest[i]);
            }
            if removes(ops, at) {
                let i = choose|i: int|
                    0 <= i < ops.len() && ((#[trigger] ops[i]) matches StoreOpView::Remove {
                        map,
                        key,
                    } && (map, key) == at);
                if i < rest.len() {
                    assert(rest[i] == ops[i]);
                }
            }
        }
    }
}

/// What operations make of a structure: the last state that they install counts, or else what
/// was there.
proof fn lemma_structure_after(s: StoreState, ops: Seq<StoreOpView>, at: (u8, Seq<char>))
    ensures
        s.after_all(ops).structure(at) == match nothing().after_all(ops).structure(at) {
            Some(x) => Some(x),
            None => s.structure(at),
        },
    decreases ops.len(),
{
    if ops.len() > 0 {
        lemma_structure_after(s, ops.drop_last(), at);
    }
}

/// Replay is idempotent: replaying the same operations once more, such as those that
/// [`super::generations::recover`] reads, changes nothing.
pub proof fn law_replay_is_idempotent(s: StoreState, ops: Seq<StoreOpView>)
    ensures
        s.after_all(ops).after_all(ops) == s.after_all(ops),
{
    let once = s.after_all(ops);
    let twice = once.after_all(ops);
    assert forall|at: (Seq<char>, Seq<u8>)| once.entry(at) == twice.entry(at) by {
        lemma_entry_after(s, ops, at);
        lemma_entry_after(once, ops, at);
    }
    assert forall|at: (u8, Seq<char>)| once.structure(at) == twice.structure(at) by {
        lemma_structure_after(s, ops, at);
        lemma_structure_after(once, ops, at);
    }
    assert(once.entries =~= twice.entries) by {
        assert forall|at: (Seq<char>, Seq<u8>)| #[trigger]
            once.entries.contains_key(at) == twice.entries.contains_key(at) && (
        once.entries.contains_key(at) ==> once.entries[at] == twice.entries[at]) by {
            assert(once.entry(at) == twice.entry(at));
        }
    }
    assert(once.aux =~= twice.aux) by {
        assert forall|at: (u8, Seq<char>)| #[trigger]
            once.aux.contains_key(at) == twice.aux.contains_key(at) && (once.aux.contains_key(at)
                ==> once.aux[at] == twice.aux[at]) by {
            assert(once.structure(at) == twice.structure(at));
        }
    }
}

/// Replaying in two steps, first some of the operations and then the rest, is replaying once.
pub proof fn law_replay_in_pieces(s: StoreState, a: Seq<StoreOpView>, b: Seq<StoreOpView>)
    ensures
        s.after_all(a + b) == s.after_all(a).after_all(b),
    decreases b.len(),
{
    if b.len() == 0 {
        assert(a + b =~= a);
    } else {
        law_replay_in_pieces(s, a, b.drop_last());
        assert((a + b).drop_last() =~= a + b.drop_last());
    }
}

/// A change to the store, as it is logged.
pub enum Change {
    Put { stamp: u64, ttl_ms: u64, map: Seq<char>, key: Seq<u8>, value: Seq<u8> },
    Remove { stamp: u64, map: Seq<char>, key: Seq<u8> },
    Aux { kind: u8, name: Seq<char>, state: Seq<u8> },
}

impl Change {
    /// The record that logs it.
    pub open spec fn record(self) -> (RecordType, Seq<u8>) {
        match self {
            Change::Put { stamp, ttl_ms, map, key, value } => (
                RecordType::MapPut,
                put_payload(stamp, ttl_ms, map, key, value),
            ),
            Change::Remove { stamp, map, key } => (
                RecordType::MapRemove,
                remove_payload(stamp, map, key),
            ),
            Change::Aux { kind, name, state } => (
                RecordType::AuxState,
                aux_payload(kind, name, state),
            ),
        }
    }

    /// What it does to the store.
    pub open spec fn op(self) -> StoreOpView {
        match self {
            Change::Put { stamp, ttl_ms, map, key, value } => StoreOpView::PutMerge {
                map,
                key,
                value,
                ttl_ms,
                stamp,
            },
            Change::Remove { stamp, map, key } => StoreOpView::Remove { map, key },
            Change::Aux { kind, name, state } => StoreOpView::InstallAux { kind, name, state },
        }
    }
}

pub open spec fn records(log: Seq<Change>) -> Seq<(RecordType, Seq<u8>)> {
    Seq::new(log.len(), |i: int| log[i].record())
}

pub open spec fn ops(log: Seq<Change>) -> Seq<StoreOpView> {
    Seq::new(log.len(), |i: int| log[i].op())
}

/// Whether a segment's bytes are the records of a log, and then nothing or what is no intact
/// record.
pub open spec fn is_segment_of(b: Seq<u8>, log: Seq<Change>) -> bool {
    &&& forall|i: int| 0 <= i < log.len() ==> (#[trigger] log[i]).record().1.len() <= MAX_PAYLOAD
    &&& exists|tail: Seq<u8>|
        b == segment_bytes(records(log)) + tail && (#[trigger] records_of(tail)).len() == 0
}

/// All of the logs' changes, in order.
pub open spec fn all_ops(logs: Seq<Seq<Change>>) -> Seq<StoreOpView>
    decreases logs.len(),
{
    if logs.len() == 0 {
        Seq::empty()
    } else {
        all_ops(logs.drop_last()) + ops(logs.last())
    }
}

/// A record says what the change does.
proof fn lemma_change_reads_back(c: Change)
    requires
        c.record().1.len() <= MAX_PAYLOAD,
    ensures
        record_op(c.record()) == Some(c.op()),
{
    broadcast use lemma_le_digits_len;

    match c {
        Change::Put { stamp, ttl_ms, map, key, value } => {
            let p = put_payload(stamp, ttl_ms, map, key, value);
            assert(p.len() == 16 + text32(map).len() + blob32(key).len() + blob32(value).len());
            law_payloads_read_back(stamp, ttl_ms, map, key, value, 0);
        },
        Change::Remove { stamp, map, key } => {
            let p = remove_payload(stamp, map, key);
            assert(p.len() == 8 + text32(map).len() + blob32(key).len());
            law_payloads_read_back(stamp, 0, map, key, Seq::empty(), 0);
        },
        Change::Aux { kind, name, state } => {
            let p = aux_payload(kind, name, state);
            assert(p.len() == 1 + text32(name).len() + blob32(state).len());
            law_payloads_read_back(0, 0, name, Seq::empty(), state, kind);
        },
    }
}

proof fn lemma_logged(log: Seq<Change>)
    requires
        forall|i: int| 0 <= i < log.len() ==> (#[trigger] log[i]).record().1.len() <= MAX_PAYLOAD,
    ensures
        replay_ops(records(log)) == ops(log),
    decreases log.len(),
{
    if log.len() == 0 {
        assert(ops(log) =~= Seq::empty());
    } else {
        let init = log.drop_last();
        assert forall|i: int| 0 <= i < init.len() implies (#[trigger] init[i]).record().1.len()
            <= MAX_PAYLOAD by {
            assert(init[i] == log[i]);
        }
        lemma_logged(init);
        let c = log[log.len() - 1];
        assert(records(log).drop_last() =~= records(init));
        assert(records(log).last() == c.record());
        lemma_change_reads_back(c);
        assert(ops(log) =~= ops(init).push(c.op()));
    }
}

proof fn lemma_logs_replay(segments: Seq<Seq<u8>>, logs: Seq<Seq<Change>>)
    requires
        segments.len() == logs.len(),
        forall|i: int| 0 <= i < logs.len() ==> is_segment_of(segments[i], #[trigger] logs[i]),
    ensures
        segments_ops(segments) == all_ops(logs),
    decreases logs.len(),
{
    if logs.len() > 0 {
        let s = segments.drop_last();
        let l = logs.drop_last();
        assert forall|i: int| 0 <= i < l.len() implies is_segment_of(s[i], #[trigger] l[i]) by {
            assert(l[i] == logs[i]);
        }
        lemma_logs_replay(s, l);
        let b = segments.last();
        let log = logs.last();
        assert(is_segment_of(segments[logs.len() - 1], logs[logs.len() - 1]));
        let tail = choose|tail: Seq<u8>|
            b == segment_bytes(records(log)) + tail && (#[trigger] records_of(tail)).len() == 0;
        let rs = records(log);
        assert forall|i: int| 0 <= i < rs.len() implies (#[trigger] rs[i]).1.len()
            <= MAX_PAYLOAD by {
            assert(log[i].record().1.len() <= MAX_PAYLOAD);
        }
        lemma_records_then(rs, tail);
        assert(rs + records_of(tail) =~= rs);
        lemma_logged(log);
    }
}

/// Recovery gives back what was written. Of a directory that holds the files `names` with
/// `contents`, it reads the newest snapshot and then, oldest first, the segments that the snapshot
/// does not supersede. Where the snapshot was written from `entries` and `aux`, and the segments
/// from `logs`, each perhaps with a record at its end that a crash tore, a store gets those
/// entries, those structures and then those changes in order. Recovering once more changes
/// nothing, and an empty directory leaves the store as it is.
pub proof fn law_recovery_gives_back_what_was_written(
    names: Seq<Seq<char>>,
    contents: Seq<Seq<u8>>,
    snapshot: Option<usize>,
    segments: Seq<usize>,
    entries: Seq<StampedView>,
    aux: Seq<AuxView>,
    logs: Seq<Seq<Change>>,
    store: StoreState,
)
    requires
        contents.len() == names.len() <= usize::MAX,
        is_plan(names, snapshot, segments),
        match snapshot {
            Some(k) => fits(entries, aux) && contents[k as int] == snapshot_bytes(entries, aux),
            None => entries.len() == 0 && aux.len() == 0,
        },
        logs.len() == segments.len(),
        forall|i: int|
            0 <= i < logs.len() ==> is_segment_of(
                contents[segments[i] as int],
                #[trigger] logs[i],
            ),
    ensures
        ({
            let written = put_ops(entries) + install_ops(aux) + all_ops(logs);
            let read = match snapshot {
                Some(k) => Some(contents[k as int]),
                None => None,
            };
            let replayed = Seq::new(segments.len(), |i: int| contents[segments[i] as int]);
            &&& recovery_ops(read, replayed) == Ok::<Seq<StoreOpView>, SnapshotError>(written)
            &&& store.after_all(written).after_all(written) == store.after_all(written)
            &&& names.len() == 0 ==> store.after_all(written) == store
        }),
        forall|k: usize| #[trigger]
            segments.contains(k) <==> k < names.len() && (generation(
                names[k as int],
                WAL_PREFIX@,
            ) matches Some(n) && n >= first_segment(names, snapshot)),
        forall|i: int, j: int|
            0 <= i < j < segments.len() ==> (generation(
                names[(#[trigger] segments[i]) as int],
                WAL_PREFIX@,
            ) matches Some(m) && (generation(
                names[(#[trigger] segments[j]) as int],
                WAL_PREFIX@,
            ) matches Some(n) && m <= n)),
{
    let written = put_ops(entries) + install_ops(aux) + all_ops(logs);
    let replayed = Seq::new(segments.len(), |i: int| contents[segments[i] as int]);
    assert forall|i: int| 0 <= i < logs.len() implies is_segment_of(
        replayed[i],
        #[trigger] logs[i],
    ) by {
        assert(is_segment_of(contents[segments[i] as int], logs[i]));
    }
    lemma_logs_replay(replayed, logs);
    law_replay_is_idempotent(store, written);
    law_recovery_replays_in_order(names, snapshot, segments);
    match snapshot {
        Some(k) => {
            law_snapshots_read_back(entries, aux);
        },
        None => {
            assert(written =~= all_ops(logs));
        },
    }
    if names.len() == 0 {
        if segments.len() > 0 {
            assert(segments.contains(segments[0]));
        }
        assert(written =~= Seq::empty());
    }
}

} // verus!
