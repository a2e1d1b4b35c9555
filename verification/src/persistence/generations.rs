//! Which files of the durability directory count: generations, pruning, and recovery.

use vstd::prelude::*;
use vstd::utf8::encode_utf8;
use super::snapshot::{load_snapshot, snapshot_ops, SnapshotError};
use super::wal::{records_of, replay_ops, replay_segment, StoreOp, StoreOpView};
use crate::model::views;
use crate::number::{digits_of, lemma_digits_spell, number_of, parse_number};
use crate::text::{ascii_chars, is_ascii_bytes, lemma_ascii_text, text_bytes};

verus! {

/// Durability posture.
#[derive(Clone, Copy, Debug, PartialEq, Eq, Structural)]
pub enum Durability {
    /// Persistence disabled.
    Off,
    /// Records are appended and synced off the hot path; the acknowledgement does not wait.
    Async,
    /// The client's acknowledgement waits until the record is synced.
    Sync,
}

/// `b` with ASCII capitals replaced by small letters.
pub open spec fn lower(b: Seq<u8>) -> Seq<u8> {
    Seq::new(
        b.len(),
        |i: int|
            if 0x41 <= b[i] <= 0x5a {
                (b[i] + 0x20) as u8
            } else {
                b[i]
            },
    )
}

pub open spec fn async_word() -> Seq<u8> {
    seq![0x61u8, 0x73, 0x79, 0x6e, 0x63]
}

pub open spec fn sync_word() -> Seq<u8> {
    seq![0x73u8, 0x79, 0x6e, 0x63]
}

/// The posture that a setting names: `async` or `sync` in any case, anything else disables.
pub open spec fn posture(b: Seq<u8>) -> Durability {
    if lower(b) == async_word() {
        Durability::Async
    } else if lower(b) == sync_word() {
        Durability::Sync
    } else {
        Durability::Off
    }
}

fn is_word(b: &[u8], word: &[u8]) -> (r: bool)
    ensures
        r == (lower(b@) == word@),
{
    if b.len() != word.len() {
        return false;
    }
    let mut i: usize = 0;
    while i < b.len()
        invariant
            i <= b@.len(),
            b@.len() == word@.len(),
            forall|j: int| 0 <= j < i ==> lower(b@)[j] == word@[j],
        decreases b@.len() - i,
    {
        let c: u8 = if 0x41 <= b[i] && b[i] <= 0x5a {
            b[i] + 0x20
        } else {
            b[i]
        };
        if c != word[i] {
            assert(lower(b@)[i as int] != word@[i as int]);
            return false;
        }
        i = i + 1;
    }
    assert(lower(b@) =~= word@);
    true
}

impl Durability {
    pub fn parse(s: &str) -> (d: Durability)
        ensures
            d == posture(encode_utf8(s@)),
    {
        let b = text_bytes(s);
        let word_async: [u8; 5] = [0x61, 0x73, 0x79, 0x6e, 0x63];
        let word_sync: [u8; 4] = [0x73, 0x79, 0x6e, 0x63];
        assert(word_async@ =~= async_word());
        assert(word_sync@ =~= sync_word());
        if is_word(b, &word_async) {
            Durability::Async
        } else if is_word(b, &word_sync) {
            Durability::Sync
        } else {
            Durability::Off
        }
    }

    pub fn enabled(self) -> (b: bool)
        ensures
            b == (self != Durability::Off),
    {
        self != Durability::Off
    }
}

/// WAL segment file names: `wal.<n>`.
pub const WAL_PREFIX: &'static str = "wal.";

/// Snapshot file names: `snapshot.<n>`.
pub const SNAPSHOT_PREFIX: &'static str = "snapshot.";

/// The generation in a file name `<prefix><n>`.
pub open spec fn generation_in(name: Seq<u8>, prefix: Seq<u8>) -> Option<u64> {
    if prefix.len() <= name.len() && name.take(prefix.len() as int) == prefix {
        number_of(name.skip(prefix.len() as int))
    } else {
        None
    }
}

pub open spec fn generation(name: Seq<char>, prefix: Seq<char>) -> Option<u64> {
    generation_in(encode_utf8(name), encode_utf8(prefix))
}

/// The generation in a file name `<prefix><n>`.
pub fn generation_of(name: &str, prefix: &str) -> (r: Option<u64>)
    ensures
        r == generation(name@, prefix@),
{
    let n = text_bytes(name);
    let p = text_bytes(prefix);
    if p.len() > n.len() {
        return None;
    }
    let mut i: usize = 0;
    while i < p.len()
        invariant
            i <= p@.len() <= n@.len(),
            n@ == encode_utf8(name@),
            p@ == encode_utf8(prefix@),
            forall|j: int| 0 <= j < i ==> n@[j] == p@[j],
        decreases p@.len() - i,
    {
        if n[i] != p[i] {
            assert(n@.take(p@.len() as int)[i as int] != p@[i as int]);
            return None;
        }
        i = i + 1;
    }
    assert(n@.take(p@.len() as int) =~= p@);
    parse_number(n, p.len())
}

/// Whether `r` lists the files of one kind: their generations and places among `names`, oldest
/// generation first, equal generations in the order of `names`.
pub open spec fn lists(r: Seq<(u64, usize)>, names: Seq<Seq<char>>, prefix: Seq<char>) -> bool {
    &&& forall|i: int, j: int|
        0 <= i < j < r.len() ==> (#[trigger] r[i]).0 < (#[trigger] r[j]).0 || (r[i].0 == r[j].0
            && r[i].1 < r[j].1)
    &&& forall|i: int|
        0 <= i < r.len() ==> (#[trigger] r[i]).1 < names.len() && generation(
            names[r[i].1 as int],
            prefix,
        ) == Some(r[i].0)
    &&& forall|k: int|
        0 <= k < names.len() ==> (generation(#[trigger] names[k], prefix) matches Some(n)
            ==> r.contains((n, k as usize)))
}

/// The files named `<prefix><n>` among `names`: generation and place, oldest first.
pub fn numbered(names: &Vec<String>, prefix: &str) -> (out: Vec<(u64, usize)>)
    ensures
        lists(out@, views(names@), prefix@),
{
    let ghost ns = views(names@);
    let mut out: Vec<(u64, usize)> = Vec::new();
    let mut k: usize = 0;
    while k < names.len()
        invariant
            k <= names@.len(),
            ns == views(names@),
            lists(out@, ns.take(k as int), prefix@),
        decreases names@.len() - k,
    {
        let ghost before = out@;
        let ghost seen = ns.take(k as int);
        let ghost more = ns.take(k + 1);
        assert(more =~= seen.push(names@[k as int]@));
        match generation_of(names[k].as_str(), prefix) {
            Some(n) => {
                let mut at: usize = 0;
                while at < out.len() && out[at].0 <= n
                    invariant
                        at <= out@.len(),
                        out@ == before,
                        forall|j: int| 0 <= j < at ==> (#[trigger] out@[j]).0 <= n,
                    decreases out@.len() - at,
                {
                    at = at + 1;
                }
                out.insert(at, (n, k));
                proof {
                    lemma_listed(before, seen, prefix@, at as int, n, k);
                    assert(out@ == before.insert(at as int, (n, k)));
                }
            },
            None => {
                assert forall|q: int| 0 <= q < more.len() implies (generation(
                    #[trigger] more[q],
                    prefix@,
                ) matches Some(n) ==> before.contains((n, q as usize))) by {
                    if q < k {
                        assert(seen[q] == more[q]);
                    }
                }
                assert forall|i: int| 0 <= i < before.len() implies (#[trigger] before[i]).1
                    < more.len() && generation(more[before[i].1 as int], prefix@) == Some(
                    before[i].0,
                ) by {
                    assert(more[before[i].1 as int] == seen[before[i].1 as int]);
                }
            },
        }
        k = k + 1;
    }
    assert(ns.take(k as int) =~= ns);
    out
}

proof fn lemma_listed(
    r: Seq<(u64, usize)>,
    seen: Seq<Seq<char>>,
    prefix: Seq<char>,
    at: int,
    n: u64,
    k: usize,
)
    requires
        lists(r, seen, prefix),
        seen.len() == k,
        0 <= at <= r.len(),
        forall|j: int| 0 <= j < at ==> (#[trigger] r[j]).0 <= n,
        at < r.len() ==> r[at].0 > n,
    ensures
        forall|name: Seq<char>|
            generation(name, prefix) == Some(n) ==> lists(
                r.insert(at, (n, k)),
                #[trigger] seen.push(name),
                prefix,
            ),
{
    let s = r.insert(at, (n, k));
    assert forall|name: Seq<char>| generation(name, prefix) == Some(n) implies lists(
        s,
        #[trigger] seen.push(name),
        prefix,
    ) by {
        let more = seen.push(name);
        assert forall|i: int, j: int| 0 <= i < j < s.len() implies (#[trigger] s[i]).0 < (
        #[trigger] s[j]).0 || (s[i].0 == s[j].0 && s[i].1 < s[j].1) by {
            let a = if i < at {
                i
            } else {
                i - 1
            };
            let b = if j < at {
                j
            } else {
                j - 1
            };
            if i != at && j != at {
                assert(s[i] == r[a] && s[j] == r[b]);
            } else if i == at {
                assert(s[j] == r[b]);
                assert(b > at ==> r[at].0 < r[b].0 || r[at].0 == r[b].0);
            } else {
                assert(s[i] == r[a]);
                assert(r[a].1 < seen.len());
            }
        }
        assert forall|i: int| 0 <= i < s.len() implies (#[trigger] s[i]).1 < more.len()
            && generation(more[s[i].1 as int], prefix) == Some(s[i].0) by {
            if i != at {
                let a = if i < at {
                    i
                } else {
                    i - 1
                };
                assert(s[i] == r[a]);
                assert(more[r[a].1 as int] == seen[r[a].1 as int]);
            }
        }
        assert forall|q: int| 0 <= q < more.len() implies (generation(
            #[trigger] more[q],
            prefix,
        ) matches Some(g) ==> s.contains((g, q as usize))) by {
            if q < k {
                assert(more[q] == seen[q]);
                if let Some(g) = generation(seen[q], prefix) {
                    let x = choose|x: int| 0 <= x < r.len() && r[x] == (g, q as usize);
                    assert(s[if x < at { x } else { x + 1 }] == (g, q as usize));
                }
            } else {
                assert(s[at] == (n, k));
            }
        }
    }
}

/// Whether `n` is the generation of a segment or snapshot among `names`.
pub open spec fn in_use(names: Seq<Seq<char>>, n: u64) -> bool {
    exists|k: int|
        0 <= k < names.len() && (generation(#[trigger] names[k], WAL_PREFIX@) == Some(n)
            || generation(names[k], SNAPSHOT_PREFIX@) == Some(n))
}

/// The highest generation in use, 0 if there is none. A new segment starts one above, so that it
/// never appends to a file that was replayed.
pub fn latest_generation(names: &Vec<String>) -> (n: u64)
    ensures
        forall|m: u64| #[trigger] in_use(views(names@), m) ==> m <= n,
        n == 0 || in_use(views(names@), n),
{
    let ghost ns = views(names@);
    let total: usize = names.len();
    let w = numbered(names, WAL_PREFIX);
    let s = numbered(names, SNAPSHOT_PREFIX);
    let a: u64 = if w.len() > 0 {
        w[w.len() - 1].0
    } else {
        0
    };
    let b: u64 = if s.len() > 0 {
        s[s.len() - 1].0
    } else {
        0
    };
    let n: u64 = if a > b {
        a
    } else {
        b
    };
    proof {
        assert forall|m: u64| #[trigger] in_use(ns, m) implies m <= n by {
            let k = choose|k: int|
                0 <= k < ns.len() && (generation(#[trigger] ns[k], WAL_PREFIX@) == Some(m)
                    || generation(ns[k], SNAPSHOT_PREFIX@) == Some(m));
            if generation(ns[k], WAL_PREFIX@) == Some(m) {
                assert(w@.contains((m, k as usize)));
                let x = choose|x: int| 0 <= x < w@.len() && w@[x] == (m, k as usize);
                assert(x < w@.len() - 1 ==> w@[x].0 <= w@[w@.len() - 1].0);
            } else {
                assert(s@.contains((m, k as usize)));
                let x = choose|x: int| 0 <= x < s@.len() && s@[x] == (m, k as usize);
                assert(x < s@.len() - 1 ==> s@[x].0 <= s@[s@.len() - 1].0);
            }
        }
        if n != 0 {
            if a > b {
                assert(generation(ns[w@[w@.len() - 1].1 as int], WAL_PREFIX@) == Some(n));
            } else {
                assert(generation(ns[s@[s@.len() - 1].1 as int], SNAPSHOT_PREFIX@) == Some(n));
            }
        }
    }
    n
}

/// Whether a file is a segment or snapshot older than `keep`.
pub open spec fn is_stale(name: Seq<char>, keep: u64) -> bool {
    (generation(name, WAL_PREFIX@) matches Some(n) && n < keep) || (generation(
        name,
        SNAPSHOT_PREFIX@,
    ) matches Some(n) && n < keep)
}

/// The places among `names` of the segments and snapshots with a generation below `keep`, which
/// may be deleted.
pub fn prune_below(names: &Vec<String>, keep: u64) -> (out: Vec<usize>)
    ensures
        forall|k: usize| #[trigger]
            out@.contains(k) <==> k < names@.len() && is_stale(names@[k as int]@, keep),
        out@.no_duplicates(),
{
    let mut out: Vec<usize> = Vec::new();
    let mut k: usize = 0;
    while k < names.len()
        invariant
            k <= names@.len(),
            forall|i: int| 0 <= i < out@.len() ==> (#[trigger] out@[i]) < k,
            forall|q: usize| #[trigger]
                out@.contains(q) <==> q < k && is_stale(names@[q as int]@, keep),
            out@.no_duplicates(),
        decreases names@.len() - k,
    {
        let ghost before = out@;
        let name = names[k].as_str();
        let stale: bool = (match generation_of(name, WAL_PREFIX) {
            Some(n) => n < keep,
            None => false,
        }) || (match generation_of(name, SNAPSHOT_PREFIX) {
            Some(n) => n < keep,
            None => false,
        });
        if stale {
            out.push(k);
            proof {
                assert forall|q: usize| #[trigger] out@.contains(q) == (before.contains(q) || q
                    == k) by {
                    assert(out@[before.len() as int] == k);
                    if before.contains(q) {
                        let x = choose|x: int| 0 <= x < before.len() && before[x] == q;
                        assert(out@[x] == q);
                    }
                }
            }
        }
        k = k + 1;
    }
    out
}

/// Which files recovery reads: the newest snapshot, then the segments it does not supersede.
pub struct RecoveryPlan {
    pub snapshot: Option<usize>,
    pub segments: Vec<usize>,
}

/// Whether `k` is the place of the newest snapshot.
pub open spec fn is_newest_snapshot(names: Seq<Seq<char>>, k: int) -> bool {
    &&& 0 <= k < names.len()
    &&& generation(names[k], SNAPSHOT_PREFIX@) is Some
    &&& forall|j: int|
        0 <= j < names.len() ==> (generation(#[trigger] names[j], SNAPSHOT_PREFIX@) matches Some(m)
            ==> m < generation(names[k], SNAPSHOT_PREFIX@).unwrap() || (m == generation(
            names[k],
            SNAPSHOT_PREFIX@,
        ).unwrap() && j <= k))
}

/// The generation from which on segments count.
pub open spec fn first_segment(names: Seq<Seq<char>>, snapshot: Option<usize>) -> u64 {
    match snapshot {
        Some(k) => generation(names[k as int], SNAPSHOT_PREFIX@).unwrap(),
        None => 0,
    }
}

/// The segments of a listing that count, in order.
pub open spec fn segments_from(r: Seq<(u64, usize)>, first: u64) -> Seq<usize>
    decreases r.len(),
{
    if r.len() == 0 {
        Seq::empty()
    } else {
        let before = segments_from(r.drop_last(), first);
        if r.last().0 < first {
            before
        } else {
            before.push(r.last().1)
        }
    }
}

/// Whether recovery reads these files: the newest snapshot, if there is one, and the segments that
/// count, in order.
pub open spec fn is_plan(
    names: Seq<Seq<char>>,
    snapshot: Option<usize>,
    segments: Seq<usize>,
) -> bool {
    &&& match snapshot {
        Some(k) => is_newest_snapshot(names, k as int),
        None => forall|j: int|
            0 <= j < names.len() ==> generation(#[trigger] names[j], SNAPSHOT_PREFIX@) is None,
    }
    &&& exists|r: Seq<(u64, usize)>| #[trigger]
        lists(r, names, WAL_PREFIX@) && segments == segments_from(
            r,
            first_segment(names, snapshot),
        )
}

/// Decides which files recovery reads.
pub fn plan_recovery(names: &Vec<String>) -> (p: RecoveryPlan)
    ensures
        is_plan(views(names@), p.snapshot, p.segments@),
{
    let ghost ns = views(names@);
    let total: usize = names.len();
    let snaps = numbered(names, SNAPSHOT_PREFIX);
    let n: usize = snaps.len();
    let snapshot: Option<usize> = if n > 0 {
        Some(snaps[n - 1].1)
    } else {
        None
    };
    let first: u64 = if n > 0 {
        snaps[n - 1].0
    } else {
        0
    };
    proof {
        if n > 0 {
            let k = snaps@[n - 1].1 as int;
            assert(generation(ns[k], SNAPSHOT_PREFIX@) == Some(first));
            assert forall|j: int| 0 <= j < ns.len() implies (generation(
                #[trigger] ns[j],
                SNAPSHOT_PREFIX@,
            ) matches Some(m) ==> m < first || (m == first && j <= k)) by {
                if let Some(m) = generation(ns[j], SNAPSHOT_PREFIX@) {
                    assert(snaps@.contains((m, j as usize)));
                    let x = choose|x: int| 0 <= x < snaps@.len() && snaps@[x] == (m, j as usize);
                    if x < n - 1 {
                        assert(snaps@[x].0 < snaps@[n - 1].0 || (snaps@[x].0 == snaps@[n - 1].0
                            && snaps@[x].1 < snaps@[n - 1].1));
                    }
                }
            }
            assert(is_newest_snapshot(ns, k));
        } else {
            assert forall|j: int| 0 <= j < ns.len() implies generation(
                #[trigger] ns[j],
                SNAPSHOT_PREFIX@,
            ) is None by {
                if let Some(m) = generation(ns[j], SNAPSHOT_PREFIX@) {
                    assert(snaps@.contains((m, j as usize)));
                }
            }
        }
    }
    let wals = numbered(names, WAL_PREFIX);
    let mut segments: Vec<usize> = Vec::new();
    let mut i: usize = 0;
    assert(wals@.take(0) =~= Seq::empty());
    while i < wals.len()
        invariant
            i <= wals@.len(),
            segments@ == segments_from(wals@.take(i as int), first),
        decreases wals@.len() - i,
    {
        proof {
            let next = wals@.take(i + 1);
            assert(next.drop_last() =~= wals@.take(i as int));
            assert(next.last() == wals@[i as int]);
        }
        if wals[i].0 >= first {
            segments.push(wals[i].1);
        }
        i = i + 1;
    }
    assert(wals@.take(i as int) =~= wals@);
    RecoveryPlan { snapshot, segments }
}

/// What replaying segments does to the store, in order.
pub open spec fn segments_ops(segments: Seq<Seq<u8>>) -> Seq<StoreOpView>
    decreases segments.len(),
{
    if segments.len() == 0 {
        Seq::empty()
    } else {
        segments_ops(segments.drop_last()) + replay_ops(records_of(segments.last()))
    }
}

/// What recovery does to the store: the snapshot first, then the segments in order.
pub open spec fn recovery_ops(snapshot: Option<Seq<u8>>, segments: Seq<Seq<u8>>) -> Result<
    Seq<StoreOpView>,
    SnapshotError,
> {
    match snapshot {
        None => Ok(segments_ops(segments)),
        Some(d) => match snapshot_ops(d) {
            Ok(ops) => Ok(ops + segments_ops(segments)),
            Err(e) => Err(e),
        },
    }
}

/// What recovery does to the store, given the contents of the newest snapshot and of the segments
/// after it, oldest first.
pub fn recover(snapshot: Option<&Vec<u8>>, segments: &Vec<Vec<u8>>) -> (r: Result<
    Vec<StoreOp>,
    SnapshotError,
>)
    ensures
        ({
            let d = match snapshot {
                Some(s) => Some(s@),
                None => None,
            };
            match r {
                Ok(ops) => recovery_ops(d, views(segments@)) == Ok::<
                    Seq<StoreOpView>,
                    SnapshotError,
                >(views(ops@)),
                Err(e) => recovery_ops(d, views(segments@)) == Err::<
                    Seq<StoreOpView>,
                    SnapshotError,
                >(e),
            }
        }),
{
    let mut ops: Vec<StoreOp> = match snapshot {
        Some(s) => match load_snapshot(s.as_slice()) {
            Ok(ops) => ops,
            Err(e) => {
                return Err(e);
            },
        },
        None => Vec::new(),
    };
    let ghost base = views(ops@);
    let ghost all = views(segments@);
    assert(base + segments_ops(all.take(0)) =~= base);
    let mut i: usize = 0;
    while i < segments.len()
        invariant
            i <= segments@.len(),
            all == views(segments@),
            views(ops@) =~= base + segments_ops(all.take(i as int)),
        decreases segments@.len() - i,
    {
        replay_segment(segments[i].as_slice(), &mut ops);
        proof {
            let next = all.take(i + 1);
            assert(next.drop_last() =~= all.take(i as int));
            assert(next.last() == segments@[i as int]@);
        }
        i = i + 1;
    }
    assert(all.take(i as int) =~= all);
    proof {
        if snapshot is None {
            assert(base =~= Seq::empty());
            assert(views(ops@) =~= segments_ops(all));
        }
    }
    Ok(ops)
}

/// Where the segments that count stand in a listing.
proof fn lemma_segments_from(r: Seq<(u64, usize)>, first: u64)
    ensures
        forall|i: int|
            0 <= i < segments_from(r, first).len() ==> counts(
                r,
                first,
                #[trigger] segments_from(r, first)[i],
            ),
        forall|a: int|
            0 <= a < r.len() && (#[trigger] r[a]).0 >= first ==> segments_from(r, first).contains(
                r[a].1,
            ),
        forall|i: int, j: int|
            0 <= i < j < segments_from(r, first).len() ==> comes_before(
                r,
                #[trigger] segments_from(r, first)[i],
                #[trigger] segments_from(r, first)[j],
            ),
    decreases r.len(),
{
    if r.len() > 0 {
        let init = r.drop_last();
        let n = r.len() - 1;
        let before = segments_from(init, first);
        let all = segments_from(r, first);
        lemma_segments_from(init, first);
        assert forall|i: int| 0 <= i < all.len() implies counts(r, first, #[trigger] all[i]) by {
            if i < before.len() {
                assert(counts(init, first, before[i]));
                let a = choose|a: int|
                    0 <= a < init.len() && (#[trigger] init[a]).0 >= first && init[a].1
                        == before[i];
                assert(r[a] == init[a]);
            } else {
                assert(r[n].1 == all[i]);
            }
        }
        assert forall|a: int| 0 <= a < r.len() && (#[trigger] r[a]).0 >= first implies all.contains(
            r[a].1,
        ) by {
            if a < n {
                assert(init[a] == r[a]);
                let i = choose|i: int| 0 <= i < before.len() && before[i] == r[a].1;
                assert(all[i] == r[a].1);
            } else {
                assert(all[before.len() as int] == r[a].1);
            }
        }
        assert forall|i: int, j: int| 0 <= i < j < all.len() implies comes_before(
            r,
            #[trigger] all[i],
            #[trigger] all[j],
        ) by {
            if j < before.len() {
                assert(comes_before(init, before[i], before[j]));
                let (a, b) = choose|a: int, b: int|
                    0 <= a < b < init.len() && (#[trigger] init[a]).1 == before[i] && (
                    #[trigger] init[b]).1 == before[j];
                assert(r[a] == init[a] && r[b] == init[b]);
            } else {
                assert(counts(init, first, before[i]));
                let a = choose|a: int|
                    0 <= a < init.len() && (#[trigger] init[a]).0 >= first && init[a].1
                        == before[i];
                assert(r[a] == init[a] && r[n].1 == all[j]);
            }
        }
    }
}

spec fn counts(r: Seq<(u64, usize)>, first: u64, k: usize) -> bool {
    exists|a: int| 0 <= a < r.len() && (#[trigger] r[a]).0 >= first && r[a].1 == k
}

spec fn comes_before(r: Seq<(u64, usize)>, j: usize, k: usize) -> bool {
    exists|a: int, b: int|
        0 <= a < b < r.len() && (#[trigger] r[a]).1 == j && (#[trigger] r[b]).1 == k
}

/// A segment counts in recovery exactly if no snapshot of a later generation supersedes it, and
/// segments are replayed in the order of their generations.
pub proof fn law_recovery_replays_in_order(
    names: Seq<Seq<char>>,
    snapshot: Option<usize>,
    segments: Seq<usize>,
)
    requires
        names.len() <= usize::MAX,
        is_plan(names, snapshot, segments),
    ensures
        forall|k: usize| #[trigger]
            segments.contains(k) <==> k < names.len() && (generation(
                names[k as int],
                WAL_PREFIX@,
            ) matches Some(n) && n >= first_segment(names, snapshot)),
        forall|i: int, j: int|
            0 <= i < j < segments.len() ==> (generation(
                names[(#[trigger] segments[i]) as int],
                WAL_PREFIX@,
            ) matches Some(m) && (generation(
                names[(#[trigger] segments[j]) as int],
                WAL_PREFIX@,
            ) matches Some(n) && (m < n || (m == n && segments[i] < segments[j])))),
{
    let first = first_segment(names, snapshot);
    let r = choose|r: Seq<(u64, usize)>| #[trigger]
        lists(r, names, WAL_PREFIX@) && segments == segments_from(r, first);
    lemma_segments_from(r, first);
    assert forall|k: usize| #[trigger] segments.contains(k) <==> k < names.len() && (generation(
        names[k as int],
        WAL_PREFIX@,
    ) matches Some(n) && n >= first) by {
        if segments.contains(k) {
            let i = choose|i: int| 0 <= i < segments.len() && segments[i] == k;
            assert(counts(r, first, segments[i]));
            let a = choose|a: int|
                0 <= a < r.len() && (#[trigger] r[a]).0 >= first && r[a].1 == segments[i];
            assert(generation(names[r[a].1 as int], WAL_PREFIX@) == Some(r[a].0));
        }
        if k < names.len() {
            if let Some(n) = generation(names[k as int], WAL_PREFIX@) {
                assert(r.contains((n, k)));
                let a = choose|a: int| 0 <= a < r.len() && r[a] == (n, k);
                if n >= first {
                    assert(segments.contains(r[a].1));
                }
            }
        }
    }
    assert forall|i: int, j: int| 0 <= i < j < segments.len() implies (generation(
        names[(#[trigger] segments[i]) as int],
        WAL_PREFIX@,
    ) matches Some(m) && (generation(
        names[(#[trigger] segments[j]) as int],
        WAL_PREFIX@,
    ) matches Some(n) && (m < n || (m == n && segments[i] < segments[j])))) by {
        assert(comes_before(r, segments[i], segments[j]));
        let (a, b) = choose|a: int, b: int|
            0 <= a < b < r.len() && (#[trigger] r[a]).1 == segments[i] && (#[trigger] r[b]).1
                == segments[j];
        assert(generation(names[r[a].1 as int], WAL_PREFIX@) == Some(r[a].0));
        assert(generation(names[r[b].1 as int], WAL_PREFIX@) == Some(r[b].0));
    }
}

/// Whether bytes spell a word of small letters, in any case.
pub open spec fn spells(b: Seq<u8>, word: Seq<u8>) -> bool {
    b.len() == word.len() && forall|i: int|
        0 <= i < b.len() ==> #[trigger] b[i] == word[i] || b[i] + 32 == word[i]
}

/// A setting asks to wait for the disk if it spells `sync`, not to wait if it spells `async`, and
/// turns durability off if it spells anything else.
pub proof fn law_settings_are_spelled(b: Seq<u8>)
    ensures
        posture(b) == Durability::Sync <==> spells(b, seq![115u8, 121, 110, 99]),
        posture(b) == Durability::Async <==> spells(b, seq![97u8, 115, 121, 110, 99]),
        posture(b) == Durability::Off <==> !spells(b, seq![115u8, 121, 110, 99]) && !spells(
            b,
            seq![97u8, 115, 121, 110, 99],
        ),
{
    lemma_spells(b, sync_word());
    lemma_spells(b, async_word());
    assert(sync_word().len() == 4 && async_word().len() == 5);
}

proof fn lemma_spells(b: Seq<u8>, word: Seq<u8>)
    requires
        forall|i: int| 0 <= i < word.len() ==> 97 <= #[trigger] word[i] <= 122,
    ensures
        lower(b) == word <==> spells(b, word),
{
    if lower(b) == word {
        assert forall|i: int| 0 <= i < b.len() implies #[trigger] b[i] == word[i] || b[i] + 32
            == word[i] by {
            assert(lower(b)[i] == word[i]);
        }
    }
    if spells(b, word) {
        assert forall|i: int| 0 <= i < b.len() implies lower(b)[i] == #[trigger] word[i] by {
            assert(b[i] == word[i] || b[i] + 32 == word[i]);
        }
        assert(lower(b) =~= word);
    }
}

/// Files are numbered by their names: a prefix and decimal digits. A segment or snapshot is stale
/// exactly if its number is below what is kept.
pub proof fn law_files_are_numbered(n: u64, keep: u64)
    ensures
        ({
            let wal = ascii_chars(seq![119u8, 97, 108, 46] + digits_of(n as nat));
            let snapshot = ascii_chars(
                seq![115u8, 110, 97, 112, 115, 104, 111, 116, 46] + digits_of(n as nat),
            );
            &&& generation(wal, WAL_PREFIX@) == Some(n)
            &&& generation(snapshot, SNAPSHOT_PREFIX@) == Some(n)
            &&& is_stale(wal, keep) <==> n < keep
            &&& is_stale(snapshot, keep) <==> n < keep
        }),
{
    reveal_strlit("wal.");
    reveal_strlit("snapshot.");
    let d = digits_of(n as nat);
    let w = seq![119u8, 97, 108, 46];
    let s = seq![115u8, 110, 97, 112, 115, 104, 111, 116, 46];
    lemma_digits_spell(n as nat);
    assert(ascii_chars(w) =~= WAL_PREFIX@);
    assert(ascii_chars(s) =~= SNAPSHOT_PREFIX@);
    lemma_ascii_text(w);
    lemma_ascii_text(s);
    assert(is_ascii_bytes(w + d));
    assert(is_ascii_bytes(s + d));
    lemma_ascii_text(w + d);
    lemma_ascii_text(s + d);
    assert((w + d).take(4) =~= w);
    assert((w + d).skip(4) =~= d);
    assert((s + d).take(9) =~= s);
    assert((s + d).skip(9) =~= d);
    assert(d[0] != 0x2b);
    assert((s + d).take(4)[0] == 115u8);
    if w.len() + d.len() >= 9 {
        assert((w + d).take(9)[0] == 119u8);
    }
}

/// A number is in use as soon as a segment or a snapshot bears it, whatever other files there are,
/// and no longer than one of them does.
pub proof fn law_numbers_in_use_are_borne(names: Seq<Seq<char>>, n: u64, m: u64)
    ensures
        ({
            let wal = ascii_chars(seq![119u8, 97, 108, 46] + digits_of(n as nat));
            let snapshot = ascii_chars(
                seq![115u8, 110, 97, 112, 115, 104, 111, 116, 46] + digits_of(n as nat),
            );
            &&& in_use(names.push(wal), n)
            &&& in_use(names.push(snapshot), n)
            &&& in_use(names, m) ==> in_use(names.push(wal), m) && in_use(names.push(snapshot), m)
            &&& in_use(names.push(wal), m) && m != n ==> in_use(names, m)
            &&& !in_use(Seq::empty(), m)
        }),
{
    let wal = ascii_chars(seq![119u8, 97, 108, 46] + digits_of(n as nat));
    let snapshot = ascii_chars(
        seq![115u8, 110, 97, 112, 115, 104, 111, 116, 46] + digits_of(n as nat),
    );
    law_files_are_numbered(n, n);
    assert(names.push(wal)[names.len() as int] == wal);
    assert(names.push(snapshot)[names.len() as int] == snapshot);
    if in_use(names, m) {
        let k = choose|k: int|
            0 <= k < names.len() && (generation(#[trigger] names[k], WAL_PREFIX@) == Some(m)
                || generation(names[k], SNAPSHOT_PREFIX@) == Some(m));
        assert(names.push(wal)[k] == names[k]);
        assert(names.push(snapshot)[k] == names[k]);
    }
    if in_use(names.push(wal), m) && m != n {
        let k = choose|k: int|
            0 <= k < names.push(wal).len() && (generation(
                #[trigger] names.push(wal)[k],
                WAL_PREFIX@,
            ) == Some(m) || generation(names.push(wal)[k], SNAPSHOT_PREFIX@) == Some(m));
        lemma_wal_is_no_snapshot(n);
        if k < names.len() {
            assert(names.push(wal)[k] == names[k]);
        }
    }
}

/// A name that starts like a segment's is not that of a snapshot.
proof fn lemma_wal_is_no_snapshot(n: u64)
    ensures
        generation(
            ascii_chars(seq![119u8, 97, 108, 46] + digits_of(n as nat)),
            SNAPSHOT_PREFIX@,
        ) is None,
{
    reveal_strlit("snapshot.");
    let d = digits_of(n as nat);
    let w = seq![119u8, 97, 108, 46];
    let s = seq![115u8, 110, 97, 112, 115, 104, 111, 116, 46];
    lemma_digits_spell(n as nat);
    assert(ascii_chars(s) =~= SNAPSHOT_PREFIX@);
    lemma_ascii_text(s);
    assert(is_ascii_bytes(w + d));
    lemma_ascii_text(w + d);
    if (w + d).len() >= 9 {
        assert((w + d).take(9)[0] == 119);
        assert(s[0] == 115);
    }
}

} // verus!
