//! Partial results and rows as they travel between members (little-endian).
//!
//! On the wire an accumulator holds doubles: its sum is folded to one, and so are the least and
//! greatest number. They are kept as bits.

use vstd::prelude::*;
use vstd::utf8::encode_utf8;
use super::distributed::{acc_cell, Acc, AccView, AggKind, Group, GroupView, Partial};
use super::exec::CellView;
use super::rows::{copy_texts, same_texts, Texts};
use super::value::{Num, NumView};
use crate::bytes::{i64_le, lemma_le_digits_len, put_i64, put_u32, put_u64, u32_le, u64_le};
use crate::model::{nested_opt, opt_view, opt_views, views};
use crate::number::numeral_text;
use crate::text::{lemma_text_reads_back, read_text, readable, text_bytes};
use crate::wire::{
    blob32, carries, lemma_prefix_reads, lemma_read_blob32, lemma_read_i64, lemma_read_u32, lemma_read_u64, lemma_read_u8,
    lemma_stands_front, lemma_stands_split, lemma_stands_whole, put_blob32, read_blob32, read_i64, read_u32, read_u64,
    read_u8, stands_at, take_blob32, take_i64, take_u32, take_u64, take_u8,
};

verus! {

/// Something that is written and read: its bytes, and what is read at a position.
pub trait Item {
    type Out;

    type Sense;

    /// What a value means.
    spec fn sense(x: Self::Out) -> Self::Sense;

    /// Whether its counts and lengths fit their fields.
    spec fn fits(s: Self::Sense) -> bool;

    spec fn bytes(s: Self::Sense) -> Seq<u8>;

    spec fn read(b: Seq<u8>, p: int) -> Option<(Self::Sense, int)>;

    /// What was written is read back.
    proof fn reads_back(b: Seq<u8>, p: int, s: Self::Sense)
        requires
            Self::fits(s),
            stands_at(b, p, Self::bytes(s)),
        ensures
            Self::read(b, p) == Some((s, p + Self::bytes(s).len())),
    ;

    /// Bytes that follow do not change what is read.
    proof fn prefix_reads(b: Seq<u8>, k: int, p: int)
        requires
            0 <= k <= b.len(),
        ensures
            carries(Self::read(b.take(k), p), Self::read(b, p), k),
    ;

    fn put(o: &mut Vec<u8>, x: &Self::Out)
        ensures
            final(o)@ == old(o)@ + Self::bytes(Self::sense(*x)),
    ;

    fn take(b: &[u8], p: &mut usize) -> (r: Option<Self::Out>)
        requires
            *old(p) <= b@.len(),
        ensures
            *final(p) <= b@.len(),
            match r {
                Some(x) => Self::read(b@, *old(p) as int) == Some(
                    (Self::sense(x), *final(p) as int),
                ),
                None => Self::read(b@, *old(p) as int) is None,
            },
    ;
}

/// What values mean.
pub open spec fn senses<I: Item>(xs: Seq<I::Out>) -> Seq<I::Sense> {
    Seq::new(xs.len(), |i: int| I::sense(xs[i]))
}

/// The bytes of items, one after the other.
pub open spec fn items_bytes<I: Item>(s: Seq<I::Sense>) -> Seq<u8>
    decreases s.len(),
{
    if s.len() == 0 {
        Seq::empty()
    } else {
        items_bytes::<I>(s.drop_last()) + I::bytes(s.last())
    }
}

/// `n` items.
pub open spec fn read_items<I: Item>(b: Seq<u8>, p: int, n: nat) -> Option<(Seq<I::Sense>, int)>
    decreases n,
{
    if n == 0 {
        Some((Seq::empty(), p))
    } else {
        match read_items::<I>(b, p, (n - 1) as nat) {
            None => None,
            Some((s, q)) => match I::read(b, q) {
                None => None,
                Some((x, r)) => Some((s.push(x), r)),
            },
        }
    }
}

/// Items behind their count.
pub open spec fn list_bytes<I: Item>(s: Seq<I::Sense>) -> Seq<u8> {
    u32_le(s.len() as u32) + items_bytes::<I>(s)
}

pub open spec fn read_list<I: Item>(b: Seq<u8>, p: int) -> Option<(Seq<I::Sense>, int)> {
    match read_u32(b, p) {
        Some((n, q)) => read_items::<I>(b, q, n as nat),
        None => None,
    }
}

/// Whether a list's count and its items fit.
pub open spec fn list_fits<I: Item>(s: Seq<I::Sense>) -> bool {
    s.len() <= u32::MAX && forall|i: int| 0 <= i < s.len() ==> I::fits(#[trigger] s[i])
}

proof fn lemma_items_read_back<I: Item>(b: Seq<u8>, p: int, s: Seq<I::Sense>)
    requires
        forall|i: int| 0 <= i < s.len() ==> I::fits(#[trigger] s[i]),
        stands_at(b, p, items_bytes::<I>(s)),
    ensures
        read_items::<I>(b, p, s.len()) == Some((s, p + items_bytes::<I>(s).len())),
    decreases s.len(),
{
    if s.len() > 0 {
        let rest = s.drop_last();
        lemma_stands_split(b, p, items_bytes::<I>(rest), I::bytes(s.last()));
        assert forall|i: int| 0 <= i < rest.len() implies I::fits(#[trigger] rest[i]) by {
            assert(rest[i] == s[i]);
        }
        lemma_items_read_back::<I>(b, p, rest);
        assert(I::fits(s[s.len() - 1]));
        I::reads_back(b, p + items_bytes::<I>(rest).len(), s.last());
        assert(rest.push(s.last()) =~= s);
    }
}

proof fn lemma_list_reads_back<I: Item>(b: Seq<u8>, p: int, s: Seq<I::Sense>)
    requires
        list_fits::<I>(s),
        stands_at(b, p, list_bytes::<I>(s)),
    ensures
        read_list::<I>(b, p) == Some((s, p + list_bytes::<I>(s).len())),
{
    broadcast use lemma_le_digits_len;

    lemma_stands_split(b, p, u32_le(s.len() as u32), items_bytes::<I>(s));
    lemma_read_u32(b, p, s.len() as u32);
    lemma_items_read_back::<I>(b, p + 4, s);
}

proof fn lemma_items_prefix<I: Item>(b: Seq<u8>, k: int, p: int, n: nat)
    requires
        0 <= k <= b.len(),
        p <= k,
    ensures
        carries(read_items::<I>(b.take(k), p, n), read_items::<I>(b, p, n), k),
    decreases n,
{
    if n > 0 {
        lemma_items_prefix::<I>(b, k, p, (n - 1) as nat);
        if let Some((s, q)) = read_items::<I>(b.take(k), p, (n - 1) as nat) {
            I::prefix_reads(b, k, q);
        }
    }
}

proof fn lemma_list_prefix<I: Item>(b: Seq<u8>, k: int, p: int)
    requires
        0 <= k <= b.len(),
    ensures
        carries(read_list::<I>(b.take(k), p), read_list::<I>(b, p), k),
{
    lemma_prefix_reads(b, k);
    if let Some((n, q)) = read_u32(b.take(k), p) {
        lemma_items_prefix::<I>(b, k, q, n as nat);
    }
}

/// A list is read whatever follows it, and not if any of its bytes is missing.
proof fn lemma_list_needs_all<I: Item>(s: Seq<I::Sense>, rest: Seq<u8>, k: int)
    requires
        list_fits::<I>(s),
        0 <= k < list_bytes::<I>(s).len(),
    ensures
        read_list::<I>(list_bytes::<I>(s) + rest, 0) == Some((s, list_bytes::<I>(s).len() as int)),
        read_list::<I>(list_bytes::<I>(s).take(k), 0) is None,
{
    let b = list_bytes::<I>(s);
    lemma_stands_front(b, rest);
    lemma_list_reads_back::<I>(b + rest, 0, s);
    lemma_stands_whole(b);
    lemma_list_reads_back::<I>(b, 0, s);
    lemma_list_prefix::<I>(b, k, 0);
}

fn put_list<I: Item>(o: &mut Vec<u8>, xs: &Vec<I::Out>)
    ensures
        final(o)@ == old(o)@ + list_bytes::<I>(senses::<I>(xs@)),
{
    let ghost before = o@;
    let ghost all = senses::<I>(xs@);
    put_u32(o, xs.len() as u32);
    let ghost start = o@;
    let mut i: usize = 0;
    assert(start + items_bytes::<I>(all.take(0)) =~= start);
    while i < xs.len()
        invariant
            i <= xs@.len(),
            all == senses::<I>(xs@),
            o@ == start + items_bytes::<I>(all.take(i as int)),
        decreases xs@.len() - i,
    {
        assert(all.take(i + 1).drop_last() =~= all.take(i as int));
        I::put(o, &xs[i]);
        assert(o@ =~= start + items_bytes::<I>(all.take(i + 1)));
        i = i + 1;
    }
    assert(all.take(i as int) =~= all);
    assert(o@ =~= before + list_bytes::<I>(all));
}

fn take_list<I: Item>(b: &[u8], p: &mut usize) -> (r: Option<Vec<I::Out>>)
    requires
        *old(p) <= b@.len(),
    ensures
        *final(p) <= b@.len(),
        match r {
            Some(x) => read_list::<I>(b@, *old(p) as int) == Some(
                (senses::<I>(x@), *final(p) as int),
            ),
            None => read_list::<I>(b@, *old(p) as int) is None,
        },
{
    let ghost start = *p as int;
    let n: u32 = match take_u32(b, p) {
        Some(n) => n,
        None => {
            return None;
        },
    };
    let ghost from = *p as int;
    let mut out: Vec<I::Out> = Vec::new();
    let mut i: u32 = 0;
    assert(senses::<I>(out@) =~= Seq::empty());
    while i < n
        invariant
            i <= n,
            *p <= b@.len(),
            start == *old(p),
            read_list::<I>(b@, start) == read_items::<I>(b@, from, n as nat),
            read_items::<I>(b@, from, i as nat) == Some((senses::<I>(out@), *p as int)),
        decreases n - i,
    {
        let ghost so_far = senses::<I>(out@);
        match I::take(b, p) {
            Some(x) => {
                let ghost s = I::sense(x);
                out.push(x);
                assert(senses::<I>(out@) =~= so_far.push(s));
            },
            None => {
                proof {
                    lemma_items_end::<I>(b@, from, (i + 1) as nat, n as nat);
                }
                return None;
            },
        }
        i = i + 1;
    }
    Some(out)
}

/// Where one item is missing, all the items are not there.
proof fn lemma_items_end<I: Item>(b: Seq<u8>, p: int, k: nat, n: nat)
    requires
        k <= n,
        read_items::<I>(b, p, k) is None,
    ensures
        read_items::<I>(b, p, n) is None,
    decreases n,
{
    if k < n {
        lemma_items_end::<I>(b, p, k, (n - 1) as nat);
    }
}

/// A text cell: a marker, and the text if it is not null.
pub struct CellItem;

impl Item for CellItem {
    type Out = Option<String>;

    type Sense = Option<Seq<char>>;

    open spec fn sense(x: Option<String>) -> Option<Seq<char>> {
        opt_view(x)
    }

    open spec fn fits(s: Option<Seq<char>>) -> bool {
        s matches Some(t) ==> encode_utf8(t).len() <= u32::MAX
    }

    open spec fn bytes(s: Option<Seq<char>>) -> Seq<u8> {
        match s {
            Some(t) => seq![1u8] + blob32(encode_utf8(t)),
            None => seq![0u8],
        }
    }

    open spec fn read(b: Seq<u8>, p: int) -> Option<(Option<Seq<char>>, int)> {
        match read_u8(b, p) {
            None => None,
            Some((marker, q)) => if marker == 0 {
                Some((None, q))
            } else {
                match read_blob32(b, q) {
                    Some((x, r)) => Some((Some(readable(x)), r)),
                    None => None,
                }
            },
        }
    }

    proof fn reads_back(b: Seq<u8>, p: int, s: Option<Seq<char>>) {
        match s {
            Some(t) => {
                let x = encode_utf8(t);
                lemma_stands_split(b, p, seq![1u8], blob32(x));
                lemma_read_u8(b, p, 1);
                lemma_read_blob32(b, p + 1, x);
                lemma_text_reads_back(t);
            },
            None => {
                lemma_read_u8(b, p, 0);
            },
        }
    }

    proof fn prefix_reads(b: Seq<u8>, k: int, p: int) {
        lemma_prefix_reads(b, k);
    }

    fn put(o: &mut Vec<u8>, x: &Option<String>) {
        let ghost before = o@;
        match x {
            Some(t) => {
                o.push(1);
                put_blob32(o, text_bytes(t.as_str()));
                assert(o@ =~= before + Self::bytes(Self::sense(*x)));
            },
            None => {
                o.push(0);
                assert(o@ =~= before + Self::bytes(Self::sense(*x)));
            },
        }
    }

    fn take(b: &[u8], p: &mut usize) -> (r: Option<Option<String>>) {
        match take_u8(b, p) {
            None => None,
            Some(marker) => if marker == 0 {
                Some(None)
            } else {
                match take_blob32(b, p) {
                    Some(x) => Some(Some(read_text(x.as_slice()))),
                    None => None,
                }
            },
        }
    }
}

/// A row of text cells.
pub struct RowItem;

impl Item for RowItem {
    type Out = Vec<Option<String>>;

    type Sense = Texts;

    open spec fn sense(x: Vec<Option<String>>) -> Texts {
        opt_views(x@)
    }

    open spec fn fits(s: Texts) -> bool {
        list_fits::<CellItem>(s)
    }

    open spec fn bytes(s: Texts) -> Seq<u8> {
        list_bytes::<CellItem>(s)
    }

    open spec fn read(b: Seq<u8>, p: int) -> Option<(Texts, int)> {
        read_list::<CellItem>(b, p)
    }

    proof fn reads_back(b: Seq<u8>, p: int, s: Texts) {
        lemma_list_reads_back::<CellItem>(b, p, s);
    }

    proof fn prefix_reads(b: Seq<u8>, k: int, p: int) {
        lemma_list_prefix::<CellItem>(b, k, p);
    }

    fn put(o: &mut Vec<u8>, x: &Vec<Option<String>>) {
        put_list::<CellItem>(o, x);
        assert(senses::<CellItem>(x@) =~= opt_views(x@));
    }

    fn take(b: &[u8], p: &mut usize) -> (r: Option<Vec<Option<String>>>) {
        match take_list::<CellItem>(b, p) {
            Some(x) => {
                assert(senses::<CellItem>(x@) =~= opt_views(x@));
                Some(x)
            },
            None => None,
        }
    }
}

/// An accumulator with its sum folded; doubles as bits.
#[derive(Clone, Copy, Debug, PartialEq, Eq, Structural)]
pub struct FoldedAcc {
    pub rows: i64,
    pub sum: u64,
    pub nvals: i64,
    pub min: u64,
    pub max: u64,
    /// Whether there was a number.
    pub seen: bool,
}

/// A group with folded accumulators.
#[derive(Debug, PartialEq, Eq)]
pub struct FoldedGroup {
    pub key: Vec<Option<String>>,
    pub accs: Vec<FoldedAcc>,
}

/// What a [`FoldedGroup`] holds.
pub struct FoldedGroupView {
    pub key: Texts,
    pub accs: Seq<FoldedAcc>,
}

impl View for FoldedGroup {
    type V = FoldedGroupView;

    open spec fn view(&self) -> FoldedGroupView {
        FoldedGroupView { key: opt_views(self.key@), accs: self.accs@ }
    }
}

/// A partial result with folded accumulators.
#[derive(Debug, PartialEq, Eq)]
pub struct FoldedPartial {
    pub groups: Vec<FoldedGroup>,
}

impl View for FoldedPartial {
    type V = Seq<FoldedGroupView>;

    open spec fn view(&self) -> Seq<FoldedGroupView> {
        views(self.groups@)
    }
}

/// A folded accumulator on the wire.
pub struct AccItem;

impl Item for AccItem {
    type Out = FoldedAcc;

    type Sense = FoldedAcc;

    open spec fn sense(x: FoldedAcc) -> FoldedAcc {
        x
    }

    open spec fn fits(s: FoldedAcc) -> bool {
        true
    }

    open spec fn bytes(s: FoldedAcc) -> Seq<u8> {
        i64_le(s.rows) + (u64_le(s.sum) + (i64_le(s.nvals) + (u64_le(s.min) + (u64_le(s.max) + seq![
            if s.seen {
                1u8
            } else {
                0u8
            },
        ]))))
    }

    open spec fn read(b: Seq<u8>, p: int) -> Option<(FoldedAcc, int)> {
        match read_i64(b, p) {
            None => None,
            Some((rows, q)) => match read_u64(b, q) {
                None => None,
                Some((sum, r)) => match read_i64(b, r) {
                    None => None,
                    Some((nvals, s)) => match read_u64(b, s) {
                        None => None,
                        Some((min, t)) => match read_u64(b, t) {
                            None => None,
                            Some((max, u)) => match read_u8(b, u) {
                                None => None,
                                Some((seen, v)) => Some(
                                    (FoldedAcc { rows, sum, nvals, min, max, seen: seen != 0 }, v),
                                ),
                            },
                        },
                    },
                },
            },
        }
    }

    proof fn reads_back(b: Seq<u8>, p: int, s: FoldedAcc) {
        broadcast use lemma_le_digits_len;

        let last = seq![
            if s.seen {
                1u8
            } else {
                0u8
            },
        ];
        let e = u64_le(s.max) + last;
        let d = u64_le(s.min) + e;
        let c = i64_le(s.nvals) + d;
        let a = u64_le(s.sum) + c;
        lemma_stands_split(b, p, i64_le(s.rows), a);
        lemma_stands_split(b, p + 8, u64_le(s.sum), c);
        lemma_stands_split(b, p + 16, i64_le(s.nvals), d);
        lemma_stands_split(b, p + 24, u64_le(s.min), e);
        lemma_stands_split(b, p + 32, u64_le(s.max), last);
        lemma_read_i64(b, p, s.rows);
        lemma_read_u64(b, p + 8, s.sum);
        lemma_read_i64(b, p + 16, s.nvals);
        lemma_read_u64(b, p + 24, s.min);
        lemma_read_u64(b, p + 32, s.max);
        lemma_read_u8(b, p + 40, last[0]);
    }

    proof fn prefix_reads(b: Seq<u8>, k: int, p: int) {
        lemma_prefix_reads(b, k);
    }

    fn put(o: &mut Vec<u8>, x: &FoldedAcc) {
        let ghost before = o@;
        put_i64(o, x.rows);
        put_u64(o, x.sum);
        put_i64(o, x.nvals);
        put_u64(o, x.min);
        put_u64(o, x.max);
        o.push(
            if x.seen {
                1
            } else {
                0
            },
        );
        assert(o@ =~= before + Self::bytes(*x));
    }

    fn take(b: &[u8], p: &mut usize) -> (r: Option<FoldedAcc>) {
        let rows: i64 = match take_i64(b, p) {
            Some(v) => v,
            None => {
                return None;
            },
        };
        let sum: u64 = match take_u64(b, p) {
            Some(v) => v,
            None => {
                return None;
            },
        };
        let nvals: i64 = match take_i64(b, p) {
            Some(v) => v,
            None => {
                return None;
            },
        };
        let min: u64 = match take_u64(b, p) {
            Some(v) => v,
            None => {
                return None;
            },
        };
        let max: u64 = match take_u64(b, p) {
            Some(v) => v,
            None => {
                return None;
            },
        };
        match take_u8(b, p) {
            Some(seen) => Some(FoldedAcc { rows, sum, nvals, min, max, seen: seen != 0 }),
            None => None,
        }
    }
}

/// A folded group on the wire.
pub struct GroupItem;

impl Item for GroupItem {
    type Out = FoldedGroup;

    type Sense = FoldedGroupView;

    open spec fn sense(x: FoldedGroup) -> FoldedGroupView {
        x@
    }

    open spec fn fits(s: FoldedGroupView) -> bool {
        list_fits::<CellItem>(s.key) && list_fits::<AccItem>(s.accs)
    }

    open spec fn bytes(s: FoldedGroupView) -> Seq<u8> {
        list_bytes::<CellItem>(s.key) + list_bytes::<AccItem>(s.accs)
    }

    open spec fn read(b: Seq<u8>, p: int) -> Option<(FoldedGroupView, int)> {
        match read_list::<CellItem>(b, p) {
            None => None,
            Some((key, q)) => match read_list::<AccItem>(b, q) {
                Some((accs, r)) => Some((FoldedGroupView { key, accs }, r)),
                None => None,
            },
        }
    }

    proof fn reads_back(b: Seq<u8>, p: int, s: FoldedGroupView) {
        let key = list_bytes::<CellItem>(s.key);
        lemma_stands_split(b, p, key, list_bytes::<AccItem>(s.accs));
        lemma_list_reads_back::<CellItem>(b, p, s.key);
        lemma_list_reads_back::<AccItem>(b, p + key.len(), s.accs);
    }

    proof fn prefix_reads(b: Seq<u8>, k: int, p: int) {
        lemma_list_prefix::<CellItem>(b, k, p);
        if let Some((key, q)) = read_list::<CellItem>(b.take(k), p) {
            lemma_list_prefix::<AccItem>(b, k, q);
        }
    }

    fn put(o: &mut Vec<u8>, x: &FoldedGroup) {
        let ghost before = o@;
        put_list::<CellItem>(o, &x.key);
        put_list::<AccItem>(o, &x.accs);
        assert(senses::<CellItem>(x.key@) =~= x@.key);
        assert(senses::<AccItem>(x.accs@) =~= x@.accs);
        assert(o@ =~= before + Self::bytes(x@));
    }

    fn take(b: &[u8], p: &mut usize) -> (r: Option<FoldedGroup>) {
        match take_list::<CellItem>(b, p) {
            None => None,
            Some(key) => match take_list::<AccItem>(b, p) {
                Some(accs) => {
                    assert(senses::<CellItem>(key@) =~= opt_views(key@));
                    assert(senses::<AccItem>(accs@) =~= accs@);
                    Some(FoldedGroup { key, accs })
                },
                None => None,
            },
        }
    }
}

/// The bytes of a partial result.
pub fn encode_partial(p: &FoldedPartial) -> (b: Vec<u8>)
    ensures
        b@ == list_bytes::<GroupItem>(p@),
{
    let mut b: Vec<u8> = Vec::new();
    put_list::<GroupItem>(&mut b, &p.groups);
    assert(senses::<GroupItem>(p.groups@) =~= p@);
    assert(b@ =~= list_bytes::<GroupItem>(p@));
    b
}

/// Groups with one more: of two with one key, the later one counts.
pub open spec fn replaced(groups: Seq<FoldedGroupView>, g: FoldedGroupView) -> Seq<FoldedGroupView> {
    match key_at(groups, g.key, 0) {
        Some(i) => groups.update(i, g),
        None => groups.push(g),
    }
}

/// The position of the group of a key, from `from` on.
pub open spec fn key_at(groups: Seq<FoldedGroupView>, key: Texts, from: int) -> Option<int>
    decreases groups.len() - from,
{
    if 0 <= from < groups.len() {
        if groups[from].key == key {
            Some(from)
        } else {
            key_at(groups, key, from + 1)
        }
    } else {
        None
    }
}

/// Groups as a partial result holds them: each key once.
pub open spec fn by_key(groups: Seq<FoldedGroupView>) -> Seq<FoldedGroupView>
    decreases groups.len(),
{
    if groups.len() == 0 {
        groups
    } else {
        replaced(by_key(groups.drop_last()), groups.last())
    }
}

fn find_key(groups: &Vec<FoldedGroup>, key: &Vec<Option<String>>) -> (r: Option<usize>)
    ensures
        match r {
            Some(i) => key_at(views(groups@), opt_views(key@), 0) == Some(i as int) && i
                < groups@.len(),
            None => key_at(views(groups@), opt_views(key@), 0) is None,
        },
{
    let ghost all = views(groups@);
    let mut i: usize = 0;
    while i < groups.len()
        invariant
            i <= groups@.len(),
            all == views(groups@),
            key_at(all, opt_views(key@), 0) == key_at(all, opt_views(key@), i as int),
        decreases groups@.len() - i,
    {
        assert(all[i as int] == groups@[i as int]@);
        if same_texts(&groups[i].key, key) {
            return Some(i);
        }
        i = i + 1;
    }
    None
}

/// Reads a partial result; none if bytes are missing.
pub fn decode_partial(bytes: &[u8]) -> (r: Option<FoldedPartial>)
    ensures
        match r {
            Some(p) => read_list::<GroupItem>(bytes@, 0) matches Some((groups, e)) && p@ == by_key(
                groups,
            ),
            None => read_list::<GroupItem>(bytes@, 0) is None,
        },
{
    let mut p: usize = 0;
    let read = match take_list::<GroupItem>(bytes, &mut p) {
        Some(g) => g,
        None => {
            return None;
        },
    };
    let ghost all = senses::<GroupItem>(read@);
    let mut groups: Vec<FoldedGroup> = Vec::new();
    let mut i: usize = 0;
    assert(views(groups@) =~= by_key(all.take(0)));
    while i < read.len()
        invariant
            i <= read@.len(),
            all == senses::<GroupItem>(read@),
            views(groups@) == by_key(all.take(i as int)),
        decreases read@.len() - i,
    {
        let ghost so_far = views(groups@);
        assert(all.take(i + 1).drop_last() =~= all.take(i as int));
        let g = FoldedGroup {
            key: copy_texts(&read[i].key),
            accs: copy_accs(&read[i].accs),
        };
        assert(g@ == all[i as int]);
        match find_key(&groups, &g.key) {
            Some(k) => {
                groups.set(k, g);
                assert(views(groups@) =~= so_far.update(k as int, all[i as int]));
            },
            None => {
                groups.push(g);
                assert(views(groups@) =~= so_far.push(all[i as int]));
            },
        }
        i = i + 1;
    }
    assert(all.take(i as int) =~= all);
    Some(FoldedPartial { groups })
}

fn copy_accs(accs: &Vec<FoldedAcc>) -> (out: Vec<FoldedAcc>)
    ensures
        out@ == accs@,
{
    let mut out: Vec<FoldedAcc> = Vec::new();
    let mut i: usize = 0;
    while i < accs.len()
        invariant
            i <= accs@.len(),
            out@ =~= accs@.take(i as int),
        decreases accs@.len() - i,
    {
        out.push(accs[i]);
        i = i + 1;
    }
    assert(out@ =~= accs@);
    out
}

/// A folded accumulator as one that can be merged: its sum is its only number.
pub open spec fn unfolded(a: FoldedAcc) -> AccView {
    AccView {
        rows: a.rows,
        addends: seq![NumView::Double(a.sum)],
        nvals: a.nvals,
        extremes: if a.seen {
            Some((NumView::Double(a.min), NumView::Double(a.max)))
        } else {
            None
        },
    }
}

/// A folded group as one that can be merged.
pub open spec fn unfolded_group(g: FoldedGroupView) -> GroupView {
    GroupView { key: g.key, accs: Seq::new(g.accs.len(), |i: int| unfolded(g.accs[i])) }
}

/// A received partial result as one that can be merged.
pub fn unfold(p: &FoldedPartial) -> (r: Partial)
    ensures
        r@ == Seq::new(p@.len(), |i: int| unfolded_group(p@[i])),
{
    let ghost all = Seq::new(p@.len(), |i: int| unfolded_group(p@[i]));
    let mut groups: Vec<Group> = Vec::new();
    let mut i: usize = 0;
    while i < p.groups.len()
        invariant
            i <= p.groups@.len(),
            all == Seq::new(p@.len(), |i: int| unfolded_group(p@[i])),
            views(groups@) =~= all.take(i as int),
        decreases p.groups@.len() - i,
    {
        let ghost so_far = views(groups@);
        let g = &p.groups[i];
        assert(p@[i as int] == g@);
        let accs = unfold_accs(&g.accs);
        let x = Group { key: copy_texts(&g.key), accs };
        assert(x@.accs =~= all[i as int].accs);
        assert(x@ == all[i as int]);
        let ghost xv = x@;
        groups.push(x);
        assert(views(groups@) =~= so_far.push(xv));
        i = i + 1;
    }
    assert(all.take(i as int) =~= all);
    Partial { groups }
}

fn unfold_accs(accs: &Vec<FoldedAcc>) -> (out: Vec<Acc>)
    ensures
        views(out@) == Seq::new(accs@.len(), |i: int| unfolded(accs@[i])),
{
    let ghost all = Seq::new(accs@.len(), |i: int| unfolded(accs@[i]));
    let mut out: Vec<Acc> = Vec::new();
    let mut i: usize = 0;
    while i < accs.len()
        invariant
            i <= accs@.len(),
            all == Seq::new(accs@.len(), |i: int| unfolded(accs@[i])),
            views(out@) =~= all.take(i as int),
        decreases accs@.len() - i,
    {
        let ghost so_far = views(out@);
        let a = &accs[i];
        let mut addends: Vec<Num> = Vec::new();
        addends.push(Num::Double(a.sum));
        let extremes = if a.seen {
            Some((Num::Double(a.min), Num::Double(a.max)))
        } else {
            None
        };
        let x = Acc { rows: a.rows, addends, nvals: a.nvals, extremes };
        assert(x@.addends =~= all[i as int].addends);
        assert(x@ == all[i as int]);
        let ghost xv = x@;
        out.push(x);
        assert(views(out@) =~= so_far.push(xv));
        i = i + 1;
    }
    assert(all.take(i as int) =~= all);
    out
}

/// The bytes of result rows.
pub fn encode_rows(rows: &Vec<Vec<Option<String>>>) -> (b: Vec<u8>)
    ensures
        b@ == list_bytes::<RowItem>(nested_opt(rows@)),
{
    let mut b: Vec<u8> = Vec::new();
    put_list::<RowItem>(&mut b, rows);
    assert(senses::<RowItem>(rows@) =~= nested_opt(rows@));
    assert(b@ =~= list_bytes::<RowItem>(nested_opt(rows@)));
    b
}

/// Reads result rows; none if bytes are missing.
pub fn decode_rows(bytes: &[u8]) -> (r: Option<Vec<Vec<Option<String>>>>)
    ensures
        match r {
            Some(rows) => read_list::<RowItem>(bytes@, 0) matches Some((s, e)) && nested_opt(rows@)
                == s,
            None => read_list::<RowItem>(bytes@, 0) is None,
        },
{
    let mut p: usize = 0;
    match take_list::<RowItem>(bytes, &mut p) {
        Some(rows) => {
            assert(senses::<RowItem>(rows@) =~= nested_opt(rows@));
            Some(rows)
        },
        None => None,
    }
}

/// Rows read back as they were written, whatever follows them; rows with bytes missing at the end
/// are not read.
pub proof fn law_rows_read_back(rows: Seq<Texts>, rest: Seq<u8>, k: int)
    requires
        list_fits::<RowItem>(rows),
        0 <= k < list_bytes::<RowItem>(rows).len(),
    ensures
        read_list::<RowItem>(list_bytes::<RowItem>(rows), 0) == Some(
            (rows, list_bytes::<RowItem>(rows).len() as int),
        ),
        read_list::<RowItem>(list_bytes::<RowItem>(rows) + rest, 0) == Some(
            (rows, list_bytes::<RowItem>(rows).len() as int),
        ),
        read_list::<RowItem>(list_bytes::<RowItem>(rows).take(k), 0) is None,
{
    let b = list_bytes::<RowItem>(rows);
    lemma_stands_whole(b);
    lemma_list_reads_back::<RowItem>(b, 0, rows);
    lemma_list_needs_all::<RowItem>(rows, rest, k);
}

/// Whether each key occurs once.
pub open spec fn keys_differ(groups: Seq<FoldedGroupView>) -> bool {
    forall|i: int, j: int|
        0 <= i < j < groups.len() ==> (#[trigger] groups[i]).key != (#[trigger] groups[j]).key
}

proof fn lemma_by_key(groups: Seq<FoldedGroupView>)
    requires
        keys_differ(groups),
    ensures
        by_key(groups) == groups,
    decreases groups.len(),
{
    if groups.len() > 0 {
        let rest = groups.drop_last();
        assert forall|i: int, j: int| 0 <= i < j < rest.len() implies (#[trigger] rest[i]).key != (
        #[trigger] rest[j]).key by {
            assert(groups[i].key != groups[j].key);
        }
        lemma_by_key(rest);
        assert forall|i: int| 0 <= i < rest.len() implies (#[trigger] rest[i]).key
            != groups.last().key by {
            assert(groups[i].key != groups[groups.len() - 1].key);
        }
        lemma_no_key(rest, groups.last().key, 0);
        assert(rest.push(groups.last()) =~= groups);
    }
}

proof fn lemma_no_key(groups: Seq<FoldedGroupView>, key: Texts, from: int)
    requires
        0 <= from <= groups.len(),
        forall|i: int| 0 <= i < groups.len() ==> (#[trigger] groups[i]).key != key,
    ensures
        key_at(groups, key, from) is None,
    decreases groups.len() - from,
{
    if from < groups.len() {
        lemma_no_key(groups, key, from + 1);
    }
}

/// Partial results read back as they were written, whatever follows them; those with bytes missing
/// at the end are not read.
pub proof fn law_partials_read_back(groups: Seq<FoldedGroupView>, rest: Seq<u8>, k: int)
    requires
        list_fits::<GroupItem>(groups),
        keys_differ(groups),
        0 <= k < list_bytes::<GroupItem>(groups).len(),
    ensures
        read_list::<GroupItem>(list_bytes::<GroupItem>(groups), 0) matches Some((g, e)) && by_key(g)
            == groups,
        read_list::<GroupItem>(list_bytes::<GroupItem>(groups) + rest, 0) matches Some((g, e))
            && by_key(g) == groups,
        read_list::<GroupItem>(list_bytes::<GroupItem>(groups).take(k), 0) is None,
{
    let b = list_bytes::<GroupItem>(groups);
    lemma_stands_whole(b);
    lemma_list_reads_back::<GroupItem>(b, 0, groups);
    lemma_list_needs_all::<GroupItem>(groups, rest, k);
    lemma_by_key(groups);
}

/// A received accumulator comes to what it says: its rows, its sum, its sum by its count of numbers,
/// its least and greatest number if it has seen any.
pub proof fn law_received_accumulators(a: FoldedAcc)
    ensures
        ({
            let acc = unfolded(a);
            let null = CellView::Text(None);
            let sum = NumView::Double(a.sum);
            &&& acc_cell(AggKind::Count, acc) == CellView::Text(Some(numeral_text(a.rows as int)))
            &&& acc_cell(AggKind::Sum, acc) == if a.seen {
                CellView::Sum(seq![sum])
            } else {
                null
            }
            &&& acc_cell(AggKind::Avg, acc) == if a.nvals > 0 {
                CellView::Mean(seq![sum], a.nvals)
            } else {
                null
            }
            &&& acc_cell(AggKind::Min, acc) == if a.seen {
                CellView::Number(NumView::Double(a.min))
            } else {
                null
            }
            &&& acc_cell(AggKind::Max, acc) == if a.seen {
                CellView::Number(NumView::Double(a.max))
            } else {
                null
            }
        }),
{
}

} // verus!
