//! Stateful stream-stream inner join on a key.
//!
//! Each side's records are kept by key; an arriving record puts out one joined record for each
//! record already seen on the other side. Input records are tagged with their side.

use std::collections::VecDeque;
use vstd::prelude::*;
use super::processor::{put_item, take_item, Item, ItemView, Processor};
use crate::bytes::{copy_range, lemma_le_digits_len, put_slice};
use crate::model::views;
use crate::table::Table;
use crate::wire::{
    blob32, lemma_read_blob32, lemma_stands_split, lemma_stands_whole, put_blob32, read_blob32,
    take_blob32,
};

verus! {

pub const LEFT: u8 = 0;

pub const RIGHT: u8 = 1;

/// A join input record: `[side:u8][key_len:u32][key][payload]`.
pub open spec fn input_bytes(side: u8, key: Seq<u8>, payload: Seq<u8>) -> Seq<u8> {
    seq![side] + blob32(key) + payload
}

/// What an input record says: side, key, payload.
pub open spec fn input_of(b: Seq<u8>) -> Option<(u8, Seq<u8>, Seq<u8>)> {
    if b.len() < 1 {
        None
    } else {
        match read_blob32(b, 1) {
            Some((key, p)) => Some((b[0], key, b.skip(p))),
            None => None,
        }
    }
}

/// A joined record: `[key_len:u32][key][left_len:u32][left][right]`.
pub open spec fn joined_bytes(key: Seq<u8>, left: Seq<u8>, right: Seq<u8>) -> Seq<u8> {
    blob32(key) + blob32(left) + right
}

/// What a joined record says: key, left, right.
pub open spec fn joined_of(b: Seq<u8>) -> Option<(Seq<u8>, Seq<u8>, Seq<u8>)> {
    match read_blob32(b, 0) {
        None => None,
        Some((key, p)) => match read_blob32(b, p) {
            None => None,
            Some((left, q)) => Some((key, left, b.skip(q))),
        },
    }
}

pub fn encode_input(side: u8, key: &[u8], payload: &[u8]) -> (b: Vec<u8>)
    ensures
        b@ == input_bytes(side, key@, payload@),
{
    let mut b: Vec<u8> = Vec::new();
    b.push(side);
    put_blob32(&mut b, key);
    put_slice(&mut b, payload);
    assert(b@ =~= input_bytes(side, key@, payload@));
    b
}

fn decode_input(b: &[u8]) -> (r: Option<(u8, Vec<u8>, Vec<u8>)>)
    ensures
        match r {
            Some((side, key, payload)) => input_of(b@) == Some((side, key@, payload@)),
            None => input_of(b@) is None,
        },
{
    if b.len() < 1 {
        return None;
    }
    let mut p: usize = 1;
    match take_blob32(b, &mut p) {
        Some(key) => {
            let payload: Vec<u8> = copy_range(b, p, b.len());
            assert(payload@ =~= b@.skip(p as int));
            Some((b[0], key, payload))
        },
        None => None,
    }
}

pub fn encode_joined(key: &[u8], left: &[u8], right: &[u8]) -> (b: Vec<u8>)
    ensures
        b@ == joined_bytes(key@, left@, right@),
{
    let mut b: Vec<u8> = Vec::new();
    put_blob32(&mut b, key);
    put_blob32(&mut b, left);
    put_slice(&mut b, right);
    assert(b@ =~= joined_bytes(key@, left@, right@));
    b
}

/// Decodes a joined record.
pub fn decode_joined(b: &[u8]) -> (r: Option<(Vec<u8>, Vec<u8>, Vec<u8>)>)
    ensures
        match r {
            Some((key, left, right)) => joined_of(b@) == Some((key@, left@, right@)),
            None => joined_of(b@) is None,
        },
{
    let mut p: usize = 0;
    let key: Vec<u8> = match take_blob32(b, &mut p) {
        Some(k) => k,
        None => {
            return None;
        },
    };
    let left: Vec<u8> = match take_blob32(b, &mut p) {
        Some(l) => l,
        None => {
            return None;
        },
    };
    let right: Vec<u8> = copy_range(b, p, b.len());
    assert(right@ =~= b@.skip(p as int));
    Some((key, left, right))
}

/// The records of one key on one side, in order of arrival.
pub struct Records {
    items: Vec<Vec<u8>>,
}

impl View for Records {
    type V = Seq<Seq<u8>>;

    closed spec fn view(&self) -> Seq<Seq<u8>> {
        views(self.items@)
    }
}

/// What was seen on both sides, by key.
pub struct JoinView {
    pub left: Map<Seq<u8>, Seq<Seq<u8>>>,
    pub right: Map<Seq<u8>, Seq<Seq<u8>>>,
}

pub open spec fn seen(m: Map<Seq<u8>, Seq<Seq<u8>>>, key: Seq<u8>) -> Seq<Seq<u8>> {
    if m.contains_key(key) {
        m[key]
    } else {
        Seq::empty()
    }
}

/// The joined records of a left record with right ones.
pub open spec fn join_left(key: Seq<u8>, left: Seq<u8>, rights: Seq<Seq<u8>>) -> Seq<ItemView> {
    Seq::new(rights.len(), |i: int| ItemView::Data(joined_bytes(key, left, rights[i])))
}

/// The joined records of left records with a right one.
pub open spec fn join_right(key: Seq<u8>, lefts: Seq<Seq<u8>>, right: Seq<u8>) -> Seq<ItemView> {
    Seq::new(lefts.len(), |i: int| ItemView::Data(joined_bytes(key, lefts[i], right)))
}

impl JoinView {
    /// What one item does.
    pub open spec fn step(self, item: ItemView) -> (JoinView, Seq<ItemView>) {
        match item {
            ItemView::Data(b) => match input_of(b) {
                None => (self, Seq::empty()),
                Some((side, key, payload)) => if side == LEFT {
                    (
                        JoinView {
                            left: self.left.insert(key, seen(self.left, key).push(payload)),
                            ..self
                        },
                        join_left(key, payload, seen(self.right, key)),
                    )
                } else {
                    (
                        JoinView {
                            right: self.right.insert(key, seen(self.right, key).push(payload)),
                            ..self
                        },
                        join_right(key, seen(self.left, key), payload),
                    )
                },
            },
            _ => (self, seq![item]),
        }
    }

    /// What items do, one after the other.
    pub open spec fn steps(self, items: Seq<ItemView>) -> (JoinView, Seq<ItemView>)
        decreases items.len(),
    {
        if items.len() == 0 {
            (self, Seq::empty())
        } else {
            let before = self.steps(items.drop_last());
            let r = before.0.step(items.last());
            (r.0, before.1 + r.1)
        }
    }
}

/// A stateful keyed inner-join processor.
pub struct JoinProcessor {
    left: Table<Vec<u8>, Records>,
    right: Table<Vec<u8>, Records>,
}

impl View for JoinProcessor {
    type V = JoinView;

    closed spec fn view(&self) -> JoinView {
        JoinView { left: self.left@, right: self.right@ }
    }
}

impl Default for JoinProcessor {
    fn default() -> (p: JoinProcessor)
        ensures
            p@ == (JoinView { left: Map::empty(), right: Map::empty() }),
    {
        JoinProcessor::new()
    }
}

/// Adds a record to those of its key.
fn remember(table: &mut Table<Vec<u8>, Records>, key: Vec<u8>, payload: Vec<u8>)
    ensures
        final(table)@ == old(table)@.insert(key@, seen(old(table)@, key@).push(payload@)),
{
    let ghost before = table@;
    let mut items: Vec<Vec<u8>> = match table.remove(&key) {
        Some(r) => r.items,
        None => Vec::new(),
    };
    let ghost so_far = views(items@);
    assert(so_far =~= seen(before, key@));
    items.push(payload);
    let r = Records { items };
    assert(r@ =~= so_far.push(payload@));
    table.insert(key, r);
    assert(table@ =~= before.insert(key@, seen(before, key@).push(payload@)));
}

impl JoinProcessor {
    pub fn new() -> (p: JoinProcessor)
        ensures
            p@ == (JoinView { left: Map::empty(), right: Map::empty() }),
    {
        JoinProcessor { left: Table::new(), right: Table::new() }
    }

    fn take_left(&mut self, key: Vec<u8>, payload: Vec<u8>, outbox: &mut VecDeque<Item>)
        ensures
            final(self)@ == (JoinView {
                left: old(self)@.left.insert(key@, seen(old(self)@.left, key@).push(payload@)),
                ..old(self)@
            }),
            views(final(outbox)@) == views(old(outbox)@) + join_left(
                key@,
                payload@,
                seen(old(self)@.right, key@),
            ),
    {
        let ghost before = views(outbox@);
        let ghost rights = seen(self@.right, key@);
        let ghost all = join_left(key@, payload@, rights);
        assert(before + all.take(0) =~= before);
        match self.right.get(&key) {
            Some(r) => {
                let mut i: usize = 0;
                while i < r.items.len()
                    invariant
                        i <= r.items@.len(),
                        rights == views(r.items@),
                        all == join_left(key@, payload@, rights),
                        views(outbox@) =~= before + all.take(i as int),
                    decreases r.items@.len() - i,
                {
                    let ghost so_far = views(outbox@);
                    let b: Vec<u8> = encode_joined(
                        key.as_slice(),
                        payload.as_slice(),
                        r.items[i].as_slice(),
                    );
                    assert(rights[i as int] == r.items@[i as int]@);
                    put_item(outbox, Item::Data(b));
                    i = i + 1;
                }
                assert(all.take(i as int) =~= all);
            },
            None => {
                assert(all =~= Seq::empty());
            },
        }
        remember(&mut self.left, key, payload);
    }

    fn take_right(&mut self, key: Vec<u8>, payload: Vec<u8>, outbox: &mut VecDeque<Item>)
        ensures
            final(self)@ == (JoinView {
                right: old(self)@.right.insert(key@, seen(old(self)@.right, key@).push(payload@)),
                ..old(self)@
            }),
            views(final(outbox)@) == views(old(outbox)@) + join_right(
                key@,
                seen(old(self)@.left, key@),
                payload@,
            ),
    {
        let ghost before = views(outbox@);
        let ghost lefts = seen(self@.left, key@);
        let ghost all = join_right(key@, lefts, payload@);
        assert(before + all.take(0) =~= before);
        match self.left.get(&key) {
            Some(r) => {
                let mut i: usize = 0;
                while i < r.items.len()
                    invariant
                        i <= r.items@.len(),
                        lefts == views(r.items@),
                        all == join_right(key@, lefts, payload@),
                        views(outbox@) =~= before + all.take(i as int),
                    decreases r.items@.len() - i,
                {
                    let ghost so_far = views(outbox@);
                    let b: Vec<u8> = encode_joined(
                        key.as_slice(),
                        r.items[i].as_slice(),
                        payload.as_slice(),
                    );
                    assert(lefts[i as int] == r.items@[i as int]@);
                    put_item(outbox, Item::Data(b));
                    i = i + 1;
                }
                assert(all.take(i as int) =~= all);
            },
            None => {
                assert(all =~= Seq::empty());
            },
        }
        remember(&mut self.right, key, payload);
    }

    fn take_one(&mut self, item: Item, outbox: &mut VecDeque<Item>)
        ensures
            final(self)@ == old(self)@.step(item@).0,
            views(final(outbox)@) == views(old(outbox)@) + old(self)@.step(item@).1,
    {
        let ghost before = views(outbox@);
        assert(before + Seq::<ItemView>::empty() =~= before);
        match item {
            Item::Data(bytes) => match decode_input(bytes.as_slice()) {
                Some((side, key, payload)) => {
                    if side == LEFT {
                        self.take_left(key, payload, outbox);
                    } else {
                        self.take_right(key, payload, outbox);
                    }
                },
                None => {},
            },
            Item::Watermark(w) => {
                put_item(outbox, Item::Watermark(w));
                assert(views(outbox@) =~= before + seq![ItemView::Watermark(w)]);
            },
            Item::Done => {
                put_item(outbox, Item::Done);
                assert(views(outbox@) =~= before + seq![ItemView::Done]);
            },
        }
    }
}

impl Processor for JoinProcessor {
    open spec fn valid(&self) -> bool {
        true
    }

    open spec fn accepts(&self, inbox: Seq<ItemView>) -> bool {
        true
    }

    fn process(&mut self, inbox: &mut VecDeque<Item>, outbox: &mut VecDeque<Item>) -> (done: bool)
        ensures
            done == (old(inbox)@.len() > 0),
            final(inbox)@.len() == 0,
            final(self)@ == old(self)@.steps(views(old(inbox)@)).0,
            views(final(outbox)@) == views(old(outbox)@) + old(self)@.steps(
                views(old(inbox)@),
            ).1,
    {
        let ghost start = self@;
        let ghost all = views(inbox@);
        let ghost before = views(outbox@);
        let ghost k: int = 0;
        let n: usize = inbox.len();
        assert(all.take(0) =~= Seq::empty());
        assert(before + start.steps(all.take(0)).1 =~= before);
        while inbox.len() > 0
            invariant
                0 <= k <= all.len(),
                views(inbox@) =~= all.skip(k),
                self@ == start.steps(all.take(k)).0,
                views(outbox@) =~= before + start.steps(all.take(k)).1,
            decreases inbox@.len(),
        {
            match take_item(inbox) {
                Some(item) => {
                    proof {
                        assert(item@ == all[k]);
                        assert(all.skip(k).skip(1) =~= all.skip(k + 1));
                        assert(all.take(k + 1).drop_last() =~= all.take(k));
                        assert(all.take(k + 1).last() == all[k]);
                    }
                    self.take_one(item, outbox);
                    proof {
                        k = k + 1;
                    }
                },
                None => {},
            }
        }
        assert(all.take(k) =~= all);
        n > 0
    }
}

/// Records read back as they were written.
pub proof fn law_records_read_back(
    side: u8,
    key: Seq<u8>,
    payload: Seq<u8>,
    left: Seq<u8>,
    right: Seq<u8>,
)
    requires
        key.len() <= u32::MAX,
        left.len() <= u32::MAX,
    ensures
        input_of(input_bytes(side, key, payload)) == Some((side, key, payload)),
        joined_of(joined_bytes(key, left, right)) == Some((key, left, right)),
{
    broadcast use lemma_le_digits_len;

    let a = input_bytes(side, key, payload);
    lemma_stands_whole(a);
    lemma_stands_split(a, 0, seq![side] + blob32(key), payload);
    lemma_stands_split(a, 0, seq![side], blob32(key));
    lemma_read_blob32(a, 1, key);
    assert(a.skip(1 + blob32(key).len() as int) =~= payload);
    let b = joined_bytes(key, left, right);
    lemma_stands_whole(b);
    lemma_stands_split(b, 0, blob32(key) + blob32(left), right);
    lemma_stands_split(b, 0, blob32(key), blob32(left));
    lemma_read_blob32(b, 0, key);
    lemma_read_blob32(b, blob32(key).len() as int, left);
    assert(b.skip((blob32(key) + blob32(left)).len() as int) =~= right);
}

/// The record that an item carries: whether it is a left one, its key, its payload.
pub open spec fn record_of(item: ItemView) -> Option<(bool, Seq<u8>, Seq<u8>)> {
    match item {
        ItemView::Data(b) => match input_of(b) {
            Some((side, key, payload)) => Some((side == LEFT, key, payload)),
            None => None,
        },
        _ => None,
    }
}

/// Where an output item comes from: the left and the right record that it joins, or the item that
/// is passed on.
pub enum Origin {
    Pair { left: int, right: int },
    Passed { at: int },
}

impl Origin {
    /// Which item brings it about.
    pub open spec fn due(self) -> int {
        match self {
            Origin::Pair { left, right } => if left > right {
                left
            } else {
                right
            },
            Origin::Passed { at } => at,
        }
    }

    /// Whether there is such a pair of records of one key, or such a watermark or end.
    pub open spec fn stands_in(self, items: Seq<ItemView>) -> bool {
        match self {
            Origin::Pair { left, right } => {
                &&& 0 <= left < items.len()
                &&& 0 <= right < items.len()
                &&& record_of(items[left]) matches Some((l, k, _)) && l && (record_of(
                    items[right],
                ) matches Some((m, n, _)) && !m && k == n)
            },
            Origin::Passed { at } => 0 <= at < items.len() && !(items[at] is Data),
        }
    }

    /// The output item.
    pub open spec fn output(self, items: Seq<ItemView>) -> ItemView {
        match self {
            Origin::Pair { left, right } => {
                let l = record_of(items[left])->0;
                let r = record_of(items[right])->0;
                ItemView::Data(joined_bytes(l.1, l.2, r.2))
            },
            Origin::Passed { at } => items[at],
        }
    }
}

/// Whether `origins` names everything that items bring about, each once, in the order in which
/// they bring it about.
pub open spec fn are_origins(origins: Seq<Origin>, items: Seq<ItemView>) -> bool {
    &&& origins.no_duplicates()
    &&& forall|o: Origin| #[trigger] origins.contains(o) <==> o.stands_in(items)
    &&& forall|a: int, b: int|
        0 <= a < b < origins.len() ==> (#[trigger] origins[a]).due() <= (
        #[trigger] origins[b]).due()
}

pub open spec fn outputs(origins: Seq<Origin>, items: Seq<ItemView>) -> Seq<ItemView> {
    Seq::new(origins.len(), |i: int| origins[i].output(items))
}

/// A join that has seen nothing.
pub open spec fn empty_join() -> JoinView {
    JoinView { left: Map::empty(), right: Map::empty() }
}

/// Where the records of a side and a key stand.
spec fn places(items: Seq<ItemView>, is_left: bool, key: Seq<u8>) -> Seq<int>
    decreases items.len(),
{
    if items.len() == 0 {
        Seq::empty()
    } else {
        let before = places(items.drop_last(), is_left, key);
        match record_of(items.last()) {
            Some((l, k, _)) => if l == is_left && k == key {
                before.push(items.len() - 1)
            } else {
                before
            },
            None => before,
        }
    }
}

proof fn lemma_places(items: Seq<ItemView>, is_left: bool, key: Seq<u8>)
    ensures
        forall|i: int|
            #[trigger] places(items, is_left, key).contains(i) <==> 0 <= i < items.len() && (
            record_of(items[i]) matches Some((l, k, _)) && l == is_left && k == key),
        places(items, is_left, key).no_duplicates(),
    decreases items.len(),
{
    let p = places(items, is_left, key);
    if items.len() > 0 {
        let init = items.drop_last();
        let n = items.len() - 1;
        let before = places(init, is_left, key);
        lemma_places(init, is_left, key);
        assert forall|i: int| #[trigger] p.contains(i) <==> 0 <= i < items.len() && (record_of(
            items[i],
        ) matches Some((l, k, _)) && l == is_left && k == key) by {
            if before.contains(i) {
                let a = choose|a: int| 0 <= a < before.len() && before[a] == i;
                assert(p[a] == i);
                assert(init[i] == items[i]);
            }
            if 0 <= i < n {
                assert(init[i] == items[i]);
            }
            if p.contains(i) {
                let a = choose|a: int| 0 <= a < p.len() && p[a] == i;
                if a < before.len() {
                    assert(before[a] == i);
                    assert(before.contains(i));
                }
            }
            if i == n && p.len() > before.len() {
                assert(p[before.len() as int] == n);
            }
        }
        assert forall|a: int, b: int| 0 <= a < b < p.len() implies p[a] != p[b] by {
            assert(before.contains(before[a]));
            if b < before.len() {
                assert(p[a] == before[a] && p[b] == before[b]);
            }
        }
    }
}

/// What a join has seen of a key on a side: the payloads of its records, in order of arrival.
proof fn lemma_seen(items: Seq<ItemView>, key: Seq<u8>)
    ensures
        ({
            let v = empty_join().steps(items).0;
            let l = places(items, true, key);
            let r = places(items, false, key);
            &&& seen(v.left, key) == Seq::new(l.len(), |i: int| (record_of(items[l[i]])->0).2)
            &&& seen(v.right, key) == Seq::new(r.len(), |i: int| (record_of(items[r[i]])->0).2)
        }),
    decreases items.len(),
{
    let v = empty_join().steps(items).0;
    let l = places(items, true, key);
    let r = places(items, false, key);
    if items.len() > 0 {
        let init = items.drop_last();
        lemma_seen(init, key);
        lemma_places(init, true, key);
        lemma_places(init, false, key);
        let bl = places(init, true, key);
        let br = places(init, false, key);
        assert forall|i: int| 0 <= i < bl.len() implies items[#[trigger] bl[i]] == init[bl[i]] by {
            assert(bl.contains(bl[i]));
        }
        assert forall|i: int| 0 <= i < br.len() implies items[#[trigger] br[i]] == init[br[i]] by {
            assert(br.contains(br[i]));
        }
    }
    assert(seen(v.left, key) =~= Seq::new(l.len(), |i: int| (record_of(items[l[i]])->0).2));
    assert(seen(v.right, key) =~= Seq::new(r.len(), |i: int| (record_of(items[r[i]])->0).2));
}

/// What the last item brings about.
spec fn newest(items: Seq<ItemView>) -> Seq<Origin> {
    let n = items.len() - 1;
    let init = items.drop_last();
    match record_of(items.last()) {
        Some((l, k, _)) => {
            let others = places(init, !l, k);
            Seq::new(
                others.len(),
                |i: int|
                    if l {
                        Origin::Pair { left: n, right: others[i] }
                    } else {
                        Origin::Pair { left: others[i], right: n }
                    },
            )
        },
        None => if items.last() is Data {
            Seq::empty()
        } else {
            seq![Origin::Passed { at: n }]
        },
    }
}

proof fn lemma_newest(items: Seq<ItemView>)
    requires
        items.len() > 0,
    ensures
        newest(items).no_duplicates(),
        forall|o: Origin| #[trigger]
            newest(items).contains(o) <==> o.stands_in(items) && o.due() == items.len() - 1,
        empty_join().steps(items.drop_last()).0.step(items.last()).1 == outputs(
            newest(items),
            items,
        ),
{
    let n = items.len() - 1;
    let init = items.drop_last();
    let os = newest(items);
    let v = empty_join().steps(init).0;
    assert(items[n] == items.last());
    match record_of(items.last()) {
        Some((l, k, _)) => {
            let others = places(init, !l, k);
            lemma_places(init, !l, k);
            lemma_seen(init, k);
            assert forall|i: int| 0 <= i < others.len() implies 0 <= (#[trigger] others[i]) < n
                && items[others[i]] == init[others[i]] && (record_of(items[others[i]]) matches Some(
                (m, kk, _),
            ) && m == !l && kk == k) by {
                assert(others.contains(others[i]));
            }
            assert forall|o: Origin| #[trigger] os.contains(o) <==> o.stands_in(items) && o.due()
                == n by {
                if os.contains(o) {
                    let i = choose|i: int| 0 <= i < os.len() && os[i] == o;
                    assert(0 <= others[i] < n);
                }
                if o.stands_in(items) && o.due() == n {
                    match o {
                        Origin::Pair { left, right } => {
                            let other = if l {
                                right
                            } else {
                                left
                            };
                            assert(other < n);
                            assert(init[other] == items[other]);
                            assert(others.contains(other));
                            let i = choose|i: int| 0 <= i < others.len() && others[i] == other;
                            assert(os[i] == o);
                        },
                        Origin::Passed { at } => {},
                    }
                }
            }
            assert(v.step(items.last()).1 =~= outputs(os, items));
        },
        None => {
            assert forall|o: Origin| #[trigger] os.contains(o) <==> o.stands_in(items) && o.due()
                == n by {
                if o.stands_in(items) && o.due() == n && os.len() > 0 {
                    assert(os[0] == o);
                }
            }
            assert(v.step(items.last()).1 =~= outputs(os, items));
        },
    }
}

/// Everything that items bring about.
spec fn origins_of(items: Seq<ItemView>) -> Seq<Origin>
    decreases items.len(),
{
    if items.len() == 0 {
        Seq::empty()
    } else {
        origins_of(items.drop_last()) + newest(items)
    }
}

proof fn lemma_origins(items: Seq<ItemView>)
    ensures
        are_origins(origins_of(items), items),
        empty_join().steps(items).1 == outputs(origins_of(items), items),
    decreases items.len(),
{
    let os = origins_of(items);
    if items.len() == 0 {
        assert(outputs(os, items) =~= Seq::empty());
    } else {
        let n = items.len() - 1;
        let init = items.drop_last();
        let before = origins_of(init);
        let new = newest(items);
        lemma_origins(init);
        lemma_newest(items);
        assert forall|a: int| 0 <= a < before.len() implies (#[trigger] before[a]).stands_in(init)
            && before[a].due() < n && before[a].output(items) == before[a].output(init) by {
            assert(before.contains(before[a]));
        }
        assert forall|a: int| 0 <= a < new.len() implies (#[trigger] new[a]).due() == n by {
            assert(new.contains(new[a]));
        }
        assert forall|o: Origin| #[trigger] os.contains(o) <==> o.stands_in(items) by {
            if os.contains(o) {
                let i = choose|i: int| 0 <= i < os.len() && os[i] == o;
                if i < before.len() {
                    assert(before[i] == o);
                    assert(o.stands_in(init));
                } else {
                    assert(new[i - before.len()] == o);
                    assert(new.contains(o));
                }
            }
            if o.stands_in(items) {
                if o.due() == n {
                    assert(new.contains(o));
                    let i = choose|i: int| 0 <= i < new.len() && new[i] == o;
                    assert(os[before.len() + i] == o);
                } else {
                    assert(o.stands_in(init));
                    assert(before.contains(o));
                    let i = choose|i: int| 0 <= i < before.len() && before[i] == o;
                    assert(os[i] == o);
                }
            }
        }
        assert forall|a: int, b: int| 0 <= a < b < os.len() implies os[a] != os[b] && (
        #[trigger] os[a]).due() <= (#[trigger] os[b]).due() by {
            if b < before.len() {
                assert(os[a] == before[a] && os[b] == before[b]);
            } else if a < before.len() {
                assert(os[a] == before[a] && os[b] == new[b - before.len()]);
            } else {
                assert(os[a] == new[a - before.len()] && os[b] == new[b - before.len()]);
            }
        }
        assert(empty_join().steps(items).1 =~= outputs(os, items));
    }
}

/// An inner join whatever the order of arrival: over any items, each left and each right record of
/// one key give one joined record, when the later of the two arrives; watermarks and the end are
/// passed on in their place; and nothing else is put out.
pub proof fn law_pairs_join_once(items: Seq<ItemView>)
    ensures
        exists|origins: Seq<Origin>| #[trigger]
            are_origins(origins, items) && empty_join().steps(items).1 == outputs(origins, items),
{
    lemma_origins(items);
}

/// Items taken in two calls do what they do in one.
pub proof fn law_calls_follow_one_another(v: JoinView, a: Seq<ItemView>, b: Seq<ItemView>)
    ensures
        v.steps(a + b).0 == v.steps(a).0.steps(b).0,
        v.steps(a + b).1 == v.steps(a).1 + v.steps(a).0.steps(b).1,
    decreases b.len(),
{
    if b.len() == 0 {
        assert(a + b =~= a);
        assert(v.steps(a).1 + Seq::<ItemView>::empty() =~= v.steps(a).1);
    } else {
        law_calls_follow_one_another(v, a, b.drop_last());
        assert((a + b).drop_last() =~= a + b.drop_last());
        assert(v.steps(a + b).1 =~= v.steps(a).1 + v.steps(a).0.steps(b).1);
    }
}

/// The bytes of records: the side, the key behind its length, the payload; joined, the key and the
/// left payload behind their lengths, the right payload.
pub proof fn law_record_layout(key: Seq<u8>, left: Seq<u8>, right: Seq<u8>)
    ensures
        input_bytes(0, key, left) == seq![0u8] + blob32(key) + left,
        input_bytes(1, key, right) == seq![1u8] + blob32(key) + right,
        joined_bytes(key, left, right) == blob32(key) + blob32(left) + right,
        LEFT == 0 && RIGHT == 1,
{
}

} // verus!
