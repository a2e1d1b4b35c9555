//! Items and processors.

use std::collections::VecDeque;
use vstd::prelude::*;
use crate::model::views;

verus! {

/// What flows between processors.
#[derive(Clone, Debug, PartialEq, Eq)]
pub enum Item {
    Data(Vec<u8>),
    /// No item with an earlier event time follows.
    Watermark(i64),
    /// Nothing follows.
    Done,
}

/// What an [`Item`] holds.
pub enum ItemView {
    Data(Seq<u8>),
    Watermark(i64),
    Done,
}

impl View for Item {
    type V = ItemView;

    open spec fn view(&self) -> ItemView {
        match self {
            Item::Data(b) => ItemView::Data(b@),
            Item::Watermark(w) => ItemView::Watermark(*w),
            Item::Done => ItemView::Done,
        }
    }
}

pub trait Processor: Send + Sync {
    /// What holds of a processor between calls.
    open spec fn valid(&self) -> bool {
        true
    }

    /// Whether the processor can take these items.
    open spec fn accepts(&self, inbox: Seq<ItemView>) -> bool {
        true
    }

    /// Processes incoming items and puts output items behind those in the outbox. Says whether
    /// anything was done.
    fn process(&mut self, inbox: &mut VecDeque<Item>, outbox: &mut VecDeque<Item>) -> (done: bool)
        requires
            old(self).valid(),
            old(self).accepts(views(old(inbox)@)),
        ensures
            final(self).valid(),
            views(final(outbox)@).len() >= views(old(outbox)@).len(),
            views(final(outbox)@).take(views(old(outbox)@).len() as int) == views(old(outbox)@),
    ;
}

/// Takes the first item of a queue.
pub fn take_item(inbox: &mut VecDeque<Item>) -> (item: Option<Item>)
    ensures
        match item {
            Some(i) => {
                &&& old(inbox)@.len() > 0
                &&& i@ == views(old(inbox)@)[0]
                &&& views(final(inbox)@) == views(old(inbox)@).skip(1)
                &&& final(inbox)@.len() == old(inbox)@.len() - 1
            },
            None => old(inbox)@.len() == 0 && final(inbox)@ == old(inbox)@,
        },
{
    let ghost before = inbox@;
    let item = inbox.pop_front();
    proof {
        if item is Some {
            assert(views(inbox@) =~= views(before).skip(1));
        }
    }
    item
}

/// Puts an item behind those of a queue.
pub fn put_item(outbox: &mut VecDeque<Item>, item: Item)
    ensures
        views(final(outbox)@) == views(old(outbox)@).push(item@),
{
    let ghost before = outbox@;
    outbox.push_back(item);
    assert(views(outbox@) =~= views(before).push(item@));
}

/// What a mapping processor puts out for an item: data with a zero byte appended; other items as
/// they are.
pub open spec fn mapped(i: ItemView) -> Seq<ItemView> {
    match i {
        ItemView::Data(d) => seq![ItemView::Data(d.push(0))],
        _ => seq![i],
    }
}

/// What a mapping processor puts out for items.
pub open spec fn mapped_all(items: Seq<ItemView>) -> Seq<ItemView>
    decreases items.len(),
{
    if items.len() == 0 {
        Seq::empty()
    } else {
        mapped_all(items.drop_last()) + mapped(items.last())
    }
}

pub struct MapProcessor {}

impl Processor for MapProcessor {
    open spec fn valid(&self) -> bool {
        true
    }

    open spec fn accepts(&self, inbox: Seq<ItemView>) -> bool {
        true
    }

    fn process(&mut self, inbox: &mut VecDeque<Item>, outbox: &mut VecDeque<Item>) -> (done: bool)
        ensures
            done == (old(inbox)@.len() > 0),
            final(inbox)@.len() == 0,
            views(final(outbox)@) == views(old(outbox)@) + mapped_all(views(old(inbox)@)),
    {
        let ghost all = views(inbox@);
        let ghost before = views(outbox@);
        let ghost k: int = 0;
        let n: usize = inbox.len();
        assert(all.take(0) =~= Seq::empty());
        assert(before + mapped_all(all.take(0)) =~= before);
        while inbox.len() > 0
            invariant
                0 <= k <= all.len(),
                views(inbox@) =~= all.skip(k),
                views(outbox@) =~= before + mapped_all(all.take(k)),
            decreases inbox@.len(),
        {
            let ghost so_far = views(outbox@);
            match take_item(inbox) {
                Some(item) => {
                    proof {
                        assert(item@ == all[k]);
                        assert(all.skip(k).skip(1) =~= all.skip(k + 1));
                        assert(all.take(k + 1).drop_last() =~= all.take(k));
                        assert(all.take(k + 1).last() == all[k]);
                    }
                    match item {
                        Item::Data(data) => {
                            let mut new_data: Vec<u8> = data;
                            new_data.push(0);
                            put_item(outbox, Item::Data(new_data));
                        },
                        Item::Watermark(w) => {
                            put_item(outbox, Item::Watermark(w));
                        },
                        Item::Done => {
                            put_item(outbox, Item::Done);
                        },
                    }
                    proof {
                        assert(views(outbox@) =~= so_far + mapped(all[k]));
                        k = k + 1;
                    }
                },
                None => {},
            }
        }
        assert(all.take(k) =~= all);
        n > 0
    }
}

/// What a filtering processor puts out for an item: nothing for empty data; other items as they
/// are.
pub open spec fn filtered(i: ItemView) -> Seq<ItemView> {
    match i {
        ItemView::Data(d) => if d.len() == 0 {
            Seq::empty()
        } else {
            seq![i]
        },
        _ => seq![i],
    }
}

/// What a filtering processor puts out for items.
pub open spec fn filtered_all(items: Seq<ItemView>) -> Seq<ItemView>
    decreases items.len(),
{
    if items.len() == 0 {
        Seq::empty()
    } else {
        filtered_all(items.drop_last()) + filtered(items.last())
    }
}

pub struct FilterProcessor {}

impl Processor for FilterProcessor {
    open spec fn valid(&self) -> bool {
        true
    }

    open spec fn accepts(&self, inbox: Seq<ItemView>) -> bool {
        true
    }

    fn process(&mut self, inbox: &mut VecDeque<Item>, outbox: &mut VecDeque<Item>) -> (done: bool)
        ensures
            done == (old(inbox)@.len() > 0),
            final(inbox)@.len() == 0,
            views(final(outbox)@) == views(old(outbox)@) + filtered_all(views(old(inbox)@)),
    {
        let ghost all = views(inbox@);
        let ghost before = views(outbox@);
        let ghost k: int = 0;
        let n: usize = inbox.len();
        assert(all.take(0) =~= Seq::empty());
        assert(before + filtered_all(all.take(0)) =~= before);
        while inbox.len() > 0
            invariant
                0 <= k <= all.len(),
                views(inbox@) =~= all.skip(k),
                views(outbox@) =~= before + filtered_all(all.take(k)),
            decreases inbox@.len(),
        {
            let ghost so_far = views(outbox@);
            match take_item(inbox) {
                Some(item) => {
                    proof {
                        assert(item@ == all[k]);
                        assert(all.skip(k).skip(1) =~= all.skip(k + 1));
                        assert(all.take(k + 1).drop_last() =~= all.take(k));
                        assert(all.take(k + 1).last() == all[k]);
                    }
                    match item {
                        Item::Data(data) => {
                            if data.len() > 0 {
                                put_item(outbox, Item::Data(data));
                            }
                        },
                        Item::Watermark(w) => {
                            put_item(outbox, Item::Watermark(w));
                        },
                        Item::Done => {
                            put_item(outbox, Item::Done);
                        },
                    }
                    proof {
                        assert(views(outbox@) =~= so_far + filtered(all[k]));
                        k = k + 1;
                    }
                },
                None => {},
            }
        }
        assert(all.take(k) =~= all);
        n > 0
    }
}

/// Mapping puts out one item for each: data with a zero behind it, anything else as it is.
pub proof fn law_mapping_appends_a_zero(items: Seq<ItemView>)
    ensures
        mapped_all(items).len() == items.len(),
        forall|i: int|
            0 <= i < items.len() ==> match #[trigger] items[i] {
                ItemView::Data(d) => mapped_all(items)[i] == ItemView::Data(d + seq![0u8]),
                other => mapped_all(items)[i] == other,
            },
    decreases items.len(),
{
    if items.len() > 0 {
        let rest = items.drop_last();
        law_mapping_appends_a_zero(rest);
        assert forall|i: int| 0 <= i < items.len() implies match #[trigger] items[i] {
            ItemView::Data(d) => mapped_all(items)[i] == ItemView::Data(d + seq![0u8]),
            other => mapped_all(items)[i] == other,
        } by {
            if i < rest.len() {
                assert(rest[i] == items[i]);
            } else if let ItemView::Data(d) = items[i] {
                assert(d.push(0) =~= d + seq![0u8]);
            }
        }
    }
}

/// Filtering drops empty data and nothing else, and keeps the order.
pub proof fn law_filtering_drops_empty_data(items: Seq<ItemView>)
    ensures
        filtered_all(items) == items.filter(
            |i: ItemView| !(i matches ItemView::Data(d) && d.len() == 0),
        ),
    decreases items.len(),
{
    reveal(Seq::filter);
    let keep = |i: ItemView| !(i matches ItemView::Data(d) && d.len() == 0);
    if items.len() == 0 {
        assert(items.filter(keep) =~= Seq::empty());
    } else {
        law_filtering_drops_empty_data(items.drop_last());
        assert(filtered_all(items) =~= items.filter(keep));
    }
}

} // verus!
