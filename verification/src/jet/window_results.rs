//! What a stream of events puts out: which windows, and with which aggregates.

use vstd::multiset::Multiset;
use vstd::prelude::*;
use super::processor::ItemView;
use super::window::{
    acc_at, ascending, complete, completed, empty_acc, event_bytes, extends, first_extended, folded,
    folded_back, folded_session, grid_start, grown, in_order,
    law_folding_updates_one_window, law_records_read_back, law_sliding_windows_cover_their_events, law_watermarks_split_the_windows,
    lemma_in_order_rest,
    lemma_grid_start, lemma_order_trans, lemma_placed, lemma_split_from, lemma_split_in_order, placed, result_item, result_items, result_of,
    still_open, window_order, Acc, Agg, StateView, WindowKind, WindowView,
};
use crate::order::Order;

verus! {

/// An event of a stream.
pub struct Event {
    pub ts: i64,
    pub value: i64,
    pub key: Seq<u8>,
}

/// The items that carry events.
pub open spec fn event_items(evs: Seq<Event>) -> Seq<ItemView> {
    Seq::new(evs.len(), |i: int| ItemView::Data(event_bytes(evs[i].ts, evs[i].value, evs[i].key)))
}

/// Whether the window that starts at `start` covers the time `ts`.
pub open spec fn falls_in(kind: WindowKind, ts: i64, start: i64) -> bool {
    match kind {
        WindowKind::Tumbling { size } => start == grid_start(ts, size),
        WindowKind::Sliding { size, slide } => start as int % slide as int == 0 && ts - size < start
            <= ts,
        WindowKind::Session { gap } => false,
    }
}

/// The values of the events of a key that fall in a window, in the order of the events.
pub open spec fn values_in(kind: WindowKind, evs: Seq<Event>, start: i64, key: Seq<u8>) -> Seq<i64>
    decreases evs.len(),
{
    if evs.len() == 0 {
        Seq::empty()
    } else {
        let before = values_in(kind, evs.drop_last(), start, key);
        let e = evs.last();
        if e.key == key && falls_in(kind, e.ts, start) {
            before.push(e.value)
        } else {
            before
        }
    }
}

/// What values accumulate to.
pub open spec fn acc_of(values: Seq<i64>) -> Acc
    decreases values.len(),
{
    if values.len() == 0 {
        empty_acc()
    } else {
        acc_of(values.drop_last()).plus(values.last())
    }
}

/// The sum of values.
pub open spec fn total(values: Seq<i64>) -> int
    decreases values.len(),
{
    if values.len() == 0 {
        0
    } else {
        total(values.drop_last()) + values.last()
    }
}

/// When the window that starts at `start` ends.
pub open spec fn end_of(kind: WindowKind, start: i64) -> int {
    match kind {
        WindowKind::Tumbling { size } => start + size,
        WindowKind::Sliding { size, slide } => start + size,
        WindowKind::Session { gap } => start + gap,
    }
}

pub open spec fn stands_in(ws: Seq<WindowView>, start: i64, key: Seq<u8>) -> bool {
    exists|i: int| 0 <= i < ws.len() && (#[trigger] ws[i]).start == start && ws[i].key == key
}

/// Whether `ws` are the windows that have events and end by `w`, or those that end later: each
/// once, by start and key, with what exactly its values accumulate to.
pub open spec fn are_windows_of(
    ws: Seq<WindowView>,
    kind: WindowKind,
    evs: Seq<Event>,
    w: i64,
    by: bool,
) -> bool {
    &&& in_order(ws)
    &&& forall|i: int|
        0 <= i < ws.len() ==> is_window_of(#[trigger] ws[i], kind, evs) && (end_of(
            kind,
            ws[i].start,
        ) <= w) == by
    &&& forall|start: i64, key: Seq<u8>|
        (#[trigger] values_in(kind, evs, start, key)).len() > 0 && (end_of(kind, start) <= w) == by
            ==> stands_in(ws, start, key)
}

/// Whether a window has events, and has accumulated exactly their values.
pub open spec fn is_window_of(v: WindowView, kind: WindowKind, evs: Seq<Event>) -> bool {
    let values = values_in(kind, evs, v.start, v.key);
    values.len() > 0 && v.acc == acc_of(values)
}

/// A processor that has seen nothing.
pub open spec fn fresh_state(kind: WindowKind, agg: Agg) -> StateView {
    StateView { kind, agg, windows: Seq::empty() }
}

/// Whether `ws` stand in order and are the windows of `evs`.
spec fn tracks(ws: Seq<WindowView>, kind: WindowKind, evs: Seq<Event>) -> bool {
    &&& in_order(ws)
    &&& forall|start: i64, key: Seq<u8>| #[trigger] tracks_at(ws, kind, evs, start, key)
}

spec fn tracks_at(
    ws: Seq<WindowView>,
    kind: WindowKind,
    evs: Seq<Event>,
    start: i64,
    key: Seq<u8>,
) -> bool {
    let values = values_in(kind, evs, start, key);
    &&& acc_at(ws, start, key) == acc_of(values)
    &&& stands_in(ws, start, key) == (values.len() > 0)
}

proof fn lemma_stands_in_front(w: WindowView, ws: Seq<WindowView>, start: i64, key: Seq<u8>)
    ensures
        stands_in(seq![w] + ws, start, key) == ((w.start == start && w.key == key) || stands_in(
            ws,
            start,
            key,
        )),
{
    let all = seq![w] + ws;
    if w.start == start && w.key == key {
        assert(all[0] == w);
    }
    if stands_in(ws, start, key) {
        let i = choose|i: int|
            0 <= i < ws.len() && (#[trigger] ws[i]).start == start && ws[i].key == key;
        assert(all[i + 1] == ws[i]);
    }
    if stands_in(all, start, key) {
        let i = choose|i: int|
            0 <= i < all.len() && (#[trigger] all[i]).start == start && all[i].key == key;
        if i > 0 {
            assert(all[i] == ws[i - 1]);
        }
    }
}

/// Folding opens the one window that it folds into.
proof fn lemma_folded_stands(
    ws: Seq<WindowView>,
    start: i64,
    key: Seq<u8>,
    value: i64,
    other: i64,
    other_key: Seq<u8>,
)
    ensures
        stands_in(folded(ws, start, key, value), other, other_key) == ((other == start && other_key
            == key) || stands_in(ws, other, other_key)),
    decreases ws.len(),
{
    let fresh = WindowView { key, start, last: start, acc: empty_acc().plus(value) };
    if ws.len() == 0 {
        assert(seq![fresh] =~= seq![fresh] + Seq::empty());
        lemma_stands_in_front(fresh, Seq::empty(), other, other_key);
    } else {
        let rest = ws.skip(1);
        assert(ws =~= seq![ws[0]] + rest);
        lemma_stands_in_front(ws[0], rest, other, other_key);
        lemma_order_trans(fresh, ws[0], ws[0]);
        match window_order(start, key, ws[0]) {
            Order::Less => {
                lemma_stands_in_front(fresh, ws, other, other_key);
            },
            Order::Equal => {
                lemma_stands_in_front(
                    WindowView { acc: ws[0].acc.plus(value), ..ws[0] },
                    rest,
                    other,
                    other_key,
                );
            },
            Order::Greater => {
                lemma_folded_stands(rest, start, key, value, other, other_key);
                lemma_stands_in_front(
                    ws[0],
                    folded(rest, start, key, value),
                    other,
                    other_key,
                );
            },
        }
    }
}

/// Two multiples of the slide do not lie less than a slide apart.
proof fn lemma_multiples_apart(a: int, b: int, slide: int)
    requires
        slide > 0,
        a % slide == 0,
        b % slide == 0,
        a - slide < b < a + slide,
    ensures
        a == b,
{
    vstd::arithmetic::div_mod::lemma_fundamental_div_mod(a, slide);
    vstd::arithmetic::div_mod::lemma_fundamental_div_mod(b, slide);
    let d = a - b;
    let x = a / slide;
    let y = b / slide;
    assert(d == slide * (x - y)) by (nonlinear_arith)
        requires
            d == a - b,
            a == slide * x,
            b == slide * y,
    ;
    assert(d == 0) by (nonlinear_arith)
        requires
            d == slide * (x - y),
            -slide < d < slide,
            slide > 0,
    ;
}

/// Folding back opens exactly the windows that it folds into.
proof fn lemma_folded_back_stands(
    ws: Seq<WindowView>,
    start: int,
    bound: int,
    slide: int,
    key: Seq<u8>,
    value: i64,
    other: i64,
    other_key: Seq<u8>,
)
    requires
        slide > 0,
        start % slide == 0,
        i64::MIN <= bound,
        start <= i64::MAX,
    ensures
        stands_in(folded_back(ws, start, bound, slide, key, value), other, other_key) == ((other_key
            == key && other as int % slide == 0 && bound < other <= start) || stands_in(
            ws,
            other,
            other_key,
        )),
    decreases
            if start > bound {
                start - bound
            } else {
                0
            },
{
    if start > bound {
        let f = folded(ws, start as i64, key, value);
        lemma_folded_stands(ws, start as i64, key, value, other, other_key);
        assert((start - slide) % slide == 0) by {
            vstd::arithmetic::div_mod::lemma_mod_sub_multiples_vanish(start, slide);
        }
        lemma_folded_back_stands(f, start - slide, bound, slide, key, value, other, other_key);
        if other as int % slide == 0 && start - slide < other <= start {
            lemma_multiples_apart(start, other as int, slide);
        }
    }
}

/// An event keeps the windows those of the events so far.
proof fn lemma_event_tracked(s: StateView, evs: Seq<Event>)
    requires
        evs.len() > 0,
        fresh_state(s.kind, s.agg).valid(),
        !(s.kind is Session),
        s.takes(evs.last().ts),
        tracks(s.windows, s.kind, evs.drop_last()),
    ensures
        tracks(s.plus(evs.last().ts, evs.last().value, evs.last().key).windows, s.kind, evs),
{
    let e = evs.last();
    let ws = s.windows;
    let r = s.plus(e.ts, e.value, e.key).windows;
    match s.kind {
        WindowKind::Tumbling { size } => {
            let at = grid_start(e.ts, size) as i64;
            let aside: i64 = if at == 0 {
                1
            } else {
                0
            };
            law_folding_updates_one_window(ws, at, e.key, e.value, aside, e.key);
            assert forall|start: i64, key: Seq<u8>| #[trigger]
                tracks_at(r, s.kind, evs, start, key) by {
                assert(tracks_at(ws, s.kind, evs.drop_last(), start, key));
                lemma_folded_stands(ws, at, e.key, e.value, start, key);
                let before = values_in(s.kind, evs.drop_last(), start, key);
                if (start, key) != (at, e.key) {
                    law_folding_updates_one_window(ws, at, e.key, e.value, start, key);
                } else {
                    assert(before.push(e.value).drop_last() =~= before);
                }
            }
        },
        WindowKind::Sliding { size, slide } => {
            let at = grid_start(e.ts, slide);
            let bound = e.ts - size;
            lemma_grid_start(e.ts, slide);
            law_sliding_windows_cover_their_events(
                ws,
                at,
                bound,
                slide as int,
                e.key,
                e.value,
                0,
                e.key,
            );
            assert forall|start: i64, key: Seq<u8>| #[trigger]
                tracks_at(r, s.kind, evs, start, key) by {
                assert(tracks_at(ws, s.kind, evs.drop_last(), start, key));
                law_sliding_windows_cover_their_events(
                    ws,
                    at,
                    bound,
                    slide as int,
                    e.key,
                    e.value,
                    start,
                    key,
                );
                lemma_folded_back_stands(
                    ws,
                    at,
                    bound,
                    slide as int,
                    e.key,
                    e.value,
                    start,
                    key,
                );
                if start as int % slide as int == 0 && at < start <= e.ts {
                    lemma_multiples_apart(at, start as int, slide as int);
                }
                let before = values_in(s.kind, evs.drop_last(), start, key);
                assert(before.push(e.value).drop_last() =~= before);
            }
        },
        WindowKind::Session { gap } => {},
    }
}

/// What the events of a stream do, the last one behind the others.
proof fn lemma_last_event(kind: WindowKind, agg: Agg, evs: Seq<Event>)
    requires
        evs.len() > 0,
    ensures
        ({
            let before = fresh_state(kind, agg).steps(event_items(evs.drop_last()));
            let now = fresh_state(kind, agg).steps(event_items(evs));
            let e = evs.last();
            &&& now.0 == before.0.plus(e.ts, e.value, e.key)
            &&& now.1 == before.1
        }),
{
    let items = event_items(evs);
    let e = evs.last();
    assert(items.drop_last() =~= event_items(evs.drop_last()));
    law_records_read_back(e.ts, e.value, 0, e.key);
    let before = fresh_state(kind, agg).steps(event_items(evs.drop_last()));
    assert(before.1 + Seq::<ItemView>::empty() =~= before.1);
}

/// Events put nothing out; their windows are open.
proof fn lemma_events_tracked(kind: WindowKind, agg: Agg, evs: Seq<Event>)
    requires
        fresh_state(kind, agg).valid(),
        !(kind is Session),
        fresh_state(kind, agg).takes_all(event_items(evs)),
    ensures
        ({
            let r = fresh_state(kind, agg).steps(event_items(evs));
            &&& r.0.kind == kind
            &&& r.0.agg == agg
            &&& r.1.len() == 0
            &&& tracks(r.0.windows, kind, evs)
        }),
    decreases evs.len(),
{
    let s = fresh_state(kind, agg);
    if evs.len() == 0 {
        let ws = s.windows;
        assert(event_items(evs) =~= Seq::empty());
        assert forall|start: i64, key: Seq<u8>| #[trigger]
            tracks_at(ws, kind, evs, start, key) by {
            assert(!stands_in(ws, start, key));
        }
    } else {
        let init = evs.drop_last();
        let items = event_items(evs);
        let e = evs.last();
        assert forall|i: int| 0 <= i < event_items(init).len() implies s.takes_item(
            #[trigger] event_items(init)[i],
        ) by {
            assert(s.takes_item(items[i]));
        }
        lemma_events_tracked(kind, agg, init);
        lemma_last_event(kind, agg, evs);
        assert(s.takes_item(items[evs.len() - 1]));
        law_records_read_back(e.ts, e.value, 0, e.key);
        lemma_event_tracked(s.steps(event_items(init)).0, evs);
    }
}

/// Where a window stands, what it has accumulated is found.
proof fn lemma_found(ws: Seq<WindowView>, i: int)
    requires
        in_order(ws),
        0 <= i < ws.len(),
    ensures
        acc_at(ws, ws[i].start, ws[i].key) == ws[i].acc,
    decreases ws.len(),
{
    if i > 0 {
        assert(window_order(ws[0].start, ws[0].key, ws[i]) == Order::Less);
        lemma_order_trans(ws[0], ws[i], ws[i]);
        lemma_in_order_rest(ws);
        assert(ws.skip(1)[i - 1] == ws[i]);
        lemma_found(ws.skip(1), i - 1);
    }
}

/// Every window is among those that a watermark completes or among those that it leaves open.
proof fn lemma_split_keeps(kind: WindowKind, ws: Seq<WindowView>, w: i64, i: int)
    requires
        0 <= i < ws.len(),
    ensures
        complete(kind, ws[i], w) ==> completed(kind, ws, w).contains(ws[i]),
        !complete(kind, ws[i], w) ==> still_open(kind, ws, w).contains(ws[i]),
{
    broadcast use vstd::seq_lib::group_to_multiset_ensures;

    law_watermarks_split_the_windows(kind, ws, w);
    let c = completed(kind, ws, w);
    let o = still_open(kind, ws, w);
    assert(ws.contains(ws[i]));
    assert(ws.to_multiset().count(ws[i]) > 0);
    assert(c.to_multiset().add(o.to_multiset()).count(ws[i]) > 0);
    if c.to_multiset().count(ws[i]) > 0 {
        assert(c.contains(ws[i]));
        let k = choose|k: int| 0 <= k < c.len() && c[k] == ws[i];
        assert(complete(kind, c[k], w));
    }
    if o.to_multiset().count(ws[i]) > 0 {
        assert(o.contains(ws[i]));
        let k = choose|k: int| 0 <= k < o.len() && o[k] == ws[i];
        assert(!complete(kind, o[k], w));
    }
}

proof fn lemma_part_of(
    ws: Seq<WindowView>,
    part: Seq<WindowView>,
    kind: WindowKind,
    evs: Seq<Event>,
    w: i64,
    by: bool,
)
    requires
        !(kind is Session),
        tracks(ws, kind, evs),
        in_order(part),
        forall|i: int| 0 <= i < part.len() ==> ws.contains(#[trigger] part[i]),
        forall|i: int| 0 <= i < part.len() ==> complete(kind, #[trigger] part[i], w) == by,
        forall|i: int|
            0 <= i < ws.len() && complete(kind, #[trigger] ws[i], w) == by ==> part.contains(ws[i]),
    ensures
        are_windows_of(part, kind, evs, w, by),
{
    assert forall|i: int| 0 <= i < part.len() implies is_window_of(#[trigger] part[i], kind, evs)
        && (end_of(kind, part[i].start) <= w) == by by {
        assert(ws.contains(part[i]));
        let k = choose|k: int| 0 <= k < ws.len() && ws[k] == part[i];
        lemma_found(ws, k);
        assert(tracks_at(ws, kind, evs, ws[k].start, ws[k].key));
        assert(stands_in(ws, ws[k].start, ws[k].key));
        assert(complete(kind, part[i], w) == by);
    }
    assert forall|start: i64, key: Seq<u8>|
        (#[trigger] values_in(kind, evs, start, key)).len() > 0 && (end_of(kind, start) <= w)
            == by implies stands_in(part, start, key) by {
        assert(tracks_at(ws, kind, evs, start, key));
        let k = choose|k: int|
            0 <= k < ws.len() && (#[trigger] ws[k]).start == start && ws[k].key == key;
        assert(complete(kind, ws[k], w) == by);
        assert(part.contains(ws[k]));
        let i = choose|i: int| 0 <= i < part.len() && part[i] == ws[k];
        assert(part[i].start == start);
    }
}

/// Events followed by a watermark, or by the end of the stream, put out one result for each window
/// and key that has events and is complete, with the aggregate of exactly the values that fall in
/// it, by ascending start and key. The other windows that have events stay open.
pub proof fn law_complete_windows_are_put_out_once(
    kind: WindowKind,
    agg: Agg,
    evs: Seq<Event>,
    end: ItemView,
    w: i64,
)
    requires
        fresh_state(kind, agg).valid(),
        !(kind is Session),
        fresh_state(kind, agg).takes_all(event_items(evs)),
        end == ItemView::Watermark(w) || (end == ItemView::Done && w == i64::MAX),
    ensures
        ({
            let r = fresh_state(kind, agg).steps(event_items(evs).push(end));
            &&& exists|ws: Seq<WindowView>| #[trigger]
                are_windows_of(ws, kind, evs, w, true) && r.1 == result_items(kind, agg, ws).push(
                    end,
                )
            &&& are_windows_of(r.0.windows, kind, evs, w, false)
        }),
{
    let items = event_items(evs);
    let before = fresh_state(kind, agg).steps(items);
    lemma_events_tracked(kind, agg, evs);
    assert(items.push(end).drop_last() =~= items);
    let ws = before.0.windows;
    let done = completed(kind, ws, w);
    let open = still_open(kind, ws, w);
    lemma_split_from(kind, ws, w);
    lemma_split_in_order(kind, ws, w);
    law_watermarks_split_the_windows(kind, ws, w);
    assert forall|i: int| 0 <= i < ws.len() && complete(kind, #[trigger] ws[i], w) implies done.contains(
        ws[i],
    ) by {
        lemma_split_keeps(kind, ws, w, i);
    }
    assert forall|i: int| 0 <= i < ws.len() && !complete(kind, #[trigger] ws[i], w) implies open.contains(
        ws[i],
    ) by {
        lemma_split_keeps(kind, ws, w, i);
    }
    lemma_part_of(ws, done, kind, evs, w, true);
    lemma_part_of(ws, open, kind, evs, w, false);
    let r = fresh_state(kind, agg).steps(items.push(end));
    assert(r.1 =~= result_items(kind, agg, done).push(end));
}

/// What values accumulate to: their number, the smallest and the largest of them, and their sum,
/// as long as an `i64` holds it.
pub proof fn law_values_accumulate(values: Seq<i64>)
    requires
        0 < values.len() <= i64::MAX,
    ensures
        acc_of(values).count == values.len(),
        values.contains(acc_of(values).min),
        values.contains(acc_of(values).max),
        forall|i: int|
            0 <= i < values.len() ==> acc_of(values).min <= #[trigger] values[i] <= acc_of(
                values,
            ).max,
        i64::MIN <= total(values) <= i64::MAX ==> acc_of(values).sum == total(values),
    decreases values.len(),
{
    lemma_sum_wraps(values);
    let init = values.drop_last();
    let last = values.last();
    let acc = acc_of(values);
    assert(values[values.len() - 1] == last);
    assert(acc == acc_of(init).plus(last));
    if init.len() == 0 {
        assert(acc_of(init) == empty_acc());
    } else {
        law_values_accumulate(init);
        let a = acc_of(init).min;
        let b = acc_of(init).max;
        let i = choose|i: int| 0 <= i < init.len() && init[i] == a;
        let j = choose|j: int| 0 <= j < init.len() && init[j] == b;
        assert(values[i] == a);
        assert(values[j] == b);
        assert forall|k: int| 0 <= k < values.len() implies acc.min <= #[trigger] values[k]
            <= acc.max by {
            if k < init.len() {
                assert(values[k] == init[k]);
            }
        }
    }
}

/// A sum that wraps around differs from the true one by a multiple of the range.
proof fn lemma_sum_wraps(values: Seq<i64>)
    ensures
        exists|k: int| acc_of(values).sum == total(values) + #[trigger] (k * 0x1_0000_0000_0000_0000),
    decreases values.len(),
{
    let m: int = 0x1_0000_0000_0000_0000;
    if values.len() == 0 {
        assert(acc_of(values).sum == total(values) + 0 * m);
    } else {
        lemma_sum_wraps(values.drop_last());
        let k = choose|k: int|
            acc_of(values.drop_last()).sum == total(values.drop_last()) + #[trigger] (k * m);
        assert((k + 1) * m == k * m + m) by (nonlinear_arith);
        assert((k - 1) * m == k * m - m) by (nonlinear_arith);
        let s = acc_of(values).sum;
        let t = total(values);
        assert(s == t + k * m || s == t + (k + 1) * m || s == t + (k - 1) * m);
    }
}

/// The values of events.
pub open spec fn values_of(evs: Seq<Event>) -> Seq<i64> {
    Seq::new(evs.len(), |i: int| evs[i].value)
}

/// Whether a session holds exactly these events: they have its key, it reaches from the earliest
/// to the latest of them, and has accumulated their values.
pub open spec fn is_session_of(v: WindowView, evs: Seq<Event>) -> bool {
    &&& evs.len() > 0
    &&& forall|i: int|
        0 <= i < evs.len() ==> (#[trigger] evs[i]).key == v.key && v.start <= evs[i].ts <= v.last
    &&& exists|i: int| 0 <= i < evs.len() && (#[trigger] evs[i]).ts == v.start
    &&& exists|i: int| 0 <= i < evs.len() && (#[trigger] evs[i]).ts == v.last
    &&& v.acc == acc_of(values_of(evs))
}

/// All events of groups, counted.
pub open spec fn gathered(groups: Seq<Seq<Event>>) -> Multiset<Event>
    decreases groups.len(),
{
    if groups.len() == 0 {
        Multiset::empty()
    } else {
        gathered(groups.drop_last()).add(groups.last().to_multiset())
    }
}

/// Whether `ws` are sessions by start that hold the events of `groups`, and the groups hold each
/// of `evs` once.
pub open spec fn are_sessions_of(
    ws: Seq<WindowView>,
    groups: Seq<Seq<Event>>,
    evs: Seq<Event>,
) -> bool {
    &&& ascending(ws)
    &&& ws.len() == groups.len()
    &&& forall|i: int| 0 <= i < ws.len() ==> is_session_of(#[trigger] ws[i], groups[i])
    &&& gathered(groups) == evs.to_multiset()
}

proof fn lemma_gathered_insert(groups: Seq<Seq<Event>>, j: int, g: Seq<Event>)
    requires
        0 <= j <= groups.len(),
    ensures
        gathered(groups.insert(j, g)) == gathered(groups).add(g.to_multiset()),
    decreases groups.len(),
{
    let all = groups.insert(j, g);
    if j == groups.len() {
        assert(all.drop_last() =~= groups);
    } else {
        let init = groups.drop_last();
        lemma_gathered_insert(init, j, g);
        assert(all.drop_last() =~= init.insert(j, g));
        assert(all.last() == groups.last());
        assert(gathered(all) =~= gathered(groups).add(g.to_multiset()));
    }
}

/// Putting a session in its place is inserting it somewhere.
proof fn lemma_placed_somewhere(ws: Seq<WindowView>, x: WindowView) -> (j: int)
    ensures
        0 <= j <= ws.len(),
        placed(ws, x) == ws.insert(j, x),
    decreases ws.len(),
{
    if ws.len() > 0 && window_order(x.start, x.key, ws.last()) == Order::Less {
        let j = lemma_placed_somewhere(ws.drop_last(), x);
        assert(placed(ws, x) =~= ws.insert(j, x));
        j
    } else {
        assert(placed(ws, x) =~= ws.insert(ws.len() as int, x));
        ws.len() as int
    }
}

/// The first session that an event extends is one of the sessions, and the event extends it.
proof fn lemma_first_extended_extends(ws: Seq<WindowView>, ts: i64, key: Seq<u8>, gap: i64)
    ensures
        first_extended(ws, ts, key, gap) matches Some(i) ==> 0 <= i < ws.len() && extends(
            ws[i],
            key,
            ts,
            gap,
        ),
    decreases ws.len(),
{
    if ws.len() > 0 {
        lemma_first_extended_extends(ws.drop_last(), ts, key, gap);
    }
}

/// A session with one more event holds one more event.
proof fn lemma_grown_session(v: WindowView, evs: Seq<Event>, e: Event)
    requires
        is_session_of(v, evs),
        e.key == v.key,
    ensures
        is_session_of(grown(v, e.ts, e.value), evs.push(e)),
{
    let all = evs.push(e);
    let w = grown(v, e.ts, e.value);
    assert(values_of(all).drop_last() =~= values_of(evs));
    assert forall|i: int| 0 <= i < all.len() implies (#[trigger] all[i]).key == w.key && w.start
        <= all[i].ts <= w.last by {
        if i < evs.len() {
            assert(all[i] == evs[i]);
        }
    }
    let a = choose|i: int| 0 <= i < evs.len() && (#[trigger] evs[i]).ts == v.start;
    let b = choose|i: int| 0 <= i < evs.len() && (#[trigger] evs[i]).ts == v.last;
    assert(all[a] == evs[a] && all[b] == evs[b] && all[evs.len() as int] == e);
}

/// An event goes into one session.
proof fn lemma_event_in_session(
    ws: Seq<WindowView>,
    groups: Seq<Seq<Event>>,
    evs: Seq<Event>,
    gap: i64,
) -> (now: Seq<Seq<Event>>)
    requires
        evs.len() > 0,
        are_sessions_of(ws, groups, evs.drop_last()),
    ensures
        are_sessions_of(
            folded_session(ws, evs.last().ts, evs.last().value, evs.last().key, gap),
            now,
            evs,
        ),
{
    broadcast use vstd::seq_lib::group_to_multiset_ensures;

    let e = evs.last();
    assert(evs =~= evs.drop_last().push(e));
    lemma_first_extended_extends(ws, e.ts, e.key, gap);
    match first_extended(ws, e.ts, e.key, gap) {
        Some(i) => {
            let rest = ws.remove(i);
            let kept = groups.remove(i);
            let g = groups[i];
            let x = grown(ws[i], e.ts, e.value);
            assert(is_session_of(ws[i], groups[i]));
            lemma_grown_session(ws[i], g, e);
            assert forall|k: int| 0 <= k < rest.len() implies is_session_of(
                #[trigger] rest[k],
                kept[k],
            ) by {
                let o = if k < i {
                    k
                } else {
                    k + 1
                };
                assert(rest[k] == ws[o] && kept[k] == groups[o]);
                assert(is_session_of(ws[o], groups[o]));
            }
            assert(ascending(rest)) by {
                assert forall|a: int, b: int| 0 <= a < b < rest.len() implies window_order(
                    (#[trigger] rest[b]).start,
                    rest[b].key,
                    #[trigger] rest[a],
                ) != Order::Less by {
                    let oa = if a < i {
                        a
                    } else {
                        a + 1
                    };
                    let ob = if b < i {
                        b
                    } else {
                        b + 1
                    };
                    assert(rest[a] == ws[oa] && rest[b] == ws[ob]);
                }
            }
            assert(kept.insert(i, g) =~= groups);
            lemma_gathered_insert(kept, i, g);
            lemma_placed(rest, x);
            let j = lemma_placed_somewhere(rest, x);
            let now = kept.insert(j, g.push(e));
            lemma_gathered_insert(kept, j, g.push(e));
            assert(gathered(now) =~= evs.to_multiset());
            lemma_inserted_sessions(rest, kept, j, x, g.push(e));
            now
        },
        None => {
            let x = WindowView {
                key: e.key,
                start: e.ts,
                last: e.ts,
                acc: empty_acc().plus(e.value),
            };
            let g = seq![e];
            assert(values_of(g).drop_last() =~= Seq::empty());
            assert(acc_of(values_of(g).drop_last()) == empty_acc());
            assert(is_session_of(x, g)) by {
                assert(g[0] == e);
            }
            assert(g =~= Seq::empty().push(e));
            lemma_placed(ws, x);
            let j = lemma_placed_somewhere(ws, x);
            let now = groups.insert(j, g);
            lemma_gathered_insert(groups, j, g);
            assert(gathered(now) =~= evs.to_multiset());
            lemma_inserted_sessions(ws, groups, j, x, g);
            now
        },
    }
}

proof fn lemma_inserted_sessions(
    ws: Seq<WindowView>,
    groups: Seq<Seq<Event>>,
    j: int,
    x: WindowView,
    g: Seq<Event>,
)
    requires
        ws.len() == groups.len(),
        0 <= j <= ws.len(),
        is_session_of(x, g),
        forall|i: int| 0 <= i < ws.len() ==> is_session_of(#[trigger] ws[i], groups[i]),
    ensures
        forall|i: int|
            0 <= i < ws.len() + 1 ==> is_session_of(
                #[trigger] ws.insert(j, x)[i],
                groups.insert(j, g)[i],
            ),
{
    assert forall|i: int| 0 <= i < ws.len() + 1 implies is_session_of(
        #[trigger] ws.insert(j, x)[i],
        groups.insert(j, g)[i],
    ) by {
        if i < j {
            assert(is_session_of(ws[i], groups[i]));
        } else if i > j {
            assert(is_session_of(ws[i - 1], groups[i - 1]));
        }
    }
}

/// Every event of a stream goes into one session: the open sessions, by start, hold each event
/// once, and reach from the earliest to the latest of theirs. A watermark, or the end of the
/// stream, puts out those of them that it completes.
pub proof fn law_sessions_hold_each_event_once(
    gap: i64,
    agg: Agg,
    evs: Seq<Event>,
    end: ItemView,
    w: i64,
)
    requires
        end == ItemView::Watermark(w) || (end == ItemView::Done && w == i64::MAX),
    ensures
        exists|ws: Seq<WindowView>, groups: Seq<Seq<Event>>|
            {
                let kind = WindowKind::Session { gap };
                let r = fresh_state(kind, agg).steps(event_items(evs).push(end));
                &&& #[trigger] are_sessions_of(ws, groups, evs)
                &&& r.1 == result_items(kind, agg, completed(kind, ws, w)).push(end)
                &&& r.0.windows == still_open(kind, ws, w)
            },
{
    let kind = WindowKind::Session { gap };
    let items = event_items(evs);
    let before = fresh_state(kind, agg).steps(items);
    let groups = lemma_events_in_sessions(gap, agg, evs);
    let ws = before.0.windows;
    assert(items.push(end).drop_last() =~= items);
    let r = fresh_state(kind, agg).steps(items.push(end));
    assert(r.1 =~= result_items(kind, agg, completed(kind, ws, w)).push(end));
    assert(are_sessions_of(ws, groups, evs));
}

proof fn lemma_events_in_sessions(gap: i64, agg: Agg, evs: Seq<Event>) -> (groups: Seq<Seq<Event>>)
    ensures
        ({
            let r = fresh_state(WindowKind::Session { gap }, agg).steps(event_items(evs));
            &&& r.0.kind == (WindowKind::Session { gap })
            &&& r.0.agg == agg
            &&& r.1.len() == 0
            &&& are_sessions_of(r.0.windows, groups, evs)
        }),
    decreases evs.len(),
{
    broadcast use vstd::seq_lib::group_to_multiset_ensures;

    let kind = WindowKind::Session { gap };
    if evs.len() == 0 {
        assert(event_items(evs) =~= Seq::empty());
        assert(evs =~= Seq::empty());
        assert(gathered(Seq::empty()) =~= evs.to_multiset());
        Seq::empty()
    } else {
        let before = lemma_events_in_sessions(gap, agg, evs.drop_last());
        lemma_last_event(kind, agg, evs);
        let s = fresh_state(kind, agg).steps(event_items(evs.drop_last())).0;
        lemma_event_in_session(s.windows, before, evs, gap)
    }
}

/// Whether a number is an aggregate of values: how many they are, the least or greatest of them,
/// their total, or their mean rounded towards zero; the last two as long as an `i64` holds the
/// total.
pub open spec fn is_aggregate_of(a: i64, agg: Agg, values: Seq<i64>) -> bool {
    let n = values.len() as int;
    let t = total(values);
    match agg {
        Agg::Count => a == n,
        Agg::Min => values.contains(a) && forall|i: int| 0 <= i < n ==> a <= #[trigger] values[i],
        Agg::Max => values.contains(a) && forall|i: int| 0 <= i < n ==> a >= #[trigger] values[i],
        Agg::Sum => i64::MIN <= t <= i64::MAX ==> a == t,
        Agg::Avg => i64::MIN <= t <= i64::MAX ==> {
            &&& -n < t - n * a < n
            &&& t >= 0 ==> a >= 0 && n * a <= t
            &&& t <= 0 ==> a <= 0 && n * a >= t
        },
    }
}

/// What a window puts out is the aggregate of the values that it has accumulated.
pub proof fn law_aggregates_are_those_of_the_values(agg: Agg, values: Seq<i64>)
    requires
        0 < values.len() <= i64::MAX,
    ensures
        is_aggregate_of(acc_of(values).result(agg), agg, values),
{
    law_values_accumulate(values);
    let t = total(values);
    let n = values.len() as int;
    if agg == Agg::Avg && i64::MIN <= t <= i64::MAX {
        let p = if t >= 0 {
            t
        } else {
            -t
        };
        let q = p / n;
        vstd::arithmetic::div_mod::lemma_fundamental_div_mod(p, n);
        vstd::arithmetic::div_mod::lemma_mod_bound(p, n);
        assert(0 <= q <= p) by (nonlinear_arith)
            requires
                p == n * q + p % n,
                0 <= p % n < n,
                p >= 0,
                n > 0,
        ;
        let a = acc_of(values).result(agg) as int;
        if t >= 0 {
            assert(a == q);
            assert(n * a == n * q);
        } else {
            assert(a == -q) by {
                assert(q <= p);
                if q == 0x8000_0000_0000_0000 {
                    assert(n == 1) by (nonlinear_arith)
                        requires
                            p == n * q + p % n,
                            0 <= p % n,
                            p <= q,
                            q > 0,
                            n > 0,
                    ;
                }
            }
            assert(n * a == -(n * q)) by (nonlinear_arith)
                requires
                    a == -q,
            ;
        }
    }
}

/// A result says the start of its window, its end, its aggregate and its key. A fixed window ends
/// its size after its start, a session right behind its last event.
pub proof fn law_results_say_their_windows(s: StateView, v: WindowView)
    requires
        s.window_ok(v),
    ensures
        ({
            let end = match s.kind {
                WindowKind::Tumbling { size } => v.start + size,
                WindowKind::Sliding { size, slide } => v.start + size,
                WindowKind::Session { gap } => v.last + 1,
            };
            result_item(s.kind, s.agg, v) matches ItemView::Data(b) && (result_of(b) matches Some(
                (start, e, a, key),
            ) && start == v.start && e == end && a == v.acc.result(s.agg) && key == v.key)
        }),
{
    let end = match s.kind {
        WindowKind::Tumbling { size } => v.start + size,
        WindowKind::Sliding { size, slide } => v.start + size,
        WindowKind::Session { gap } => v.last + 1,
    };
    law_records_read_back(v.start, v.acc.result(s.agg), end as i64, v.key);
}

/// Whether an item is the result of a fixed window: its bounds, its key, and the aggregate of
/// exactly the values that fall in it.
pub open spec fn is_result_of(
    item: ItemView,
    kind: WindowKind,
    agg: Agg,
    evs: Seq<Event>,
    start: i64,
    key: Seq<u8>,
) -> bool {
    item matches ItemView::Data(b) && (result_of(b) matches Some((s, e, a, k)) && s == start && e
        == end_of(kind, start) && k == key && is_aggregate_of(
        a,
        agg,
        values_in(kind, evs, start, key),
    ))
}

proof fn lemma_values_in_len(kind: WindowKind, evs: Seq<Event>, start: i64, key: Seq<u8>)
    ensures
        values_in(kind, evs, start, key).len() <= evs.len(),
    decreases evs.len(),
{
    if evs.len() > 0 {
        lemma_values_in_len(kind, evs.drop_last(), start, key);
    }
}

/// A window with events ends within an `i64`.
proof fn lemma_ends_fit(kind: WindowKind, agg: Agg, evs: Seq<Event>, start: i64, key: Seq<u8>)
    requires
        fresh_state(kind, agg).valid(),
        !(kind is Session),
        fresh_state(kind, agg).takes_all(event_items(evs)),
        values_in(kind, evs, start, key).len() > 0,
    ensures
        i64::MIN <= end_of(kind, start) <= i64::MAX,
    decreases evs.len(),
{
    let s = fresh_state(kind, agg);
    let init = evs.drop_last();
    let items = event_items(evs);
    assert forall|i: int| 0 <= i < event_items(init).len() implies s.takes_item(
        #[trigger] event_items(init)[i],
    ) by {
        assert(s.takes_item(items[i]));
    }
    if values_in(kind, init, start, key).len() > 0 {
        lemma_ends_fit(kind, agg, init, start, key);
    } else {
        let e = evs.last();
        assert(s.takes_item(items[evs.len() - 1]));
        law_records_read_back(e.ts, e.value, 0, e.key);
        assert(falls_in(kind, e.ts, start));
        if let WindowKind::Sliding { size, slide } = kind {
            lemma_grid_start(e.ts, slide);
            if grid_start(e.ts, slide) < start {
                lemma_multiples_apart(grid_start(e.ts, slide), start as int, slide as int);
            }
        }
    }
}

/// The results that events followed by a watermark, or by the end of the stream, put out say the
/// windows and keys that have events and are complete, each once, by ascending start and key, with
/// the aggregate of exactly the values that fall in them.
pub proof fn law_results_say_the_complete_windows(
    kind: WindowKind,
    agg: Agg,
    evs: Seq<Event>,
    end: ItemView,
    w: i64,
)
    requires
        fresh_state(kind, agg).valid(),
        !(kind is Session),
        fresh_state(kind, agg).takes_all(event_items(evs)),
        evs.len() <= i64::MAX,
        end == ItemView::Watermark(w) || (end == ItemView::Done && w == i64::MAX),
    ensures
        exists|ws: Seq<WindowView>|
            {
                let out = fresh_state(kind, agg).steps(event_items(evs).push(end)).1;
                &&& #[trigger] are_windows_of(ws, kind, evs, w, true)
                &&& out.len() == ws.len() + 1
                &&& out.last() == end
                &&& forall|i: int|
                    0 <= i < ws.len() ==> is_result_of(
                        #[trigger] out[i],
                        kind,
                        agg,
                        evs,
                        ws[i].start,
                        ws[i].key,
                    )
            },
{
    let s = fresh_state(kind, agg);
    let out = s.steps(event_items(evs).push(end)).1;
    law_complete_windows_are_put_out_once(kind, agg, evs, end, w);
    let ws = choose|ws: Seq<WindowView>| #[trigger]
        are_windows_of(ws, kind, evs, w, true) && out == result_items(kind, agg, ws).push(end);
    assert forall|i: int| 0 <= i < ws.len() implies is_result_of(
        #[trigger] out[i],
        kind,
        agg,
        evs,
        ws[i].start,
        ws[i].key,
    ) by {
        let v = ws[i];
        assert(is_window_of(v, kind, evs));
        lemma_values_in_len(kind, evs, v.start, v.key);
        lemma_ends_fit(kind, agg, evs, v.start, v.key);
        law_aggregates_are_those_of_the_values(agg, values_in(kind, evs, v.start, v.key));
        law_results_say_their_windows(s, v);
        assert(out[i] == result_item(kind, agg, v));
    }
}

/// Whether an event lies within the gap of a session of its key, on either side.
pub open spec fn is_near(v: WindowView, ts: i64, key: Seq<u8>, gap: i64) -> bool {
    v.key == key && ts >= v.start - gap && ts <= v.last + gap
}

/// An event that is near no session of its key opens one; else the one of those it is near that
/// starts first takes it, and then reaches to it. No other session changes.
pub proof fn law_events_extend_the_first_session_in_reach(
    ws: Seq<WindowView>,
    ts: i64,
    value: i64,
    key: Seq<u8>,
    gap: i64,
)
    requires
        ascending(ws),
    ensures
        ({
            let now = folded_session(ws, ts, value, key, gap).to_multiset();
            if forall|i: int| 0 <= i < ws.len() ==> !is_near(#[trigger] ws[i], ts, key, gap) {
                exists|v: WindowView|
                    {
                        &&& now == #[trigger] ws.to_multiset().insert(v)
                        &&& v.key == key && v.start == ts && v.last == ts
                        &&& v.acc == acc_of(seq![value])
                    }
            } else {
                exists|k: int, v: WindowView|
                    {
                        &&& 0 <= k < ws.len()
                        &&& now == #[trigger] ws.to_multiset().remove(ws[k]).insert(v)
                        &&& is_near(ws[k], ts, key, gap)
                        &&& forall|i: int|
                            0 <= i < ws.len() && is_near(#[trigger] ws[i], ts, key, gap)
                                ==> ws[k].start <= ws[i].start
                        &&& v.key == key
                        &&& v.start <= ts <= v.last
                        &&& v.start == ts || v.start == ws[k].start
                        &&& v.last == ts || v.last == ws[k].last
                        &&& v.start <= ws[k].start && v.last >= ws[k].last
                        &&& v.acc == ws[k].acc.plus(value)
                    }
            }
        }),
{
    broadcast use vstd::seq_lib::group_to_multiset_ensures;

    lemma_first_extended_is_first(ws, ts, key, gap);
    let now = folded_session(ws, ts, value, key, gap).to_multiset();
    match first_extended(ws, ts, key, gap) {
        Some(k) => {
            let v = grown(ws[k], ts, value);
            let rest = ws.remove(k);
            assert(ascending(rest)) by {
                assert forall|a: int, b: int| 0 <= a < b < rest.len() implies window_order(
                    (#[trigger] rest[b]).start,
                    rest[b].key,
                    #[trigger] rest[a],
                ) != Order::Less by {
                    let oa = if a < k {
                        a
                    } else {
                        a + 1
                    };
                    let ob = if b < k {
                        b
                    } else {
                        b + 1
                    };
                    assert(rest[a] == ws[oa] && rest[b] == ws[ob]);
                }
            }
            lemma_placed(rest, v);
            assert(is_near(ws[k], ts, key, gap));
            assert(rest.to_multiset() =~= ws.to_multiset().remove(ws[k]));
            assert forall|i: int|
                0 <= i < ws.len() && is_near(#[trigger] ws[i], ts, key, gap) implies ws[k].start
                <= ws[i].start by {
                if k < i {
                    assert(window_order(ws[i].start, ws[i].key, ws[k]) != Order::Less);
                } else if i < k {
                    assert(!extends(ws[i], key, ts, gap));
                }
            }
            assert(now == ws.to_multiset().remove(ws[k]).insert(v));
        },
        None => {
            let v = WindowView { key, start: ts, last: ts, acc: empty_acc().plus(value) };
            lemma_placed(ws, v);
            assert forall|i: int| 0 <= i < ws.len() implies !is_near(
                #[trigger] ws[i],
                ts,
                key,
                gap,
            ) by {
                assert(!extends(ws[i], key, ts, gap));
            }
            assert(seq![value].drop_last() =~= Seq::empty());
            assert(acc_of(seq![value].drop_last()) == empty_acc());
            assert(now == ws.to_multiset().insert(v));
        },
    }
}

proof fn lemma_first_extended_is_first(ws: Seq<WindowView>, ts: i64, key: Seq<u8>, gap: i64)
    ensures
        match first_extended(ws, ts, key, gap) {
            Some(k) => 0 <= k < ws.len() && extends(ws[k], key, ts, gap) && forall|i: int|
                0 <= i < k ==> !extends(#[trigger] ws[i], key, ts, gap),
            None => forall|i: int| 0 <= i < ws.len() ==> !extends(#[trigger] ws[i], key, ts, gap),
        },
    decreases ws.len(),
{
    if ws.len() > 0 {
        let init = ws.drop_last();
        lemma_first_extended_is_first(init, ts, key, gap);
        assert forall|i: int| 0 <= i < init.len() implies #[trigger] ws[i] == init[i] by {}
        assert(ws[ws.len() - 1] == ws.last());
    }
}

/// A watermark completes the sessions whose last event lies at least the gap before it, and no
/// others.
pub proof fn law_sessions_close_after_the_gap(gap: i64, ws: Seq<WindowView>, w: i64, v: WindowView)
    ensures
        completed(WindowKind::Session { gap }, ws, w).contains(v) <==> ws.contains(v) && v.last + gap
            <= w,
        still_open(WindowKind::Session { gap }, ws, w).contains(v) <==> ws.contains(v) && v.last
            + gap > w,
{
    let kind = WindowKind::Session { gap };
    let c = completed(kind, ws, w);
    let o = still_open(kind, ws, w);
    lemma_split_from(kind, ws, w);
    law_watermarks_split_the_windows(kind, ws, w);
    if c.contains(v) {
        let i = choose|i: int| 0 <= i < c.len() && c[i] == v;
        assert(complete(kind, c[i], w));
        assert(ws.contains(c[i]));
    }
    if o.contains(v) {
        let i = choose|i: int| 0 <= i < o.len() && o[i] == v;
        assert(!complete(kind, o[i], w));
        assert(ws.contains(o[i]));
    }
    if ws.contains(v) {
        let i = choose|i: int| 0 <= i < ws.len() && ws[i] == v;
        lemma_split_keeps(kind, ws, w, i);
    }
}

} // verus!
