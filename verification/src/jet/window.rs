//! Event-time windows: tumbling, sliding and session windows with an aggregate, driven by
//! watermarks.
//!
//! An input event is `[ts:i64][value:i64][key...]`. A window's result is
//! `[win_start:i64][win_end:i64][aggregate:i64][key...]`; it is put out once a watermark proves the
//! window complete: a tumbling or sliding window when the watermark reaches its end, a session when
//! the watermark reaches its last event plus the gap. `Done` puts out everything. Sums wrap around.

use std::collections::VecDeque;
use vstd::prelude::*;
use super::processor::{put_item, take_item, Item, ItemView, Processor};
use crate::bytes::{
    copy_range, copy_slice, get_i64, i64_at, i64_le, lemma_ints_read_back, lemma_le_digits_len,
    put_i64, put_slice,
};
use crate::model::{lemma_views_push, views};
use crate::order::{
    compare_bytes, int_order, lemma_lex_equal, lemma_lex_flip, lemma_lex_trans, lex, Order,
};

verus! {

/// The windowing strategy.
#[derive(Clone, Copy, Debug, PartialEq, Eq, Structural)]
pub enum WindowKind {
    /// Fixed windows of `size` that do not overlap.
    Tumbling { size: i64 },
    /// Overlapping windows of `size` that advance by `slide`.
    Sliding { size: i64, slide: i64 },
    /// Per-key windows that extend while events arrive within `gap`.
    Session { gap: i64 },
}

/// The aggregate computed per window.
#[derive(Clone, Copy, Debug, PartialEq, Eq, Structural)]
pub enum Agg {
    Sum,
    Count,
    Min,
    Max,
    /// Integer mean, rounded towards zero.
    Avg,
}

/// What a window has accumulated.
#[derive(Clone, Copy, Debug, PartialEq, Eq, Structural)]
pub struct Acc {
    pub sum: i64,
    pub count: i64,
    pub min: i64,
    pub max: i64,
}

pub open spec fn empty_acc() -> Acc {
    Acc { sum: 0, count: 0, min: 0, max: 0 }
}

impl Acc {
    pub open spec fn plus(self, value: i64) -> Acc {
        Acc {
            sum: self.sum.wrapping_add(value),
            count: self.count.wrapping_add(1),
            min: if self.count == 0 || value < self.min {
                value
            } else {
                self.min
            },
            max: if self.count == 0 || value > self.max {
                value
            } else {
                self.max
            },
        }
    }

    pub open spec fn result(self, agg: Agg) -> i64 {
        match agg {
            Agg::Sum => self.sum,
            Agg::Count => self.count,
            Agg::Min => self.min,
            Agg::Max => self.max,
            Agg::Avg => if self.count <= 0 {
                0
            } else if self.sum >= 0 {
                (self.sum as int / self.count as int) as i64
            } else {
                -(-self.sum as int / self.count as int) as i64
            },
        }
    }

    fn add_value(&mut self, value: i64)
        ensures
            *final(self) == old(self).plus(value),
    {
        if self.count == 0 {
            self.min = value;
            self.max = value;
        } else {
            if value < self.min {
                self.min = value;
            }
            if value > self.max {
                self.max = value;
            }
        }
        self.sum = self.sum.wrapping_add(value);
        self.count = self.count.wrapping_add(1);
    }

    fn get(&self, agg: Agg) -> (v: i64)
        ensures
            v == self.result(agg),
    {
        match agg {
            Agg::Sum => self.sum,
            Agg::Count => self.count,
            Agg::Min => self.min,
            Agg::Max => self.max,
            Agg::Avg => if self.count > 0 {
                mean(self.sum, self.count)
            } else {
                0
            },
        }
    }
}

fn mean(sum: i64, count: i64) -> (v: i64)
    requires
        count > 0,
    ensures
        v == if sum >= 0 {
            (sum as int / count as int) as i64
        } else {
            -(-sum as int / count as int) as i64
        },
{
    proof {
        let s = sum as int;
        let n = count as int;
        if s > 0 {
            vstd::arithmetic::div_mod::lemma_div_is_ordered_by_denominator(s, 1, n);
            vstd::arithmetic::div_mod::lemma_div_pos_is_pos(s, n);
        } else if s < 0 {
            vstd::arithmetic::div_mod::lemma_div_is_ordered_by_denominator(-s, 1, n);
            vstd::arithmetic::div_mod::lemma_div_pos_is_pos(-s, n);
        }
    }
    match sum.checked_div(count) {
        Some(v) => v,
        None => 0,
    }
}

/// The bytes of an event.
pub open spec fn event_bytes(ts: i64, value: i64, key: Seq<u8>) -> Seq<u8> {
    i64_le(ts) + i64_le(value) + key
}

/// What an event says: time, value, key.
pub open spec fn event_of(b: Seq<u8>) -> Option<(i64, i64, Seq<u8>)> {
    if b.len() < 16 {
        None
    } else {
        Some((i64_at(b, 0), i64_at(b, 8), b.skip(16)))
    }
}

/// The bytes of a window's result.
pub open spec fn result_bytes(start: i64, end: i64, agg: i64, key: Seq<u8>) -> Seq<u8> {
    i64_le(start) + i64_le(end) + i64_le(agg) + key
}

/// What a window's result says: start, end, aggregate, key.
pub open spec fn result_of(b: Seq<u8>) -> Option<(i64, i64, i64, Seq<u8>)> {
    if b.len() < 24 {
        None
    } else {
        Some((i64_at(b, 0), i64_at(b, 8), i64_at(b, 16), b.skip(24)))
    }
}

pub fn encode_event(ts: i64, value: i64, key: &[u8]) -> (b: Vec<u8>)
    ensures
        b@ == event_bytes(ts, value, key@),
{
    let mut b: Vec<u8> = Vec::new();
    put_i64(&mut b, ts);
    put_i64(&mut b, value);
    put_slice(&mut b, key);
    assert(b@ =~= event_bytes(ts, value, key@));
    b
}

fn decode_event(b: &[u8]) -> (r: Option<(i64, i64, Vec<u8>)>)
    ensures
        match r {
            Some((ts, value, key)) => event_of(b@) == Some((ts, value, key@)),
            None => event_of(b@) is None,
        },
{
    if b.len() < 16 {
        return None;
    }
    let key: Vec<u8> = copy_range(b, 16, b.len());
    assert(key@ =~= b@.skip(16));
    Some((get_i64(b, 0), get_i64(b, 8), key))
}

pub fn encode_result(start: i64, end: i64, agg: i64, key: &[u8]) -> (b: Vec<u8>)
    ensures
        b@ == result_bytes(start, end, agg, key@),
{
    let mut b: Vec<u8> = Vec::new();
    put_i64(&mut b, start);
    put_i64(&mut b, end);
    put_i64(&mut b, agg);
    put_slice(&mut b, key);
    assert(b@ =~= result_bytes(start, end, agg, key@));
    b
}

/// Decodes a window's result.
pub fn decode_result(b: &[u8]) -> (r: Option<(i64, i64, i64, Vec<u8>)>)
    ensures
        match r {
            Some((start, end, agg, key)) => result_of(b@) == Some((start, end, agg, key@)),
            None => result_of(b@) is None,
        },
{
    if b.len() < 24 {
        return None;
    }
    let key: Vec<u8> = copy_range(b, 24, b.len());
    assert(key@ =~= b@.skip(24));
    Some((get_i64(b, 0), get_i64(b, 8), get_i64(b, 16), key))
}

/// An open window: its key, the time it starts, the time of its last event (sessions only), and
/// what it has accumulated.
pub struct Window {
    pub key: Vec<u8>,
    pub start: i64,
    pub last: i64,
    pub acc: Acc,
}

/// What a [`Window`] holds.
pub struct WindowView {
    pub key: Seq<u8>,
    pub start: i64,
    pub last: i64,
    pub acc: Acc,
}

impl View for Window {
    type V = WindowView;

    open spec fn view(&self) -> WindowView {
        WindowView { key: self.key@, start: self.start, last: self.last, acc: self.acc }
    }
}

/// The order in which windows are put out: by start, then by key.
pub open spec fn window_order(a_start: i64, a_key: Seq<u8>, b: WindowView) -> Order {
    if a_start != b.start {
        int_order(a_start as int, b.start as int)
    } else {
        lex(a_key, b.key)
    }
}

fn compare_window(start: i64, key: &[u8], w: &Window) -> (o: Order)
    ensures
        o == window_order(start, key@, w@),
{
    if start < w.start {
        Order::Less
    } else if start > w.start {
        Order::Greater
    } else {
        compare_bytes(key, w.key.as_slice())
    }
}

/// `ws` (in order) with `value` folded into the window `(start, key)`, which is opened if need be.
pub open spec fn folded(ws: Seq<WindowView>, start: i64, key: Seq<u8>, value: i64) -> Seq<
    WindowView,
>
    decreases ws.len(),
{
    let fresh = WindowView { key, start, last: start, acc: empty_acc().plus(value) };
    if ws.len() == 0 {
        seq![fresh]
    } else {
        match window_order(start, key, ws[0]) {
            Order::Less => seq![fresh] + ws,
            Order::Equal => seq![
                WindowView { acc: ws[0].acc.plus(value), ..ws[0] },
            ] + ws.skip(1),
            Order::Greater => seq![ws[0]] + folded(ws.skip(1), start, key, value),
        }
    }
}

/// The start of the window of a grid of step `step` that `ts` falls in.
pub open spec fn grid_start(ts: i64, step: i64) -> int {
    (ts as int / step as int) * step
}

/// `ws` with `value` folded into every window of the key that starts at `start`, `start - slide`
/// and so on, while it starts after `bound`.
pub open spec fn folded_back(
    ws: Seq<WindowView>,
    start: int,
    bound: int,
    slide: int,
    key: Seq<u8>,
    value: i64,
) -> Seq<WindowView>
    decreases
            if start > bound {
                start - bound
            } else {
                0
            },
{
    if start > bound && slide > 0 {
        folded_back(folded(ws, start as i64, key, value), start - slide, bound, slide, key, value)
    } else {
        ws
    }
}

/// Whether an event at `ts` extends the session `w` of the key.
pub open spec fn extends(w: WindowView, key: Seq<u8>, ts: i64, gap: i64) -> bool {
    w.key == key && w.start - gap <= ts <= w.last + gap
}

/// The first of the sessions that an event extends.
pub open spec fn first_extended(ws: Seq<WindowView>, ts: i64, key: Seq<u8>, gap: i64) -> Option<int>
    decreases ws.len(),
{
    if ws.len() == 0 {
        None
    } else {
        match first_extended(ws.drop_last(), ts, key, gap) {
            Some(i) => Some(i),
            None => if extends(ws.last(), key, ts, gap) {
                Some(ws.len() - 1)
            } else {
                None
            },
        }
    }
}

/// A session with an event folded in.
pub open spec fn grown(w: WindowView, ts: i64, value: i64) -> WindowView {
    WindowView {
        key: w.key,
        start: if ts < w.start {
            ts
        } else {
            w.start
        },
        last: if ts > w.last {
            ts
        } else {
            w.last
        },
        acc: w.acc.plus(value),
    }
}

/// `ws` (in order) with `x` behind every window that does not come after it.
pub open spec fn placed(ws: Seq<WindowView>, x: WindowView) -> Seq<WindowView>
    decreases ws.len(),
{
    if ws.len() == 0 {
        seq![x]
    } else if window_order(x.start, x.key, ws.last()) == Order::Less {
        placed(ws.drop_last(), x).push(ws.last())
    } else {
        ws.push(x)
    }
}

/// `ws` (in order) with the event folded into the first session by start that it extends, or into
/// a new one.
pub open spec fn folded_session(
    ws: Seq<WindowView>,
    ts: i64,
    value: i64,
    key: Seq<u8>,
    gap: i64,
) -> Seq<WindowView> {
    match first_extended(ws, ts, key, gap) {
        Some(i) => placed(ws.remove(i), grown(ws[i], ts, value)),
        None => placed(
            ws,
            WindowView { key, start: ts, last: ts, acc: empty_acc().plus(value) },
        ),
    }
}

/// Whether watermark `w` proves a window complete.
pub open spec fn complete(kind: WindowKind, v: WindowView, w: i64) -> bool {
    match kind {
        WindowKind::Tumbling { size } => v.start + size <= w,
        WindowKind::Sliding { size, slide } => v.start + size <= w,
        WindowKind::Session { gap } => v.last + gap <= w,
    }
}

/// The result of a window.
pub open spec fn result_item(kind: WindowKind, agg: Agg, v: WindowView) -> ItemView {
    let end = match kind {
        WindowKind::Tumbling { size } => v.start + size,
        WindowKind::Sliding { size, slide } => v.start + size,
        WindowKind::Session { gap } => v.last + 1,
    };
    ItemView::Data(result_bytes(v.start, end as i64, v.acc.result(agg), v.key))
}

/// The windows that watermark `w` leaves open, in their order.
pub open spec fn still_open(kind: WindowKind, ws: Seq<WindowView>, w: i64) -> Seq<WindowView>
    decreases ws.len(),
{
    if ws.len() == 0 {
        Seq::empty()
    } else {
        let before = still_open(kind, ws.drop_last(), w);
        if complete(kind, ws.last(), w) {
            before
        } else {
            before.push(ws.last())
        }
    }
}

/// The windows that watermark `w` completes, in their order.
pub open spec fn completed(kind: WindowKind, ws: Seq<WindowView>, w: i64) -> Seq<WindowView>
    decreases ws.len(),
{
    if ws.len() == 0 {
        Seq::empty()
    } else {
        let before = completed(kind, ws.drop_last(), w);
        if complete(kind, ws.last(), w) {
            before.push(ws.last())
        } else {
            before
        }
    }
}

/// Windows by ascending start and key, no two alike.
pub open spec fn in_order(ws: Seq<WindowView>) -> bool {
    forall|i: int, j: int|
        0 <= i < j < ws.len() ==> window_order(
            (#[trigger] ws[i]).start,
            ws[i].key,
            #[trigger] ws[j],
        ) == Order::Less
}

/// Windows by start and key, where equal ones may stand side by side.
pub open spec fn ascending(ws: Seq<WindowView>) -> bool {
    forall|i: int, j: int|
        0 <= i < j < ws.len() ==> window_order(
            (#[trigger] ws[j]).start,
            ws[j].key,
            #[trigger] ws[i],
        ) != Order::Less
}

pub open spec fn result_items(kind: WindowKind, agg: Agg, ws: Seq<WindowView>) -> Seq<ItemView> {
    Seq::new(ws.len(), |i: int| result_item(kind, agg, ws[i]))
}

/// What a [`WindowProcessor`] holds.
pub struct StateView {
    pub kind: WindowKind,
    pub agg: Agg,
    pub windows: Seq<WindowView>,
}

impl StateView {
    /// Whether the times of a window stay within an `i64`.
    pub open spec fn window_ok(self, v: WindowView) -> bool {
        match self.kind {
            WindowKind::Tumbling { size } => i64::MIN <= v.start + size <= i64::MAX,
            WindowKind::Sliding { size, slide } => i64::MIN <= v.start + size <= i64::MAX,
            WindowKind::Session { gap } => {
                &&& i64::MIN <= v.start - gap <= i64::MAX
                &&& i64::MIN <= v.last + gap <= i64::MAX
                &&& v.last < i64::MAX
            },
        }
    }

    /// A size or slide that can divide, and windows whose times stay within an `i64`.
    pub open spec fn sound(self) -> bool {
        &&& match self.kind {
            WindowKind::Tumbling { size } => size != 0,
            WindowKind::Sliding { size, slide } => slide > 0,
            WindowKind::Session { gap } => true,
        }
        &&& forall|i: int|
            0 <= i < self.windows.len() ==> self.window_ok(#[trigger] self.windows[i])
    }

    /// Sound windows by start and key; only sessions may share both.
    pub open spec fn valid(self) -> bool {
        &&& self.sound()
        &&& ascending(self.windows)
        &&& self.kind is Session || in_order(self.windows)
    }

    /// Whether the times of an event's windows stay within an `i64`.
    pub open spec fn takes(self, ts: i64) -> bool {
        match self.kind {
            WindowKind::Tumbling { size } => {
                &&& i64::MIN <= ts as int / size as int <= i64::MAX
                &&& i64::MIN <= grid_start(ts, size) <= i64::MAX
                &&& i64::MIN <= grid_start(ts, size) + size <= i64::MAX
            },
            WindowKind::Sliding { size, slide } => {
                &&& i64::MIN <= grid_start(ts, slide)
                &&& i64::MIN <= ts - size <= i64::MAX
                &&& grid_start(ts, slide) > ts - size ==> {
                    &&& i64::MIN <= grid_start((ts - size) as i64, slide)
                    &&& grid_start(ts, slide) + size <= i64::MAX
                }
            },
            WindowKind::Session { gap } => {
                &&& i64::MIN <= ts - gap <= i64::MAX
                &&& i64::MIN <= ts + gap <= i64::MAX
                &&& ts < i64::MAX
            },
        }
    }

    /// Whether every event among `items` can be taken.
    pub open spec fn takes_all(self, items: Seq<ItemView>) -> bool {
        forall|i: int| 0 <= i < items.len() ==> self.takes_item(#[trigger] items[i])
    }

    pub open spec fn takes_item(self, item: ItemView) -> bool {
        item matches ItemView::Data(b) ==> (event_of(b) matches Some((ts, value, key))
            ==> self.takes(ts))
    }

    /// The state with an event folded into its windows.
    pub open spec fn plus(self, ts: i64, value: i64, key: Seq<u8>) -> StateView {
        let ws = self.windows;
        StateView {
            windows: match self.kind {
                WindowKind::Tumbling { size } => folded(
                    ws,
                    grid_start(ts, size) as i64,
                    key,
                    value,
                ),
                WindowKind::Sliding { size, slide } => folded_back(
                    ws,
                    grid_start(ts, slide),
                    ts - size,
                    slide as int,
                    key,
                    value,
                ),
                WindowKind::Session { gap } => folded_session(ws, ts, value, key, gap),
            },
            ..self
        }
    }

    /// The state after watermark `w`, and the results that it puts out.
    pub open spec fn close(self, w: i64) -> (StateView, Seq<ItemView>) {
        (
            StateView { windows: still_open(self.kind, self.windows, w), ..self },
            result_items(self.kind, self.agg, completed(self.kind, self.windows, w)),
        )
    }

    /// What one item does.
    pub open spec fn step(self, item: ItemView) -> (StateView, Seq<ItemView>) {
        match item {
            ItemView::Data(b) => match event_of(b) {
                Some((ts, value, key)) => (self.plus(ts, value, key), Seq::empty()),
                None => (self, Seq::empty()),
            },
            ItemView::Watermark(w) => {
                let r = self.close(w);
                (r.0, r.1.push(item))
            },
            ItemView::Done => {
                let r = self.close(i64::MAX);
                (r.0, r.1.push(item))
            },
        }
    }

    /// What items do, one after the other.
    pub open spec fn steps(self, items: Seq<ItemView>) -> (StateView, Seq<ItemView>)
        decreases items.len(),
    {
        if items.len() == 0 {
            (self, Seq::empty())
        } else {
            let before = self.steps(items.drop_last());
            let r = before.0.step(items.last());
            (r.0, before.1 + r.1)
        }
    }
}

/// A stateful windowing processor.
pub struct WindowProcessor {
    kind: WindowKind,
    agg: Agg,
    /// The open windows by start and key.
    windows: Vec<Window>,
}

impl View for WindowProcessor {
    type V = StateView;

    closed spec fn view(&self) -> StateView {
        StateView { kind: self.kind, agg: self.agg, windows: views(self.windows@) }
    }
}

/// Folding keeps the windows before `i` and changes what stands from there on.
proof fn lemma_folded_at(ws: Seq<WindowView>, i: int, start: i64, key: Seq<u8>, value: i64)
    requires
        0 <= i <= ws.len(),
        forall|j: int|
            0 <= j < i ==> window_order(start, key, #[trigger] ws[j]) == Order::Greater,
    ensures
        folded(ws, start, key, value) == ws.take(i) + folded(ws.skip(i), start, key, value),
    decreases i,
{
    if i == 0 {
        assert(ws.skip(0) =~= ws);
        assert(ws.take(0) + folded(ws, start, key, value) =~= folded(ws, start, key, value));
    } else {
        let rest = ws.skip(1);
        assert(window_order(start, key, ws[0]) == Order::Greater);
        assert forall|j: int| 0 <= j < i - 1 implies window_order(start, key, #[trigger] rest[j])
            == Order::Greater by {
            assert(rest[j] == ws[j + 1]);
        }
        lemma_folded_at(rest, i - 1, start, key, value);
        assert(rest.skip(i - 1) =~= ws.skip(i));
        assert(seq![ws[0]] + rest.take(i - 1) =~= ws.take(i));
        assert(seq![ws[0]] + (rest.take(i - 1) + folded(ws.skip(i), start, key, value)) =~= ws.take(
            i,
        ) + folded(ws.skip(i), start, key, value));
    }
}

/// The first session that an event extends: those before it are not extended.
proof fn lemma_first_extended(ws: Seq<WindowView>, i: int, ts: i64, key: Seq<u8>, gap: i64)
    requires
        0 <= i <= ws.len(),
        forall|j: int| 0 <= j < i ==> !extends(#[trigger] ws[j], key, ts, gap),
        i < ws.len() ==> extends(ws[i], key, ts, gap),
    ensures
        first_extended(ws, ts, key, gap) == (if i < ws.len() {
            Some(i)
        } else {
            None
        }),
    decreases ws.len(),
{
    if ws.len() > 0 {
        let init = ws.drop_last();
        let k = if i == ws.len() {
            i - 1
        } else {
            i
        };
        assert forall|j: int| 0 <= j < k implies !extends(#[trigger] init[j], key, ts, gap) by {
            assert(init[j] == ws[j]);
        }
        if i < init.len() {
            assert(init[i] == ws[i]);
        }
        assert(ws.last() == ws[ws.len() - 1]);
        lemma_first_extended(init, k, ts, key, gap);
    }
}

/// The start of the grid window of `ts` lies within one step before `ts`.
pub proof fn lemma_grid_start(ts: i64, step: i64)
    requires
        step > 0,
    ensures
        grid_start(ts, step) <= ts < grid_start(ts, step) + step,
        grid_start(ts, step) % (step as int) == 0,
{
    let t = ts as int;
    let s = step as int;
    vstd::arithmetic::div_mod::lemma_fundamental_div_mod(t, s);
    vstd::arithmetic::div_mod::lemma_mod_bound(t, s);
    assert(grid_start(ts, step) == s * (t / s)) by (nonlinear_arith)
        requires
            grid_start(ts, step) == (t / s) * s,
    ;
    vstd::arithmetic::div_mod::lemma_mod_multiples_basic(t / s, s);
}

/// Of two multiples of a step, the greater is greater by a step at least.
proof fn lemma_next_multiple(a: int, b: int, step: int)
    requires
        step > 0,
        a % step == 0,
        b % step == 0,
        a < b,
    ensures
        a + step <= b,
{
    vstd::arithmetic::div_mod::lemma_fundamental_div_mod(a, step);
    vstd::arithmetic::div_mod::lemma_fundamental_div_mod(b, step);
    let x = a / step;
    let y = b / step;
    assert(a + step <= b) by (nonlinear_arith)
        requires
            a == step * x,
            b == step * y,
            a < b,
            step > 0,
    ;
}

impl WindowProcessor {
    /// A processor for windows of the given kind and aggregate.
    pub fn new(kind: WindowKind, agg: Agg) -> (p: WindowProcessor)
        ensures
            p@ == (StateView { kind, agg, windows: Seq::empty() }),
            p@.valid() == (match kind {
                WindowKind::Tumbling { size } => size != 0,
                WindowKind::Sliding { size, slide } => slide > 0,
                WindowKind::Session { gap } => true,
            }),
    {
        let p = WindowProcessor { kind, agg, windows: Vec::new() };
        assert(p@.windows =~= Seq::empty());
        p
    }

    /// Folds a value into the window `(start, key)`.
    fn fold(&mut self, start: i64, key: &[u8], value: i64)
        requires
            old(self)@.valid(),
            !(old(self)@.kind is Session),
            old(self)@.window_ok(
                WindowView { key: key@, start, last: start, acc: empty_acc().plus(value) },
            ),
        ensures
            final(self)@ == (StateView {
                windows: folded(old(self)@.windows, start, key@, value),
                ..old(self)@
            }),
            final(self)@.valid(),
    {
        let ghost ws = self@.windows;
        let mut i: usize = 0;
        while i < self.windows.len() && compare_window(start, key, &self.windows[i])
            == Order::Greater
            invariant
                i <= self.windows@.len(),
                ws == views(self.windows@),
                forall|j: int|
                    0 <= j < i ==> window_order(start, key@, #[trigger] ws[j]) == Order::Greater,
            decreases self.windows@.len() - i,
        {
            assert(ws[i as int] == self.windows@[i as int]@);
            i = i + 1;
        }
        proof {
            lemma_folded_at(ws, i as int, start, key@, value);
        }
        let ghost rest = ws.skip(i as int);
        if i < self.windows.len() && compare_window(start, key, &self.windows[i]) == Order::Equal {
            let ghost w = ws[i as int];
            assert(rest[0] == w);
            let mut acc: Acc = self.windows[i].acc;
            acc.add_value(value);
            let found = &self.windows[i];
            let changed = Window {
                key: copy_slice(found.key.as_slice()),
                start: found.start,
                last: found.last,
                acc,
            };
            self.windows.set(i, changed);
            proof {
                assert(rest.skip(1) =~= ws.skip(i + 1));
                assert(views(self.windows@) =~= ws.take(i as int) + (seq![changed@] + ws.skip(
                    i + 1,
                )));
            }
        } else {
            let mut acc = Acc { sum: 0, count: 0, min: 0, max: 0 };
            acc.add_value(value);
            let fresh = Window { key: copy_slice(key), start, last: start, acc };
            self.windows.insert(i, fresh);
            proof {
                if i < ws.len() {
                    assert(rest[0] == ws[i as int]);
                    assert(views(self.windows@) =~= ws.take(i as int) + (seq![fresh@] + rest));
                } else {
                    assert(rest =~= Seq::empty());
                    assert(views(self.windows@) =~= ws.take(i as int) + seq![fresh@]);
                }
            }
        }
        proof {
            let now = views(self.windows@);
            let aside: i64 = if start == 0 {
                1
            } else {
                0
            };
            law_folding_updates_one_window(ws, start, key@, value, aside, key@);
            lemma_in_order_ascends(now);
            assert forall|k: int| 0 <= k < now.len() implies self@.window_ok(
                #[trigger] now[k],
            ) by {
                if k < i {
                    assert(now[k] == ws[k]);
                } else if k > i {
                    assert(now[k] == ws[k] || now[k] == ws[k - 1]);
                }
            }
        }
    }

    /// Folds an event into the first session that it extends, or into a new one.
    fn fold_session(&mut self, ts: i64, value: i64, key: &[u8], gap: i64)
        requires
            old(self)@.valid(),
            old(self)@.kind == (WindowKind::Session { gap }),
            old(self)@.takes(ts),
        ensures
            final(self)@ == (StateView {
                windows: folded_session(old(self)@.windows, ts, value, key@, gap),
                ..old(self)@
            }),
            final(self)@.valid(),
    {
        let ghost ws = self@.windows;
        let mut i: usize = 0;
        let mut found: bool = false;
        while i < self.windows.len() && !found
            invariant
                i <= self.windows@.len(),
                self@.valid(),
                self@.kind == (WindowKind::Session { gap }),
                ws == self@.windows,
                forall|j: int| 0 <= j < i ==> !extends(#[trigger] ws[j], key@, ts, gap),
                found ==> i < ws.len() && extends(ws[i as int], key@, ts, gap),
            decreases self.windows@.len() - i + (if found { 0int } else { 1int }),
        {
            let w = &self.windows[i];
            assert(self@.windows[i as int] == self.windows@[i as int]@);
            assert(self@.window_ok(self@.windows[i as int]));
            if crate::bytes::same_bytes(w.key.as_slice(), key) && ts >= w.start - gap && ts
                <= w.last + gap {
                found = true;
            } else {
                i = i + 1;
            }
        }
        proof {
            lemma_first_extended(ws, i as int, ts, key@, gap);
        }
        if found {
            assert(ws[i as int] == self.windows@[i as int]@);
            assert(self@.window_ok(ws[i as int]));
            let w: Window = self.windows.remove(i);
            let mut acc: Acc = w.acc;
            acc.add_value(value);
            let changed = Window {
                key: w.key,
                start: if ts < w.start {
                    ts
                } else {
                    w.start
                },
                last: if ts > w.last {
                    ts
                } else {
                    w.last
                },
                acc,
            };
            proof {
                assert(views(self.windows@) =~= ws.remove(i as int));
                lemma_removed(StateView { windows: ws, ..self@ }, i as int);
            }
            self.place(changed);
        } else {
            let mut acc = Acc { sum: 0, count: 0, min: 0, max: 0 };
            acc.add_value(value);
            self.place(Window { key: copy_slice(key), start: ts, last: ts, acc });
        }
    }

    /// Puts a session in its place, behind those that do not come after it.
    fn place(&mut self, x: Window)
        requires
            old(self)@.valid(),
            old(self)@.kind is Session,
            old(self)@.window_ok(x@),
        ensures
            final(self)@ == (StateView { windows: placed(old(self)@.windows, x@), ..old(self)@ }),
            final(self)@.valid(),
    {
        let ghost ws = self@.windows;
        let ghost v = x@;
        let mut j: usize = self.windows.len();
        while j > 0 && compare_window(x.start, x.key.as_slice(), &self.windows[j - 1])
            == Order::Less
            invariant
                j <= self.windows@.len(),
                ws == views(self.windows@),
                v == x@,
                forall|k: int|
                    j <= k < ws.len() ==> window_order(v.start, v.key, #[trigger] ws[k])
                        == Order::Less,
            decreases j,
        {
            assert(ws[j - 1] == self.windows@[j - 1]@);
            j = j - 1;
        }
        proof {
            if j > 0 {
                assert(ws[j - 1] == self.windows@[j - 1]@);
            }
            lemma_placed_at(ws, v, j as int);
            lemma_placed(ws, v);
        }
        self.windows.insert(j, x);
        proof {
            let now = views(self.windows@);
            assert(now =~= ws.insert(j as int, v));
            assert forall|k: int| 0 <= k < now.len() implies self@.window_ok(
                #[trigger] now[k],
            ) by {
                if k < j {
                    assert(now[k] == ws[k]);
                } else if k > j {
                    assert(now[k] == ws[k - 1]);
                }
            }
        }
    }

    /// Assigns an event to its windows and folds in the value.
    fn fold_event(&mut self, ts: i64, value: i64, key: &[u8])
        requires
            old(self)@.valid(),
            old(self)@.takes(ts),
        ensures
            final(self)@ == old(self)@.plus(ts, value, key@),
            final(self)@.valid(),
    {
        let ghost before = self@;
        match self.kind {
            WindowKind::Tumbling { size } => {
                let q: i64 = match ts.checked_div_euclid(size) {
                    Some(q) => q,
                    None => 0,
                };
                assert(q == ts as int / size as int);
                let start: i64 = match q.checked_mul(size) {
                    Some(s) => s,
                    None => 0,
                };
                assert(start == grid_start(ts, size));
                self.fold(start, key, value);
            },
            WindowKind::Sliding { size, slide } => {
                proof {
                    lemma_grid_start(ts, slide);
                    let t = ts as int;
                    let s = slide as int;
                    assert(i64::MIN <= t / s <= i64::MAX) by {
                        if t >= 0 {
                            vstd::arithmetic::div_mod::lemma_div_is_ordered_by_denominator(t, 1, s);
                            vstd::arithmetic::div_mod::lemma_div_pos_is_pos(t, s);
                        } else {
                            vstd::arithmetic::div_mod::lemma_fundamental_div_mod(t, s);
                            vstd::arithmetic::div_mod::lemma_mod_bound(t, s);
                            assert(t / s >= t && t / s < 0) by (nonlinear_arith)
                                requires
                                    t < 0,
                                    s > 0,
                                    t == s * (t / s) + t % s,
                                    0 <= t % s < s,
                            ;
                        }
                    }
                }
                let q: i64 = match ts.checked_div_euclid(slide) {
                    Some(q) => q,
                    None => 0,
                };
                assert(q == ts as int / slide as int);
                let last: i64 = match q.checked_mul(slide) {
                    Some(s) => s,
                    None => 0,
                };
                assert(last == grid_start(ts, slide));
                let bound: i64 = ts - size;
                let mut start: i64 = last;
                while start > bound
                    invariant
                        before.valid(),
                        before.kind == (WindowKind::Sliding { size, slide }),
                        slide > 0,
                        bound == ts - size,
                        before.takes(ts),
                        start <= last <= ts,
                        last == grid_start(ts, slide),
                        start as int % slide as int == 0,
                        self@.kind == before.kind,
                        self@.agg == before.agg,
                        self@.valid(),
                        folded_back(
                            self@.windows,
                            start as int,
                            bound as int,
                            slide as int,
                            key@,
                            value,
                        ) == before.plus(ts, value, key@).windows,
                    decreases
                            if start > bound {
                                start - bound
                            } else {
                                0
                            },
                {
                    self.fold(start, key, value);
                    proof {
                        let s = slide as int;
                        lemma_grid_start(bound, slide);
                        lemma_next_multiple(grid_start(bound, slide), start as int, s);
                        vstd::arithmetic::div_mod::lemma_mod_sub_multiples_vanish(start as int, s);
                    }
                    start = start - slide;
                }
            },
            WindowKind::Session { gap } => {
                self.fold_session(ts, value, key, gap);
            },
        }
    }

    /// Whether watermark `w` proves a window complete.
    fn is_complete(&self, i: usize, w: i64) -> (b: bool)
        requires
            self@.sound(),
            i < self@.windows.len(),
        ensures
            b == complete(self@.kind, self@.windows[i as int], w),
    {
        let v = &self.windows[i];
        assert(self@.windows[i as int] == v@);
        assert(self@.window_ok(self@.windows[i as int]));
        match self.kind {
            WindowKind::Tumbling { size } => v.start + size <= w,
            WindowKind::Sliding { size, slide } => v.start + size <= w,
            WindowKind::Session { gap } => v.last + gap <= w,
        }
    }

    /// Takes out every window that watermark `w` proves complete, in their order.
    fn take_completed(&mut self, w: i64) -> (done: Vec<Window>)
        requires
            old(self)@.valid(),
        ensures
            views(done@) == completed(old(self)@.kind, old(self)@.windows, w),
            final(self)@ == (StateView {
                windows: still_open(old(self)@.kind, old(self)@.windows, w),
                ..old(self)@
            }),
            final(self)@.valid(),
            forall|i: int| 0 <= i < done@.len() ==> old(self)@.window_ok(#[trigger] views(done@)[i]),
    {
        broadcast use lemma_views_push;

        let ghost before = self@;
        let ghost ws = self@.windows;
        let mut done: Vec<Window> = Vec::new();
        let mut i: usize = 0;
        let ghost k: int = 0;
        assert(ws.take(0) =~= Seq::empty());
        assert(views(done@) =~= Seq::empty());
        assert(self@.windows =~= still_open(before.kind, ws.take(0), w) + ws.skip(0));
        while i < self.windows.len()
            invariant
                0 <= k <= ws.len(),
                before.sound(),
                ws == before.windows,
                self@.kind == before.kind,
                self@.agg == before.agg,
                i == still_open(before.kind, ws.take(k), w).len(),
                self@.windows =~= still_open(before.kind, ws.take(k), w) + ws.skip(k),
                views(done@) == completed(before.kind, ws.take(k), w),
                self@.sound(),
                forall|j: int|
                    0 <= j < done@.len() ==> before.window_ok(#[trigger] views(done@)[j]),
            decreases ws.len() - k,
        {
            let ghost open = still_open(before.kind, ws.take(k), w);
            let ghost prev = self@.windows;
            let ghost so_far = views(done@);
            proof {
                assert(prev.len() == open.len() + ws.skip(k).len());
                assert(prev[i as int] == ws.skip(k)[0]);
                assert(ws.skip(k)[0] == ws[k]);
                assert(ws.take(k + 1).drop_last() =~= ws.take(k));
                assert(ws.take(k + 1).last() == ws[k]);
            }
            if self.is_complete(i, w) {
                let x = self.windows.remove(i);
                assert(x@ == ws[k]);
                done.push(x);
                proof {
                    assert(views(done@) =~= so_far.push(x@));
                    assert(self@.windows =~= prev.remove(i as int));
                    assert(ws.skip(k).skip(1) =~= ws.skip(k + 1));
                    assert(self@.windows =~= open + ws.skip(k + 1));
                    assert(before.window_ok(ws[k]));
                    assert forall|j: int| 0 <= j < done@.len() implies before.window_ok(
                        #[trigger] views(done@)[j],
                    ) by {
                        if j < so_far.len() {
                            assert(views(done@)[j] == so_far[j]);
                        }
                    }
                    assert forall|j: int| 0 <= j < self@.windows.len() implies self@.window_ok(
                        #[trigger] self@.windows[j],
                    ) by {
                        assert(self@.windows[j] == prev[j] || self@.windows[j] == prev[j + 1]);
                        assert(StateView { windows: prev, ..self@ }.window_ok(
                            if j < i {
                                prev[j]
                            } else {
                                prev[j + 1]
                            },
                        ));
                    }
                }
            } else {
                proof {
                    assert(self@.windows =~= open.push(ws[k]) + ws.skip(k + 1));
                }
                i = i + 1;
            }
            proof {
                k = k + 1;
            }
        }
        proof {
            assert(ws.skip(k).len() == 0);
            assert(ws.take(k) =~= ws);
            assert(self@.windows =~= still_open(before.kind, ws, w));
            lemma_split_in_order(before.kind, ws, w);
        }
        done
    }

    /// Puts out (and drops) every window that watermark `w` proves complete, by start and key.
    fn close(&mut self, w: i64, outbox: &mut VecDeque<Item>)
        requires
            old(self)@.valid(),
        ensures
            final(self)@ == old(self)@.close(w).0,
            views(final(outbox)@) == views(old(outbox)@) + old(self)@.close(w).1,
            final(self)@.valid(),
    {
        let done: Vec<Window> = self.take_completed(w);
        self.put_results(&done, outbox);
    }

    fn put_results(&self, done: &Vec<Window>, outbox: &mut VecDeque<Item>)
        requires
            forall|i: int| 0 <= i < done@.len() ==> self@.window_ok(#[trigger] views(done@)[i]),
        ensures
            views(final(outbox)@) == views(old(outbox)@) + result_items(
                self@.kind,
                self@.agg,
                views(done@),
            ),
    {
        let ghost before = views(outbox@);
        let ghost all = result_items(self@.kind, self@.agg, views(done@));
        let mut i: usize = 0;
        while i < done.len()
            invariant
                i <= done@.len(),
                all == result_items(self@.kind, self@.agg, views(done@)),
                forall|i: int| 0 <= i < done@.len() ==> self@.window_ok(#[trigger] views(done@)[i]),
                views(outbox@) =~= before + all.take(i as int),
            decreases done@.len() - i,
        {
            let v = &done[i];
            assert(views(done@)[i as int] == v@);
            assert(self@.window_ok(views(done@)[i as int]));
            let end: i64 = match self.kind {
                WindowKind::Tumbling { size } => v.start + size,
                WindowKind::Sliding { size, slide } => v.start + size,
                WindowKind::Session { gap } => v.last + 1,
            };
            let b: Vec<u8> = encode_result(v.start, end, v.acc.get(self.agg), v.key.as_slice());
            put_item(outbox, Item::Data(b));
            i = i + 1;
        }
        assert(all.take(i as int) =~= all);
    }

    fn take_one(&mut self, item: Item, outbox: &mut VecDeque<Item>)
        requires
            old(self)@.valid(),
            old(self)@.takes_item(item@),
        ensures
            final(self)@ == old(self)@.step(item@).0,
            views(final(outbox)@) == views(old(outbox)@) + old(self)@.step(item@).1,
            final(self)@.valid(),
    {
        let ghost before = views(outbox@);
        let ghost state = self@;
        assert(before + Seq::<ItemView>::empty() =~= before);
        match item {
            Item::Data(bytes) => match decode_event(bytes.as_slice()) {
                Some((ts, value, key)) => {
                    self.fold_event(ts, value, key.as_slice());
                },
                None => {},
            },
            Item::Watermark(w) => {
                self.close(w, outbox);
                put_item(outbox, Item::Watermark(w));
                assert(views(outbox@) =~= before + state.close(w).1.push(ItemView::Watermark(w)));
            },
            Item::Done => {
                self.close(i64::MAX, outbox);
                put_item(outbox, Item::Done);
                assert(views(outbox@) =~= before + state.close(i64::MAX).1.push(ItemView::Done));
            },
        }
    }
}

/// Putting a window in its place is inserting it at a position.
proof fn lemma_placed_at(ws: Seq<WindowView>, x: WindowView, j: int)
    requires
        0 <= j <= ws.len(),
        forall|k: int|
            j <= k < ws.len() ==> window_order(x.start, x.key, #[trigger] ws[k]) == Order::Less,
        j > 0 ==> window_order(x.start, x.key, ws[j - 1]) != Order::Less,
    ensures
        placed(ws, x) == ws.insert(j, x),
    decreases ws.len(),
{
    if j == ws.len() {
        if ws.len() > 0 {
            assert(ws.last() == ws[j - 1]);
        }
        assert(placed(ws, x) =~= ws.insert(j, x));
    } else {
        let init = ws.drop_last();
        assert(ws.last() == ws[ws.len() - 1]);
        assert forall|k: int| j <= k < init.len() implies window_order(
            x.start,
            x.key,
            #[trigger] init[k],
        ) == Order::Less by {
            assert(init[k] == ws[k]);
        }
        if j > 0 {
            assert(init[j - 1] == ws[j - 1]);
        }
        lemma_placed_at(init, x, j);
        assert(init.insert(j, x).push(ws.last()) =~= ws.insert(j, x));
    }
}

/// Windows in order ascend.
proof fn lemma_in_order_ascends(ws: Seq<WindowView>)
    requires
        in_order(ws),
    ensures
        ascending(ws),
{
    assert forall|i: int, j: int| 0 <= i < j < ws.len() implies window_order(
        (#[trigger] ws[j]).start,
        ws[j].key,
        #[trigger] ws[i],
    ) != Order::Less by {
        assert(window_order(ws[i].start, ws[i].key, ws[j]) == Order::Less);
        lemma_order_trans(ws[j], ws[i], ws[j]);
        lemma_order_trans(ws[i], ws[j], ws[i]);
    }
}

/// Taking a session out keeps the others as they are.
proof fn lemma_removed(s: StateView, i: int)
    requires
        s.valid(),
        s.kind is Session,
        0 <= i < s.windows.len(),
    ensures
        (StateView { windows: s.windows.remove(i), ..s }).valid(),
{
    let ws = s.windows;
    let rest = ws.remove(i);
    let r = StateView { windows: rest, ..s };
    assert forall|j: int| 0 <= j < rest.len() implies r.window_ok(#[trigger] rest[j]) by {
        let o = if j < i {
            j
        } else {
            j + 1
        };
        assert(rest[j] == ws[o]);
        assert(s.window_ok(ws[o]));
    }
    assert forall|a: int, b: int| 0 <= a < b < rest.len() implies window_order(
        (#[trigger] rest[b]).start,
        rest[b].key,
        #[trigger] rest[a],
    ) != Order::Less by {
        let oa = if a < i {
            a
        } else {
            a + 1
        };
        let ob = if b < i {
            b
        } else {
            b + 1
        };
        assert(rest[a] == ws[oa] && rest[b] == ws[ob]);
    }
}

/// What a watermark splits off, and what it leaves, stands among the windows.
pub proof fn lemma_split_from(kind: WindowKind, ws: Seq<WindowView>, w: i64)
    ensures
        forall|i: int|
            0 <= i < completed(kind, ws, w).len() ==> ws.contains(
                #[trigger] completed(kind, ws, w)[i],
            ),
        forall|i: int|
            0 <= i < still_open(kind, ws, w).len() ==> ws.contains(
                #[trigger] still_open(kind, ws, w)[i],
            ),
    decreases ws.len(),
{
    if ws.len() > 0 {
        let init = ws.drop_last();
        lemma_split_from(kind, init, w);
        assert(ws[ws.len() - 1] == ws.last());
        assert forall|x: WindowView| #[trigger] init.contains(x) implies ws.contains(x) by {
            let k = choose|k: int| 0 <= k < init.len() && init[k] == x;
            assert(ws[k] == x);
        }
        let c = completed(kind, ws, w);
        let bc = completed(kind, init, w);
        assert forall|i: int| 0 <= i < c.len() implies ws.contains(#[trigger] c[i]) by {
            if i < bc.len() {
                assert(c[i] == bc[i]);
                assert(init.contains(bc[i]));
            }
        }
        let o = still_open(kind, ws, w);
        let bo = still_open(kind, init, w);
        assert forall|i: int| 0 <= i < o.len() implies ws.contains(#[trigger] o[i]) by {
            if i < bo.len() {
                assert(o[i] == bo[i]);
                assert(init.contains(bo[i]));
            }
        }
    }
}

/// Windows in order with one behind them that comes after all.
proof fn lemma_push_in_order(ws: Seq<WindowView>, part: Seq<WindowView>)
    requires
        ws.len() > 0,
        forall|i: int| 0 <= i < part.len() ==> ws.drop_last().contains(#[trigger] part[i]),
    ensures
        in_order(ws) && in_order(part) ==> in_order(part.push(ws.last())),
        ascending(ws) && ascending(part) ==> ascending(part.push(ws.last())),
{
    let n = ws.len() - 1;
    let all = part.push(ws.last());
    assert forall|i: int| 0 <= i < part.len() implies exists|k: int|
        0 <= k < n && #[trigger] ws[k] == #[trigger] part[i] by {
        let init = ws.drop_last();
        assert(init.contains(part[i]));
        let k = choose|k: int| 0 <= k < init.len() && init[k] == part[i];
        assert(ws[k] == part[i]);
    }
    if in_order(ws) && in_order(part) {
        assert forall|i: int, j: int| 0 <= i < j < all.len() implies window_order(
            (#[trigger] all[i]).start,
            all[i].key,
            #[trigger] all[j],
        ) == Order::Less by {
            assert(all[i] == part[i]);
            if j < part.len() {
                assert(all[j] == part[j]);
            } else {
                let k = choose|k: int| 0 <= k < n && #[trigger] ws[k] == part[i];
                assert(window_order(ws[k].start, ws[k].key, ws[n]) == Order::Less);
            }
        }
    }
    if ascending(ws) && ascending(part) {
        assert forall|i: int, j: int| 0 <= i < j < all.len() implies window_order(
            (#[trigger] all[j]).start,
            all[j].key,
            #[trigger] all[i],
        ) != Order::Less by {
            assert(all[i] == part[i]);
            if j < part.len() {
                assert(all[j] == part[j]);
            } else {
                let k = choose|k: int| 0 <= k < n && #[trigger] ws[k] == part[i];
                assert(window_order(ws[n].start, ws[n].key, ws[k]) != Order::Less);
            }
        }
    }
}

/// A watermark leaves windows in their order, and takes them out in their order.
pub proof fn lemma_split_in_order(kind: WindowKind, ws: Seq<WindowView>, w: i64)
    ensures
        in_order(ws) ==> in_order(completed(kind, ws, w)) && in_order(still_open(kind, ws, w)),
        ascending(ws) ==> ascending(completed(kind, ws, w)) && ascending(still_open(kind, ws, w)),
    decreases ws.len(),
{
    if ws.len() > 0 {
        let init = ws.drop_last();
        if in_order(ws) {
            assert forall|i: int, j: int| 0 <= i < j < init.len() implies window_order(
                (#[trigger] init[i]).start,
                init[i].key,
                #[trigger] init[j],
            ) == Order::Less by {
                assert(init[i] == ws[i] && init[j] == ws[j]);
            }
        }
        if ascending(ws) {
            assert forall|i: int, j: int| 0 <= i < j < init.len() implies window_order(
                (#[trigger] init[j]).start,
                init[j].key,
                #[trigger] init[i],
            ) != Order::Less by {
                assert(init[i] == ws[i] && init[j] == ws[j]);
            }
        }
        lemma_split_in_order(kind, init, w);
        lemma_split_from(kind, init, w);
        lemma_push_in_order(ws, completed(kind, init, w));
        lemma_push_in_order(ws, still_open(kind, init, w));
    }
}

impl Processor for WindowProcessor {
    open spec fn valid(&self) -> bool {
        self@.valid()
    }

    open spec fn accepts(&self, inbox: Seq<ItemView>) -> bool {
        self@.takes_all(inbox)
    }

    fn process(&mut self, inbox: &mut VecDeque<Item>, outbox: &mut VecDeque<Item>) -> (done: bool)
        ensures
            done == (old(inbox)@.len() > 0),
            final(inbox)@.len() == 0,
            final(self)@ == old(self)@.steps(views(old(inbox)@)).0,
            views(final(outbox)@) == views(old(outbox)@) + old(self)@.steps(
                views(old(inbox)@),
            ).1,
    {
        let ghost start = self@;
        let ghost all = views(inbox@);
        let ghost before = views(outbox@);
        let ghost k: int = 0;
        let n: usize = inbox.len();
        assert(all.take(0) =~= Seq::empty());
        assert(before + start.steps(all.take(0)).1 =~= before);
        while inbox.len() > 0
            invariant
                0 <= k <= all.len(),
                views(inbox@) =~= all.skip(k),
                start.takes_all(all),
                self@.kind == start.kind,
                self@.valid(),
                self@ == start.steps(all.take(k)).0,
                views(outbox@) =~= before + start.steps(all.take(k)).1,
            decreases inbox@.len(),
        {
            match take_item(inbox) {
                Some(item) => {
                    proof {
                        assert(item@ == all[k]);
                        assert(start.takes_item(all[k]));
                        assert(all.skip(k).skip(1) =~= all.skip(k + 1));
                        assert(all.take(k + 1).drop_last() =~= all.take(k));
                        assert(all.take(k + 1).last() == all[k]);
                    }
                    self.take_one(item, outbox);
                    proof {
                        k = k + 1;
                    }
                },
                None => {},
            }
        }
        assert(all.take(k) =~= all);
        n > 0
    }
}

/// Events and results read back as they were written.
pub proof fn law_records_read_back(ts: i64, value: i64, end: i64, key: Seq<u8>)
    ensures
        event_of(event_bytes(ts, value, key)) == Some((ts, value, key)),
        result_of(result_bytes(ts, end, value, key)) == Some((ts, end, value, key)),
{
    broadcast use lemma_le_digits_len;

    let e = event_bytes(ts, value, key);
    let r = result_bytes(ts, end, value, key);
    lemma_ints_read_back(0, 0, 0, 0, ts);
    lemma_ints_read_back(0, 0, 0, 0, value);
    lemma_ints_read_back(0, 0, 0, 0, end);
    assert(e.subrange(0, 8) =~= i64_le(ts));
    assert(e.subrange(8, 16) =~= i64_le(value));
    assert(e.skip(16) =~= key);
    assert(r.subrange(0, 8) =~= i64_le(ts));
    assert(r.subrange(8, 16) =~= i64_le(end));
    assert(r.subrange(16, 24) =~= i64_le(value));
    assert(r.skip(24) =~= key);
}

/// Every event falls in the tumbling window that it is folded into, and windows do not overlap:
/// they start at multiples of their size.
pub proof fn law_tumbling_windows_cover_their_events(ts: i64, size: i64)
    requires
        size > 0,
    ensures
        grid_start(ts, size) <= ts < grid_start(ts, size) + size,
        grid_start(ts, size) % (size as int) == 0,
{
    lemma_grid_start(ts, size);
}

/// What the window `(start, key)` has accumulated; nothing if it is not open.
pub open spec fn acc_at(ws: Seq<WindowView>, start: i64, key: Seq<u8>) -> Acc
    decreases ws.len(),
{
    if ws.len() == 0 {
        empty_acc()
    } else if ws[0].start == start && ws[0].key == key {
        ws[0].acc
    } else {
        acc_at(ws.skip(1), start, key)
    }
}

pub proof fn lemma_order_trans(a: WindowView, b: WindowView, c: WindowView)
    ensures
        window_order(a.start, a.key, b) == Order::Less && window_order(b.start, b.key, c)
            == Order::Less ==> window_order(a.start, a.key, c) == Order::Less,
        window_order(a.start, a.key, b) == Order::Equal <==> a.start == b.start && a.key == b.key,
        window_order(a.start, a.key, b) == Order::Greater <==> window_order(b.start, b.key, a)
            == Order::Less,
{
    lemma_lex_equal(a.key, b.key);
    lemma_lex_flip(a.key, b.key);
    if lex(a.key, b.key) == Order::Less && lex(b.key, c.key) == Order::Less {
        lemma_lex_trans(a.key, b.key, c.key);
    }
    lemma_lex_equal(b.key, c.key);
}

pub proof fn lemma_in_order_rest(ws: Seq<WindowView>)
    requires
        in_order(ws),
        ws.len() > 0,
    ensures
        in_order(ws.skip(1)),
        forall|j: int|
            0 <= j < ws.skip(1).len() ==> window_order(
                ws[0].start,
                ws[0].key,
                #[trigger] ws.skip(1)[j],
            ) == Order::Less,
{
    let rest = ws.skip(1);
    assert forall|i: int, j: int| 0 <= i < j < rest.len() implies window_order(
        (#[trigger] rest[i]).start,
        rest[i].key,
        #[trigger] rest[j],
    ) == Order::Less by {
        assert(rest[i] == ws[i + 1] && rest[j] == ws[j + 1]);
    }
    assert forall|j: int| 0 <= j < rest.len() implies window_order(
        ws[0].start,
        ws[0].key,
        #[trigger] rest[j],
    ) == Order::Less by {
        assert(rest[j] == ws[j + 1]);
    }
}

/// A window before all of `ws` goes in front.
proof fn lemma_in_order_front(w: WindowView, ws: Seq<WindowView>)
    requires
        in_order(ws),
        ws.len() > 0 ==> window_order(w.start, w.key, ws[0]) == Order::Less,
    ensures
        in_order(seq![w] + ws),
{
    let all = seq![w] + ws;
    assert forall|i: int, j: int| 0 <= i < j < all.len() implies window_order(
        (#[trigger] all[i]).start,
        all[i].key,
        #[trigger] all[j],
    ) == Order::Less by {
        assert(all[j] == ws[j - 1]);
        if i > 0 {
            assert(all[i] == ws[i - 1]);
        } else if j > 1 {
            assert(window_order(ws[0].start, ws[0].key, ws[j - 1]) == Order::Less);
            lemma_order_trans(w, ws[0], ws[j - 1]);
        }
    }
}

/// Folding an event keeps the windows in order, adds its value to its window once, and leaves
/// every other window alone.
#[verifier::spinoff_prover]
#[verifier::rlimit(60)]
pub proof fn law_folding_updates_one_window(
    ws: Seq<WindowView>,
    start: i64,
    key: Seq<u8>,
    value: i64,
    other_start: i64,
    other_key: Seq<u8>,
)
    requires
        in_order(ws),
        (other_start, other_key) != (start, key),
    ensures
        in_order(folded(ws, start, key, value)),
        acc_at(folded(ws, start, key, value), start, key) == acc_at(ws, start, key).plus(value),
        acc_at(folded(ws, start, key, value), other_start, other_key) == acc_at(
            ws,
            other_start,
            other_key,
        ),
    decreases ws.len(),
{
    let fresh = WindowView { key, start, last: start, acc: empty_acc().plus(value) };
    let r = folded(ws, start, key, value);
    if ws.len() == 0 {
        assert(r.skip(1) =~= Seq::empty());
        assert(acc_at(r.skip(1), other_start, other_key) == empty_acc());
    } else {
        let rest = ws.skip(1);
        lemma_in_order_rest(ws);
        lemma_order_trans(fresh, ws[0], ws[0]);
        match window_order(start, key, ws[0]) {
            Order::Less => {
                lemma_in_order_front(fresh, ws);
                assert(r.skip(1) =~= ws);
                lemma_absent(ws, start, key);
            },
            Order::Equal => {
                let w = WindowView { acc: ws[0].acc.plus(value), ..ws[0] };
                if rest.len() > 0 {
                    assert(window_order(ws[0].start, ws[0].key, rest[0]) == Order::Less);
                }
                lemma_in_order_front(w, rest);
                assert(r.skip(1) =~= rest);
            },
            Order::Greater => {
                law_folding_updates_one_window(
                    rest,
                    start,
                    key,
                    value,
                    other_start,
                    other_key,
                );
                let f = folded(rest, start, key, value);
                lemma_folded_first(rest, start, key, value);
                if rest.len() > 0 {
                    assert(window_order(ws[0].start, ws[0].key, rest[0]) == Order::Less);
                }
                lemma_in_order_front(ws[0], f);
                assert(r.skip(1) =~= f);
            },
        }
    }
}

/// What folding puts in front: the window that was there, or the event's.
proof fn lemma_folded_first(ws: Seq<WindowView>, start: i64, key: Seq<u8>, value: i64)
    ensures
        ({
            let f = folded(ws, start, key, value);
            &&& f.len() > 0
            &&& (f[0].start == start && f[0].key == key) || (ws.len() > 0 && f[0].start
                == ws[0].start && f[0].key == ws[0].key)
        }),
{
}

/// A window before all of `ws` is not among them.
proof fn lemma_absent(ws: Seq<WindowView>, start: i64, key: Seq<u8>)
    requires
        in_order(ws),
        ws.len() > 0 ==> window_order(start, key, ws[0]) == Order::Less,
    ensures
        acc_at(ws, start, key) == empty_acc(),
    decreases ws.len(),
{
    if ws.len() > 0 {
        let x = WindowView { key, start, last: start, acc: empty_acc() };
        lemma_in_order_rest(ws);
        lemma_order_trans(x, ws[0], ws[0]);
        if ws.len() > 1 {
            assert(ws.skip(1)[0] == ws[1]);
            assert(window_order(ws[0].start, ws[0].key, ws[1]) == Order::Less);
            lemma_order_trans(x, ws[0], ws[1]);
        }
        lemma_absent(ws.skip(1), start, key);
    }
}

/// A sliding event is folded, once each, into exactly the windows of its key that start at a
/// multiple of the slide and cover it.
pub proof fn law_sliding_windows_cover_their_events(
    ws: Seq<WindowView>,
    start: int,
    bound: int,
    slide: int,
    key: Seq<u8>,
    value: i64,
    other: i64,
    other_key: Seq<u8>,
)
    requires
        in_order(ws),
        slide > 0,
        start % slide == 0,
        i64::MIN <= bound,
        start <= i64::MAX,
    ensures
        in_order(folded_back(ws, start, bound, slide, key, value)),
        acc_at(folded_back(ws, start, bound, slide, key, value), other, other_key) == if other_key
            == key && other as int % slide == 0 && bound < other <= start {
            acc_at(ws, other, other_key).plus(value)
        } else {
            acc_at(ws, other, other_key)
        },
    decreases
            if start > bound {
                start - bound
            } else {
                0
            },
{
    if start > bound {
        let f = folded(ws, start as i64, key, value);
        let aside: i64 = if start == 0 {
            1
        } else {
            0
        };
        if other == start && other_key == key {
            law_folding_updates_one_window(ws, start as i64, key, value, aside, key);
        } else {
            law_folding_updates_one_window(ws, start as i64, key, value, other, other_key);
        }
        assert((start - slide) % slide == 0) by {
            vstd::arithmetic::div_mod::lemma_mod_sub_multiples_vanish(start, slide);
        }
        law_sliding_windows_cover_their_events(
            f,
            start - slide,
            bound,
            slide,
            key,
            value,
            other,
            other_key,
        );
        if other_key == key && other as int % slide == 0 && start - slide < other < start {
            let d = start - other;
            vstd::arithmetic::div_mod::lemma_fundamental_div_mod(start, slide);
            vstd::arithmetic::div_mod::lemma_fundamental_div_mod(other as int, slide);
            let x = start / slide;
            let y = other as int / slide;
            assert(d == slide * (x - y)) by (nonlinear_arith)
                requires
                    d == start - other,
                    start == slide * x,
                    other == slide * y,
            ;
            assert(!(0 < d < slide)) by (nonlinear_arith)
                requires
                    d == slide * (x - y),
                    slide > 0,
            ;
        }
    }
}

/// No window is lost or doubled: each is either put out or stays open.
pub proof fn law_watermarks_split_the_windows(kind: WindowKind, ws: Seq<WindowView>, w: i64)
    ensures
        completed(kind, ws, w).to_multiset().add(still_open(kind, ws, w).to_multiset())
            == ws.to_multiset(),
        forall|i: int|
            0 <= i < completed(kind, ws, w).len() ==> complete(
                kind,
                #[trigger] completed(kind, ws, w)[i],
                w,
            ),
        forall|i: int|
            0 <= i < still_open(kind, ws, w).len() ==> !complete(
                kind,
                #[trigger] still_open(kind, ws, w)[i],
                w,
            ),
    decreases ws.len(),
{
    broadcast use vstd::seq_lib::group_to_multiset_ensures;

    if ws.len() == 0 {
        assert(completed(kind, ws, w).to_multiset().add(still_open(kind, ws, w).to_multiset())
            =~= ws.to_multiset());
    } else {
        let init = ws.drop_last();
        law_watermarks_split_the_windows(kind, init, w);
        assert(ws =~= init.push(ws.last()));
        assert(completed(kind, ws, w).to_multiset().add(still_open(kind, ws, w).to_multiset())
            =~= ws.to_multiset());
    }
}

/// At the end of time every window is complete.
proof fn lemma_all_complete(s: StateView)
    requires
        s.sound(),
    ensures
        still_open(s.kind, s.windows, i64::MAX).len() == 0,
    decreases s.windows.len(),
{
    if s.windows.len() > 0 {
        let init = StateView { windows: s.windows.drop_last(), ..s };
        assert forall|i: int| 0 <= i < init.windows.len() implies init.window_ok(
            #[trigger] init.windows[i],
        ) by {
            assert(init.windows[i] == s.windows[i]);
            assert(s.window_ok(s.windows[i]));
        }
        lemma_all_complete(init);
        assert(s.window_ok(s.windows[s.windows.len() - 1]));
    }
}

/// The end of the stream puts out every open window.
pub proof fn law_done_flushes_all_open_windows(s: StateView)
    requires
        s.valid(),
    ensures
        s.close(i64::MAX).0.windows.len() == 0,
{
    lemma_all_complete(s);
}

pub proof fn lemma_placed(ws: Seq<WindowView>, x: WindowView)
    requires
        ascending(ws),
    ensures
        ascending(placed(ws, x)),
        placed(ws, x).to_multiset() == ws.to_multiset().insert(x),
        placed(ws, x).len() > 0,
        placed(ws, x).last() == x || (ws.len() > 0 && placed(ws, x).last() == ws.last()),
        ws.len() > 0 && window_order(x.start, x.key, ws.last()) == Order::Less ==> placed(
            ws,
            x,
        ).last() == ws.last(),
    decreases ws.len(),
{
    broadcast use vstd::seq_lib::group_to_multiset_ensures;

    let p = placed(ws, x);
    if ws.len() == 0 {
        assert(p =~= Seq::empty().push(x));
        assert(ws =~= Seq::empty());
    } else if window_order(x.start, x.key, ws.last()) == Order::Less {
        let init = ws.drop_last();
        assert forall|i: int, j: int| 0 <= i < j < init.len() implies window_order(
            (#[trigger] init[j]).start,
            init[j].key,
            #[trigger] init[i],
        ) != Order::Less by {
            assert(init[i] == ws[i] && init[j] == ws[j]);
        }
        lemma_placed(init, x);
        let q = placed(init, x);
        assert(ws =~= init.push(ws.last()));
        assert(p.to_multiset() =~= ws.to_multiset().insert(x));
        assert forall|i: int, j: int| 0 <= i < j < p.len() implies window_order(
            (#[trigger] p[j]).start,
            p[j].key,
            #[trigger] p[i],
        ) != Order::Less by {
            if j < q.len() {
                assert(p[i] == q[i] && p[j] == q[j]);
            } else {
                assert(q.to_multiset().contains(q[i])) by {
                    assert(q.contains(q[i]));
                }
                if q[i] != x {
                    assert(init.to_multiset().contains(q[i]));
                    assert(init.contains(q[i]));
                    let k = choose|k: int| 0 <= k < init.len() && init[k] == q[i];
                    assert(init[k] == ws[k]);
                    assert(window_order(
                        ws[ws.len() - 1].start,
                        ws[ws.len() - 1].key,
                        ws[k],
                    ) != Order::Less);
                } else {
                    lemma_order_trans(x, ws.last(), x);
                    lemma_order_trans(ws.last(), x, x);
                }
            }
        }
    } else {
        assert forall|i: int, j: int| 0 <= i < j < p.len() implies window_order(
            (#[trigger] p[j]).start,
            p[j].key,
            #[trigger] p[i],
        ) != Order::Less by {
            if j == ws.len() {
                let l = ws.last();
                if i < ws.len() - 1 {
                    assert(window_order(l.start, l.key, ws[i]) != Order::Less);
                    lemma_order_trans(x, ws[i], l);
                    lemma_order_trans(ws[i], l, x);
                    lemma_order_trans(l, ws[i], ws[i]);
                    lemma_order_trans(x, l, l);
                    lemma_order_trans(ws[i], x, l);
                }
            } else {
                assert(p[i] == ws[i] && p[j] == ws[j]);
            }
        }
    }
}

/// Windows are put out by start and key.
pub proof fn law_windows_are_put_out_in_order(s: StateView, w: i64)
    requires
        s.valid(),
    ensures
        ascending(completed(s.kind, s.windows, w)),
        !(s.kind is Session) ==> in_order(completed(s.kind, s.windows, w)),
{
    lemma_split_in_order(s.kind, s.windows, w);
}

/// The bytes of events and results: little-endian numbers of eight bytes, and the key behind them.
pub proof fn law_record_layout(ts: i64, value: i64, end: i64, key: Seq<u8>)
    ensures
        event_bytes(ts, value, key) == i64_le(ts) + i64_le(value) + key,
        result_bytes(ts, end, value, key) == i64_le(ts) + i64_le(end) + i64_le(value) + key,
{
}

} // verus!
