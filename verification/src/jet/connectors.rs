//! Sources and sinks of lines of text.
//!
//! A source ignores its inbox and produces from an external resource. Reading the resource is left
//! to the caller: what arrives is handed in, and comes out as one item per line.

use std::collections::VecDeque;
use vstd::prelude::*;
use super::processor::{put_item, take_item, Item, ItemView, Processor};
use crate::bytes::{copy_range, copy_slice, put_slice};
use crate::model::{lemma_views_push, views};

verus! {

/// The position of the first line feed in `b`, or its length.
pub open spec fn line_end(b: Seq<u8>) -> int
    decreases b.len(),
{
    if b.len() == 0 || b[0] == 0x0a {
        0
    } else {
        1 + line_end(b.skip(1))
    }
}

/// A line without a carriage return at its end.
pub open spec fn without_cr(line: Seq<u8>) -> Seq<u8> {
    if line.len() > 0 && line.last() == 0x0d {
        line.drop_last()
    } else {
        line
    }
}

/// The complete lines of `b`, each without its line ending, and what stands behind the last one.
pub open spec fn split_lines(b: Seq<u8>) -> (Seq<Seq<u8>>, Seq<u8>)
    decreases b.len(),
{
    let n = line_end(b);
    if 0 <= n < b.len() {
        let rest = split_lines(b.skip(n + 1));
        (seq![without_cr(b.take(n))] + rest.0, rest.1)
    } else {
        (Seq::empty(), b)
    }
}

/// The lines of a whole text: the last one need not be ended.
pub open spec fn text_lines(b: Seq<u8>) -> Seq<Seq<u8>> {
    let r = split_lines(b);
    if r.1.len() > 0 {
        r.0.push(r.1)
    } else {
        r.0
    }
}

pub open spec fn data_items(lines: Seq<Seq<u8>>) -> Seq<ItemView> {
    Seq::new(lines.len(), |i: int| ItemView::Data(lines[i]))
}

proof fn lemma_line_end(b: Seq<u8>)
    ensures
        0 <= line_end(b) <= b.len(),
        line_end(b) < b.len() ==> b[line_end(b)] == 0x0a,
        forall|i: int| 0 <= i < line_end(b) ==> b[i] != 0x0a,
    decreases b.len(),
{
    if b.len() > 0 && b[0] != 0x0a {
        lemma_line_end(b.skip(1));
        assert forall|i: int| 0 <= i < line_end(b) implies b[i] != 0x0a by {
            if i > 0 {
                assert(b.skip(1)[i - 1] == b[i]);
            }
        }
    }
}

proof fn lemma_line_end_is(b: Seq<u8>, n: int)
    requires
        0 <= n <= b.len(),
        n < b.len() ==> b[n] == 0x0a,
        forall|i: int| 0 <= i < n ==> b[i] != 0x0a,
    ensures
        line_end(b) == n,
{
    lemma_line_end(b);
    let m = line_end(b);
    if m < n {
        assert(b[m] != 0x0a);
    }
}

/// Takes the complete lines out of `buf` and appends them to `lines`.
fn take_lines(buf: &mut Vec<u8>, lines: &mut Vec<Vec<u8>>)
    ensures
        views(final(lines)@) == views(old(lines)@) + split_lines(old(buf)@).0,
        final(buf)@ == split_lines(old(buf)@).1,
{
    broadcast use lemma_views_push;

    let ghost whole = buf@;
    let ghost before = views(lines@);
    let ghost found = split_lines(whole);
    let mut start: usize = 0;
    let mut i: usize = 0;
    assert(whole.skip(0) =~= whole);
    assert(before + found.0 =~= before + split_lines(whole.skip(0)).0);
    while i < buf.len()
        invariant
            start <= i <= whole.len(),
            buf@ == whole,
            forall|j: int| start <= j < i ==> whole[j] != 0x0a,
            views(lines@) + split_lines(whole.skip(start as int)).0 =~= before + found.0,
            split_lines(whole.skip(start as int)).1 == found.1,
        decreases whole.len() - i,
    {
        if buf[i] == 0x0a {
            let ghost rest = whole.skip(start as int);
            let ghost n = i - start;
            let ghost so_far = views(lines@);
            proof {
                lemma_line_end_is(rest, n);
            }
            let mut end: usize = i;
            if end > start && buf[end - 1] == 0x0d {
                end = end - 1;
            }
            let line: Vec<u8> = copy_range(buf.as_slice(), start, end);
            proof {
                assert(rest.take(n) =~= whole.subrange(start as int, i as int));
                assert(line@ =~= without_cr(rest.take(n)));
                assert(rest.skip(n + 1) =~= whole.skip(i + 1));
                let later = split_lines(whole.skip(i + 1)).0;
                assert(so_far.push(line@) + later =~= so_far + (seq![line@] + later));
            }
            lines.push(line);
            start = i + 1;
        }
        i = i + 1;
    }
    proof {
        let rest = whole.skip(start as int);
        lemma_line_end_is(rest, rest.len() as int);
        assert(views(lines@) =~= before + found.0);
    }
    let rest: Vec<u8> = copy_range(buf.as_slice(), start, buf.len());
    assert(rest@ =~= whole.skip(start as int));
    *buf = rest;
}

/// The lines of a whole text.
pub fn lines_of(text: &[u8]) -> (lines: Vec<Vec<u8>>)
    ensures
        views(lines@) == text_lines(text@),
{
    let mut lines: Vec<Vec<u8>> = Vec::new();
    let mut buf: Vec<u8> = copy_slice(text);
    assert(views(lines@) =~= Seq::empty());
    take_lines(&mut buf, &mut lines);
    assert(views(lines@) =~= split_lines(text@).0);
    if buf.len() > 0 {
        let ghost before = views(lines@);
        lines.push(buf);
        assert(views(lines@) =~= before.push(buf@));
    }
    lines
}

/// Puts each line out as an item.
fn put_lines(lines: &Vec<Vec<u8>>, outbox: &mut VecDeque<Item>)
    ensures
        views(final(outbox)@) == views(old(outbox)@) + data_items(views(lines@)),
{
    let ghost before = views(outbox@);
    let ghost all = data_items(views(lines@));
    let mut i: usize = 0;
    while i < lines.len()
        invariant
            i <= lines@.len(),
            all == data_items(views(lines@)),
            views(outbox@) =~= before + all.take(i as int),
        decreases lines@.len() - i,
    {
        put_item(outbox, Item::Data(copy_slice(lines[i].as_slice())));
        i = i + 1;
    }
    assert(all.take(i as int) =~= all);
}

/// Emits one item per buffered line, then `Done`.
pub struct FileSource {
    lines: Vec<Vec<u8>>,
    done: bool,
}

/// What a [`FileSource`] holds: the lines still to come, and whether it has finished.
pub struct FileSourceView {
    pub lines: Seq<Seq<u8>>,
    pub done: bool,
}

impl View for FileSource {
    type V = FileSourceView;

    closed spec fn view(&self) -> FileSourceView {
        FileSourceView { lines: views(self.lines@), done: self.done }
    }
}

impl FileSource {
    /// A source over the lines of a file's contents. What cannot be read is an empty file.
    pub fn open(contents: &[u8]) -> (s: FileSource)
        ensures
            s@ == (FileSourceView { lines: text_lines(contents@), done: false }),
    {
        FileSource { lines: lines_of(contents), done: false }
    }

    /// A source over lines that were already collected.
    pub fn from_lines(lines: Vec<Vec<u8>>) -> (s: FileSource)
        ensures
            s@ == (FileSourceView { lines: views(lines@), done: false }),
    {
        FileSource { lines, done: false }
    }
}

impl Processor for FileSource {
    open spec fn valid(&self) -> bool {
        true
    }

    open spec fn accepts(&self, inbox: Seq<ItemView>) -> bool {
        true
    }

    /// Emits all buffered lines, then `Done`. Later calls do nothing.
    fn process(&mut self, inbox: &mut VecDeque<Item>, outbox: &mut VecDeque<Item>) -> (done: bool)
        ensures
            done == !old(self)@.done,
            final(self)@ == (if done {
                FileSourceView { lines: Seq::empty(), done: true }
            } else {
                old(self)@
            }),
            views(final(inbox)@) == views(old(inbox)@),
            views(final(outbox)@) == views(old(outbox)@) + (if done {
                data_items(old(self)@.lines).push(ItemView::Done)
            } else {
                Seq::empty()
            }),
    {
        let ghost before = views(outbox@);
        assert(before + Seq::<ItemView>::empty() =~= before);
        if self.done {
            return false;
        }
        put_lines(&self.lines, outbox);
        let ghost lines = data_items(views(self.lines@));
        put_item(outbox, Item::Done);
        assert(views(outbox@) =~= before + lines.push(ItemView::Done));
        self.lines = Vec::new();
        assert(views(self.lines@) =~= Seq::empty());
        self.done = true;
        true
    }
}

/// What a [`SocketSource`] holds: bytes of a line not complete yet, and whether it has finished.
pub struct SocketSourceView {
    pub buf: Seq<u8>,
    pub done: bool,
}

/// Splits a byte stream into newline-delimited records: one item per line, `Done` at its end. A
/// trailing partial line is flushed at the end.
pub struct SocketSource {
    buf: Vec<u8>,
    done: bool,
}

impl View for SocketSource {
    type V = SocketSourceView;

    closed spec fn view(&self) -> SocketSourceView {
        SocketSourceView { buf: self.buf@, done: self.done }
    }
}

impl SocketSource {
    pub fn new() -> (s: SocketSource)
        ensures
            s@ == (SocketSourceView { buf: Seq::empty(), done: false }),
    {
        let s = SocketSource { buf: Vec::new(), done: false };
        assert(s@.buf =~= Seq::empty());
        s
    }

    pub fn is_done(&self) -> (b: bool)
        ensures
            b == self@.done,
    {
        self.done
    }

    /// Takes in bytes that have arrived.
    pub fn receive(&mut self, bytes: &[u8])
        ensures
            final(self)@ == (SocketSourceView { buf: old(self)@.buf + bytes@, ..old(self)@ }),
    {
        put_slice(&mut self.buf, bytes);
    }

    /// Emits the lines that are complete.
    fn emit_lines(&mut self, outbox: &mut VecDeque<Item>)
        ensures
            final(self)@ == (SocketSourceView {
                buf: split_lines(old(self)@.buf).1,
                ..old(self)@
            }),
            views(final(outbox)@) == views(old(outbox)@) + data_items(
                split_lines(old(self)@.buf).0,
            ),
    {
        let mut lines: Vec<Vec<u8>> = Vec::new();
        assert(views(lines@) =~= Seq::empty());
        take_lines(&mut self.buf, &mut lines);
        assert(views(lines@) =~= split_lines(old(self)@.buf).0);
        put_lines(&lines, outbox);
    }

    /// Emits what has arrived as lines; at the end of the stream also the partial line and `Done`.
    /// Does nothing once the end was seen.
    pub fn advance(&mut self, eof: bool, outbox: &mut VecDeque<Item>)
        ensures
            ({
                let lines = split_lines(old(self)@.buf);
                let all = text_lines(old(self)@.buf);
                if old(self)@.done {
                    final(self)@ == old(self)@ && views(final(outbox)@) == views(old(outbox)@)
                } else if eof {
                    &&& final(self)@ == (SocketSourceView { buf: Seq::empty(), done: true })
                    &&& views(final(outbox)@) == views(old(outbox)@) + data_items(all).push(
                        ItemView::Done,
                    )
                } else {
                    &&& final(self)@ == (SocketSourceView { buf: lines.1, done: false })
                    &&& views(final(outbox)@) == views(old(outbox)@) + data_items(lines.0)
                }
            }),
    {
        let ghost before = views(outbox@);
        let ghost whole = self@.buf;
        if self.done {
            return ;
        }
        self.emit_lines(outbox);
        if eof {
            let ghost so_far = views(outbox@);
            if self.buf.len() > 0 {
                let mut rest: Vec<u8> = Vec::new();
                std::mem::swap(&mut rest, &mut self.buf);
                put_item(outbox, Item::Data(rest));
            }
            put_item(outbox, Item::Done);
            self.done = true;
            assert(self.buf@ =~= Seq::empty());
            assert(views(outbox@) =~= before + data_items(text_lines(whole)).push(ItemView::Done));
        }
    }
}

/// The bytes that a sink writes for an item: data as a newline-terminated record, nothing else.
pub open spec fn record_of(i: ItemView) -> Seq<u8> {
    match i {
        ItemView::Data(d) => d.push(0x0a),
        _ => Seq::empty(),
    }
}

pub open spec fn records_of(items: Seq<ItemView>) -> Seq<u8>
    decreases items.len(),
{
    if items.len() == 0 {
        Seq::empty()
    } else {
        records_of(items.drop_last()) + record_of(items.last())
    }
}

pub open spec fn has_data(items: Seq<ItemView>) -> bool {
    exists|i: int| 0 <= i < items.len() && (#[trigger] items[i]) is Data
}

/// Turns inbound items into the bytes that a socket sink writes; says whether there was data.
pub fn sink_bytes(inbox: &mut VecDeque<Item>) -> (r: (Vec<u8>, bool))
    ensures
        r.0@ == records_of(views(old(inbox)@)),
        r.1 == has_data(views(old(inbox)@)),
        final(inbox)@.len() == 0,
{
    let ghost all = views(inbox@);
    let mut out: Vec<u8> = Vec::new();
    let mut progressed: bool = false;
    let ghost k: int = 0;
    assert(all.take(0) =~= Seq::empty());
    while inbox.len() > 0
        invariant
            0 <= k <= all.len(),
            views(inbox@) =~= all.skip(k),
            out@ == records_of(all.take(k)),
            progressed == has_data(all.take(k)),
        decreases inbox@.len(),
    {
        match take_item(inbox) {
            Some(item) => {
                let ghost done = all.take(k);
                let ghost more = all.take(k + 1);
                proof {
                    assert(item@ == all[k]);
                    assert(all.skip(k).skip(1) =~= all.skip(k + 1));
                    assert(more.drop_last() =~= done);
                    assert(more.last() == all[k]);
                    if has_data(done) {
                        let i = choose|i: int| 0 <= i < done.len() && (#[trigger] done[i]) is Data;
                        assert(more[i] is Data);
                    }
                    if has_data(more) && !(all[k] is Data) {
                        let i = choose|i: int| 0 <= i < more.len() && (#[trigger] more[i]) is Data;
                        assert(done[i] is Data);
                    }
                }
                let ghost so_far = out@;
                match item {
                    Item::Data(line) => {
                        put_slice(&mut out, line.as_slice());
                        out.push(0x0a);
                        progressed = true;
                        assert(out@ =~= so_far + record_of(all[k]));
                        assert(more[k] is Data);
                    },
                    _ => {
                        assert(so_far + Seq::<u8>::empty() =~= so_far);
                    },
                }
                proof {
                    k = k + 1;
                }
            },
            None => {},
        }
    }
    assert(all.take(k) =~= all);
    (out, progressed)
}

/// The lines of a stream do not depend on how its bytes arrive: splitting what came first, and
/// then what is left together with what came later, gives the lines of the whole.
pub proof fn law_lines_do_not_depend_on_chunks(a: Seq<u8>, b: Seq<u8>)
    ensures
        split_lines(a + b).0 == split_lines(a).0 + split_lines(split_lines(a).1 + b).0,
        split_lines(a + b).1 == split_lines(split_lines(a).1 + b).1,
    decreases a.len(),
{
    let n = line_end(a);
    lemma_line_end(a);
    if n < a.len() {
        lemma_line_end_is(a + b, n);
        assert((a + b).take(n) =~= a.take(n));
        assert((a + b).skip(n + 1) =~= a.skip(n + 1) + b);
        law_lines_do_not_depend_on_chunks(a.skip(n + 1), b);
        let l = seq![without_cr(a.take(n))];
        let x = split_lines(a.skip(n + 1)).0;
        let y = split_lines(split_lines(a).1 + b).0;
        assert(l + (x + y) =~= (l + x) + y);
    } else {
        assert(split_lines(a).1 + b =~= a + b);
        assert(Seq::<Seq<u8>>::empty() + split_lines(a + b).0 =~= split_lines(a + b).0);
    }
}

/// Lines, each with the bytes that end it.
pub open spec fn ended(lines: Seq<Seq<u8>>, end: Seq<u8>) -> Seq<u8>
    decreases lines.len(),
{
    if lines.len() == 0 {
        Seq::empty()
    } else {
        lines[0] + end + ended(lines.skip(1), end)
    }
}

/// Whether a line holds no line feed, and no carriage return at its end.
pub open spec fn is_line(line: Seq<u8>) -> bool {
    (forall|i: int| 0 <= i < line.len() ==> line[i] != 0x0a) && (line.len() > 0 ==> line.last()
        != 0x0d)
}

/// Text is read as the lines that it was written from, whether they were ended by a line feed or by
/// a carriage return and a line feed; what is not ended yet waits, and counts as a line at the
/// end of the text unless it is empty.
pub proof fn law_lines_read_back(lines: Seq<Seq<u8>>, rest: Seq<u8>, cr: bool)
    requires
        forall|i: int| 0 <= i < lines.len() ==> is_line(#[trigger] lines[i]),
        forall|i: int| 0 <= i < rest.len() ==> rest[i] != 0x0a,
    ensures
        ({
            let end = if cr {
                seq![0x0du8, 0x0a]
            } else {
                seq![0x0au8]
            };
            let b = ended(lines, end) + rest;
            &&& split_lines(b) == (lines, rest)
            &&& text_lines(b) == if rest.len() > 0 {
                lines.push(rest)
            } else {
                lines
            }
        }),
    decreases lines.len(),
{
    let end = if cr {
        seq![0x0du8, 0x0a]
    } else {
        seq![0x0au8]
    };
    let b = ended(lines, end) + rest;
    if lines.len() == 0 {
        assert(b =~= rest);
        lemma_line_end_is(b, b.len() as int);
        assert(split_lines(b).0 =~= lines);
    } else {
        let l = lines[0];
        let more = lines.skip(1);
        let n = l.len() + end.len() - 1;
        let after = ended(more, end) + rest;
        assert forall|i: int| 0 <= i < more.len() implies is_line(#[trigger] more[i]) by {
            assert(more[i] == lines[i + 1]);
        }
        law_lines_read_back(more, rest, cr);
        assert(is_line(lines[0]));
        assert(b =~= l + end + after);
        assert forall|i: int| 0 <= i < n implies b[i] != 0x0a by {
            if i < l.len() {
                assert(b[i] == l[i]);
            }
        }
        assert(b[n] == 0x0a);
        lemma_line_end_is(b, n);
        assert(b.skip(n + 1) =~= after);
        if cr {
            assert(b.take(n) =~= l.push(0x0d));
            assert(l.push(0x0d).drop_last() =~= l);
        } else {
            assert(b.take(n) =~= l);
        }
        assert(seq![l] + more =~= lines);
    }
}

/// What a sink writes, a source reads: the data that goes into a sink comes out as lines.
pub proof fn law_sinks_write_what_sources_read(lines: Seq<Seq<u8>>)
    requires
        forall|i: int| 0 <= i < lines.len() ==> is_line(#[trigger] lines[i]),
    ensures
        split_lines(records_of(data_items(lines))) == (lines, Seq::<u8>::empty()),
{
    law_lines_read_back(lines, Seq::empty(), false);
    lemma_records_ended(lines);
    assert(ended(lines, seq![0x0au8]) + Seq::<u8>::empty() =~= ended(lines, seq![0x0au8]));
}

proof fn lemma_ended_push(lines: Seq<Seq<u8>>, l: Seq<u8>, end: Seq<u8>)
    ensures
        ended(lines.push(l), end) == ended(lines, end) + l + end,
    decreases lines.len(),
{
    let all = lines.push(l);
    assert(ended(all, end) == all[0] + end + ended(all.skip(1), end));
    if lines.len() == 0 {
        assert(all.skip(1) =~= Seq::empty());
        assert(ended(all.skip(1), end) =~= Seq::empty());
        assert(ended(lines, end) =~= Seq::empty());
        assert(ended(all, end) =~= ended(lines, end) + l + end);
    } else {
        lemma_ended_push(lines.skip(1), l, end);
        assert(all[0] == lines[0]);
        assert(all.skip(1) =~= lines.skip(1).push(l));
        assert(ended(all, end) =~= ended(lines, end) + l + end);
    }
}

proof fn lemma_records_ended(lines: Seq<Seq<u8>>)
    ensures
        records_of(data_items(lines)) == ended(lines, seq![0x0au8]),
    decreases lines.len(),
{
    if lines.len() > 0 {
        let init = lines.drop_last();
        lemma_records_ended(init);
        assert(data_items(lines).drop_last() =~= data_items(init));
        lemma_ended_push(init, lines.last(), seq![0x0au8]);
        assert(init.push(lines.last()) =~= lines);
        assert(records_of(data_items(lines)) =~= ended(lines, seq![0x0au8]));
    } else {
        assert(data_items(lines) =~= Seq::empty());
    }
}

} // verus!
