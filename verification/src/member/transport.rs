//! The connections of a member to its peers.
//!
//! A mesh keeps the connections in slots. What arrives on a connection is framed messages, in the
//! clear or behind TLS; replies to a peer travel on the member's own outbound connection to it.
//! The sockets, the handshakes and the waiting are the driver's: it hands in what happened, and
//! does what it is told.

use vstd::prelude::*;
use super::wire::{
    decode, encode, first_msg, frame, law_more_bytes_change_no_message, Msg, MsgView,
};
use crate::bytes::{copy_range, put_slice};
use crate::model::{opt_view, opt_views, views};
use crate::table::Table;

verus! {

/// What a member does with messages.
pub trait Handler {
    /// A message arrived from member `src`. Replies go to `outbox`.
    fn on_msg(&mut self, src: usize, msg: Msg, outbox: &mut Vec<(usize, Msg)>);

    /// A tick, about every millisecond. Outgoing messages go to `outbox`. `false` stops the
    /// transport.
    fn on_tick(&mut self, outbox: &mut Vec<(usize, Msg)>) -> bool;
}

/// How the mesh uses TLS.
#[derive(Clone, Copy, Debug, PartialEq, Eq, Structural)]
pub enum TlsMode {
    Disabled,
    Permissive,
    Required,
}

/// How far TLS has come on a connection.
#[derive(Clone, Copy, Debug, PartialEq, Eq, Structural)]
pub enum ConnTls {
    Plain,
    /// The first byte decides whether the peer speaks TLS.
    Detect,
    Handshaking,
    /// Encrypted by the kernel.
    Ktls,
}

/// The TLS state of an accepted connection. `started` says whether a handshake could be started.
pub fn inbound_tls(mode: Option<TlsMode>, started: bool) -> (t: ConnTls)
    ensures
        t == match mode {
            Some(TlsMode::Permissive) => ConnTls::Detect,
            Some(TlsMode::Required) => if started {
                ConnTls::Handshaking
            } else {
                ConnTls::Plain
            },
            _ => ConnTls::Plain,
        },
{
    match mode {
        None => ConnTls::Plain,
        Some(TlsMode::Disabled) => ConnTls::Plain,
        Some(TlsMode::Permissive) => ConnTls::Detect,
        Some(TlsMode::Required) => if started {
            ConnTls::Handshaking
        } else {
            ConnTls::Plain
        },
    }
}

/// The TLS state of a dialed connection: unless TLS is off, the member dials with it.
pub fn outbound_tls(mode: Option<TlsMode>, started: bool) -> (t: ConnTls)
    ensures
        t == if mode is Some && mode != Some(TlsMode::Disabled) && started {
            ConnTls::Handshaking
        } else {
            ConnTls::Plain
        },
{
    match mode {
        None => ConnTls::Plain,
        Some(TlsMode::Disabled) => ConnTls::Plain,
        Some(_) => if started {
            ConnTls::Handshaking
        } else {
            ConnTls::Plain
        },
    }
}

/// What a completed operation was.
#[derive(Clone, Copy, Debug, PartialEq, Eq, Structural)]
pub enum Completion {
    Tick,
    Accept,
    Recv(usize),
    Send(usize),
}

pub const ACCEPT_UD: u64 = 0xffff_ffff_ffff_fffe;

pub const TIMEOUT_UD: u64 = 0xffff_ffff_ffff_fffd;

/// The slots that operations can be marked with.
pub const MAX_SLOTS: u64 = 0x4000_0000_0000_0000;

/// The mark of a receive on a slot.
pub open spec fn recv_mark(slot: int) -> int {
    2 * slot
}

/// The mark of a send on a slot.
pub open spec fn send_mark(slot: int) -> int {
    2 * slot + 1
}

pub fn recv_ud(slot: usize) -> (ud: u64)
    requires
        slot < MAX_SLOTS,
    ensures
        ud == recv_mark(slot as int),
{
    2 * slot as u64
}

pub fn send_ud(slot: usize) -> (ud: u64)
    requires
        slot < MAX_SLOTS,
    ensures
        ud == send_mark(slot as int),
{
    2 * slot as u64 + 1
}

/// What the operation with a mark was; none if it cannot be one of a slot.
pub open spec fn marked(ud: u64) -> Option<Completion> {
    if ud == TIMEOUT_UD {
        Some(Completion::Tick)
    } else if ud == ACCEPT_UD {
        Some(Completion::Accept)
    } else if ud / 2 > usize::MAX {
        None
    } else if ud % 2 == 1 {
        Some(Completion::Send((ud / 2) as usize))
    } else {
        Some(Completion::Recv((ud / 2) as usize))
    }
}

/// What the operation with a mark was.
pub fn completion(ud: u64) -> (r: Option<Completion>)
    ensures
        r == marked(ud),
{
    if ud == TIMEOUT_UD {
        Some(Completion::Tick)
    } else if ud == ACCEPT_UD {
        Some(Completion::Accept)
    } else if ud / 2 > usize::MAX as u64 {
        None
    } else if ud % 2 == 1 {
        Some(Completion::Send((ud / 2) as usize))
    } else {
        Some(Completion::Recv((ud / 2) as usize))
    }
}

/// Operations are told apart by their marks.
pub proof fn law_marks_read_back(slot: usize)
    requires
        slot < MAX_SLOTS,
    ensures
        marked(recv_mark(slot as int) as u64) == Some(Completion::Recv(slot)),
        marked(send_mark(slot as int) as u64) == Some(Completion::Send(slot)),
        marked(ACCEPT_UD) == Some(Completion::Accept),
        marked(TIMEOUT_UD) == Some(Completion::Tick),
{
}

/// A connection.
pub struct Conn {
    /// Who is at the other end, once known.
    pub peer: Option<usize>,
    /// Bytes received and not yet decoded.
    pub acc: Vec<u8>,
    /// Bytes to send, appended to freely.
    pub out: Vec<u8>,
    /// Bytes being sent. They stay as they are while a send is in flight.
    pub sendbuf: Vec<u8>,
    /// How many bytes are in flight.
    pub inflight: usize,
    pub open: bool,
    pub tls: ConnTls,
    /// Bytes held back while the handshake is in progress.
    pub app_out: Vec<u8>,
    /// The handshake is done, and the kernel does not encrypt yet.
    pub hs_done: bool,
}

/// What a [`Conn`] holds.
pub struct ConnView {
    pub peer: Option<usize>,
    pub acc: Seq<u8>,
    pub out: Seq<u8>,
    pub sendbuf: Seq<u8>,
    pub inflight: usize,
    pub open: bool,
    pub tls: ConnTls,
    pub app_out: Seq<u8>,
    pub hs_done: bool,
}

impl View for Conn {
    type V = ConnView;

    open spec fn view(&self) -> ConnView {
        ConnView {
            peer: self.peer,
            acc: self.acc@,
            out: self.out@,
            sendbuf: self.sendbuf@,
            inflight: self.inflight,
            open: self.open,
            tls: self.tls,
            app_out: self.app_out@,
            hs_done: self.hs_done,
        }
    }
}

/// A connection on which nothing has happened.
pub open spec fn fresh(tls: ConnTls) -> ConnView {
    ConnView {
        peer: None,
        acc: Seq::empty(),
        out: Seq::empty(),
        sendbuf: Seq::empty(),
        inflight: 0,
        open: true,
        tls,
        app_out: Seq::empty(),
        hs_done: false,
    }
}

/// What to do with received bytes.
#[derive(Clone, Copy, Debug, PartialEq, Eq, Structural)]
pub enum Ingest {
    /// They were plain, and are ready to be decoded.
    Plain,
    /// The peer speaks TLS: start a handshake, then pump the bytes through it.
    StartHandshake,
    /// Pump them through the handshake.
    Pump,
}

impl ConnView {
    /// Bytes are sent directly in the clear or when the kernel encrypts, and held back otherwise.
    pub open spec fn queue(self, bytes: Seq<u8>) -> ConnView {
        if self.tls == ConnTls::Plain || self.tls == ConnTls::Ktls {
            ConnView { out: self.out + bytes, ..self }
        } else {
            ConnView { app_out: self.app_out + bytes, ..self }
        }
    }

    /// Whether a send can start: none is in flight, and there is something to send.
    pub open spec fn can_send(self) -> bool {
        self.inflight == 0 && (self.sendbuf.len() > 0 || self.out.len() > 0)
    }

    /// A send started: of what was left over, or else of all that waits.
    pub open spec fn armed(self) -> ConnView {
        if !self.can_send() {
            self
        } else if self.sendbuf.len() > 0 {
            ConnView { inflight: self.sendbuf.len() as usize, ..self }
        } else {
            ConnView {
                sendbuf: self.out,
                out: Seq::empty(),
                inflight: self.out.len() as usize,
                ..self
            }
        }
    }

    /// A send completed: the acknowledged bytes are gone; a failure closes.
    pub open spec fn sent(self, res: i32) -> ConnView {
        if res < 0 {
            ConnView { open: false, ..self }
        } else {
            ConnView { sendbuf: self.sendbuf.skip(res as int), inflight: 0, ..self }
        }
    }

    /// Whether the handshake is done and its last bytes are out.
    pub open spec fn drained(self) -> bool {
        self.hs_done && self.sendbuf.len() == 0 && self.out.len() == 0 && self.inflight == 0
    }

    /// Whether the kernel is to take over encryption now.
    pub open spec fn install_due(self) -> bool {
        self.drained() && self.tls == ConnTls::Handshaking
    }

    /// The kernel has taken over: what was held back goes out. Or it could not: the connection
    /// closes.
    pub open spec fn installed(self, ok: bool) -> ConnView {
        if ok {
            ConnView {
                tls: ConnTls::Ktls,
                out: self.out + self.app_out,
                app_out: Seq::empty(),
                ..self
            }
        } else {
            ConnView { tls: ConnTls::Plain, open: false, ..self }
        }
    }

    /// What received bytes call for.
    pub open spec fn ingest_kind(self, bytes: Seq<u8>) -> Ingest {
        match self.tls {
            ConnTls::Handshaking => Ingest::Pump,
            ConnTls::Detect => if bytes.len() > 0 && bytes[0] == 0x16 {
                Ingest::StartHandshake
            } else {
                Ingest::Plain
            },
            _ => Ingest::Plain,
        }
    }

    /// Received bytes: plain ones are kept for decoding, and settle that the peer speaks no TLS.
    pub open spec fn ingested(self, bytes: Seq<u8>) -> ConnView {
        if self.ingest_kind(bytes) == Ingest::Plain {
            ConnView {
                acc: self.acc + bytes,
                tls: if self.tls == ConnTls::Detect {
                    ConnTls::Plain
                } else {
                    self.tls
                },
                ..self
            }
        } else {
            self
        }
    }

    /// A handshake pumped: what it wants sent goes out, what it decrypted is kept for decoding.
    pub open spec fn pumped(self, send: Seq<u8>, plain: Seq<u8>, ready: bool) -> ConnView {
        ConnView {
            out: self.out + send,
            acc: self.acc + plain,
            hs_done: self.hs_done || ready,
            tls: ConnTls::Handshaking,
            ..self
        }
    }

    /// What is still to be sent, in order.
    pub open spec fn unsent(self) -> Seq<u8> {
        self.sendbuf + self.out
    }
}

/// Messages with who they are from. A `Hello` says who speaks; what comes before it is from
/// nobody known.
pub open spec fn heard(peer: Option<usize>, bytes: Seq<u8>) -> (
    Option<usize>,
    Seq<(usize, MsgView)>,
    Seq<u8>,
)
    decreases bytes.len(),
{
    match first_msg(bytes) {
        None => (peer, Seq::empty(), bytes),
        Some((m, n)) => if 0 < n <= bytes.len() {
            match m {
                MsgView::Hello { index } => heard(Some(index as usize), bytes.skip(n)),
                _ => {
                    let (p, more, rest) = heard(peer, bytes.skip(n));
                    let src = match peer {
                        Some(i) => i,
                        None => usize::MAX,
                    };
                    (p, seq![(src, m)] + more, rest)
                },
            }
        } else {
            (peer, Seq::empty(), bytes)
        },
    }
}

impl Conn {
    pub fn new(tls: ConnTls) -> (c: Conn)
        ensures
            c@ == fresh(tls),
    {
        let c = Conn {
            peer: None,
            acc: Vec::new(),
            out: Vec::new(),
            sendbuf: Vec::new(),
            inflight: 0,
            open: true,
            tls,
            app_out: Vec::new(),
            hs_done: false,
        };
        assert(c@.acc =~= Seq::empty() && c@.out =~= Seq::empty() && c@.sendbuf =~= Seq::empty()
            && c@.app_out =~= Seq::empty());
        c
    }

    /// Queues bytes: sent directly in the clear or when the kernel encrypts, held back while the
    /// handshake is in progress.
    pub fn queue_app(&mut self, bytes: &[u8])
        ensures
            final(self)@ == old(self)@.queue(bytes@),
    {
        match self.tls {
            ConnTls::Plain => put_slice(&mut self.out, bytes),
            ConnTls::Ktls => put_slice(&mut self.out, bytes),
            _ => put_slice(&mut self.app_out, bytes),
        }
    }

    /// Starts a send if one can start, and says so: the driver then sends `sendbuf`.
    pub fn arm_send(&mut self) -> (send: bool)
        ensures
            send == old(self)@.can_send(),
            final(self)@ == old(self)@.armed(),
    {
        if self.inflight > 0 {
            return false;
        }
        if self.sendbuf.len() == 0 {
            if self.out.len() == 0 {
                return false;
            }
            std::mem::swap(&mut self.sendbuf, &mut self.out);
            assert(self.out@ =~= Seq::empty());
        }
        self.inflight = self.sendbuf.len();
        true
    }

    /// A send completed, with how many bytes went out, or an error below zero.
    pub fn on_send(&mut self, res: i32)
        requires
            res <= old(self).sendbuf@.len(),
        ensures
            final(self)@ == old(self)@.sent(res),
    {
        if res < 0 {
            self.open = false;
            return ;
        }
        let rest = copy_range(self.sendbuf.as_slice(), res as usize, self.sendbuf.len());
        assert(rest@ =~= self.sendbuf@.skip(res as int));
        self.sendbuf = rest;
        self.inflight = 0;
    }

    /// Whether the kernel is to take over encryption now: the handshake is done, and its last
    /// bytes are out. The driver then tells how it went.
    pub fn install_due(&self) -> (b: bool)
        ensures
            b == self@.install_due(),
    {
        self.hs_done && self.sendbuf.len() == 0 && self.out.len() == 0 && self.inflight == 0
            && self.tls == ConnTls::Handshaking
    }

    /// The kernel was to take over encryption.
    pub fn installed(&mut self, ok: bool)
        ensures
            final(self)@ == old(self)@.installed(ok),
    {
        if ok {
            self.tls = ConnTls::Ktls;
            let mut held: Vec<u8> = Vec::new();
            std::mem::swap(&mut held, &mut self.app_out);
            put_slice(&mut self.out, held.as_slice());
            assert(self.app_out@ =~= Seq::empty());
        } else {
            self.tls = ConnTls::Plain;
            self.open = false;
        }
    }

    /// Bytes arrived: keeps them if they are plain, and says what else to do.
    pub fn ingest(&mut self, bytes: &[u8]) -> (r: Ingest)
        ensures
            r == old(self)@.ingest_kind(bytes@),
            final(self)@ == old(self)@.ingested(bytes@),
    {
        match self.tls {
            ConnTls::Handshaking => Ingest::Pump,
            ConnTls::Detect => {
                if bytes.len() > 0 && bytes[0] == 0x16 {
                    Ingest::StartHandshake
                } else {
                    self.tls = ConnTls::Plain;
                    put_slice(&mut self.acc, bytes);
                    Ingest::Plain
                }
            },
            _ => {
                put_slice(&mut self.acc, bytes);
                Ingest::Plain
            },
        }
    }

    /// A handshake was to be started; without one the connection closes.
    pub fn handshake_started(&mut self, ok: bool)
        ensures
            final(self)@ == if ok {
                ConnView { tls: ConnTls::Handshaking, ..old(self)@ }
            } else {
                ConnView { open: false, ..old(self)@ }
            },
    {
        if ok {
            self.tls = ConnTls::Handshaking;
        } else {
            self.open = false;
        }
    }

    /// The handshake took in received bytes: what it wants sent, what it decrypted, and whether it
    /// is done.
    pub fn pumped(&mut self, send: &[u8], plain: &[u8], ready: bool)
        ensures
            final(self)@ == old(self)@.pumped(send@, plain@, ready),
    {
        put_slice(&mut self.out, send);
        put_slice(&mut self.acc, plain);
        self.hs_done = self.hs_done || ready;
        self.tls = ConnTls::Handshaking;
    }

    /// The handshake failed.
    pub fn pump_failed(&mut self)
        ensures
            final(self)@ == (ConnView { tls: ConnTls::Plain, open: false, ..old(self)@ }),
    {
        self.tls = ConnTls::Plain;
        self.open = false;
    }

    /// The messages that have arrived whole, with who they are from.
    pub fn take_messages(&mut self) -> (out: Vec<(usize, Msg)>)
        ensures
            ({
                let (peer, msgs, rest) = heard(old(self)@.peer, old(self)@.acc);
                &&& views(out@) == msgs
                &&& final(self)@ == (ConnView { peer, acc: rest, ..old(self)@ })
            }),
    {
        let ghost start = self@;
        let ghost whole = heard(self.peer, self.acc@);
        let mut out: Vec<(usize, Msg)> = Vec::new();
        let mut at: usize = 0;
        let mut peer: Option<usize> = self.peer;
        proof {
            assert(self.acc@.skip(0) =~= self.acc@);
            assert(views(out@) =~= Seq::empty());
            assert(Seq::empty() + whole.1 =~= whole.1);
        }
        loop
            invariant_except_break
                views(out@) + heard(peer, self.acc@.skip(at as int)).1 == whole.1,
            invariant
                self@ == start,
                start == old(self)@,
                whole == heard(start.peer, start.acc),
                at <= self.acc@.len(),
                heard(peer, self.acc@.skip(at as int)).0 == whole.0,
                heard(peer, self.acc@.skip(at as int)).2 == whole.2,
            ensures
                views(out@) == whole.1,
                peer == whole.0,
                self.acc@.skip(at as int) == whole.2,
            decreases self.acc@.len() - at,
        {
            let ghost left = self.acc@.skip(at as int);
            proof {
                law_more_bytes_change_no_message(left, Seq::empty());
            }
            let window = vstd::slice::slice_subrange(self.acc.as_slice(), at, self.acc.len());
            assert(window@ =~= left);
            match decode(window) {
                None => {
                    assert(views(out@) + Seq::empty() =~= views(out@));
                    break;
                },
                Some((m, n)) => {
                    assert(left.skip(n as int) =~= self.acc@.skip(at + n));
                    let ghost so_far = views(out@);
                    at = at + n;
                    match m {
                        Msg::Hello { index } => {
                            peer = Some(index as usize);
                        },
                        other => {
                            let src: usize = match peer {
                                Some(i) => i,
                                None => usize::MAX,
                            };
                            let ghost x = (src, other@);
                            out.push((src, other));
                            proof {
                                assert(views(out@) =~= so_far.push(x));
                                let more = heard(peer, self.acc@.skip(at as int)).1;
                                assert(so_far + (seq![x] + more) =~= views(out@) + more);
                            }
                        },
                    }
                },
            }
        }
        self.peer = peer;
        self.acc = copy_range(self.acc.as_slice(), at, self.acc.len());
        assert(self.acc@ =~= whole.2);
        out
    }
}

/// What is heard does not depend on how the bytes arrive: decoding a first part, then the rest
/// with what follows, hears the same as decoding all at once.
pub proof fn law_messages_do_not_depend_on_chunks(peer: Option<usize>, a: Seq<u8>, b: Seq<u8>)
    ensures
        ({
            let (p, first, rest) = heard(peer, a);
            let (q, second, left) = heard(p, rest + b);
            heard(peer, a + b) == (q, first + second, left)
        }),
    decreases a.len(),
{
    law_more_bytes_change_no_message(a, b);
    match first_msg(a) {
        None => {
            let (q, second, left) = heard(peer, a + b);
            assert(Seq::<(usize, MsgView)>::empty() + second =~= second);
        },
        Some((m, n)) => {
            assert((a + b).skip(n) =~= a.skip(n) + b);
            match m {
                MsgView::Hello { index } => {
                    law_messages_do_not_depend_on_chunks(Some(index as usize), a.skip(n), b);
                },
                _ => {
                    law_messages_do_not_depend_on_chunks(peer, a.skip(n), b);
                    let src = match peer {
                        Some(i) => i,
                        None => usize::MAX,
                    };
                    let (p, more, rest) = heard(peer, a.skip(n));
                    let (q, second, left) = heard(p, rest + b);
                    assert((seq![(src, m)] + more) + second =~= seq![(src, m)] + (more + second));
                },
            }
        },
    }
}

/// Bytes leave in the order in which they were queued, none twice and none lost: queuing appends
/// to what is unsent, starting a send changes nothing of it, and a completed send takes off its
/// front.
pub proof fn law_bytes_leave_in_order(c: ConnView, bytes: Seq<u8>, res: i32)
    requires
        0 <= res <= c.sendbuf.len(),
    ensures
        c.tls == ConnTls::Plain || c.tls == ConnTls::Ktls ==> c.queue(bytes).unsent() == c.unsent()
            + bytes,
        c.armed().unsent() == c.unsent(),
        c.sent(res).unsent() == c.unsent().skip(res as int),
        c.installed(true).unsent() == c.unsent() + c.app_out,
{
    assert(c.queue(bytes).unsent() =~= c.unsent() + bytes || c.tls == ConnTls::Detect || c.tls
        == ConnTls::Handshaking);
    assert(c.armed().unsent() =~= c.unsent());
    assert(c.sent(res).unsent() =~= c.unsent().skip(res as int));
    assert(c.installed(true).unsent() =~= c.unsent() + c.app_out);
}

/// What is held back during a handshake keeps its order and is not sent before the kernel
/// encrypts.
pub proof fn law_nothing_is_sent_before_the_handshake(c: ConnView, bytes: Seq<u8>)
    requires
        c.tls == ConnTls::Handshaking,
    ensures
        c.queue(bytes).unsent() == c.unsent(),
        c.queue(bytes).app_out == c.app_out + bytes,
        c.installed(true).app_out == Seq::<u8>::empty(),
{
}

/// What is in flight stays as it is: neither queuing nor another attempt to send touches it.
pub proof fn law_sends_in_flight_are_not_disturbed(c: ConnView, bytes: Seq<u8>)
    requires
        c.inflight > 0,
    ensures
        c.queue(bytes).sendbuf == c.sendbuf,
        c.queue(bytes).inflight == c.inflight,
        c.armed() == c,
{
}

// ---- the mesh ----

/// The connections of a member.
pub struct Mesh {
    pub self_index: usize,
    pub conns: Vec<Option<Conn>>,
    /// The slots that are free.
    pub free: Vec<usize>,
    /// The slot of the connection dialed to a peer.
    pub outbound: Table<usize, usize>,
}

/// What a [`Mesh`] holds.
pub struct MeshView {
    pub self_index: usize,
    pub conns: Seq<Option<ConnView>>,
    pub free: Seq<usize>,
    pub outbound: Map<usize, usize>,
}

impl View for Mesh {
    type V = MeshView;

    open spec fn view(&self) -> MeshView {
        MeshView {
            self_index: self.self_index,
            conns: opt_views(self.conns@),
            free: self.free@,
            outbound: self.outbound@,
        }
    }
}

impl MeshView {
    /// Whether a slot has a connection.
    pub open spec fn taken(self, slot: usize) -> bool {
        slot < self.conns.len() && self.conns[slot as int] is Some
    }

    /// The free slots are those without a connection, each once.
    pub open spec fn wf(self) -> bool {
        &&& forall|i: int|
            0 <= i < self.free.len() ==> (#[trigger] self.free[i]) < self.conns.len()
                && !self.taken(self.free[i])
        &&& self.free.no_duplicates()
        &&& forall|s: usize|
            s < self.conns.len() && !#[trigger] self.taken(s) ==> self.free.contains(s)
    }

    /// The slot that a new connection gets: the one freed last, else one more.
    pub open spec fn next_slot(self) -> usize {
        if self.free.len() > 0 {
            self.free.last()
        } else {
            self.conns.len() as usize
        }
    }

    /// A new connection in its slot.
    pub open spec fn with_conn(self, c: ConnView) -> MeshView {
        if self.free.len() > 0 {
            MeshView {
                conns: self.conns.update(self.free.last() as int, Some(c)),
                free: self.free.drop_last(),
                ..self
            }
        } else {
            MeshView { conns: self.conns.push(Some(c)), ..self }
        }
    }

    /// Whether there is an open connection dialed to a peer.
    pub open spec fn reaches(self, dest: usize) -> bool {
        self.outbound.contains_key(dest) && self.taken(self.outbound[dest])
            && self.conns[self.outbound[dest] as int]->0.open
    }

    /// A dialed connection: it knows its peer, sends what the handshake starts with, and says who
    /// is speaking.
    pub open spec fn dialed_conn(self, dest: usize, tls: ConnTls, start: Seq<u8>) -> ConnView {
        let c = ConnView { peer: Some(dest), ..fresh(tls) };
        let d = if tls == ConnTls::Handshaking {
            ConnView { out: c.out + start, ..c }
        } else {
            c
        };
        d.queue(frame(MsgView::Hello { index: self.self_index as u32 }))
    }

    /// A closed connection gone: its slot is free, and it is no longer the way to its peer.
    pub open spec fn without(self, slot: usize) -> MeshView {
        let peer = self.conns[slot as int]->0.peer;
        MeshView {
            conns: self.conns.update(slot as int, None),
            free: self.free.push(slot),
            outbound: match peer {
                Some(p) => if self.outbound.contains_key(p) && self.outbound[p] == slot {
                    self.outbound.remove(p)
                } else {
                    self.outbound
                },
                None => self.outbound,
            },
            ..self
        }
    }
}

proof fn lemma_with_conn(m: MeshView, c: ConnView)
    requires
        m.wf(),
    ensures
        m.with_conn(c).wf(),
        !m.taken(m.next_slot()) || m.free.len() == 0,
{
    let now = m.with_conn(c);
    if m.free.len() > 0 {
        let last = m.free.len() - 1;
        let s = m.free[last];
        assert(!m.taken(s));
        assert forall|i: int| 0 <= i < now.free.len() implies (#[trigger] now.free[i])
            < now.conns.len() && !now.taken(now.free[i]) by {
            assert(now.free[i] == m.free[i]);
            assert(m.free[i] != m.free[last]);
        }
        assert forall|t: usize| t < now.conns.len() && !#[trigger] now.taken(t) implies
            now.free.contains(t) by {
            assert(t != s);
            assert(!m.taken(t));
            let i = choose|i: int| 0 <= i < m.free.len() && m.free[i] == t;
            assert(now.free[i] == t);
        }
    } else {
        assert forall|t: usize| t < now.conns.len() && !#[trigger] now.taken(t) implies
            now.free.contains(t) by {
            assert(!m.taken(t));
        }
    }
}

proof fn lemma_without(m: MeshView, slot: usize)
    requires
        m.wf(),
        m.taken(slot),
    ensures
        m.without(slot).wf(),
{
    let now = m.without(slot);
    assert forall|i: int| 0 <= i < now.free.len() implies (#[trigger] now.free[i])
        < now.conns.len() && !now.taken(now.free[i]) by {
        if i < m.free.len() {
            assert(now.free[i] == m.free[i]);
        }
    }
    assert forall|i: int, j: int| 0 <= i < j < now.free.len() implies now.free[i] != now.free[j] by {
        assert(now.free[i] == m.free[i]);
        assert(!m.taken(m.free[i]));
    }
    assert forall|t: usize| t < now.conns.len() && !#[trigger] now.taken(t) implies
        now.free.contains(t) by {
        if t == slot {
            assert(now.free[m.free.len() as int] == slot);
        } else {
            assert(!m.taken(t));
            let i = choose|i: int| 0 <= i < m.free.len() && m.free[i] == t;
            assert(now.free[i] == t);
        }
    }
}

impl Mesh {
    pub fn new(self_index: usize) -> (m: Mesh)
        ensures
            m@ == (MeshView {
                self_index,
                conns: Seq::empty(),
                free: Seq::empty(),
                outbound: Map::empty(),
            }),
            m@.wf(),
    {
        let m = Mesh { self_index, conns: Vec::new(), free: Vec::new(), outbound: Table::new() };
        assert(m@.conns =~= Seq::empty());
        assert(m@.free =~= Seq::empty());
        m
    }

    fn place(&mut self, c: Conn) -> (slot: usize)
        requires
            old(self)@.wf(),
        ensures
            slot == old(self)@.next_slot(),
            final(self)@ == old(self)@.with_conn(c@),
            final(self)@.wf(),
            final(self)@.taken(slot),
    {
        let ghost before = self@;
        proof {
            lemma_with_conn(before, c@);
        }
        match self.free.pop() {
            Some(i) => {
                proof {
                    let last = before.free.len() - 1;
                    assert(before.free[last] == i);
                }
                self.conns.set(i, Some(c));
                assert(self@.conns =~= before.conns.update(i as int, Some(c@)));
                i
            },
            None => {
                let slot: usize = self.conns.len();
                self.conns.push(Some(c));
                assert(self@.conns =~= before.conns.push(Some(c@)));
                slot
            },
        }
    }

    /// Puts an accepted connection into a slot.
    fn accepted(&mut self, tls: ConnTls) -> (slot: usize)
        requires
            old(self)@.wf(),
        ensures
            slot == old(self)@.next_slot(),
            final(self)@ == old(self)@.with_conn(fresh(tls)),
            final(self)@.wf(),
            final(self)@.taken(slot),
    {
        self.place(Conn::new(tls))
    }

    /// The slot of the open connection dialed to a peer; none if it has to be dialed.
    fn route(&mut self, dest: usize) -> (r: Option<usize>)
        ensures
            match r {
                Some(slot) => old(self)@.reaches(dest) && slot == old(self)@.outbound[dest] && final(
                    self)@ == old(self)@,
                None => !old(self)@.reaches(dest) && final(self)@ == (MeshView {
                    outbound: old(self)@.outbound.remove(dest),
                    ..old(self)@
                }),
            },
    {
        let found: Option<usize> = match self.outbound.get(&dest) {
            Some(s) => Some(*s),
            None => None,
        };
        if let Some(slot) = found {
            if slot < self.conns.len() {
                assert(self@.conns[slot as int] == opt_view(self.conns@[slot as int]));
                let open: bool = match &self.conns[slot] {
                    Some(c) => c.open,
                    None => false,
                };
                if open {
                    return Some(slot);
                }
            }
        }
        self.outbound.remove(&dest);
        None
    }

    /// A connection is closed: frees its slot.
    fn release(&mut self, slot: usize)
        requires
            old(self)@.wf(),
            old(self)@.taken(slot),
        ensures
            final(self)@ == old(self)@.without(slot),
            final(self)@.wf(),
    {
        let ghost before = self@;
        proof {
            lemma_without(before, slot);
        }
        assert(before.conns[slot as int] == opt_view(self.conns@[slot as int]));
        let peer: Option<usize> = match &self.conns[slot] {
            Some(c) => c.peer,
            None => None,
        };
        self.conns.set(slot, None);
        assert(self@.conns =~= before.conns.update(slot as int, None));
        if let Some(p) = peer {
            let is_ours: bool = match self.outbound.get(&p) {
                Some(s) => *s == slot,
                None => false,
            };
            if is_ours {
                self.outbound.remove(&p);
            }
        }
        self.free.push(slot);
    }
}

/// A slot that was freed is the next to be used, and no other connection is touched by that.
pub proof fn law_freed_slots_are_used_again(m: MeshView, slot: usize, c: ConnView, other: usize)
    requires
        m.wf(),
        m.taken(slot),
        other != slot,
        m.taken(other),
    ensures
        m.without(slot).next_slot() == slot,
        m.without(slot).with_conn(c).conns == m.conns.update(slot as int, Some(c)),
        m.without(slot).with_conn(c).conns[other as int] == m.conns[other as int],
{
    assert(m.without(slot).with_conn(c).conns =~= m.conns.update(slot as int, Some(c)));
}

/// A new connection never takes the place of another.
pub proof fn law_new_connections_take_free_slots(m: MeshView, c: ConnView, slot: usize)
    requires
        m.wf(),
        m.taken(slot),
        m.conns.len() < usize::MAX,
    ensures
        m.next_slot() != slot,
        m.with_conn(c).conns[slot as int] == m.conns[slot as int],
{
    if m.free.len() > 0 {
        assert(!m.taken(m.free[m.free.len() - 1]));
    }
}

// ---- events and actions ----

/// Something that happened.
pub enum Event {
    /// A peer connected.
    Accepted { tls: ConnTls },
    /// Bytes arrived.
    Received { slot: usize, bytes: Vec<u8> },
    /// Receiving ended or failed.
    Ended { slot: usize },
    /// A send completed, with how many bytes went out, or an error below zero.
    Sent { slot: usize, res: i32 },
    /// A handshake was to be started.
    Started { slot: usize, ok: bool },
    /// The handshake took in the received bytes: what it wants sent, what it decrypted, and
    /// whether it is done.
    Pumped { slot: usize, send: Vec<u8>, plain: Vec<u8>, ready: bool },
    /// The handshake failed.
    PumpFailed { slot: usize },
    /// The kernel was to take over encryption. `resume` is what the action said.
    Installed { slot: usize, ok: bool, resume: bool },
    /// A message is to go to a member.
    Outgoing { dest: usize, msg: Msg },
    /// A member was dialed, for a message to it. `start` is what a handshake starts with.
    Dialed { dest: usize, tls: ConnTls, start: Vec<u8>, msg: Msg },
}

/// What an [`Event`] holds.
pub enum EventView {
    Accepted { tls: ConnTls },
    Received { slot: usize, bytes: Seq<u8> },
    Ended { slot: usize },
    Sent { slot: usize, res: i32 },
    Started { slot: usize, ok: bool },
    Pumped { slot: usize, send: Seq<u8>, plain: Seq<u8>, ready: bool },
    PumpFailed { slot: usize },
    Installed { slot: usize, ok: bool, resume: bool },
    Outgoing { dest: usize, msg: MsgView },
    Dialed { dest: usize, tls: ConnTls, start: Seq<u8>, msg: MsgView },
}

impl View for Event {
    type V = EventView;

    open spec fn view(&self) -> EventView {
        match self {
            Event::Accepted { tls } => EventView::Accepted { tls: *tls },
            Event::Received { slot, bytes } => EventView::Received { slot: *slot, bytes: bytes@ },
            Event::Ended { slot } => EventView::Ended { slot: *slot },
            Event::Sent { slot, res } => EventView::Sent { slot: *slot, res: *res },
            Event::Started { slot, ok } => EventView::Started { slot: *slot, ok: *ok },
            Event::Pumped { slot, send, plain, ready } => EventView::Pumped {
                slot: *slot,
                send: send@,
                plain: plain@,
                ready: *ready,
            },
            Event::PumpFailed { slot } => EventView::PumpFailed { slot: *slot },
            Event::Installed { slot, ok, resume } => EventView::Installed {
                slot: *slot,
                ok: *ok,
                resume: *resume,
            },
            Event::Outgoing { dest, msg } => EventView::Outgoing { dest: *dest, msg: msg@ },
            Event::Dialed { dest, tls, start, msg } => EventView::Dialed {
                dest: *dest,
                tls: *tls,
                start: start@,
                msg: msg@,
            },
        }
    }
}

/// Something to do.
#[derive(Debug, PartialEq, Eq)]
pub enum Action {
    /// Receive on a connection.
    Recv(usize),
    /// Send what stands in a connection's send buffer.
    Send(usize),
    /// Close the socket of a slot; the slot is free.
    Close(usize),
    /// Start a handshake, and say whether it started.
    StartHandshake(usize),
    /// Put the received bytes through the handshake.
    Pump(usize),
    /// Let the kernel encrypt; whether receiving has to go on after that.
    Install(usize, bool),
    /// Hand a message to the handler, with who it is from.
    Handle(usize, Msg),
    /// Dial a member, for a message to it.
    Dial(usize, Msg),
}

/// What an [`Action`] holds.
pub enum ActionView {
    Recv(usize),
    Send(usize),
    Close(usize),
    StartHandshake(usize),
    Pump(usize),
    Install(usize, bool),
    Handle(usize, MsgView),
    Dial(usize, MsgView),
}

impl View for Action {
    type V = ActionView;

    open spec fn view(&self) -> ActionView {
        match self {
            Action::Recv(s) => ActionView::Recv(*s),
            Action::Send(s) => ActionView::Send(*s),
            Action::Close(s) => ActionView::Close(*s),
            Action::StartHandshake(s) => ActionView::StartHandshake(*s),
            Action::Pump(s) => ActionView::Pump(*s),
            Action::Install(s, r) => ActionView::Install(*s, *r),
            Action::Handle(i, m) => ActionView::Handle(*i, m@),
            Action::Dial(i, m) => ActionView::Dial(*i, m@),
        }
    }
}

/// Messages to hand to the handler.
pub open spec fn handled(msgs: Seq<(usize, MsgView)>) -> Seq<ActionView> {
    Seq::new(msgs.len(), |i: int| ActionView::Handle(msgs[i].0, msgs[i].1))
}

/// A send if one can start.
pub open spec fn sending(c: ConnView, slot: usize) -> Seq<ActionView> {
    if c.can_send() {
        seq![ActionView::Send(slot)]
    } else {
        Seq::empty()
    }
}

impl ConnView {
    /// The messages that have arrived whole go to the handler, and receiving goes on.
    pub open spec fn decoded(self, slot: usize) -> (ConnView, Seq<ActionView>) {
        let (peer, msgs, rest) = heard(self.peer, self.acc);
        (ConnView { peer, acc: rest, ..self }, handled(msgs).push(ActionView::Recv(slot)))
    }

    /// Sending goes on; receiving too if it is to resume.
    pub open spec fn settled(self, slot: usize, resume: bool) -> (ConnView, Seq<ActionView>) {
        if resume {
            let (c, actions) = self.armed().decoded(slot);
            (c, sending(self, slot) + actions)
        } else {
            (self.armed(), sending(self, slot))
        }
    }

    /// Sending goes on once the kernel encrypts, if it is to.
    pub open spec fn advanced(self, slot: usize, resume: bool) -> (ConnView, Seq<ActionView>) {
        if self.install_due() {
            (self, seq![ActionView::Install(slot, resume)])
        } else {
            self.settled(slot, resume)
        }
    }

    /// What an event on a connection makes of it, and what is to be done. An event that is not
    /// one of a connection changes nothing.
    pub open spec fn on(self, slot: usize, e: EventView) -> (ConnView, Seq<ActionView>) {
        match e {
            EventView::Received { slot: _, bytes } => match self.ingest_kind(bytes) {
                Ingest::Plain => self.ingested(bytes).decoded(slot),
                Ingest::StartHandshake => (self, seq![ActionView::StartHandshake(slot)]),
                Ingest::Pump => (self, seq![ActionView::Pump(slot)]),
            },
            EventView::Ended { slot: _ } => (ConnView { open: false, ..self }, Seq::empty()),
            EventView::Sent { slot: _, res } => if res < 0 {
                (self.sent(res), Seq::empty())
            } else {
                self.sent(res).advanced(slot, false)
            },
            EventView::Started { slot: _, ok } => if ok {
                (
                    ConnView { tls: ConnTls::Handshaking, ..self },
                    seq![ActionView::Pump(slot)],
                )
            } else {
                (ConnView { open: false, ..self }, Seq::empty())
            },
            EventView::Pumped { slot: _, send, plain, ready } => self.pumped(
                send,
                plain,
                ready,
            ).advanced(slot, true),
            EventView::PumpFailed { slot: _ } => (
                ConnView { tls: ConnTls::Plain, open: false, ..self },
                Seq::empty(),
            ),
            EventView::Installed { slot: _, ok, resume } => if ok {
                self.installed(true).settled(slot, resume)
            } else {
                (self.installed(false), Seq::empty())
            },
            _ => (self, Seq::empty()),
        }
    }
}

/// The slot that an event is about.
pub open spec fn slot_of(e: EventView) -> Option<usize> {
    match e {
        EventView::Received { slot, bytes } => Some(slot),
        EventView::Ended { slot } => Some(slot),
        EventView::Sent { slot, res } => Some(slot),
        EventView::Started { slot, ok } => Some(slot),
        EventView::Pumped { slot, send, plain, ready } => Some(slot),
        EventView::PumpFailed { slot } => Some(slot),
        EventView::Installed { slot, ok, resume } => Some(slot),
        _ => None,
    }
}

impl MeshView {
    /// A connection replaced.
    pub open spec fn set(self, slot: usize, c: ConnView) -> MeshView {
        MeshView { conns: self.conns.update(slot as int, Some(c)), ..self }
    }

    /// What a connection becomes, and what is to be done; a connection that is no longer open
    /// goes, and its socket is closed.
    pub open spec fn settle(self, slot: usize, r: (ConnView, Seq<ActionView>)) -> (
        MeshView,
        Seq<ActionView>,
    ) {
        let m = self.set(slot, r.0);
        if r.0.open {
            (m, r.1)
        } else {
            (m.without(slot), r.1.push(ActionView::Close(slot)))
        }
    }

    /// What an event makes of the mesh, and what is to be done. An event about a slot without a
    /// connection changes nothing.
    pub open spec fn on(self, e: EventView) -> (MeshView, Seq<ActionView>) {
        match e {
            EventView::Accepted { tls } => (
                self.with_conn(fresh(tls)),
                seq![ActionView::Recv(self.next_slot())],
            ),
            EventView::Outgoing { dest, msg } => if self.reaches(dest) {
                let slot = self.outbound[dest];
                let c = (self.conns[slot as int]->0).queue(frame(msg));
                (self.set(slot, c.armed()), sending(c, slot))
            } else {
                (
                    MeshView { outbound: self.outbound.remove(dest), ..self },
                    seq![ActionView::Dial(dest, msg)],
                )
            },
            EventView::Dialed { dest, tls, start, msg } => {
                let slot = self.next_slot();
                let c = self.dialed_conn(dest, tls, start);
                let d = c.armed().queue(frame(msg));
                let m = self.with_conn(d.armed());
                (
                    MeshView { outbound: m.outbound.insert(dest, slot), ..m },
                    seq![ActionView::Recv(slot)] + sending(c, slot) + sending(d, slot),
                )
            },
            _ => {
                let slot = slot_of(e)->0;
                if self.taken(slot) {
                    self.settle(slot, (self.conns[slot as int]->0).on(slot, e))
                } else {
                    (self, Seq::empty())
                }
            },
        }
    }
}

fn push_send(c: &mut Conn, slot: usize, out: &mut Vec<Action>)
    ensures
        final(c)@ == old(c)@.armed(),
        views(final(out)@) == views(old(out)@) + sending(old(c)@, slot),
{
    let ghost before = views(out@);
    if c.arm_send() {
        out.push(Action::Send(slot));
        assert(views(out@) =~= before + seq![ActionView::Send(slot)]);
    } else {
        assert(views(out@) =~= before + Seq::empty());
    }
}

fn push_messages(c: &mut Conn, slot: usize, out: &mut Vec<Action>)
    ensures
        final(c)@ == old(c)@.decoded(slot).0,
        views(final(out)@) == views(old(out)@) + old(c)@.decoded(slot).1,
{
    let ghost before = views(out@);
    let mut msgs = c.take_messages();
    let ghost all = views(msgs@);
    let ghost mut k: int = 0;
    assert(all.skip(0) =~= all);
    while msgs.len() > 0
        invariant
            0 <= k <= all.len(),
            views(msgs@) == all.skip(k),
            views(out@) =~= before + handled(all).take(k),
        decreases msgs@.len(),
    {
        let ghost so_far = views(out@);
        let ghost was = msgs@;
        assert(views(was)[0] == was[0]@);
        assert(views(was).len() == all.len() - k);
        assert(all.skip(k)[0] == all[k]);
        let (src, m) = msgs.remove(0);
        assert((src, m@) == was[0]@);
        let ghost x = ActionView::Handle(src, m@);
        assert(x == handled(all)[k]);
        out.push(Action::Handle(src, m));
        proof {
            assert(views(out@) =~= so_far.push(x));
            assert(views(msgs@) =~= views(was).skip(1));
            assert(all.skip(k).skip(1) =~= all.skip(k + 1));
            k = k + 1;
        }
    }
    assert(views(msgs@).len() == 0);
    assert(handled(all).take(k) =~= handled(all));
    let ghost so_far = views(out@);
    out.push(Action::Recv(slot));
    assert(views(out@) =~= so_far.push(ActionView::Recv(slot)));
    assert(views(out@) =~= before + handled(all).push(ActionView::Recv(slot)));
}

fn settle_conn(c: &mut Conn, slot: usize, resume: bool, out: &mut Vec<Action>)
    ensures
        final(c)@ == old(c)@.settled(slot, resume).0,
        views(final(out)@) == views(old(out)@) + old(c)@.settled(slot, resume).1,
{
    let ghost before = views(out@);
    push_send(c, slot, out);
    if resume {
        push_messages(c, slot, out);
        assert(views(out@) =~= before + old(c)@.settled(slot, resume).1);
    }
}

fn advance_conn(c: &mut Conn, slot: usize, resume: bool, out: &mut Vec<Action>)
    ensures
        final(c)@ == old(c)@.advanced(slot, resume).0,
        views(final(out)@) == views(old(out)@) + old(c)@.advanced(slot, resume).1,
{
    let ghost before = views(out@);
    if c.install_due() {
        out.push(Action::Install(slot, resume));
        assert(views(out@) =~= before + seq![ActionView::Install(slot, resume)]);
    } else {
        settle_conn(c, slot, resume, out);
    }
}

impl Conn {
    /// Takes an event on this connection in, and says what is to be done.
    pub fn react(&mut self, slot: usize, e: &Event, out: &mut Vec<Action>)
        requires
            e@ matches EventView::Sent { slot: _, res } ==> res <= old(self).sendbuf@.len(),
        ensures
            final(self)@ == old(self)@.on(slot, e@).0,
            views(final(out)@) == views(old(out)@) + old(self)@.on(slot, e@).1,
    {
        let ghost before = views(out@);
        assert(before + Seq::empty() =~= before);
        match e {
            Event::Received { bytes, .. } => match self.ingest(bytes.as_slice()) {
                Ingest::Plain => push_messages(self, slot, out),
                Ingest::StartHandshake => {
                    out.push(Action::StartHandshake(slot));
                    assert(views(out@) =~= before + seq![ActionView::StartHandshake(slot)]);
                },
                Ingest::Pump => {
                    out.push(Action::Pump(slot));
                    assert(views(out@) =~= before + seq![ActionView::Pump(slot)]);
                },
            },
            Event::Ended { .. } => {
                self.open = false;
            },
            Event::Sent { res, .. } => {
                self.on_send(*res);
                if *res >= 0 {
                    advance_conn(self, slot, false, out);
                }
            },
            Event::Started { ok, .. } => {
                self.handshake_started(*ok);
                if *ok {
                    out.push(Action::Pump(slot));
                    assert(views(out@) =~= before + seq![ActionView::Pump(slot)]);
                }
            },
            Event::Pumped { send, plain, ready, .. } => {
                self.pumped(send.as_slice(), plain.as_slice(), *ready);
                advance_conn(self, slot, true, out);
            },
            Event::PumpFailed { .. } => self.pump_failed(),
            Event::Installed { ok, resume, .. } => {
                self.installed(*ok);
                if *ok {
                    settle_conn(self, slot, *resume, out);
                }
            },
            _ => {},
        }
    }
}

fn slot_of_event(e: &Event) -> (r: Option<usize>)
    ensures
        r == slot_of(e@),
{
    match e {
        Event::Received { slot, .. } => Some(*slot),
        Event::Ended { slot } => Some(*slot),
        Event::Sent { slot, .. } => Some(*slot),
        Event::Started { slot, .. } => Some(*slot),
        Event::Pumped { slot, .. } => Some(*slot),
        Event::PumpFailed { slot } => Some(*slot),
        Event::Installed { slot, .. } => Some(*slot),
        _ => None,
    }
}

proof fn lemma_set_keeps_wf(m: MeshView, slot: usize, c: ConnView)
    requires
        m.wf(),
        m.taken(slot),
    ensures
        m.set(slot, c).wf(),
        m.set(slot, c).taken(slot),
{
    let now = m.set(slot, c);
    assert forall|s: usize| #[trigger] now.taken(s) == m.taken(s) by {}
    assert forall|i: int| 0 <= i < now.free.len() implies (#[trigger] now.free[i])
        < now.conns.len() && !now.taken(now.free[i]) by {
        assert(m.free[i] == now.free[i]);
    }
}

impl Mesh {
    /// Takes an event in, and says what is to be done.
    pub fn react(&mut self, e: Event) -> (out: Vec<Action>)
        requires
            old(self)@.wf(),
            e@ matches EventView::Sent { slot, res } ==> (old(self)@.taken(slot) ==> res
                <= (old(self)@.conns[slot as int]->0).sendbuf.len()),
        ensures
            final(self)@ == old(self)@.on(e@).0,
            views(out@) == old(self)@.on(e@).1,
            final(self)@.wf(),
    {
        let ghost before = self@;
        let mut out: Vec<Action> = Vec::new();
        assert(views(out@) =~= Seq::empty());
        match e {
            Event::Accepted { tls } => {
                let slot = self.accepted(tls);
                out.push(Action::Recv(slot));
                assert(views(out@) =~= seq![ActionView::Recv(slot)]);
            },
            Event::Outgoing { dest, msg } => match self.route(dest) {
                Some(slot) => self.send_now(slot, &msg, &mut out),
                None => {
                    let ghost m = msg@;
                    out.push(Action::Dial(dest, msg));
                    assert(views(out@) =~= seq![ActionView::Dial(dest, m)]);
                    assert forall|s: usize| s < self@.conns.len()
                        && !#[trigger] self@.taken(s) implies self@.free.contains(s) by {
                        assert(!before.taken(s));
                    }
                },
            },
            Event::Dialed { dest, tls, start, msg } => {
                let mut c = self.dialed_connection(dest, tls, start.as_slice());
                let ghost c0 = c@;
                let slot: usize = if self.free.len() > 0 {
                    self.free[self.free.len() - 1]
                } else {
                    self.conns.len()
                };
                out.push(Action::Recv(slot));
                assert(views(out@) =~= seq![ActionView::Recv(slot)]);
                push_send(&mut c, slot, &mut out);
                let bytes = encode(&msg);
                c.queue_app(bytes.as_slice());
                push_send(&mut c, slot, &mut out);
                self.place_dialed(dest, c);
            },
            other => {
                if let Some(slot) = slot_of_event(&other) {
                    self.react_at(slot, &other, &mut out);
                }
            },
        }
        out
    }

    fn send_now(&mut self, slot: usize, msg: &Msg, out: &mut Vec<Action>)
        requires
            old(self)@.wf(),
            old(self)@.taken(slot),
        ensures
            ({
                let c = (old(self)@.conns[slot as int]->0).queue(frame(msg@));
                &&& final(self)@ == old(self)@.set(slot, c.armed())
                &&& views(final(out)@) == views(old(out)@) + sending(c, slot)
            }),
            final(self)@.wf(),
    {
        let ghost before = self@;
        let bytes = encode(msg);
        let mut x: Option<Conn> = None;
        assert(before.conns[slot as int] == opt_view(self.conns@[slot as int]));
        std::mem::swap(&mut x, &mut self.conns[slot]);
        if let Some(mut c) = x {
            c.queue_app(bytes.as_slice());
            push_send(&mut c, slot, out);
            let ghost cv = c@;
            self.conns.set(slot, Some(c));
            assert(self@.conns =~= before.set(slot, cv).conns);
            proof {
                lemma_set_keeps_wf(before, slot, cv);
            }
        }
    }

    fn dialed_connection(&self, dest: usize, tls: ConnTls, start: &[u8]) -> (c: Conn)
        ensures
            c@ == self@.dialed_conn(dest, tls, start@),
    {
        let mut c = Conn::new(tls);
        c.peer = Some(dest);
        if tls == ConnTls::Handshaking {
            put_slice(&mut c.out, start);
        }
        let hello = encode(&Msg::Hello { index: self.self_index as u32 });
        c.queue_app(hello.as_slice());
        c
    }

    fn place_dialed(&mut self, dest: usize, c: Conn) -> (slot: usize)
        requires
            old(self)@.wf(),
        ensures
            slot == old(self)@.next_slot(),
            final(self)@.wf(),
            final(self)@.taken(slot),
            ({
                let m = old(self)@.with_conn(c@);
                final(self)@ == (MeshView { outbound: m.outbound.insert(dest, slot), ..m })
            }),
    {
        let slot = self.place(c);
        let ghost m = self@;
        self.outbound.insert(dest, slot);
        assert(self@.taken(slot) == m.taken(slot));
        assert forall|s: usize| s < m.conns.len() && !#[trigger] self@.taken(s) implies
            self@.free.contains(s) by {
            assert(!m.taken(s));
        }
        slot
    }

    fn react_at(&mut self, slot: usize, e: &Event, out: &mut Vec<Action>)
        requires
            old(self)@.wf(),
            slot_of(e@) == Some(slot),
            old(out)@.len() == 0,
            e@ matches EventView::Sent { slot, res } ==> (old(self)@.taken(slot) ==> res
                <= (old(self)@.conns[slot as int]->0).sendbuf.len()),
        ensures
            final(self)@ == old(self)@.on(e@).0,
            views(final(out)@) == old(self)@.on(e@).1,
            final(self)@.wf(),
    {
        let ghost before = self@;
        assert(views(out@) =~= Seq::empty());
        if slot >= self.conns.len() {
            return ;
        }
        assert(before.conns[slot as int] == opt_view(self.conns@[slot as int]));
        let mut x: Option<Conn> = None;
        std::mem::swap(&mut x, &mut self.conns[slot]);
        match x {
            None => {
                assert(self@.conns =~= before.conns);
            },
            Some(mut c) => {
                let ghost c0 = c@;
                c.react(slot, e, out);
                let open: bool = c.open;
                let ghost cv = c@;
                assert(views(out@) =~= c0.on(slot, e@).1);
                self.conns.set(slot, Some(c));
                assert(self@.conns =~= before.set(slot, cv).conns);
                proof {
                    lemma_set_keeps_wf(before, slot, cv);
                }
                if !open {
                    self.release(slot);
                    let ghost so_far = views(out@);
                    out.push(Action::Close(slot));
                    assert(views(out@) =~= so_far.push(ActionView::Close(slot)));
                }
            },
        }
    }
}

/// Nothing is done on a connection after it is closed: the last action of the event that closes
/// it closes its socket, and its slot is free.
pub proof fn law_closed_connections_are_gone(m: MeshView, e: EventView, slot: usize)
    requires
        m.wf(),
        slot_of(e) == Some(slot),
        m.taken(slot),
        !(m.conns[slot as int]->0).on(slot, e).0.open,
    ensures
        !m.on(e).0.taken(slot),
        m.on(e).1.len() > 0,
        m.on(e).1.last() == ActionView::Close(slot),
        m.on(e).0.next_slot() == slot,
{
}

/// An event on one connection does not touch another.
pub proof fn law_connections_do_not_mix(m: MeshView, e: EventView, other: usize)
    requires
        m.wf(),
        slot_of(e) is Some,
        slot_of(e) != Some(other),
        m.taken(other),
    ensures
        m.on(e).0.taken(other),
        m.on(e).0.conns[other as int] == m.conns[other as int],
{
}

/// Messages as they are written, one after the other.
pub open spec fn frames(msgs: Seq<MsgView>) -> Seq<u8>
    decreases msgs.len(),
{
    if msgs.len() == 0 {
        Seq::empty()
    } else {
        frame(msgs[0]) + frames(msgs.skip(1))
    }
}

/// A member that says who it is and then sends messages is heard as the one that it is: each message
/// once, in order, from it. What is not whole yet waits.
pub proof fn law_messages_are_heard_from_their_sender(
    index: u32,
    msgs: Seq<MsgView>,
    rest: Seq<u8>,
)
    requires
        forall|i: int|
            0 <= i < msgs.len() ==> super::wire::fits(#[trigger] msgs[i]) && !(msgs[i] is Hello),
        first_msg(rest) is None,
    ensures
        heard(None, frame(MsgView::Hello { index }) + (frames(msgs) + rest)) == (
            Some(index as usize),
            Seq::new(msgs.len(), |i: int| (index as usize, msgs[i])),
            rest,
        ),
{
    broadcast use crate::bytes::lemma_le_digits_len;

    let hello = MsgView::Hello { index };
    let later = frames(msgs) + rest;
    super::wire::law_messages_read_back(hello, later);
    let b = frame(hello) + later;
    assert(b.skip(frame(hello).len() as int) =~= later);
    lemma_heard(index as usize, msgs, rest);
}

proof fn lemma_heard(peer: usize, msgs: Seq<MsgView>, rest: Seq<u8>)
    requires
        forall|i: int|
            0 <= i < msgs.len() ==> super::wire::fits(#[trigger] msgs[i]) && !(msgs[i] is Hello),
        first_msg(rest) is None,
    ensures
        heard(Some(peer), frames(msgs) + rest) == (
            Some(peer),
            Seq::new(msgs.len(), |i: int| (peer, msgs[i])),
            rest,
        ),
    decreases msgs.len(),
{
    let b = frames(msgs) + rest;
    let want = Seq::new(msgs.len(), |i: int| (peer, msgs[i]));
    if msgs.len() == 0 {
        assert(b =~= rest);
        assert(want =~= Seq::empty());
    } else {
        let m = msgs[0];
        let more = msgs.skip(1);
        let later = frames(more) + rest;
        assert(super::wire::fits(msgs[0]));
        assert(b =~= frame(m) + later);
        super::wire::law_messages_read_back(m, later);
        assert(b.skip(frame(m).len() as int) =~= later);
        assert forall|i: int| 0 <= i < more.len() implies super::wire::fits(#[trigger] more[i])
            && !(more[i] is Hello) by {
            assert(more[i] == msgs[i + 1]);
        }
        lemma_heard(peer, more, rest);
        let then_heard = Seq::new(more.len(), |i: int| (peer, more[i]));
        assert(seq![(peer, m)] + then_heard =~= want);
    }
}

/// A message to a member that is reached is queued behind what waits on the connection to it, and a
/// send starts unless one is in flight; no other connection changes. A member that is not reached
/// is dialed for the message.
pub proof fn law_messages_go_to_their_member(m: MeshView, dest: usize, msg: MsgView, other: usize)
    ensures
        ({
            let (n, actions) = m.on(EventView::Outgoing { dest, msg });
            let slot = m.outbound[dest];
            let c = m.conns[slot as int]->0;
            let d = n.conns[slot as int]->0;
            if m.reaches(dest) {
                &&& n.taken(slot) && d.peer == c.peer && d.open
                &&& n.outbound == m.outbound
                &&& c.tls == ConnTls::Plain || c.tls == ConnTls::Ktls ==> d.unsent() == c.unsent()
                    + frame(msg)
                &&& c.tls == ConnTls::Detect || c.tls == ConnTls::Handshaking ==> d.unsent()
                    == c.unsent() && d.app_out == c.app_out + frame(msg)
                &&& c.inflight == 0 && d.unsent().len() > 0 ==> actions == seq![
                    ActionView::Send(slot),
                ]
                &&& c.inflight > 0 ==> actions.len() == 0 && d.sendbuf == c.sendbuf
                &&& other != slot && other < m.conns.len() ==> n.conns[other as int]
                    == m.conns[other as int]
            } else {
                &&& actions == seq![ActionView::Dial(dest, msg)]
                &&& n.conns == m.conns
                &&& !n.reaches(dest)
            }
        }),
{
    if m.reaches(dest) {
        let slot = m.outbound[dest];
        let c = m.conns[slot as int]->0;
        let q = c.queue(frame(msg));
        assert(q.armed().unsent() =~= q.unsent());
        if c.tls == ConnTls::Plain || c.tls == ConnTls::Ktls {
            assert(q.unsent() =~= c.unsent() + frame(msg));
        } else {
            assert(q.unsent() == c.unsent());
        }
        if c.inflight == 0 && q.unsent().len() > 0 {
            assert(q.sendbuf.len() > 0 || q.out.len() > 0);
            assert(q.can_send());
        }
    }
}

/// A dialed member is then reached. The connection knows who is at the other end, receives, and says
/// who is speaking before the message: in the clear at once, with a handshake behind what the
/// handshake starts with, and only once the kernel encrypts.
pub proof fn law_dialed_members_are_greeted_first(
    m: MeshView,
    dest: usize,
    tls: ConnTls,
    start: Seq<u8>,
    msg: MsgView,
)
    requires
        m.wf(),
        m.conns.len() < usize::MAX,
        tls == ConnTls::Plain || tls == ConnTls::Handshaking,
    ensures
        ({
            let (n, actions) = m.on(EventView::Dialed { dest, tls, start, msg });
            let slot = m.next_slot();
            let c = n.conns[slot as int]->0;
            let hello = frame(MsgView::Hello { index: m.self_index as u32 });
            &&& n.reaches(dest) && n.outbound[dest] == slot
            &&& c.peer == Some(dest) && c.tls == tls
            &&& actions.len() > 0 && actions[0] == ActionView::Recv(slot)
            &&& tls == ConnTls::Plain ==> c.unsent() == hello + frame(msg) && c.app_out.len() == 0
            &&& tls == ConnTls::Handshaking ==> c.unsent() == start && c.app_out == hello + frame(
                msg,
            )
        }),
{
    let c = m.dialed_conn(dest, tls, start);
    let d = c.armed().queue(frame(msg));
    let hello = frame(MsgView::Hello { index: m.self_index as u32 });
    assert(c.armed().unsent() =~= c.unsent());
    assert(d.armed().unsent() =~= d.unsent());
    if tls == ConnTls::Plain {
        assert(c.unsent() =~= hello);
        assert(d.unsent() =~= hello + frame(msg));
    } else {
        assert(c.unsent() =~= start);
        assert(c.app_out =~= hello);
    }
    if m.free.len() > 0 {
        assert(m.free[m.free.len() - 1] < m.conns.len());
    }
}

/// Plain bytes that arrive are decoded behind those that wait: whole messages go to the handler with
/// who they are from, the rest waits, and receiving goes on. A first byte of a TLS record starts
/// a handshake instead, where the peer may speak TLS; during a handshake all bytes go to it.
pub proof fn law_received_bytes_are_decoded_or_decrypted(c: ConnView, slot: usize, bytes: Seq<u8>)
    ensures
        ({
            let (d, actions) = c.on(slot, EventView::Received { slot, bytes });
            let (peer, msgs, rest) = heard(c.peer, c.acc + bytes);
            let speaks_tls = c.tls == ConnTls::Detect && bytes.len() > 0 && bytes[0] == 22;
            if c.tls == ConnTls::Handshaking {
                d == c && actions == seq![ActionView::Pump(slot)]
            } else if speaks_tls {
                d == c && actions == seq![ActionView::StartHandshake(slot)]
            } else {
                &&& d.peer == peer && d.acc == rest
                &&& d.tls == if c.tls == ConnTls::Ktls {
                    ConnTls::Ktls
                } else {
                    ConnTls::Plain
                }
                &&& actions.len() == msgs.len() + 1 && actions.last() == ActionView::Recv(slot)
                &&& forall|i: int|
                    0 <= i < msgs.len() ==> #[trigger] actions[i] == ActionView::Handle(
                        msgs[i].0,
                        msgs[i].1,
                    )
                &&& d.unsent() == c.unsent() && d.open == c.open
            }
        }),
{
}

/// When receiving ends or a send fails, the socket is closed, the slot is free, and the member is no
/// longer reached over it.
pub proof fn law_ended_connections_are_closed(m: MeshView, slot: usize, res: i32, dest: usize)
    requires
        m.wf(),
        m.taken(slot),
        res < 0,
    ensures
        m.on(EventView::Ended { slot }).1 == seq![ActionView::Close(slot)],
        m.on(EventView::Sent { slot, res }).1 == seq![ActionView::Close(slot)],
        !m.on(EventView::Ended { slot }).0.taken(slot),
        !m.on(EventView::Sent { slot, res }).0.taken(slot),
        m.on(EventView::Ended { slot }).0.free.contains(slot),
        m.outbound.contains_key(dest) && m.outbound[dest] == slot ==> !m.on(
            EventView::Ended { slot },
        ).0.reaches(dest),
{
    let n = m.on(EventView::Ended { slot }).0;
    assert(n.free[n.free.len() - 1] == slot);
    assert(Seq::<ActionView>::empty().push(ActionView::Close(slot)) =~= seq![
        ActionView::Close(slot),
    ]);
}

/// Where a handshake cannot start or fails, or the kernel cannot take over, the socket is closed
/// and the slot is free.
pub proof fn law_failed_handshakes_close(m: MeshView, slot: usize, resume: bool)
    requires
        m.wf(),
        m.taken(slot),
    ensures
        m.on(EventView::Started { slot, ok: false }).1 == seq![ActionView::Close(slot)],
        !m.on(EventView::Started { slot, ok: false }).0.taken(slot),
        m.on(EventView::PumpFailed { slot }).1 == seq![ActionView::Close(slot)],
        !m.on(EventView::PumpFailed { slot }).0.taken(slot),
        m.on(EventView::Installed { slot, ok: false, resume }).1 == seq![ActionView::Close(slot)],
        !m.on(EventView::Installed { slot, ok: false, resume }).0.taken(slot),
{
    assert(Seq::<ActionView>::empty().push(ActionView::Close(slot)) =~= seq![
        ActionView::Close(slot),
    ]);
}

} // verus!
