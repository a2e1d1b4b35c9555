//! Backups, messages between members, and the mesh.

use bonsaigrid::member::replication::{apply, BackupOp, Pending};
use bonsaigrid::member::transport::{
    completion, inbound_tls, outbound_tls, recv_ud, send_ud, Action, Completion, Conn, ConnTls,
    Event, Handler, Ingest, Mesh, TlsMode, ACCEPT_UD, TIMEOUT_UD,
};
use bonsaigrid::member::wire::{decode, encode, Msg};
use std::collections::BTreeMap;

#[test]
fn acks_complete_once() {
    let mut p = Pending::new();
    assert!(p.register(1, 2, 42, vec![9]).is_none()); // needs 2 acks
    assert!(p.ack(1).is_none()); // 1 of 2
    assert_eq!(p.ack(1), Some((42, vec![9]))); // 2 of 2 -> deliver
    assert!(p.ack(1).is_none()); // already delivered
    assert!(p.is_empty());
    // 0 backups -> immediate delivery, nothing stored
    assert_eq!(p.register(2, 0, 7, vec![1]), Some((7, vec![1])));
    assert!(p.is_empty());
}

#[test]
fn sweep_force_completes_after_timeout() {
    let mut p = Pending::new();
    p.register(5, 1, 99, vec![3]);
    assert!(p.sweep_expired(3).is_empty()); // age 1
    assert!(p.sweep_expired(3).is_empty()); // age 2
    assert_eq!(p.sweep_expired(3), vec![(99, vec![3])]); // age 3 -> expire
    assert!(p.is_empty());
}

#[test]
fn a_sweep_leaves_younger_writes() {
    let mut p = Pending::new();
    p.register(1, 1, 10, vec![1]);
    assert!(p.sweep_expired(2).is_empty());
    p.register(2, 1, 20, vec![2]);
    assert_eq!(p.sweep_expired(2), vec![(10, vec![1])]);
    assert_eq!(p.len(), 1);
    assert_eq!(p.ack(2), Some((20, vec![2])));
}

/// Does to a map what a message asks for.
fn run(store: &mut BTreeMap<(String, Vec<u8>), Vec<u8>>, msg: &Msg) {
    match apply(msg) {
        Some(BackupOp::Put { name, key, value, ttl_ms }) => {
            assert_eq!(ttl_ms, 0);
            store.insert((name, key), value);
        }
        Some(BackupOp::Remove { name, key }) => {
            store.remove(&(name, key));
        }
        None => {}
    }
}

#[test]
fn apply_writes_and_removes() {
    let mut s = BTreeMap::new();
    let at = ("m".to_string(), b"k".to_vec());
    run(
        &mut s,
        &Msg::BackupPut {
            op_id: 1,
            name: "m".into(),
            key: b"k".to_vec(),
            value: b"v".to_vec(),
            ttl_ms: 0,
        },
    );
    assert_eq!(s.get(&at), Some(&b"v".to_vec()));
    run(&mut s, &Msg::BackupRemove { op_id: 2, name: "m".into(), key: b"k".to_vec() });
    assert_eq!(s.get(&at), None);
    assert!(apply(&Msg::Ack { op_id: 3 }).is_none());
    assert!(apply(&Msg::Hello { index: 0 }).is_none());
}

fn put() -> Msg {
    Msg::BackupPut {
        op_id: 5,
        name: "m".into(),
        key: b"k".to_vec(),
        value: b"v".to_vec(),
        ttl_ms: 0,
    }
}

#[test]
fn messages_read_back_whatever_follows() {
    let all = [
        Msg::Hello { index: 3 },
        put(),
        Msg::BackupRemove { op_id: 2, name: "n".into(), key: b"k".to_vec() },
        Msg::Ack { op_id: 9 },
    ];
    for m in all {
        let mut b = encode(&m);
        let n = b.len();
        assert!(decode(&b[..n - 1]).is_none());
        b.extend_from_slice(&[1, 2, 3]);
        assert_eq!(decode(&b), Some((m, n)));
    }
    // A tag that is none, and a body that ends too early.
    assert!(decode(&[1, 0, 0, 0, 9]).is_none());
    assert!(decode(&[2, 0, 0, 0, 3, 0]).is_none());
}

#[test]
fn messages_are_heard_with_their_sender_in_any_chunks() {
    let mut stream = encode(&Msg::Hello { index: 4 });
    stream.extend(encode(&Msg::Ack { op_id: 1 }));
    stream.extend(encode(&put()));
    for step in [1, 3, 7, stream.len()] {
        let mut c = Conn::new(ConnTls::Plain);
        let mut got = Vec::new();
        for chunk in stream.chunks(step) {
            assert_eq!(c.ingest(chunk), Ingest::Plain);
            got.extend(c.take_messages());
        }
        assert_eq!(got, vec![(4, Msg::Ack { op_id: 1 }), (4, put())]);
        assert!(c.acc.is_empty());
    }
    let mut c = Conn::new(ConnTls::Plain);
    c.ingest(&encode(&Msg::Ack { op_id: 1 }));
    assert_eq!(c.take_messages(), vec![(usize::MAX, Msg::Ack { op_id: 1 })]);
}

#[test]
fn bytes_leave_in_order_over_partial_sends() {
    let mut c = Conn::new(ConnTls::Plain);
    assert!(!c.arm_send());
    c.queue_app(b"hello ");
    assert!(c.arm_send());
    c.queue_app(b"world");
    assert!(!c.arm_send(), "one send at a time");
    let mut sent = c.sendbuf[..2].to_vec();
    c.on_send(2);
    assert!(c.arm_send());
    assert_eq!(c.sendbuf, b"llo ");
    sent.extend_from_slice(&c.sendbuf);
    c.on_send(4);
    assert!(c.arm_send());
    sent.extend_from_slice(&c.sendbuf);
    c.on_send(5);
    assert!(!c.arm_send());
    assert_eq!(sent, b"hello world");
    c.on_send(-1);
    assert!(!c.open);
}

#[test]
fn application_bytes_wait_for_the_handshake() {
    let mut c = Conn::new(ConnTls::Handshaking);
    c.queue_app(b"app");
    assert!(!c.arm_send());
    assert_eq!(c.ingest(b"x"), Ingest::Pump);
    c.pumped(b"finished", b"", true);
    assert!(!c.install_due(), "the last flight is not out yet");
    assert!(c.arm_send());
    c.on_send(8);
    assert!(c.install_due());
    c.installed(true);
    assert_eq!(c.tls, ConnTls::Ktls);
    assert!(c.arm_send());
    assert_eq!(c.sendbuf, b"app");
}

#[test]
fn the_first_byte_decides_on_tls() {
    let mut c = Conn::new(ConnTls::Detect);
    assert_eq!(c.ingest(&[0x16, 3, 1]), Ingest::StartHandshake);
    assert!(c.acc.is_empty());
    c.handshake_started(true);
    assert_eq!(c.tls, ConnTls::Handshaking);
    let mut d = Conn::new(ConnTls::Detect);
    assert_eq!(d.ingest(&[1, 2]), Ingest::Plain);
    assert_eq!((d.tls, d.acc.len()), (ConnTls::Plain, 2));
    let mut e = Conn::new(ConnTls::Detect);
    e.handshake_started(false);
    assert!(!e.open);
    let mut f = Conn::new(ConnTls::Handshaking);
    f.pump_failed();
    assert!(!f.open);
    let mut g = Conn::new(ConnTls::Handshaking);
    g.installed(false);
    assert!(!g.open);
}

#[test]
fn tls_modes_start_connections() {
    assert_eq!(inbound_tls(None, true), ConnTls::Plain);
    assert_eq!(inbound_tls(Some(TlsMode::Disabled), true), ConnTls::Plain);
    assert_eq!(inbound_tls(Some(TlsMode::Permissive), true), ConnTls::Detect);
    assert_eq!(inbound_tls(Some(TlsMode::Required), true), ConnTls::Handshaking);
    assert_eq!(inbound_tls(Some(TlsMode::Required), false), ConnTls::Plain);
    assert_eq!(outbound_tls(Some(TlsMode::Permissive), true), ConnTls::Handshaking);
    assert_eq!(outbound_tls(Some(TlsMode::Disabled), true), ConnTls::Plain);
    assert_eq!(outbound_tls(Some(TlsMode::Required), false), ConnTls::Plain);
}

#[test]
fn marks_tell_operations_apart() {
    assert_eq!(completion(recv_ud(7)), Some(Completion::Recv(7)));
    assert_eq!(completion(send_ud(7)), Some(Completion::Send(7)));
    assert_eq!(completion(ACCEPT_UD), Some(Completion::Accept));
    assert_eq!(completion(TIMEOUT_UD), Some(Completion::Tick));
}

fn dial(m: &mut Mesh, dest: usize, tls: ConnTls, start: &[u8], msg: Msg) -> Vec<Action> {
    m.react(Event::Dialed { dest, tls, start: start.to_vec(), msg })
}

#[test]
fn slots_are_used_again_and_routes_follow() {
    let mut m = Mesh::new(2);
    assert_eq!(m.react(Event::Accepted { tls: ConnTls::Plain }), vec![Action::Recv(0)]);
    let ack = Msg::Ack { op_id: 1 };
    assert_eq!(
        m.react(Event::Outgoing { dest: 9, msg: ack.clone() }),
        vec![Action::Dial(9, ack.clone())]
    );
    assert_eq!(
        dial(&mut m, 9, ConnTls::Plain, b"", ack.clone()),
        vec![Action::Recv(1), Action::Send(1)]
    );
    // The dialed connection says who is speaking first; the message waits behind it.
    let hello = encode(&Msg::Hello { index: 2 });
    assert_eq!(m.conns[1].as_ref().unwrap().sendbuf, hello);
    assert_eq!(m.conns[1].as_ref().unwrap().out, encode(&ack));
    assert!(m.react(Event::Outgoing { dest: 9, msg: ack.clone() }).is_empty(), "one send at a time");
    assert_eq!(
        m.react(Event::Sent { slot: 1, res: hello.len() as i32 }),
        vec![Action::Send(1)]
    );
    assert_eq!(m.conns[1].as_ref().unwrap().sendbuf.len(), 2 * encode(&ack).len());
    // A closed connection frees its slot, and is no way to its peer any more.
    assert_eq!(m.react(Event::Sent { slot: 1, res: -1 }), vec![Action::Close(1)]);
    assert!(m.conns[1].is_none());
    assert!(m.react(Event::Ended { slot: 1 }).is_empty());
    assert!(m.react(Event::Ended { slot: 77 }).is_empty());
    assert_eq!(
        m.react(Event::Outgoing { dest: 9, msg: ack.clone() }),
        vec![Action::Dial(9, ack.clone())]
    );
    assert_eq!(m.react(Event::Ended { slot: 0 }), vec![Action::Close(0)]);
    assert_eq!(m.react(Event::Accepted { tls: ConnTls::Detect }), vec![Action::Recv(0)]);
    assert_eq!(
        dial(&mut m, 9, ConnTls::Handshaking, b"start", ack.clone()),
        vec![Action::Recv(1), Action::Send(1)]
    );
    let c = m.conns[1].as_ref().unwrap();
    assert_eq!(c.sendbuf, b"start");
    assert_eq!(c.app_out, [hello, encode(&ack)].concat());
}

#[test]
fn a_handshake_runs_by_events() {
    let mut m = Mesh::new(0);
    m.react(Event::Accepted { tls: ConnTls::Detect });
    let bytes = vec![0x16, 3, 1];
    assert_eq!(
        m.react(Event::Received { slot: 0, bytes: bytes.clone() }),
        vec![Action::StartHandshake(0)]
    );
    assert_eq!(m.react(Event::Started { slot: 0, ok: true }), vec![Action::Pump(0)]);
    let none = Vec::new();
    assert_eq!(
        m.react(Event::Pumped {
            slot: 0,
            send: b"flight".to_vec(),
            plain: none.clone(),
            ready: false
        }),
        vec![Action::Send(0), Action::Recv(0)]
    );
    assert!(m.react(Event::Sent { slot: 0, res: 6 }).is_empty());
    assert_eq!(m.react(Event::Received { slot: 0, bytes }), vec![Action::Pump(0)]);
    // The handshake is done, with nothing to send: the kernel takes over at once.
    assert_eq!(
        m.react(Event::Pumped {
            slot: 0,
            send: none,
            plain: encode(&Msg::Ack { op_id: 8 }),
            ready: true
        }),
        vec![Action::Install(0, true)]
    );
    assert_eq!(
        m.react(Event::Installed { slot: 0, ok: true, resume: true }),
        vec![Action::Handle(usize::MAX, Msg::Ack { op_id: 8 }), Action::Recv(0)]
    );
    assert_eq!(m.conns[0].as_ref().unwrap().tls, ConnTls::Ktls);
    m.react(Event::Accepted { tls: ConnTls::Handshaking });
    assert_eq!(m.react(Event::PumpFailed { slot: 1 }), vec![Action::Close(1)]);
    m.react(Event::Accepted { tls: ConnTls::Detect });
    assert_eq!(m.react(Event::Started { slot: 1, ok: false }), vec![Action::Close(1)]);
    m.react(Event::Accepted { tls: ConnTls::Handshaking });
    assert_eq!(
        m.react(Event::Installed { slot: 1, ok: false, resume: false }),
        vec![Action::Close(1)]
    );
}

/// Acks every backup back to its source.
struct Backup;

impl Handler for Backup {
    fn on_msg(&mut self, src: usize, msg: Msg, outbox: &mut Vec<(usize, Msg)>) {
        if let Msg::BackupPut { op_id, .. } = msg {
            outbox.push((src, Msg::Ack { op_id }));
        }
    }

    fn on_tick(&mut self, _outbox: &mut Vec<(usize, Msg)>) -> bool {
        false
    }
}

/// Hands what waits on a connection of one mesh to a connection of another; what the other is to
/// handle.
fn carry(from: &mut Mesh, slot: usize, to: &mut Mesh, at: usize) -> Vec<(usize, Msg)> {
    let mut got = Vec::new();
    loop {
        let bytes = from.conns[slot].as_ref().unwrap().sendbuf.clone();
        if bytes.is_empty() {
            return got;
        }
        let res = bytes.len() as i32;
        for a in to.react(Event::Received { slot: at, bytes }) {
            if let Action::Handle(src, msg) = a {
                got.push((src, msg));
            }
        }
        from.react(Event::Sent { slot, res });
    }
}

#[test]
fn a_put_is_acked_over_the_mesh() {
    let (mut zero, mut one) = (Mesh::new(0), Mesh::new(1));
    dial(&mut zero, 1, ConnTls::Plain, b"", put());
    one.react(Event::Accepted { tls: ConnTls::Plain });
    let mut outbox = Vec::new();
    for (src, msg) in carry(&mut zero, 0, &mut one, 0) {
        Backup.on_msg(src, msg, &mut outbox);
    }
    assert_eq!(outbox, vec![(0, Msg::Ack { op_id: 5 })]);
    // The reply travels on member 1's own connection to member 0.
    for (dest, msg) in outbox {
        assert_eq!(
            one.react(Event::Outgoing { dest, msg: msg.clone() }),
            vec![Action::Dial(0, msg.clone())]
        );
        dial(&mut one, dest, ConnTls::Plain, b"", msg);
    }
    zero.react(Event::Accepted { tls: ConnTls::Plain });
    assert_eq!(carry(&mut one, 1, &mut zero, 1), vec![(1, Msg::Ack { op_id: 5 })]);
    assert!(!Backup.on_tick(&mut Vec::new()));
}
