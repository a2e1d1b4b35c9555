//! Sessions.

use bonsaigrid::raft::session::{decode, encode, SessOp, SessionSm, TTL_TICKS};

#[test]
fn session_roundtrip() {
    for op in [
        SessOp::Create,
        SessOp::Heartbeat(7),
        SessOp::Close(7),
        SessOp::Tick,
        SessOp::GenerateThreadId,
    ] {
        assert_eq!(decode(&encode(&op)).unwrap(), op);
    }
}

#[test]
fn expiry_and_heartbeat() {
    let mut sm = SessionSm::new();
    let s = sm.create();
    assert!(sm.is_active(s));
    // Heartbeating keeps it alive across many ticks.
    for _ in 0..TTL_TICKS * 2 {
        sm.heartbeat(s);
        assert!(sm.tick().is_empty(), "heartbeated session never expires");
    }
    assert!(sm.is_active(s));
    // Stop heartbeating -> expires within TTL ticks.
    let mut expired = Vec::new();
    for _ in 0..=TTL_TICKS {
        expired.extend(sm.tick());
    }
    assert!(expired.contains(&s), "stale session expires");
    assert!(!sm.is_active(s));
}
