//! The replicated fenced lock.

use bonsaigrid::raft::fencedlock::{decode, encode, FencedLockSm, FlOp};
use bonsaigrid::raft::reply::CpReply;

#[test]
fn fencedlock_roundtrip() {
    for op in [
        FlOp::Lock {
            session: 1,
            thread: 2,
        },
        FlOp::TryLock {
            session: 3,
            thread: 4,
        },
        FlOp::Unlock {
            session: 5,
            thread: 6,
        },
    ] {
        let (n, d) = decode(&encode("lk", &op)).unwrap();
        assert_eq!(n, "lk");
        assert_eq!(d, op);
    }
}

#[test]
fn fencing_is_monotonic_and_exclusive() {
    let mut sm = FencedLockSm::new();
    // A acquires -> fence f1.
    let f1 = match sm.apply(&encode(
        "lk",
        &FlOp::Lock {
            session: 1,
            thread: 1,
        },
    )) {
        CpReply::Long(f) => f,
        _ => panic!(),
    };
    assert!(f1 > 0);
    // B cannot acquire while A holds it.
    assert_eq!(
        sm.apply(&encode(
            "lk",
            &FlOp::TryLock {
                session: 2,
                thread: 2
            }
        )),
        CpReply::Long(0)
    );
    // A reenters -> same fence.
    assert_eq!(
        sm.apply(&encode(
            "lk",
            &FlOp::Lock {
                session: 1,
                thread: 1
            }
        )),
        CpReply::Long(f1)
    );
    // Two unlocks release (count was 2).
    assert_eq!(
        sm.apply(&encode(
            "lk",
            &FlOp::Unlock {
                session: 1,
                thread: 1
            }
        )),
        CpReply::Bool(true)
    );
    assert!(sm.is_locked("lk"));
    assert_eq!(
        sm.apply(&encode(
            "lk",
            &FlOp::Unlock {
                session: 1,
                thread: 1
            }
        )),
        CpReply::Bool(true)
    );
    assert!(!sm.is_locked("lk"));
    // B now acquires -> a STRICTLY GREATER fence (the fencing guarantee).
    let f2 = match sm.apply(&encode(
        "lk",
        &FlOp::Lock {
            session: 2,
            thread: 2,
        },
    )) {
        CpReply::Long(f) => f,
        _ => panic!(),
    };
    assert!(f2 > f1, "fence must strictly increase across acquisitions");
    // A's stale unlock is rejected.
    assert_eq!(
        sm.apply(&encode(
            "lk",
            &FlOp::Unlock {
                session: 1,
                thread: 1
            }
        )),
        CpReply::Bool(false)
    );
}
