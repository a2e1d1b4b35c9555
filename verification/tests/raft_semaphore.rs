//! The replicated semaphore.

use bonsaigrid::raft::reply::CpReply;
use bonsaigrid::raft::semaphore::{decode, encode, SemOp, SemaphoreSm};

#[test]
fn semaphore_roundtrip_and_semantics() {
    for op in [
        SemOp::Init(5),
        SemOp::Acquire(2),
        SemOp::Release(1),
        SemOp::Drain,
        SemOp::AvailablePermits,
    ] {
        let (n, d) = decode(&encode("s", &op)).unwrap();
        assert_eq!(n, "s");
        assert_eq!(d, op);
    }
    let mut sm = SemaphoreSm::new();
    assert_eq!(sm.apply(&encode("s", &SemOp::Init(3))), CpReply::Bool(true));
    assert_eq!(
        sm.apply(&encode("s", &SemOp::Init(9))),
        CpReply::Bool(false)
    ); // already init
    assert_eq!(
        sm.apply(&encode("s", &SemOp::Acquire(2))),
        CpReply::Bool(true)
    );
    assert_eq!(
        sm.apply(&encode("s", &SemOp::Acquire(2))),
        CpReply::Bool(false)
    ); // only 1 left
    assert_eq!(
        sm.apply(&encode("s", &SemOp::AvailablePermits)),
        CpReply::Long(1)
    );
    assert_eq!(
        sm.apply(&encode("s", &SemOp::Release(4))),
        CpReply::Bool(true)
    );
    assert_eq!(sm.apply(&encode("s", &SemOp::Drain)), CpReply::Long(5));
    assert_eq!(sm.available("s"), 0);
}
