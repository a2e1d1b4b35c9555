//! The replicated count-down latch.

use bonsaigrid::raft::countdownlatch::{decode, encode, CdlOp, CountDownLatchSm};
use bonsaigrid::raft::reply::CpReply;

#[test]
fn countdownlatch_roundtrip_and_semantics() {
    for op in [CdlOp::GetCount, CdlOp::CountDown, CdlOp::TrySetCount(3)] {
        let (n, d) = decode(&encode("l", &op)).unwrap();
        assert_eq!(n, "l");
        assert_eq!(d, op);
    }
    let mut sm = CountDownLatchSm::new();
    assert_eq!(
        sm.apply(&encode("l", &CdlOp::TrySetCount(2))),
        CpReply::Bool(true)
    );
    // TrySetCount fails while the latch is still counting.
    assert_eq!(
        sm.apply(&encode("l", &CdlOp::TrySetCount(9))),
        CpReply::Bool(false)
    );
    assert_eq!(sm.apply(&encode("l", &CdlOp::GetCount)), CpReply::Long(2));
    sm.apply(&encode("l", &CdlOp::CountDown));
    sm.apply(&encode("l", &CdlOp::CountDown));
    assert_eq!(sm.count("l"), 0);
    sm.apply(&encode("l", &CdlOp::CountDown)); // floors at 0
    assert_eq!(sm.count("l"), 0);
}
