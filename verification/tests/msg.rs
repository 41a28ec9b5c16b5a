use r2::graph::GnodeCntrs;
use r2::msg::{copy_bytes, Ctrl, R2Msg};

#[test]
fn clone_asks_the_same_for_another_thread() {
    let mut msg = R2Msg::new(Ctrl::Node("ipv4".to_string(), vec![1, 2, 3]), 0, "log:0");
    msg.bound.cntrs.dispatched = 9;
    let copy = msg.clone(4, "log:4");
    assert_eq!(copy.ctrl, Ctrl::Node("ipv4".to_string(), vec![1, 2, 3]));
    assert_eq!(copy.bound.thread, 4);
    assert_eq!(copy.bound.logger, "log:4");
    assert_eq!(copy.bound.cntrs, GnodeCntrs { dispatched: 0, forwarded: 0, dropped: 0 });
    assert_eq!(msg.bound.thread, 0);
    assert_eq!(msg.bound.logger, "log:0");
    assert_eq!(msg.bound.cntrs.dispatched, 9);
    let copy = R2Msg::new(Ctrl::EpollAdd(-3), 1, "l").clone(2, "m");
    assert_eq!(copy.ctrl, Ctrl::EpollAdd(-3));
    assert_eq!(copy.bound.thread, 2);
}

#[test]
fn bytes_are_copied() {
    assert_eq!(copy_bytes(&vec![]), vec![]);
    assert_eq!(copy_bytes(&vec![1, 2, 255]), vec![1, 2, 255]);
}
