use rust_mtcp::downlink::{Downlink, DownlinkAction, DownlinkPhase, Reassembler};
use rust_mtcp::protocol::{Frame, FrameKind};

fn data(seq: u64, payload: &[u8]) -> Frame {
    Frame {
        kind: FrameKind::Data,
        seq,
        payload: payload.to_vec(),
    }
}

fn fin(seq: u64) -> Frame {
    Frame {
        kind: FrameKind::Fin,
        seq,
        payload: Vec::new(),
    }
}

/// Confirm writes until the reassembler asks for something else.
fn drain(r: &mut Reassembler, mut action: DownlinkAction, out: &mut Vec<u8>) -> DownlinkAction {
    while let DownlinkAction::Write(payload) = action {
        out.extend(payload);
        action = r.written();
    }
    action
}

#[test]
fn frames_out_of_order_come_out_in_order() {
    let mut r = Reassembler::new();
    let mut out = Vec::new();
    for frame in [data(2, b"c"), data(1, b"b")] {
        assert!(matches!(r.deliver(frame), DownlinkAction::Receive));
    }
    assert_eq!(r.next_seq(), 0);
    let action = r.deliver(data(0, b"a"));
    let action = drain(&mut r, action, &mut out);
    assert!(matches!(action, DownlinkAction::Receive));
    assert_eq!(out, b"abc");
    assert_eq!(r.next_seq(), 3);
    assert!(matches!(r.deliver(fin(3)), DownlinkAction::Shutdown));
    assert_eq!(r.phase(), DownlinkPhase::Done);
}

#[test]
fn every_order_of_arrival_gives_the_same_stream() {
    let orders: [[u64; 4]; 6] = [
        [0, 1, 2, 3],
        [3, 2, 1, 0],
        [1, 3, 0, 2],
        [2, 0, 3, 1],
        [0, 3, 1, 2],
        [1, 0, 3, 2],
    ];
    for order in orders {
        let mut r = Reassembler::new();
        let mut out = Vec::new();
        assert!(matches!(r.deliver(fin(4)), DownlinkAction::Receive));
        let mut last = DownlinkAction::Receive;
        for seq in order {
            assert!(matches!(last, DownlinkAction::Receive));
            let action = r.deliver(data(seq, &[seq as u8, 100]));
            last = drain(&mut r, action, &mut out);
        }
        assert!(matches!(last, DownlinkAction::Shutdown));
        assert_eq!(out, [0, 100, 1, 100, 2, 100, 3, 100]);
    }
}

#[test]
fn repeated_frames_are_dropped() {
    let mut r = Reassembler::new();
    let mut out = Vec::new();
    assert!(matches!(r.deliver(data(1, b"b")), DownlinkAction::Receive));
    assert!(matches!(r.deliver(data(1, b"X")), DownlinkAction::Receive));
    let action = r.deliver(data(0, b"a"));
    drain(&mut r, action, &mut out);
    assert!(matches!(r.deliver(data(0, b"Y")), DownlinkAction::Receive));
    assert_eq!(out, b"ab");
}

#[test]
fn empty_stream_ends_at_once() {
    let mut r = Reassembler::new();
    assert!(matches!(r.deliver(fin(0)), DownlinkAction::Shutdown));
}

#[test]
fn later_fin_replaces_an_earlier_one() {
    let mut r = Reassembler::new();
    let mut out = Vec::new();
    r.deliver(fin(5));
    r.deliver(fin(1));
    let action = r.deliver(data(0, b"a"));
    assert!(matches!(
        drain(&mut r, action, &mut out),
        DownlinkAction::Shutdown
    ));
}

#[test]
fn stream_ends_at_the_first_gap_when_readers_are_done() {
    let mut r = Reassembler::new();
    let mut out = Vec::new();
    let action = r.deliver(data(0, b"a"));
    drain(&mut r, action, &mut out);
    assert!(matches!(r.deliver(data(3, b"d")), DownlinkAction::Receive));
    assert!(matches!(r.readers_done(), DownlinkAction::Poll));
    assert_eq!(r.phase(), DownlinkPhase::Draining);
    let action = r.deliver(data(1, b"b"));
    assert!(matches!(
        drain(&mut r, action, &mut out),
        DownlinkAction::Poll
    ));
    assert!(matches!(r.inbox_empty(), DownlinkAction::Shutdown));
    assert_eq!(out, b"ab");
}

#[test]
fn fin_completes_while_draining() {
    let mut r = Reassembler::new();
    let mut out = Vec::new();
    r.readers_done();
    assert!(matches!(r.deliver(fin(1)), DownlinkAction::Poll));
    let action = r.deliver(data(0, b"a"));
    assert!(matches!(
        drain(&mut r, action, &mut out),
        DownlinkAction::Shutdown
    ));
    assert_eq!(out, b"a");
}

#[test]
fn failed_write_and_closed_inbox_stop() {
    let mut r = Reassembler::new();
    assert!(matches!(
        r.deliver(data(0, b"a")),
        DownlinkAction::Write(_)
    ));
    assert_eq!(r.phase(), DownlinkPhase::Writing { draining: false });
    assert!(matches!(r.write_failed(), DownlinkAction::Shutdown));
    assert_eq!(r.next_seq(), 0);

    let mut r = Reassembler::new();
    assert!(matches!(r.inbox_closed(), DownlinkAction::Shutdown));
}

#[test]
fn sequence_at_the_end_of_its_range_is_held() {
    let mut r = Reassembler::new();
    assert!(matches!(
        r.deliver(data(u64::MAX, b"z")),
        DownlinkAction::Receive
    ));
    assert!(matches!(
        r.deliver(fin(u64::MAX)),
        DownlinkAction::Receive
    ));
}

#[test]
fn only_the_last_reader_is_reported() {
    let mut downlink = Downlink::new();
    downlink.add_reader();
    downlink.add_reader();
    assert!(!downlink.reader_ended());
    downlink.add_reader();
    assert!(!downlink.reader_ended());
    assert!(downlink.reader_ended());
}
