use rust_mtcp::dispatcher::{Dispatcher, UplinkAction};
use rust_mtcp::protocol::{encode_data, encode_fin};
use rust_mtcp::uplink::{Dispatch, Uplink};

#[test]
fn nothing_to_pick_without_connections() {
    let mut uplink = Uplink::new();
    assert_eq!(uplink.pick(), None);
    assert_eq!(uplink.dispatch(10), Dispatch::Wait);
}

#[test]
fn least_loaded_live_connection_is_picked() {
    let mut uplink = Uplink::new();
    for i in 0..3 {
        assert_eq!(uplink.add_writer(), i);
    }
    // Equal loads: the first one.
    assert_eq!(uplink.dispatch(100), Dispatch::Send(0));
    assert_eq!(uplink.dispatch(50), Dispatch::Send(1));
    assert_eq!(uplink.dispatch(70), Dispatch::Send(2));
    assert_eq!(uplink.pick(), Some(1));
    uplink.release(0, 100);
    assert_eq!(uplink.pick(), Some(0));
    uplink.mark_dead(0);
    assert_eq!(uplink.pick(), Some(1));
    uplink.mark_dead(0);
    uplink.mark_dead(1);
    assert_eq!(uplink.pick(), Some(2));
}

#[test]
fn losing_every_connection_stops_the_stream() {
    let mut uplink = Uplink::new();
    uplink.add_writer();
    uplink.add_writer();
    assert_eq!(uplink.dispatch(8), Dispatch::Send(0));
    uplink.send_failed(0, 8);
    assert_eq!(uplink.dispatch(8), Dispatch::Send(1));
    uplink.send_failed(1, 8);
    assert_eq!(uplink.dispatch(8), Dispatch::Stop);
    // A replacement revives it.
    assert_eq!(uplink.add_writer(), 2);
    assert_eq!(uplink.dispatch(8), Dispatch::Send(2));
}

#[test]
fn load_counts_queued_bytes_and_fins() {
    let mut uplink = Uplink::new();
    uplink.add_writer();
    uplink.add_writer();
    uplink.add_writer();
    uplink.mark_dead(1);
    assert_eq!(uplink.dispatch(5), Dispatch::Send(0));
    assert_eq!(uplink.broadcast_fin(13), vec![0, 2]);
    // 18 bytes on the first, 13 on the third.
    assert_eq!(uplink.pick(), Some(2));
    uplink.release(0, 5);
    assert_eq!(uplink.pick(), Some(0));
    uplink.release(2, 13);
    assert_eq!(uplink.pick(), Some(2));
}

#[test]
fn fin_goes_nowhere_when_all_are_dead() {
    let mut uplink = Uplink::new();
    uplink.add_writer();
    uplink.mark_dead(0);
    assert!(uplink.broadcast_fin(13).is_empty());
}

fn expect_send(action: UplinkAction, to: usize, bytes: &[u8]) -> Vec<u8> {
    match action {
        UplinkAction::Send { writer, frame } => {
            assert_eq!(writer, to);
            assert_eq!(frame, bytes);
            frame
        }
        other => panic!("expected a send, got {other:?}"),
    }
}

#[test]
fn chunks_are_numbered_and_fin_tells_how_many() {
    let mut uplink = Uplink::new();
    uplink.add_writer();
    let mut d = Dispatcher::new();
    assert_eq!(d.next_seq(), 0);
    expect_send(d.read(&mut uplink, b"one"), 0, &encode_data(0, b"one"));
    assert!(matches!(d.sent(), UplinkAction::Read));
    expect_send(d.read(&mut uplink, b"two"), 0, &encode_data(1, b"two"));
    assert!(matches!(d.sent(), UplinkAction::Read));
    assert_eq!(d.next_seq(), 2);
    match d.read(&mut uplink, b"") {
        UplinkAction::Fin { writers, frame } => {
            assert_eq!(writers, vec![0]);
            assert_eq!(frame, encode_fin(2));
        }
        other => panic!("expected a FIN, got {other:?}"),
    }
}

#[test]
fn failing_to_read_ends_the_stream_like_a_half_close() {
    let mut uplink = Uplink::new();
    uplink.add_writer();
    uplink.add_writer();
    let mut d = Dispatcher::new();
    match d.read_failed(&mut uplink) {
        UplinkAction::Fin { writers, frame } => {
            assert_eq!(writers, vec![0, 1]);
            assert_eq!(frame, encode_fin(0));
        }
        other => panic!("expected a FIN, got {other:?}"),
    }
}

#[test]
fn frame_waits_for_the_first_connection() {
    let mut uplink = Uplink::new();
    let mut d = Dispatcher::new();
    assert!(matches!(d.read(&mut uplink, b"early"), UplinkAction::Wait));
    assert!(matches!(d.writer_added(&mut uplink), UplinkAction::Wait));
    uplink.add_writer();
    expect_send(d.writer_added(&mut uplink), 0, &encode_data(0, b"early"));
}

#[test]
fn frame_moves_on_when_a_connection_dies() {
    let mut uplink = Uplink::new();
    uplink.add_writer();
    uplink.add_writer();
    let mut d = Dispatcher::new();
    let encoded = encode_data(0, b"chunk");
    let frame = expect_send(d.read(&mut uplink, b"chunk"), 0, &encoded);
    let frame = expect_send(d.send_failed(&mut uplink, frame), 1, &encoded);
    assert!(matches!(
        d.send_failed(&mut uplink, frame),
        UplinkAction::Stop
    ));
}

/// The stream ends before its first connection, and the end is announced on
/// that connection.
fn expect_fin_after_first_connection(d: &mut Dispatcher, uplink: &mut Uplink, first: UplinkAction) {
    assert!(matches!(first, UplinkAction::Wait));
    assert!(!uplink.ever_added());
    assert!(matches!(d.writer_added(uplink), UplinkAction::Wait));
    uplink.add_writer();
    assert!(uplink.ever_added());
    match d.writer_added(uplink) {
        UplinkAction::Fin { writers, frame } => {
            assert_eq!(writers, vec![0]);
            assert_eq!(frame, encode_fin(0));
        }
        other => panic!("expected a FIN, got {other:?}"),
    }
}

#[test]
fn early_half_close_waits_for_the_first_connection() {
    let mut uplink = Uplink::new();
    let mut d = Dispatcher::new();
    let first = d.read(&mut uplink, b"");
    expect_fin_after_first_connection(&mut d, &mut uplink, first);
}

#[test]
fn early_read_error_waits_for_the_first_connection() {
    let mut uplink = Uplink::new();
    let mut d = Dispatcher::new();
    let first = d.read_failed(&mut uplink);
    expect_fin_after_first_connection(&mut d, &mut uplink, first);
}

#[test]
fn end_is_announced_to_nobody_only_when_all_are_lost() {
    let mut uplink = Uplink::new();
    uplink.add_writer();
    uplink.mark_dead(0);
    let mut d = Dispatcher::new();
    match d.read(&mut uplink, b"") {
        UplinkAction::Fin { writers, frame } => {
            assert!(writers.is_empty());
            assert_eq!(frame, encode_fin(0));
        }
        other => panic!("expected a FIN, got {other:?}"),
    }
}

#[test]
fn waiting_dispatcher_can_be_abandoned() {
    let mut uplink = Uplink::new();
    let mut d = Dispatcher::new();
    assert!(matches!(d.read(&mut uplink, b"early"), UplinkAction::Wait));
    assert!(matches!(d.abandoned(), UplinkAction::Stop));
    assert_eq!(d.next_seq(), 1);

    let mut d = Dispatcher::new();
    assert!(matches!(d.read(&mut uplink, b""), UplinkAction::Wait));
    assert!(matches!(d.abandoned(), UplinkAction::Stop));
    assert_eq!(d.next_seq(), 0);
}
