//! One direction of the tunnel in memory: a large payload must survive
//! chunking, striping, and reordering intact.

use rust_mtcp::client::Bundle;
use rust_mtcp::dispatcher::{Dispatcher, UplinkAction};
use rust_mtcp::downlink::{DownlinkAction, Reassembler};
use rust_mtcp::protocol::{decode_handshake, read_frame, MAX_CHUNK};
use rust_mtcp::server::Sessions;
use rust_mtcp::uplink::Uplink;

/// A deterministic, order-sensitive payload so a reordering bug corrupts it.
fn make_payload(len: usize) -> Vec<u8> {
    (0..len).map(|i| (i % 251) as u8).collect()
}

/// Stripe `payload` over `streams` connections, read in chunks of `chunk`
/// bytes, and give what each connection carries.
fn stripe(payload: &[u8], streams: usize, chunk: usize) -> Vec<Vec<u8>> {
    let mut uplink = Uplink::new();
    for _ in 0..streams {
        uplink.add_writer();
    }
    let mut wires = vec![Vec::new(); streams];
    let mut dispatcher = Dispatcher::new();
    let mut at = 0;
    let mut action = UplinkAction::Read;
    loop {
        action = match action {
            UplinkAction::Read => {
                let n = chunk.min(payload.len() - at);
                at += n;
                dispatcher.read(&mut uplink, &payload[at - n..at])
            }
            UplinkAction::Send { writer, frame } => {
                wires[writer].extend(frame);
                dispatcher.sent()
            }
            UplinkAction::Fin { writers, frame } => {
                for writer in writers {
                    wires[writer].extend(&frame);
                }
                return wires;
            }
            UplinkAction::Wait | UplinkAction::Stop => panic!("there are live connections"),
        };
    }
}

/// Read the connections from the last to the first, each up to its end, and
/// give what comes out and whether the stream was closed.
fn reassemble(wires: &[Vec<u8>]) -> (Vec<u8>, bool) {
    let mut reassembler = Reassembler::new();
    let mut out = Vec::new();
    for wire in wires.iter().rev() {
        let mut rest: &[u8] = wire;
        while let Ok(Some(frame)) = read_frame(&mut rest) {
            let mut action = reassembler.deliver(frame);
            while let DownlinkAction::Write(payload) = action {
                out.extend(payload);
                action = reassembler.written();
            }
            if let DownlinkAction::Shutdown = action {
                return (out, true);
            }
        }
    }
    (out, false)
}

#[test]
fn large_payload_roundtrip_is_intact_and_ordered() {
    let len = 8 * 1024 * 1024; // 8 MiB: far more than one 64 KiB chunk.
    let payload = make_payload(len);
    let wires = stripe(&payload, 4, MAX_CHUNK);
    for wire in &wires {
        assert!(wire.len() > len / 8, "the load is not spread");
    }
    let (received, closed) = reassemble(&wires);
    assert!(closed, "stream left open after payload");
    assert_eq!(received.len(), payload.len(), "length mismatch");
    assert!(received == payload, "payload corrupted or reordered");
}

#[test]
fn many_concurrent_streams_stay_isolated() {
    // Each logical stream gets its own session; verify they don't cross-talk.
    let mut sessions: Sessions<usize> = Sessions::new();
    let mut targets: Vec<Vec<Vec<u8>>> = Vec::new();
    let mut payloads = Vec::new();
    let mut ids = Vec::new();
    let mut bundles = Vec::new();
    for stream_idx in 0..16u8 {
        let len = 512 * 1024 + stream_idx as usize; // distinct lengths
        let payload: Vec<u8> = (0..len).map(|i| (i as u8) ^ stream_idx).collect();
        bundles.push((Bundle::open(1, 3).handshake(), stripe(&payload, 3, 60_000)));
        payloads.push(payload);
    }
    // The sub-connections of all bundles arrive interleaved.
    for sub in 0..3 {
        for (handshake, wires) in &bundles {
            let id = decode_handshake(handshake).unwrap().session_id;
            let target = match sessions.find(&id) {
                Some(target) => *target,
                None => {
                    targets.push(Vec::new());
                    ids.push(id);
                    sessions.arrived(&id, Some(targets.len() - 1));
                    targets.len() - 1
                }
            };
            targets[target].push(wires[sub].clone());
        }
    }
    assert_eq!(targets.len(), 16);
    for (stream_idx, payload) in payloads.iter().enumerate() {
        let (received, closed) = reassemble(&targets[stream_idx]);
        assert!(closed);
        assert!(&received == payload, "stream {stream_idx} corrupted");
        sessions.closed(&ids[stream_idx]);
        assert_eq!(sessions.find(&ids[stream_idx]), None);
    }
}

#[test]
fn lost_connection_leaves_a_prefix() {
    let payload = make_payload(1_000_000);
    let mut wires = stripe(&payload, 3, 10_000);
    let keep = wires[0].len() / 2 + 7;
    wires[0].truncate(keep);
    let (received, closed) = reassemble(&wires);
    assert!(!closed);
    assert!(received.len() < payload.len());
    assert!(received.len() > payload.len() / 3);
    assert!(payload.starts_with(&received));
}

#[test]
fn fin_survives_the_loss_of_a_connection() {
    let payload = make_payload(50_000);
    let mut wires = stripe(&payload, 4, MAX_CHUNK);
    // One chunk on the first connection; the others carry only the FIN.
    for wire in &mut wires[2..] {
        wire.clear();
    }
    assert_eq!(reassemble(&wires), (payload, true));
}
