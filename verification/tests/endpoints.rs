use rust_mtcp::client::{check_config, Bundle, ClientError};
use rust_mtcp::protocol::decode_handshake;
use rust_mtcp::server::Sessions;

#[test]
fn configuration_needs_a_remote_and_a_stream() {
    assert_eq!(check_config(0, 0), Err(ClientError::NoRemote));
    assert_eq!(check_config(0, 3), Err(ClientError::NoRemote));
    assert_eq!(check_config(2, 0), Err(ClientError::NoStreams));
    assert_eq!(check_config(1, 1), Ok(()));
    assert_eq!(
        ClientError::NoRemote.message(),
        "at least one --remote is required"
    );
    assert_eq!(
        ClientError::NoStreams.message(),
        "--streams must be at least 1"
    );
}

#[test]
fn sub_connections_take_the_remotes_in_turn() {
    let mut bundle = Bundle::with_session([1u8; 16], 3, 7);
    let mut dialled = Vec::new();
    while let Some(remote) = bundle.next_remote() {
        dialled.push(remote);
        bundle.report(remote != 1);
    }
    assert_eq!(dialled, vec![0, 1, 2, 0, 1, 2, 0]);
    assert_eq!(bundle.finish(), Ok(5));
}

#[test]
fn bundle_without_connections_fails() {
    let mut bundle = Bundle::with_session([1u8; 16], 1, 2);
    bundle.report(false);
    bundle.report(false);
    assert_eq!(bundle.next_remote(), None);
    let e = bundle.finish().unwrap_err();
    assert_eq!(e, ClientError::NoSubConnection);
    assert_eq!(e.message(), "no sub-connections could be established");
}

#[test]
fn handshake_names_the_session_and_the_stream_count() {
    let id = [42u8; 16];
    let hs = decode_handshake(&Bundle::with_session(id, 1, 4).handshake()).unwrap();
    assert_eq!(hs.session_id, id);
    assert_eq!(hs.streams, 4);
    let hs = decode_handshake(&Bundle::with_session(id, 1, 65537).handshake()).unwrap();
    assert_eq!(hs.streams, 1);
}

#[test]
fn fresh_bundles_have_sessions_of_their_own() {
    let a = decode_handshake(&Bundle::open(1, 3).handshake()).unwrap();
    let b = decode_handshake(&Bundle::open(1, 3).handshake()).unwrap();
    assert_ne!(a.session_id, b.session_id);
    assert_ne!(a.session_id, [0u8; 16]);
    assert_eq!(a.streams, 3);
}

#[test]
fn sessions_are_found_until_they_close() {
    let mut sessions = Sessions::new();
    let a = [1u8; 16];
    let mut b = [1u8; 16];
    b[15] = 2;
    assert_eq!(sessions.find(&a), None);
    sessions.arrived(&a, Some("stream a"));
    assert_eq!(sessions.find(&a), Some(&"stream a"));
    assert_eq!(sessions.find(&b), None);
    sessions.arrived(&b, Some("stream b"));
    sessions.closed(&a);
    assert_eq!(sessions.find(&a), None);
    assert_eq!(sessions.find(&b), Some(&"stream b"));
}

#[test]
fn running_session_keeps_its_stream() {
    let mut sessions = Sessions::new();
    let id = [5u8; 16];
    sessions.arrived(&id, None);
    assert_eq!(sessions.find(&id), None);
    sessions.arrived(&id, Some(1));
    sessions.arrived(&id, Some(2));
    sessions.arrived(&id, None);
    assert_eq!(sessions.find(&id), Some(&1));
    sessions.closed(&id);
    sessions.closed(&id);
    sessions.arrived(&id, Some(3));
    assert_eq!(sessions.find(&id), Some(&3));
}

#[test]
fn one_target_is_opened_per_session() {
    let mut sessions = Sessions::new();
    let bundle = Bundle::with_session([8u8; 16], 1, 3);
    let mut targets = 0u32;
    for _ in 0..3 {
        let hs = decode_handshake(&bundle.handshake()).unwrap();
        if sessions.find(&hs.session_id).is_none() {
            targets += 1;
            sessions.arrived(&hs.session_id, Some(targets));
        }
    }
    assert_eq!(targets, 1);
}
