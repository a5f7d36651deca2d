use rust_mtcp::protocol::{
    decode_handshake, encode_data, encode_fin, encode_handshake, read_frame, FrameError, FrameKind,
    FrameReader, HandshakeError, FRAME_HEADER_LEN, HANDSHAKE_LEN, MAX_CHUNK, SESSION_ID_LEN,
};

#[test]
fn handshake_roundtrip() {
    let id = [7u8; SESSION_ID_LEN];
    let buf = encode_handshake(&id, 4);
    let hs = decode_handshake(&buf).unwrap();
    assert_eq!(hs.session_id, id);
    assert_eq!(hs.streams, 4);
}

#[test]
fn handshake_rejects_bad_magic() {
    let mut buf = encode_handshake(&[0u8; SESSION_ID_LEN], 1);
    buf[0] = b'X';
    assert!(decode_handshake(&buf).is_err());
}

#[test]
fn data_frame_roundtrip() {
    let payload = b"hello aggregated world";
    let encoded = encode_data(42, payload);
    let mut cursor: &[u8] = &encoded;
    let frame = read_frame(&mut cursor).unwrap().unwrap();
    assert_eq!(frame.kind, FrameKind::Data);
    assert_eq!(frame.seq, 42);
    assert_eq!(frame.payload, payload);
}

#[test]
fn fin_frame_roundtrip() {
    let encoded = encode_fin(123);
    let mut cursor: &[u8] = &encoded;
    let frame = read_frame(&mut cursor).unwrap().unwrap();
    assert_eq!(frame.kind, FrameKind::Fin);
    assert_eq!(frame.seq, 123);
    assert!(frame.payload.is_empty());
}

#[test]
fn clean_eof_returns_none() {
    let mut cursor: &[u8] = &[];
    assert!(read_frame(&mut cursor).unwrap().is_none());
}

#[test]
fn handshake_layout() {
    let id: [u8; SESSION_ID_LEN] = [1, 2, 3, 4, 5, 6, 7, 8, 9, 10, 11, 12, 13, 14, 15, 16];
    let buf = encode_handshake(&id, 0x0203);
    assert_eq!(buf.len(), HANDSHAKE_LEN);
    assert_eq!(&buf[0..4], b"mTCP");
    assert_eq!(buf[4], 1);
    assert_eq!(&buf[5..21], &id);
    assert_eq!(&buf[21..23], &[2, 3]);
}

#[test]
fn handshake_errors_are_told_apart() {
    let mut buf = encode_handshake(&[9u8; SESSION_ID_LEN], 1);
    buf[4] = 2;
    let e = decode_handshake(&buf).unwrap_err();
    assert_eq!(e, HandshakeError::UnsupportedVersion(2));
    assert_eq!(e.message(), "unsupported protocol version 2");
    buf[4] = 255;
    assert_eq!(
        decode_handshake(&buf).unwrap_err().message(),
        "unsupported protocol version 255"
    );
    buf[3] = b'p';
    let e = decode_handshake(&buf).unwrap_err();
    assert_eq!(e, HandshakeError::BadMagic);
    assert_eq!(e.message(), "bad magic: not an mtcp connection");
}

#[test]
fn handshake_stream_count_covers_its_range() {
    for streams in [0u16, 1, 255, 256, 65535] {
        let hs = decode_handshake(&encode_handshake(&[3u8; SESSION_ID_LEN], streams)).unwrap();
        assert_eq!(hs.streams, streams);
    }
}

#[test]
fn frame_layout() {
    assert_eq!(
        encode_data(0x0102030405060708, b"ab"),
        vec![0, 1, 2, 3, 4, 5, 6, 7, 8, 0, 0, 0, 2, b'a', b'b']
    );
    assert_eq!(
        encode_fin(258),
        vec![1, 0, 0, 0, 0, 0, 0, 1, 2, 0, 0, 0, 0]
    );
    assert_eq!(encode_fin(0).len(), FRAME_HEADER_LEN);
}

#[test]
fn largest_chunk_is_accepted_and_one_more_is_not() {
    let payload = vec![5u8; MAX_CHUNK];
    let encoded = encode_data(u64::MAX, &payload);
    let mut cursor: &[u8] = &encoded;
    let frame = read_frame(&mut cursor).unwrap().unwrap();
    assert_eq!(frame.seq, u64::MAX);
    assert_eq!(frame.payload, payload);

    let mut header = encode_fin(0);
    header[0] = 0;
    header[9..13].copy_from_slice(&65537u32.to_be_bytes());
    let mut cursor: &[u8] = &header;
    let e = read_frame(&mut cursor).unwrap_err();
    assert_eq!(e, FrameError::PayloadTooLarge);
    assert!(cursor.is_empty());
    assert_eq!(e.message(), "frame payload exceeds maximum chunk size");
}

#[test]
fn unknown_kind_is_judged_after_the_payload() {
    let mut encoded = encode_data(1, b"xyz");
    encoded[0] = 7;
    let mut cursor: &[u8] = &encoded;
    let e = read_frame(&mut cursor).unwrap_err();
    assert_eq!(e, FrameError::UnknownKind(7));
    assert_eq!(e.message(), "unknown frame kind 7");

    let mut cursor: &[u8] = &encoded[..encoded.len() - 1];
    assert_eq!(
        read_frame(&mut cursor).unwrap_err(),
        FrameError::UnexpectedEof
    );
}

#[test]
fn eof_in_the_middle_of_a_frame_is_an_error() {
    let encoded = encode_data(3, b"payload");
    for cut in 1..encoded.len() {
        let mut cursor: &[u8] = &encoded[..cut];
        let e = read_frame(&mut cursor).unwrap_err();
        assert_eq!(e, FrameError::UnexpectedEof);
        assert_eq!(e.message(), "early eof");
        assert!(cursor.is_empty());
    }
}

#[test]
fn fin_with_a_payload_is_read() {
    let mut encoded = encode_data(6, b"tail");
    encoded[0] = 1;
    let mut cursor: &[u8] = &encoded;
    let frame = read_frame(&mut cursor).unwrap().unwrap();
    assert_eq!(frame.kind, FrameKind::Fin);
    assert_eq!(frame.payload, b"tail");
}

#[test]
fn frames_back_to_back_are_read_in_order() {
    let mut wire = encode_data(0, b"first");
    wire.extend(encode_data(1, b""));
    wire.extend(encode_fin(2));
    let mut cursor: &[u8] = &wire;
    let mut seen = Vec::new();
    while let Some(frame) = read_frame(&mut cursor).unwrap() {
        seen.push((frame.kind, frame.seq, frame.payload));
    }
    assert_eq!(
        seen,
        vec![
            (FrameKind::Data, 0, b"first".to_vec()),
            (FrameKind::Data, 1, Vec::new()),
            (FrameKind::Fin, 2, Vec::new()),
        ]
    );
    assert!(cursor.is_empty());
}

#[test]
fn reader_does_not_care_how_bytes_are_cut() {
    let mut wire = encode_data(0, &[1u8; 300]);
    wire.extend(encode_data(1, &[2u8; 5]));
    wire.extend(encode_fin(2));
    for size in [1usize, 2, 7, 13, 14, 100, 1000] {
        let mut reader = FrameReader::new();
        let mut at = 0;
        let mut seen = Vec::new();
        while at < wire.len() {
            let n = size.min(reader.wanted()).min(wire.len() - at);
            if let Some(frame) = reader.push(&wire[at..at + n]).unwrap() {
                seen.push((frame.kind, frame.seq, frame.payload.len()));
            }
            at += n;
        }
        assert_eq!(reader.end(), Ok(()));
        assert_eq!(
            seen,
            vec![
                (FrameKind::Data, 0, 300),
                (FrameKind::Data, 1, 5),
                (FrameKind::Fin, 2, 0),
            ]
        );
    }
}

#[test]
fn reader_wants_the_header_then_the_payload() {
    let wire = encode_data(9, b"four");
    let mut reader = FrameReader::new();
    assert_eq!(reader.wanted(), FRAME_HEADER_LEN);
    assert_eq!(reader.end(), Ok(()));
    assert!(reader.push(&wire[..3]).unwrap().is_none());
    assert_eq!(reader.wanted(), FRAME_HEADER_LEN - 3);
    assert_eq!(reader.end(), Err(FrameError::UnexpectedEof));
    assert!(reader.push(&wire[3..13]).unwrap().is_none());
    assert_eq!(reader.wanted(), 4);
    let frame = reader.push(&wire[13..]).unwrap().unwrap();
    assert_eq!(frame.payload, b"four");
    assert_eq!(reader.wanted(), FRAME_HEADER_LEN);
}
