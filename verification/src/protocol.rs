//! Wire protocol.
//!
//! Two message types travel over each sub-connection:
//!
//! * A one-shot **handshake** sent by the client right after connecting. It
//!   identifies the logical stream a sub-connection belongs to so the server
//!   can group sub-connections that share a `session_id`.
//! * A stream of length-prefixed **frames** carrying the aggregated payload.
//!   Each direction of a logical stream is sequenced independently with a
//!   64-bit counter so the receiver can restore ordering regardless of which
//!   sub-connection a frame arrived on.

use vstd::prelude::*;
use vstd::slice::*;

use crate::bytes::{from_be, to_be};

verus! {

use crate::bytes::{
    be_bytes, be_value, first_byte_weighs_most, lemma_be_bytes_len, lemma_be_bytes_of_value, lemma_be_range_values,
    lemma_be_value_bound, lemma_be_value_of_bytes,
};

/// Identifies the protocol ("mTCP") and guards against connections from
/// unrelated services landing on the listening port.
pub const MAGIC: [u8; 4] = [0x6d, 0x54, 0x43, 0x50];

/// Bumped only on incompatible wire changes.
pub const VERSION: u8 = 1;

/// Length of a random session identifier, in bytes.
pub const SESSION_ID_LEN: usize = 16;

/// Total size of the fixed handshake: magic + version + session id + stream count.
pub const HANDSHAKE_LEN: usize = 23;

/// Fixed frame header: kind + seq + payload length.
pub const FRAME_HEADER_LEN: usize = 13;

/// Maximum payload carried by a single DATA frame (64 KiB).
pub const MAX_CHUNK: usize = 65536;

/// Wire value of [`FrameKind::Data`].
pub const KIND_DATA: u8 = 0;

/// Wire value of [`FrameKind::Fin`].
pub const KIND_FIN: u8 = 1;

/// A logical-stream identifier shared by every sub-connection of one stream.
pub type SessionId = [u8; SESSION_ID_LEN];

/// Handshake contents parsed from the first bytes of a sub-connection.
#[derive(Debug, Clone)]
pub struct Handshake {
    pub session_id: SessionId,
    /// Number of sub-connections the client intends to open (advisory).
    pub streams: u16,
}

/// Why a handshake is refused.
#[derive(Debug, Clone, Copy, PartialEq, Eq, Structural)]
pub enum HandshakeError {
    /// The connection does not speak this protocol.
    BadMagic,
    /// The peer speaks another version of it.
    UnsupportedVersion(u8),
}

/// The handshake on the wire: magic, version, session id, stream count.
pub open spec fn handshake_bytes(session_id: Seq<u8>, streams: u16) -> Seq<u8> {
    MAGIC@ + seq![VERSION] + session_id + be_bytes(streams as nat, 2)
}

/// Serialize the fixed-size handshake.
pub fn encode_handshake(session_id: &SessionId, streams: u16) -> (buf: [u8; HANDSHAKE_LEN])
    ensures
        buf@ == handshake_bytes(session_id@, streams),
{
    let mut buf: [u8; HANDSHAKE_LEN] = [0u8;HANDSHAKE_LEN];
    let magic: [u8; 4] = MAGIC;
    let count: [u8; 2] = to_be::<2>(streams as u64);
    let mut i: usize = 0;
    while i < HANDSHAKE_LEN
        invariant
            i <= HANDSHAKE_LEN,
            magic@ == MAGIC@,
            count@ == be_bytes(streams as nat, 2),
            forall|j: int|
                0 <= j < i ==> #[trigger] buf@[j] == handshake_bytes(session_id@, streams)[j],
        decreases HANDSHAKE_LEN - i,
    {
        proof {
            lemma_be_bytes_len(streams as nat, 2);
        }
        buf[i] = if i < 4 {
            magic[i]
        } else if i == 4 {
            VERSION
        } else if i < 21 {
            session_id[i - 5]
        } else {
            count[i - 21]
        };
        i = i + 1;
    }
    proof {
        lemma_be_bytes_len(streams as nat, 2);
        assert(buf@ =~= handshake_bytes(session_id@, streams));
    }
    buf
}

/// The session id and the stream count that a handshake carries, or why it is
/// refused.
pub open spec fn parse_handshake(s: Seq<u8>) -> Result<(Seq<u8>, u16), HandshakeError> {
    if s.take(4) != MAGIC@ {
        Err(HandshakeError::BadMagic)
    } else if s[4] != VERSION {
        Err(HandshakeError::UnsupportedVersion(s[4]))
    } else {
        Ok((s.subrange(5, 21), be_value(s.subrange(21, 23)) as u16))
    }
}

/// Parse and validate a handshake, rejecting bad magic or unknown versions.
pub fn decode_handshake(buf: &[u8; HANDSHAKE_LEN]) -> (r: Result<Handshake, HandshakeError>)
    ensures
        r matches Err(HandshakeError::BadMagic) <==> buf@.take(4) != MAGIC@,
        forall|v: u8|
            r == Err::<Handshake, HandshakeError>(HandshakeError::UnsupportedVersion(v)) <==> {
                &&& buf@.take(4) == MAGIC@
                &&& buf@[4] == v
                &&& v != VERSION
            },
        r is Ok <==> buf@.take(4) == MAGIC@ && buf@[4] == VERSION,
        r matches Ok(h) ==> {
            &&& h.session_id@ == buf@.subrange(5, 21)
            &&& h.streams == be_value(buf@.subrange(21, 23))
        },
        match r {
            Ok(h) => parse_handshake(buf@) == Ok::<(Seq<u8>, u16), HandshakeError>(
                (h.session_id@, h.streams),
            ),
            Err(e) => parse_handshake(buf@) == Err::<(Seq<u8>, u16), HandshakeError>(e),
        },
{
    let magic: [u8; 4] = MAGIC;
    if buf[0] != magic[0] || buf[1] != magic[1] || buf[2] != magic[2] || buf[3] != magic[3] {
        assert(exists|i: int| 0 <= i < 4 && buf@.take(4)[i] != MAGIC@[i]);
        return Err(HandshakeError::BadMagic);
    }
    assert(buf@.take(4) =~= MAGIC@);
    if buf[4] != VERSION {
        return Err(HandshakeError::UnsupportedVersion(buf[4]));
    }
    let mut session_id: SessionId = [0u8;SESSION_ID_LEN];
    let mut i: usize = 0;
    while i < SESSION_ID_LEN
        invariant
            i <= SESSION_ID_LEN,
            forall|j: int| 0 <= j < i ==> #[trigger] session_id@[j] == buf@[5 + j],
        decreases SESSION_ID_LEN - i,
    {
        session_id[i] = buf[i + 5];
        i = i + 1;
    }
    assert(session_id@ =~= buf@.subrange(5, 21));
    let count: u128 = from_be(slice_subrange(buf.as_slice(), 21, 23));
    proof {
        lemma_be_value_bound(buf@.subrange(21, 23));
        lemma_be_range_values();
    }
    Ok(Handshake { session_id, streams: count as u16 })
}

/// What a decoded handshake says is what was encoded.
pub proof fn handshake_round_trip(session_id: Seq<u8>, streams: u16)
    requires
        session_id.len() == SESSION_ID_LEN,
    ensures
        handshake_bytes(session_id, streams).len() == HANDSHAKE_LEN,
        handshake_bytes(session_id, streams).take(4) == MAGIC@,
        handshake_bytes(session_id, streams)[4] == VERSION,
        handshake_bytes(session_id, streams).subrange(5, 21) == session_id,
        be_value(handshake_bytes(session_id, streams).subrange(21, 23)) == streams,
        parse_handshake(handshake_bytes(session_id, streams)) == Ok::<
            (Seq<u8>, u16),
            HandshakeError,
        >((session_id, streams)),
{
    let s = handshake_bytes(session_id, streams);
    lemma_be_bytes_len(streams as nat, 2);
    lemma_be_range_values();
    lemma_be_value_of_bytes(streams as nat, 2);
    assert(s.take(4) =~= MAGIC@);
    assert(s.subrange(5, 21) =~= session_id);
    assert(s.subrange(21, 23) =~= be_bytes(streams as nat, 2));
}

/// Only the encoding of a handshake is accepted as that handshake: magic and
/// version apart, each byte belongs to the session id or to the stream count.
pub proof fn accepted_handshake_is_canonical(s: Seq<u8>, streams: u16)
    requires
        s.len() == HANDSHAKE_LEN,
        s.take(4) == MAGIC@,
        s[4] == VERSION,
        streams == be_value(s.subrange(21, 23)),
    ensures
        s == handshake_bytes(s.subrange(5, 21), streams),
{
    lemma_be_bytes_of_value(s.subrange(21, 23));
    assert(s =~= s.take(4) + seq![s[4]] + s.subrange(5, 21) + s.subrange(21, 23));
}

/// Where each part of a handshake stands: "mTCP", the version, the session id, and
/// the stream count with its high byte first.
pub proof fn handshake_layout(session_id: Seq<u8>, streams: u16)
    requires
        session_id.len() == 16,
    ensures
        ({
            let s = handshake_bytes(session_id, streams);
            &&& s.len() == 23
            &&& s[0] == 0x6d && s[1] == 0x54 && s[2] == 0x43 && s[3] == 0x50
            &&& s[4] == 1
            &&& forall|i: int| 0 <= i < 16 ==> s[5 + i] == #[trigger] session_id[i]
            &&& s[21] * 0x100 + s[22] == streams
        }),
{
    let s = handshake_bytes(session_id, streams);
    handshake_round_trip(session_id, streams);
    first_byte_weighs_most(s.subrange(21, 23));
    assert(s[0] == MAGIC@[0] && s[1] == MAGIC@[1] && s[2] == MAGIC@[2] && s[3] == MAGIC@[3]);
    assert forall|i: int| 0 <= i < 16 implies s[5 + i] == #[trigger] session_id[i] by {
        assert(s.subrange(5, 21)[i] == session_id[i]);
    }
}

/// A handshake is judged by its first five bytes: one that does not begin with
/// "mTCP" is refused as no handshake, one of another version as such, and every
/// other is accepted, whatever session id and stream count it carries.
pub proof fn handshakes_are_judged_by_their_beginning(s: Seq<u8>)
    requires
        s.len() == 23,
    ensures
        ({
            let begins = s[0] == 0x6d && s[1] == 0x54 && s[2] == 0x43 && s[3] == 0x50;
            &&& !begins <==> parse_handshake(s) == Err::<(Seq<u8>, u16), HandshakeError>(
                HandshakeError::BadMagic,
            )
            &&& begins && s[4] != 1 ==> parse_handshake(s) == Err::<
                (Seq<u8>, u16),
                HandshakeError,
            >(HandshakeError::UnsupportedVersion(s[4]))
            &&& begins && s[4] == 1 ==> {
                &&& parse_handshake(s) matches Ok((session_id, streams))
                &&& session_id == s.subrange(5, 21)
                &&& streams == s[21] * 0x100 + s[22]
            }
        }),
{
    first_byte_weighs_most(s.subrange(21, 23));
    let begins = s[0] == 0x6d && s[1] == 0x54 && s[2] == 0x43 && s[3] == 0x50;
    if begins {
        assert(s.take(4) =~= MAGIC@);
    } else {
        assert(exists|i: int| 0 <= i < 4 && s.take(4)[i] != MAGIC@[i]) by {
            assert(s.take(4)[0] == s[0] && s.take(4)[1] == s[1]);
            assert(s.take(4)[2] == s[2] && s.take(4)[3] == s[3]);
        }
    }
}

/// Distinguishes payload frames from the end-of-stream marker.
#[derive(Debug, Clone, Copy, PartialEq, Eq, Structural)]
pub enum FrameKind {
    /// Carries `payload` at position `seq` in the ordered stream.
    Data,
    /// Marks the end of a direction; `seq` is the total number of DATA frames.
    Fin,
}

/// A decoded frame read from a sub-connection.
#[derive(Debug)]
pub struct Frame {
    pub kind: FrameKind,
    pub seq: u64,
    pub payload: Vec<u8>,
}

/// The contents of a [`Frame`].
#[verifier::ext_equal]
pub struct FrameModel {
    pub kind: FrameKind,
    pub seq: u64,
    pub payload: Seq<u8>,
}

impl View for Frame {
    type V = FrameModel;

    open spec fn view(&self) -> FrameModel {
        FrameModel { kind: self.kind, seq: self.seq, payload: self.payload@ }
    }
}

/// A frame and its contents have the same kind, sequence and bytes.
pub proof fn frame_matches_its_contents(frame: Frame)
    ensures
        frame@.kind == frame.kind,
        frame@.seq == frame.seq,
        frame@.payload == frame.payload@,
{
}

/// The DATA frame that carries `payload` at position `seq`.
pub open spec fn data_frame(seq: u64, payload: Seq<u8>) -> FrameModel {
    FrameModel { kind: FrameKind::Data, seq, payload }
}

/// The FIN frame of a direction that consists of `final_seq` DATA frames.
pub open spec fn fin_frame(final_seq: u64) -> FrameModel {
    FrameModel { kind: FrameKind::Fin, seq: final_seq, payload: Seq::empty() }
}

/// The byte that stands for a frame kind on the wire.
pub open spec fn kind_byte(kind: FrameKind) -> u8 {
    match kind {
        FrameKind::Data => KIND_DATA,
        FrameKind::Fin => KIND_FIN,
    }
}

/// A frame on the wire: kind, sequence, payload length, payload.
pub open spec fn frame_bytes(frame: FrameModel) -> Seq<u8> {
    seq![kind_byte(frame.kind)] + be_bytes(frame.seq as nat, 8) + be_bytes(frame.payload.len(), 4)
        + frame.payload
}

/// Why bytes from a sub-connection are no frame.
#[derive(Debug, Clone, Copy, PartialEq, Eq, Structural)]
pub enum FrameError {
    /// The connection ended in the middle of a frame.
    UnexpectedEof,
    /// The header announces more than [`MAX_CHUNK`] payload bytes.
    PayloadTooLarge,
    /// The header carries a kind that does not exist.
    UnknownKind(u8),
}

/// What the bytes at the front of a sub-connection amount to.
#[verifier::ext_equal]
pub enum FrameParse {
    /// A whole frame.
    Complete(FrameModel),
    /// The beginning of a frame, or nothing.
    Incomplete,
    /// No frame, whatever follows.
    Malformed(FrameError),
}

/// The payload length that a frame header announces.
pub open spec fn announced_len(s: Seq<u8>) -> nat {
    be_value(s.subrange(9, 13))
}

/// Read the frame that `s` begins with. The announced length is judged as soon
/// as the header is there, the kind once the payload is there as well.
pub open spec fn parse_frame(s: Seq<u8>) -> FrameParse {
    if s.len() < FRAME_HEADER_LEN {
        FrameParse::Incomplete
    } else if announced_len(s) > MAX_CHUNK {
        FrameParse::Malformed(FrameError::PayloadTooLarge)
    } else if s.len() < FRAME_HEADER_LEN + announced_len(s) {
        FrameParse::Incomplete
    } else {
        let seq = be_value(s.subrange(1, 9)) as u64;
        let payload = s.subrange(13, 13 + announced_len(s) as int);
        if s[0] == KIND_DATA {
            FrameParse::Complete(FrameModel { kind: FrameKind::Data, seq, payload })
        } else if s[0] == KIND_FIN {
            FrameParse::Complete(FrameModel { kind: FrameKind::Fin, seq, payload })
        } else {
            FrameParse::Malformed(FrameError::UnknownKind(s[0]))
        }
    }
}

/// The number of bytes up to which a frame that begins with `s` can be read
/// without reading past its end, as far as `s` tells.
pub open spec fn known_extent(s: Seq<u8>) -> nat {
    if s.len() < FRAME_HEADER_LEN {
        FRAME_HEADER_LEN as nat
    } else {
        FRAME_HEADER_LEN as nat + announced_len(s)
    }
}

/// How many bytes are consumed in reading one frame off `s`, where nothing
/// follows `s`: a frame to its end, a header that announces too much without
/// what it announces, a frame that is cut off as far as it goes.
pub open spec fn consumed_len(s: Seq<u8>) -> nat {
    match parse_frame(s) {
        FrameParse::Incomplete => s.len(),
        FrameParse::Malformed(FrameError::PayloadTooLarge) => FRAME_HEADER_LEN as nat,
        _ => FRAME_HEADER_LEN as nat + announced_len(s),
    }
}

/// Encode a DATA frame for `payload` at sequence `seq`.
///
/// `payload` must not exceed [`MAX_CHUNK`]; callers chunk before encoding.
pub fn encode_data(seq: u64, payload: &[u8]) -> (buf: Vec<u8>)
    requires
        payload@.len() <= MAX_CHUNK,
    ensures
        buf@ == frame_bytes(data_frame(seq, payload@)),
{
    let mut buf: Vec<u8> = Vec::with_capacity(FRAME_HEADER_LEN + payload.len());
    buf.push(KIND_DATA);
    buf.extend_from_slice(to_be::<8>(seq).as_slice());
    buf.extend_from_slice(to_be::<4>(payload.len() as u64).as_slice());
    buf.extend_from_slice(payload);
    assert(buf@ =~= frame_bytes(data_frame(seq, payload@)));
    buf
}

/// Encode a FIN frame whose `final_seq` is the number of DATA frames sent, so
/// the peer knows the ordered stream is complete once it has delivered every
/// sequence below it.
pub fn encode_fin(final_seq: u64) -> (buf: Vec<u8>)
    ensures
        buf@ == frame_bytes(fin_frame(final_seq)),
        buf@.len() == FRAME_HEADER_LEN,
{
    let mut buf: Vec<u8> = Vec::with_capacity(FRAME_HEADER_LEN);
    buf.push(KIND_FIN);
    buf.extend_from_slice(to_be::<8>(final_seq).as_slice());
    buf.extend_from_slice(to_be::<4>(0).as_slice());
    proof {
        lemma_be_bytes_len(final_seq as nat, 8);
        lemma_be_bytes_len(0, 4);
        assert(buf@ =~= frame_bytes(fin_frame(final_seq)));
    }
    buf
}

pub proof fn lemma_frame_bytes_layout(frame: FrameModel)
    requires
        frame.payload.len() <= MAX_CHUNK,
    ensures
        frame_bytes(frame).len() == FRAME_HEADER_LEN + frame.payload.len(),
        frame_bytes(frame)[0] == kind_byte(frame.kind),
        be_value(frame_bytes(frame).subrange(1, 9)) == frame.seq,
        announced_len(frame_bytes(frame)) == frame.payload.len(),
        frame_bytes(frame).subrange(13, 13 + frame.payload.len() as int) == frame.payload,
{
    let s = frame_bytes(frame);
    lemma_be_bytes_len(frame.seq as nat, 8);
    lemma_be_bytes_len(frame.payload.len(), 4);
    lemma_be_range_values();
    lemma_be_value_of_bytes(frame.seq as nat, 8);
    lemma_be_value_of_bytes(frame.payload.len(), 4);
    assert(s.subrange(1, 9) =~= be_bytes(frame.seq as nat, 8));
    assert(s.subrange(9, 13) =~= be_bytes(frame.payload.len(), 4));
    assert(s.subrange(13, 13 + frame.payload.len() as int) =~= frame.payload);
}

/// The number in eight bytes from the second one on, high byte first: where a
/// frame carries its sequence.
pub open spec fn wire_seq(s: Seq<u8>) -> int {
    s[1] * 0x100_0000_0000_0000 + s[2] * 0x1_0000_0000_0000 + s[3] * 0x100_0000_0000 + s[4]
        * 0x1_0000_0000 + s[5] * 0x100_0000 + s[6] * 0x1_0000 + s[7] * 0x100 + s[8]
}

/// The number in the four bytes after that, high byte first: where a frame
/// announces the length of its payload.
pub open spec fn wire_len(s: Seq<u8>) -> int {
    s[9] * 0x100_0000 + s[10] * 0x1_0000 + s[11] * 0x100 + s[12]
}

proof fn lemma_wire_numbers(s: Seq<u8>)
    requires
        s.len() >= FRAME_HEADER_LEN,
    ensures
        be_value(s.subrange(1, 9)) == wire_seq(s) <= u64::MAX,
        announced_len(s) == wire_len(s),
{
    first_byte_weighs_most(s.subrange(1, 9));
    first_byte_weighs_most(s.subrange(9, 13));
    lemma_be_value_bound(s.subrange(1, 9));
    lemma_be_range_values();
}

/// Where each part of a frame stands: the kind, zero for DATA and one for FIN, the
/// sequence and the payload's length with the high bytes first, the payload. A
/// FIN has no payload.
pub proof fn frame_layout(seq: u64, payload: Seq<u8>)
    requires
        payload.len() <= 65536,
    ensures
        ({
            let s = frame_bytes(data_frame(seq, payload));
            &&& s.len() == 13 + payload.len()
            &&& s[0] == 0
            &&& wire_seq(s) == seq
            &&& wire_len(s) == payload.len()
            &&& s.skip(13) == payload
        }),
        ({
            let s = frame_bytes(fin_frame(seq));
            &&& s.len() == 13
            &&& s[0] == 1
            &&& wire_seq(s) == seq
            &&& wire_len(s) == 0
        }),
{
    let s = frame_bytes(data_frame(seq, payload));
    lemma_frame_bytes_layout(data_frame(seq, payload));
    lemma_frame_bytes_layout(fin_frame(seq));
    lemma_wire_numbers(s);
    lemma_wire_numbers(frame_bytes(fin_frame(seq)));
    assert(s.skip(13) =~= s.subrange(13, 13 + payload.len() as int));
}

/// What bytes amount to, by the places of a frame: a header is awaited in full; a
/// length beyond the largest chunk is refused at once; the payload is awaited in
/// full; then only the two kinds are accepted.
pub proof fn frames_are_judged_by_their_header(s: Seq<u8>)
    ensures
        s.len() < 13 ==> parse_frame(s) is Incomplete,
        s.len() >= 13 && wire_len(s) > 65536 ==> parse_frame(s) == FrameParse::Malformed(
            FrameError::PayloadTooLarge,
        ),
        s.len() >= 13 && wire_len(s) <= 65536 && s.len() < 13 + wire_len(s) ==> parse_frame(
            s,
        ) is Incomplete,
        s.len() >= 13 && wire_len(s) <= 65536 && s.len() >= 13 + wire_len(s) ==> {
            if s[0] > 1 {
                parse_frame(s) == FrameParse::Malformed(FrameError::UnknownKind(s[0]))
            } else {
                &&& parse_frame(s) matches FrameParse::Complete(frame)
                &&& frame.kind is Data <==> s[0] == 0
                &&& frame.kind is Fin <==> s[0] == 1
                &&& frame.seq == wire_seq(s)
                &&& frame.payload == s.subrange(13, 13 + wire_len(s))
            }
        },
{
    if s.len() >= FRAME_HEADER_LEN {
        lemma_wire_numbers(s);
    }
}

/// Reading one frame takes its bytes and leaves exactly what follows it.
pub proof fn reading_leaves_what_follows(frame: FrameModel, rest: Seq<u8>)
    requires
        frame.payload.len() <= MAX_CHUNK,
    ensures
        consumed_len(frame_bytes(frame) + rest) == frame_bytes(frame).len(),
        (frame_bytes(frame) + rest).skip(
            consumed_len(frame_bytes(frame) + rest) as int,
        ) == rest,
{
    let s = frame_bytes(frame);
    frame_round_trip(frame, rest);
    lemma_frame_bytes_layout(frame);
    assert((s + rest).subrange(9, 13) =~= s.subrange(9, 13));
    assert((s + rest).skip(s.len() as int) =~= rest);
}

/// What cannot be read as a frame is consumed as far as it was looked at: all of a
/// frame that is cut off, the header alone if it announces too much, header and
/// payload if the kind does not exist.
pub proof fn refused_bytes_are_consumed(s: Seq<u8>)
    ensures
        parse_frame(s) is Incomplete ==> consumed_len(s) == s.len(),
        parse_frame(s) == FrameParse::Malformed(FrameError::PayloadTooLarge) ==> consumed_len(s)
            == 13,
        parse_frame(s) matches FrameParse::Malformed(FrameError::UnknownKind(_)) ==> consumed_len(s)
            == 13 + wire_len(s) <= s.len(),
{
    if s.len() >= FRAME_HEADER_LEN {
        lemma_wire_numbers(s);
    }
}

/// As much of a frame is asked for as is known to belong to it: the header until
/// that is there, and then the rest of the frame, to its last byte.
pub proof fn a_frame_is_wanted_to_its_end(frame: FrameModel, n: int)
    requires
        frame.payload.len() <= MAX_CHUNK,
        0 <= n <= frame_bytes(frame).len(),
    ensures
        known_extent(frame_bytes(frame).take(n)) == if n < 13 {
            13
        } else {
            frame_bytes(frame).len()
        },
{
    lemma_frame_bytes_layout(frame);
    if n >= 13 {
        assert(frame_bytes(frame).take(n).subrange(9, 13) =~= frame_bytes(frame).subrange(9, 13));
    }
}

/// A frame that was encoded is read back, whatever follows it.
pub proof fn frame_round_trip(frame: FrameModel, rest: Seq<u8>)
    requires
        frame.payload.len() <= MAX_CHUNK,
    ensures
        parse_frame(frame_bytes(frame) + rest) == FrameParse::Complete(frame),
{
    let s = frame_bytes(frame);
    let t = s + rest;
    lemma_frame_bytes_layout(frame);
    assert(t.subrange(1, 9) =~= s.subrange(1, 9));
    assert(t.subrange(9, 13) =~= s.subrange(9, 13));
    assert(t.subrange(13, 13 + frame.payload.len() as int) =~= s.subrange(
        13,
        13 + frame.payload.len() as int,
    ));
}

/// Only the encoding of a frame is read as that frame.
pub proof fn accepted_frame_is_canonical(s: Seq<u8>, frame: FrameModel)
    requires
        parse_frame(s) == FrameParse::Complete(frame),
    ensures
        frame.payload.len() <= MAX_CHUNK,
        FRAME_HEADER_LEN + frame.payload.len() <= s.len(),
        s.take(FRAME_HEADER_LEN + frame.payload.len() as int) == frame_bytes(frame),
{
    lemma_be_value_bound(s.subrange(1, 9));
    lemma_be_range_values();
    lemma_be_bytes_of_value(s.subrange(1, 9));
    lemma_be_bytes_of_value(s.subrange(9, 13));
    assert(s.take(FRAME_HEADER_LEN + frame.payload.len() as int) =~= seq![s[0]] + s.subrange(1, 9)
        + s.subrange(9, 13) + s.subrange(13, 13 + frame.payload.len() as int));
}

/// Once bytes amount to a frame or to an error, more bytes change nothing.
pub proof fn parse_is_decided_by_a_prefix(s: Seq<u8>, more: Seq<u8>)
    requires
        !(parse_frame(s) is Incomplete),
    ensures
        parse_frame(s + more) == parse_frame(s),
{
    let t = s + more;
    assert(t.subrange(1, 9) =~= s.subrange(1, 9));
    assert(t.subrange(9, 13) =~= s.subrange(9, 13));
    if announced_len(s) <= MAX_CHUNK {
        assert(t.subrange(13, 13 + announced_len(s) as int) =~= s.subrange(
            13,
            13 + announced_len(s) as int,
        ));
    }
}

/// A frame that is taken piece by piece, never past its known extent, ends
/// exactly where its last piece ends.
pub proof fn lemma_complete_at_extent(s: Seq<u8>, more: Seq<u8>, frame: FrameModel)
    requires
        s.len() + more.len() <= known_extent(s),
        parse_frame(s + more) == FrameParse::Complete(frame),
    ensures
        s + more == frame_bytes(frame),
{
    let t = s + more;
    if s.len() >= FRAME_HEADER_LEN {
        assert(t.subrange(9, 13) =~= s.subrange(9, 13));
    }
    accepted_frame_is_canonical(t, frame);
    assert(t.take(t.len() as int) =~= t);
}

/// Short of its known extent a frame stays incomplete.
pub proof fn lemma_incomplete_below_extent(s: Seq<u8>, more: Seq<u8>)
    requires
        parse_frame(s) is Incomplete,
        s.len() + more.len() < known_extent(s),
    ensures
        parse_frame(s + more) is Incomplete,
{
    if s.len() >= FRAME_HEADER_LEN {
        assert((s + more).subrange(9, 13) =~= s.subrange(9, 13));
    }
}

/// The frames at the front of `s`, up to the first incomplete or malformed one.
pub open spec fn parse_stream(s: Seq<u8>) -> Seq<FrameModel>
    decreases s.len(),
{
    match parse_frame(s) {
        FrameParse::Complete(frame) => seq![frame] + parse_stream(
            s.skip(FRAME_HEADER_LEN + announced_len(s) as int),
        ),
        _ => Seq::empty(),
    }
}

/// Frames written back to back.
pub open spec fn stream_bytes(frames: Seq<FrameModel>) -> Seq<u8> {
    frames.map_values(|f: FrameModel| frame_bytes(f)).flatten()
}

pub proof fn lemma_stream_bytes_first(frames: Seq<FrameModel>)
    requires
        frames.len() > 0,
    ensures
        stream_bytes(frames) == frame_bytes(frames.first()) + stream_bytes(frames.drop_first()),
{
    let f = |f: FrameModel| frame_bytes(f);
    assert(frames.map_values(f).drop_first() =~= frames.drop_first().map_values(f));
}

/// Frames written back to back are read back in that order, and whatever
/// follows them is read as if it stood alone.
pub proof fn stream_round_trip(frames: Seq<FrameModel>, rest: Seq<u8>)
    requires
        forall|i: int| 0 <= i < frames.len() ==> (#[trigger] frames[i]).payload.len() <= MAX_CHUNK,
    ensures
        parse_stream(stream_bytes(frames) + rest) == frames + parse_stream(rest),
    decreases frames.len(),
{
    if frames.len() == 0 {
        assert(stream_bytes(frames) + rest =~= rest);
        assert(frames + parse_stream(rest) =~= parse_stream(rest));
    } else {
        let first = frames.first();
        let tail = frames.drop_first();
        let s = stream_bytes(frames) + rest;
        lemma_stream_bytes_first(frames);
        assert(s =~= frame_bytes(first) + (stream_bytes(tail) + rest));
        frame_round_trip(first, stream_bytes(tail) + rest);
        lemma_frame_bytes_layout(first);
        assert(s.subrange(9, 13) =~= frame_bytes(first).subrange(9, 13));
        assert(s.skip(FRAME_HEADER_LEN + announced_len(s) as int) =~= stream_bytes(tail) + rest);
        stream_round_trip(tail, rest);
        assert(seq![first] + (tail + parse_stream(rest)) =~= frames + parse_stream(rest));
    }
}

/// Reassembles the frames of one sub-connection from the pieces in which its
/// bytes arrive.
#[derive(Debug)]
pub struct FrameReader {
    /// The bytes of the current frame that have arrived.
    buf: Vec<u8>,
    /// How many bytes the current frame is known to have.
    extent: usize,
}

impl View for FrameReader {
    type V = Seq<u8>;

    /// The bytes of the current frame that have arrived.
    closed spec fn view(&self) -> Seq<u8> {
        self.buf@
    }
}

impl FrameReader {
    /// The current frame is under way: neither complete nor malformed.
    pub closed spec fn wf(&self) -> bool {
        &&& self.extent == known_extent(self.buf@)
        &&& self.buf@.len() < self.extent <= FRAME_HEADER_LEN + MAX_CHUNK
    }

    /// A reader at a frame boundary.
    pub fn new() -> (reader: FrameReader)
        ensures
            reader.wf(),
            reader@ == Seq::<u8>::empty(),
    {
        FrameReader { buf: Vec::new(), extent: FRAME_HEADER_LEN }
    }

    /// How many bytes can be taken without reading past the current frame.
    pub fn wanted(&self) -> (n: usize)
        requires
            self.wf(),
        ensures
            n > 0,
            n == known_extent(self@) - self@.len(),
    {
        self.extent - self.buf.len()
    }

    /// Take the next bytes of the connection, at most as many as wanted.
    ///
    /// Gives the frame that they complete, if they complete one. After a frame
    /// or an error the reader is at a frame boundary.
    pub fn push(&mut self, bytes: &[u8]) -> (r: Result<Option<Frame>, FrameError>)
        requires
            old(self).wf(),
            old(self)@.len() + bytes@.len() <= known_extent(old(self)@),
        ensures
            final(self).wf(),
            match parse_frame(old(self)@ + bytes@) {
                FrameParse::Complete(frame) => {
                    &&& r matches Ok(Some(f)) && f@ == frame
                    &&& final(self)@ == Seq::<u8>::empty()
                },
                FrameParse::Incomplete => {
                    &&& r matches Ok(None)
                    &&& final(self)@ == old(self)@ + bytes@
                },
                FrameParse::Malformed(e) => {
                    &&& r == Err::<Option<Frame>, FrameError>(e)
                    &&& final(self)@ == Seq::<u8>::empty()
                },
            },
    {
        let ghost before = self.buf@;
        self.buf.extend_from_slice(bytes);
        let ghost s = self.buf@;
        assert(s =~= before + bytes@);
        if self.buf.len() < FRAME_HEADER_LEN {
            return Ok(None);
        }
        let len: u128 = from_be(slice_subrange(self.buf.as_slice(), 9, 13));
        if len > MAX_CHUNK as u128 {
            self.buf = Vec::new();
            self.extent = FRAME_HEADER_LEN;
            return Err(FrameError::PayloadTooLarge);
        }
        self.extent = FRAME_HEADER_LEN + len as usize;
        if self.buf.len() < self.extent {
            return Ok(None);
        }
        proof {
            lemma_be_value_bound(s.subrange(1, 9));
            lemma_be_range_values();
            if before.len() >= FRAME_HEADER_LEN {
                assert(s.subrange(9, 13) =~= before.subrange(9, 13));
            }
        }
        let kind: u8 = self.buf[0];
        let seq: u64 = from_be(slice_subrange(self.buf.as_slice(), 1, 9)) as u64;
        let payload: Vec<u8> = self.buf.split_off(FRAME_HEADER_LEN);
        self.buf = Vec::new();
        self.extent = FRAME_HEADER_LEN;
        assert(payload@ =~= s.subrange(13, 13 + announced_len(s) as int));
        if kind == KIND_DATA {
            Ok(Some(Frame { kind: FrameKind::Data, seq, payload }))
        } else if kind == KIND_FIN {
            Ok(Some(Frame { kind: FrameKind::Fin, seq, payload }))
        } else {
            Err(FrameError::UnknownKind(kind))
        }
    }

    /// Judge the end of the connection: clean at a frame boundary, an error in
    /// the middle of a frame.
    pub fn end(&self) -> (r: Result<(), FrameError>)
        requires
            self.wf(),
        ensures
            r == (if self@.len() == 0 {
                Ok::<(), FrameError>(())
            } else {
                Err::<(), FrameError>(FrameError::UnexpectedEof)
            }),
    {
        if self.buf.len() == 0 {
            Ok(())
        } else {
            Err(FrameError::UnexpectedEof)
        }
    }
}

/// `pieces` can be pushed one after the other into a reader that holds `held`:
/// none of them reaches past the frame that is current when it is pushed.
pub open spec fn well_cut(held: Seq<u8>, pieces: Seq<Seq<u8>>) -> bool
    decreases pieces.len(),
{
    pieces.len() > 0 ==> {
        &&& held.len() + pieces.first().len() <= known_extent(held)
        &&& match parse_frame(held + pieces.first()) {
            FrameParse::Complete(frame) => well_cut(Seq::empty(), pieces.drop_first()),
            FrameParse::Incomplete => well_cut(held + pieces.first(), pieces.drop_first()),
            FrameParse::Malformed(e) => true,
        }
    }
}

/// The frames that a reader that holds `held` gives when `pieces` are pushed
/// one after the other, up to the first error.
pub open spec fn frames_pushed(held: Seq<u8>, pieces: Seq<Seq<u8>>) -> Seq<FrameModel>
    decreases pieces.len(),
{
    if pieces.len() == 0 {
        Seq::empty()
    } else {
        match parse_frame(held + pieces.first()) {
            FrameParse::Complete(frame) => seq![frame] + frames_pushed(
                Seq::empty(),
                pieces.drop_first(),
            ),
            FrameParse::Incomplete => frames_pushed(held + pieces.first(), pieces.drop_first()),
            FrameParse::Malformed(e) => Seq::empty(),
        }
    }
}

/// How the network cuts the bytes of a connection into pieces does not matter:
/// the frames are those of the bytes joined together.
pub proof fn frames_do_not_depend_on_cuts(held: Seq<u8>, pieces: Seq<Seq<u8>>)
    requires
        parse_frame(held) is Incomplete,
        well_cut(held, pieces),
    ensures
        frames_pushed(held, pieces) == parse_stream(held + pieces.flatten()),
    decreases pieces.len(),
{
    if pieces.len() == 0 {
        assert(held + pieces.flatten() =~= held);
    } else {
        let now = held + pieces.first();
        let rest = pieces.drop_first();
        assert(held + pieces.flatten() =~= now + rest.flatten());
        match parse_frame(now) {
            FrameParse::Complete(frame) => {
                lemma_complete_at_extent(held, pieces.first(), frame);
                accepted_frame_is_canonical(now, frame);
                frames_do_not_depend_on_cuts(Seq::empty(), rest);
                assert(Seq::<u8>::empty() + rest.flatten() =~= rest.flatten());
                lemma_stream_bytes_first(seq![frame]);
                assert(seq![frame].drop_first() =~= Seq::<FrameModel>::empty());
                assert(stream_bytes(seq![frame]) =~= now);
                stream_round_trip(seq![frame], rest.flatten());
            },
            FrameParse::Incomplete => {
                frames_do_not_depend_on_cuts(now, rest);
            },
            FrameParse::Malformed(e) => {
                parse_is_decided_by_a_prefix(now, rest.flatten());
            },
        }
    }
}

/// Read one frame from the front of `input`, which holds all that is left of a
/// connection, and move `input` past what was read.
///
/// Returns `Ok(None)` on a clean EOF at a frame boundary (the peer closed the
/// connection between frames). An EOF in the middle of a frame is surfaced as
/// an error, as is a malformed header.
pub fn read_frame(input: &mut &[u8]) -> (r: Result<Option<Frame>, FrameError>)
    ensures
        match parse_frame(old(input)@) {
            FrameParse::Complete(frame) => r matches Ok(Some(f)) && f@ == frame,
            FrameParse::Incomplete => if old(input)@.len() == 0 {
                r == Ok::<Option<Frame>, FrameError>(None)
            } else {
                r == Err::<Option<Frame>, FrameError>(FrameError::UnexpectedEof)
            },
            FrameParse::Malformed(e) => r == Err::<Option<Frame>, FrameError>(e),
        },
        final(input)@ == old(input)@.skip(consumed_len(old(input)@) as int),
{
    let all: &[u8] = *input;
    let mut reader: FrameReader = FrameReader::new();
    let mut taken: usize = 0;
    assert(all@.take(0) =~= Seq::<u8>::empty());
    loop
        invariant
            reader.wf(),
            taken <= all@.len(),
            reader@ == all@.take(taken as int),
            taken == 0 || taken == FRAME_HEADER_LEN,
            all@ == old(input)@,
            input@ == all@,
        decreases all@.len() - taken,
    {
        let wanted: usize = reader.wanted();
        let ghost before = all@.take(taken as int);
        if all.len() - taken < wanted {
            let rest: &[u8] = slice_subrange(all, taken, all.len());
            assert(before + rest@ =~= all@);
            proof {
                lemma_incomplete_below_extent(before, rest@);
            }
            let _ = reader.push(rest);
            *input = slice_subrange(all, all.len(), all.len());
            assert(input@ =~= all@.skip(all@.len() as int));
            return match reader.end() {
                Ok(()) => Ok(None),
                Err(e) => Err(e),
            };
        }
        let piece: &[u8] = slice_subrange(all, taken, taken + wanted);
        assert(before + piece@ =~= all@.take(taken + wanted));
        assert(all@.take(taken + wanted) + all@.skip(taken + wanted) =~= all@);
        taken = taken + wanted;
        proof {
            assert(all@.subrange(9, 13) =~= all@.take(taken as int).subrange(9, 13));
            if before.len() == FRAME_HEADER_LEN {
                assert(all@.subrange(9, 13) =~= before.subrange(9, 13));
            }
        }
        let pushed: Result<Option<Frame>, FrameError> = reader.push(piece);
        proof {
            if !(parse_frame(all@.take(taken as int)) is Incomplete) {
                parse_is_decided_by_a_prefix(all@.take(taken as int), all@.skip(taken as int));
            }
        }
        match pushed {
            Ok(None) => {},
            Ok(Some(frame)) => {
                *input = slice_subrange(all, taken, all.len());
                return Ok(Some(frame));
            },
            Err(e) => {
                *input = slice_subrange(all, taken, all.len());
                return Err(e);
            },
        }
    }
}

} // verus!
