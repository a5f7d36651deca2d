//! The tunnel as a whole: from one application's bytes to the other's.
//!
//! One direction of a logical stream is a dispatcher at one end, several
//! sub-connections that each carry some of its frames, and a reassembler at the
//! other end that receives what was read off the sub-connections, in any order.

use vstd::prelude::*;

use crate::protocol::{FRAME_HEADER_LEN, MAX_CHUNK};

verus! {

use crate::delivery::{
    all_arrived_means_all_written, arrived, belongs, carries, is_frame_of, state_after, written_in,
    written_is_a_prefix_of_the_stream,
};
use crate::dispatcher::UplinkActionModel;
use crate::downlink::DownlinkEvent;
use crate::protocol::{
    announced_len, data_frame, fin_frame, frame_bytes, frame_round_trip, parse_frame,
    parse_is_decided_by_a_prefix, parse_stream, stream_bytes, stream_round_trip, FrameModel,
    FrameParse,
};
use crate::sequencing::{
    chunks_read, fin_follows_every_chunk, frames_follow_reading_order, frames_sent, numbered,
    DispatchStep,
};

/// One sub-connection, seen from outside.
pub struct Link {
    /// The encoded frames that its writer took, in order.
    pub taken: Seq<Seq<u8>>,
    /// The bytes that reached the other end.
    pub arrived: Seq<u8>,
}

impl Link {
    /// TCP delivers a beginning of what was written, byte for byte.
    pub open spec fn is_ordered(self) -> bool {
        self.arrived.is_prefix_of(self.taken.flatten())
    }

    /// The connection was closed cleanly: everything reached the other end.
    pub open spec fn lost_nothing(self) -> bool {
        self.arrived == self.taken.flatten()
    }
}

/// `encoded` is a frame that the dispatcher handed out: a DATA frame that a
/// writer took, or the FIN, if there was a live writer to take it.
pub open spec fn handed_out(encoded: Seq<u8>, sent: Seq<DispatchStep>) -> bool {
    ||| frames_sent(sent).contains(encoded)
    ||| crate::sequencing::asked_after(sent) matches UplinkActionModel::Fin { writers, frame }
        && writers.len() > 0 && frame == encoded
}

/// The links carry nothing but what the dispatcher handed out, and the
/// reassembler received nothing but what was read off the links.
pub open spec fn connected(
    sent: Seq<DispatchStep>,
    links: Seq<Link>,
    run: Seq<DownlinkEvent>,
) -> bool {
    &&& crate::sequencing::possible(sent)
    &&& crate::delivery::possible(run)
    &&& forall|c: int|
        0 <= c < links.len() ==> (#[trigger] links[c]).is_ordered() && forall|k: int|
            0 <= k < links[c].taken.len() ==> handed_out(#[trigger] links[c].taken[k], sent)
    &&& forall|i: int| 0 <= i < run.len() ==> was_read(#[trigger] run[i], links)
}

/// If `event` is a frame, it was read off one of the links.
pub open spec fn was_read(event: DownlinkEvent, links: Seq<Link>) -> bool {
    event matches DownlinkEvent::Frame(frame) ==> exists|c: int|
        0 <= c < links.len() && parse_stream(#[trigger] links[c].arrived).contains(frame)
}

/// The frame `encoded` is on a link that lost nothing.
pub open spec fn safely_carried(encoded: Seq<u8>, links: Seq<Link>) -> bool {
    exists|c: int|
        0 <= c < links.len() && (#[trigger] links[c]).lost_nothing() && links[c].taken.contains(
            encoded,
        )
}

/// What is read off the beginning of a byte string is the beginning of what is
/// read off all of it.
pub proof fn lemma_parse_stream_monotone(s: Seq<u8>, more: Seq<u8>)
    ensures
        parse_stream(s).is_prefix_of(parse_stream(s + more)),
    decreases s.len(),
{
    match parse_frame(s) {
        FrameParse::Complete(frame) => {
            let t = s + more;
            parse_is_decided_by_a_prefix(s, more);
            assert(t.subrange(9, 13) =~= s.subrange(9, 13));
            let n = FRAME_HEADER_LEN + announced_len(s) as int;
            assert(t.skip(n) =~= s.skip(n) + more);
            lemma_parse_stream_monotone(s.skip(n), more);
        },
        _ => {},
    }
}

/// A handed-out frame is the encoding of a frame of the stream.
proof fn lemma_handed_out_belongs(encoded: Seq<u8>, sent: Seq<DispatchStep>) -> (frame: FrameModel)
    requires
        crate::sequencing::possible(sent),
        handed_out(encoded, sent),
    ensures
        encoded == frame_bytes(frame),
        frame.payload.len() <= MAX_CHUNK,
        is_frame_of(frame, chunks_read(sent)),
{
    let chunks = chunks_read(sent);
    frames_follow_reading_order(sent);
    crate::sequencing::lemma_dispatcher_reflects_run(sent);
    if frames_sent(sent).contains(encoded) {
        let i = choose|i: int| 0 <= i < frames_sent(sent).len() && frames_sent(sent)[i] == encoded;
        assert(numbered(chunks)[i] == frame_bytes(data_frame(i as u64, chunks[i])));
        assert(chunks[i].len() <= MAX_CHUNK);
        data_frame(i as u64, chunks[i])
    } else {
        fin_follows_every_chunk(sent);
        fin_frame(chunks.len() as u64)
    }
}

/// `frame` is a frame of the stream, and `encoded` its encoding.
spec fn decodes(encoded: Seq<u8>, frame: FrameModel, sent: Seq<DispatchStep>) -> bool {
    &&& is_frame_of(frame, chunks_read(sent))
    &&& frame.payload.len() <= MAX_CHUNK
    &&& frame_bytes(frame) == encoded
}

/// The frames read off a link are those of its encoded frames, from the front.
proof fn lemma_link_frames(sent: Seq<DispatchStep>, link: Link) -> (frames: Seq<FrameModel>)
    requires
        crate::sequencing::possible(sent),
        link.is_ordered(),
        forall|k: int| 0 <= k < link.taken.len() ==> handed_out(#[trigger] link.taken[k], sent),
    ensures
        frames.len() == link.taken.len(),
        forall|k: int|
            0 <= k < frames.len() ==> decodes(link.taken[k], #[trigger] frames[k], sent),
        parse_stream(link.arrived).is_prefix_of(frames),
        link.lost_nothing() ==> parse_stream(link.arrived) == frames,
{
    let frames = Seq::new(
        link.taken.len(),
        |k: int| choose|frame: FrameModel| decodes(link.taken[k], frame, sent),
    );
    assert forall|k: int| 0 <= k < frames.len() implies decodes(
        link.taken[k],
        #[trigger] frames[k],
        sent,
    ) by {
        assert(handed_out(link.taken[k], sent));
        let frame = lemma_handed_out_belongs(link.taken[k], sent);
        assert(decodes(link.taken[k], frame, sent));
    }
    assert(frames.map_values(|f: FrameModel| frame_bytes(f)) =~= link.taken);
    let all = link.taken.flatten();
    let none = Seq::<u8>::empty();
    stream_round_trip(frames, none);
    assert(stream_bytes(frames) + none =~= all);
    assert(parse_stream(none) =~= Seq::<FrameModel>::empty());
    assert(frames + parse_stream(none) =~= frames);
    let rest = all.skip(link.arrived.len() as int);
    assert(link.arrived + rest =~= all);
    lemma_parse_stream_monotone(link.arrived, rest);
    frames
}

proof fn lemma_run_carries_chunks(
    sent: Seq<DispatchStep>,
    links: Seq<Link>,
    run: Seq<DownlinkEvent>,
)
    requires
        connected(sent, links, run),
    ensures
        carries(run, chunks_read(sent)),
{
    let chunks = chunks_read(sent);
    assert forall|i: int| 0 <= i < run.len() implies belongs(#[trigger] run[i], chunks) by {
        assert(was_read(run[i], links));
        if let DownlinkEvent::Frame(frame) = run[i] {
            let c = choose|c: int|
                0 <= c < links.len() && parse_stream(#[trigger] links[c].arrived).contains(frame);
            assert(links[c].is_ordered());
            let frames = lemma_link_frames(sent, links[c]);
            let parsed = parse_stream(links[c].arrived);
            let k = choose|k: int| 0 <= k < parsed.len() && parsed[k] == frame;
            assert(frames[k] == frame);
        }
    }
}

/// Whatever the network does (frames racing each other, connections cut off at
/// any byte), what one application gets is a beginning of what the other
/// sent: intact and in order.
pub proof fn tunnel_is_intact_and_ordered(
    sent: Seq<DispatchStep>,
    links: Seq<Link>,
    run: Seq<DownlinkEvent>,
)
    requires
        connected(sent, links, run),
    ensures
        written_in(run).is_prefix_of(chunks_read(sent)),
        written_in(run).flatten().is_prefix_of(chunks_read(sent).flatten()),
{
    let chunks = chunks_read(sent);
    lemma_run_carries_chunks(sent, links, run);
    written_is_a_prefix_of_the_stream(run, chunks);
    let n = written_in(run).len() as int;
    assert(chunks.take(n) + chunks.skip(n) =~= chunks);
    vstd::seq_lib::lemma_flatten_concat(chunks.take(n), chunks.skip(n));
}

/// If every frame is on some connection that was closed cleanly, the other
/// application gets the whole stream once all of them have been received, and
/// the stream is closed if any connection was alive to carry the FIN. The loss
/// of connections that carried nothing else does no harm.
pub proof fn tunnel_delivers_everything(
    sent: Seq<DispatchStep>,
    links: Seq<Link>,
    run: Seq<DownlinkEvent>,
)
    requires
        connected(sent, links, run),
        crate::sequencing::asked_after(sent) is Fin,
        forall|encoded: Seq<u8>|
            handed_out(encoded, sent) ==> #[trigger] safely_carried(encoded, links),
        forall|c: int, frame: FrameModel|
            0 <= c < links.len() && #[trigger] parse_stream(links[c].arrived).contains(frame)
                ==> run.contains(DownlinkEvent::Frame(frame)),
        !(state_after(run).phase is Writing),
        !(run.len() > 0 && run.last() is WriteFailed),
    ensures
        written_in(run) == chunks_read(sent),
        written_in(run).flatten() == chunks_read(sent).flatten(),
        crate::sequencing::asked_after(sent)->Fin_writers.len() > 0 ==> state_after(run).phase
            is Done,
{
    let chunks = chunks_read(sent);
    lemma_run_carries_chunks(sent, links, run);
    frames_follow_reading_order(sent);
    fin_follows_every_chunk(sent);
    assert forall|frame: FrameModel|
        handed_out(frame_bytes(frame), sent) && frame.payload.len()
            <= MAX_CHUNK implies #[trigger] run.contains(DownlinkEvent::Frame(frame)) by {
        assert(safely_carried(frame_bytes(frame), links));
        let c = choose|c: int|
            0 <= c < links.len() && (#[trigger] links[c]).lost_nothing()
                && links[c].taken.contains(frame_bytes(frame));
        assert(links[c].is_ordered());
        let frames = lemma_link_frames(sent, links[c]);
        let k = choose|k: int|
            0 <= k < links[c].taken.len() && links[c].taken[k] == frame_bytes(frame);
        let none = Seq::<u8>::empty();
        frame_round_trip(frame, none);
        frame_round_trip(frames[k], none);
        assert(frames[k] == frame);
        assert(parse_stream(links[c].arrived)[k] == frame);
        assert(parse_stream(links[c].arrived).contains(frame));
    }
    assert forall|seq: u64| seq < chunks.len() implies #[trigger] arrived(run, chunks, seq) by {
        let frame = data_frame(seq, chunks[seq as int]);
        assert(frames_sent(sent)[seq as int] == frame_bytes(frame));
        assert(chunks[seq as int].len() <= MAX_CHUNK);
        assert(run.contains(DownlinkEvent::Frame(frame)));
    }
    let fin = fin_frame(chunks.len() as u64);
    if crate::sequencing::asked_after(sent)->Fin_writers.len() > 0 {
        assert(handed_out(frame_bytes(fin), sent));
        assert(run.contains(DownlinkEvent::Frame(fin)));
    }
    all_arrived_means_all_written(run, chunks);
}

} // verus!
