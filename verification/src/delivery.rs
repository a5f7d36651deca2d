//! What a reassembler writes over a whole run.
//!
//! A run is the sequence of events that a [`Reassembler`] has taken. Whatever
//! the order in which frames arrive, the application gets the payloads in
//! sequence, each once, up to the first sequence that is missing.
//!
//! [`Reassembler`]: crate::downlink::Reassembler

use vstd::prelude::*;

use crate::protocol::FrameKind;

verus! {

use crate::downlink::{DownlinkActionModel, DownlinkEvent, DownlinkPhase, ReassemblerModel};
use crate::protocol::{data_frame, fin_frame, FrameModel};

/// The state after a run.
pub open spec fn state_after(run: Seq<DownlinkEvent>) -> ReassemblerModel
    decreases run.len(),
{
    if run.len() == 0 {
        ReassemblerModel::initial()
    } else {
        state_after(run.drop_last()).step(run.last()).0
    }
}

/// What the reassembler asks for after a run.
pub open spec fn asked_after(run: Seq<DownlinkEvent>) -> DownlinkActionModel {
    if run.len() == 0 {
        DownlinkActionModel::Receive
    } else {
        state_after(run.drop_last()).step(run.last()).1
    }
}

/// Each event of the run answered what the reassembler waited for.
pub open spec fn possible(run: Seq<DownlinkEvent>) -> bool
    decreases run.len(),
{
    run.len() > 0 ==> possible(run.drop_last()) && state_after(run.drop_last()).expects(run.last())
}

/// The payloads that the application has got, in the order in which it got them.
pub open spec fn written_in(run: Seq<DownlinkEvent>) -> Seq<Seq<u8>>
    decreases run.len(),
{
    if run.len() == 0 {
        Seq::empty()
    } else if run.last() is Written {
        written_in(run.drop_last()).push(asked_after(run.drop_last())->Write_0)
    } else {
        written_in(run.drop_last())
    }
}

/// The payload of the first DATA frame of each sequence that arrived.
pub open spec fn received_in(run: Seq<DownlinkEvent>) -> Map<u64, Seq<u8>>
    decreases run.len(),
{
    if run.len() == 0 {
        Map::empty()
    } else {
        let before = received_in(run.drop_last());
        match run.last() {
            DownlinkEvent::Frame(frame) => if frame.kind is Data && !before.contains_key(
                frame.seq,
            ) {
                before.insert(frame.seq, frame.payload)
            } else {
                before
            },
            _ => before,
        }
    }
}

/// What the last FIN of the run said.
pub open spec fn final_seq_in(run: Seq<DownlinkEvent>) -> Option<u64>
    decreases run.len(),
{
    if run.len() == 0 {
        None
    } else {
        match run.last() {
            DownlinkEvent::Frame(frame) if frame.kind is Fin => Some(frame.seq),
            _ => final_seq_in(run.drop_last()),
        }
    }
}

/// The last reader ended in the course of the run.
pub open spec fn readers_ended_in(run: Seq<DownlinkEvent>) -> bool {
    run.contains(DownlinkEvent::ReadersDone)
}

/// How the state of a reassembler reflects the run that led to it.
pub open spec fn reflects(m: ReassemblerModel, run: Seq<DownlinkEvent>) -> bool {
    let received = received_in(run);
    let written = written_in(run);
    &&& m.next == written.len()
    &&& m.final_seq == final_seq_in(run)
    &&& forall|seq: u64|
        seq < m.next ==> #[trigger] received.contains_key(seq) && written[seq as int]
            == received[seq]
    &&& !(m.phase is Done) ==> forall|seq: u64|
        {
            &&& #[trigger] m.buffer.contains_key(seq) <==> received.contains_key(seq) && seq
                >= m.next && !(m.phase is Writing && seq == m.next)
            &&& m.buffer.contains_key(seq) ==> m.buffer[seq] == received[seq]
        }
    &&& m.phase is Writing ==> received.contains_key(m.next) && asked_after(run)
        == DownlinkActionModel::Write(received[m.next])
    &&& (m.phase is Receiving || m.phase is Draining) ==> !received.contains_key(m.next)
        && !m.complete()
    &&& m.phase is Done && !(run.last() is WriteFailed) ==> !received.contains_key(m.next)
    &&& match m.phase {
        DownlinkPhase::Receiving => asked_after(run) is Receive && !readers_ended_in(run),
        DownlinkPhase::Draining => asked_after(run) is Poll && readers_ended_in(run),
        DownlinkPhase::Writing { draining } => draining == readers_ended_in(run),
        DownlinkPhase::Done => asked_after(run) is Shutdown,
    }
}

/// The last reader ended before the last event of a run, or with it.
proof fn lemma_readers_ended_by_last(run: Seq<DownlinkEvent>)
    requires
        run.len() > 0,
    ensures
        readers_ended_in(run) <==> readers_ended_in(run.drop_last()) || run.last() is ReadersDone,
{
    let before = run.drop_last();
    if readers_ended_in(before) {
        let i = choose|i: int| 0 <= i < before.len() && before[i] is ReadersDone;
        assert(run[i] == DownlinkEvent::ReadersDone);
    }
    if run.last() is ReadersDone {
        assert(run[run.len() - 1] == DownlinkEvent::ReadersDone);
    }
    if readers_ended_in(run) && !(run.last() is ReadersDone) {
        let i = choose|i: int| 0 <= i < run.len() && run[i] == DownlinkEvent::ReadersDone;
        assert(before[i] == DownlinkEvent::ReadersDone);
    }
}

/// Every state that a run can lead to reflects that run.
pub proof fn lemma_state_reflects_run(run: Seq<DownlinkEvent>)
    requires
        possible(run),
    ensures
        reflects(state_after(run), run),
    decreases run.len(),
{
    if run.len() > 0 {
        lemma_state_reflects_run(run.drop_last());
        let before = state_after(run.drop_last());
        let received = received_in(run.drop_last());
        lemma_readers_ended_by_last(run);
        match run.last() {
            DownlinkEvent::Frame(frame) => {
                if frame.kind is Data && frame.seq < before.next {
                    assert(received.contains_key(frame.seq));
                }
                if frame.kind is Data && frame.seq >= before.next {
                    assert(before.buffer.contains_key(frame.seq) <==> received.contains_key(
                        frame.seq,
                    ));
                }
                assert(before.buffer.contains_key(before.next) ==> received.contains_key(
                    before.next,
                ));
            },
            DownlinkEvent::Written => {
                let next = (before.next + 1) as u64;
                assert(before.buffer.contains_key(next) <==> received.contains_key(next));
            },
            _ => {},
        }
    }
}

/// What the application has got is what arrived first for each sequence, from
/// sequence zero on, without a gap. Unless a write is under way or has failed,
/// it goes up to the first sequence that did not arrive.
pub proof fn written_is_the_contiguous_prefix(run: Seq<DownlinkEvent>)
    requires
        possible(run),
    ensures
        written_in(run).len() == state_after(run).next,
        forall|i: int|
            0 <= i < written_in(run).len() ==> received_in(run).contains_key(i as u64)
                && #[trigger] written_in(run)[i] == received_in(run)[i as u64],
        !(state_after(run).phase is Writing) && !(run.len() > 0 && run.last() is WriteFailed)
            ==> !received_in(run).contains_key(written_in(run).len() as u64),
{
    lemma_state_reflects_run(run);
    assert forall|i: int| 0 <= i < written_in(run).len() implies received_in(run).contains_key(
        i as u64,
    ) && #[trigger] written_in(run)[i] == received_in(run)[i as u64] by {
        let seq = i as u64;
        assert(seq < state_after(run).next);
        assert(received_in(run).contains_key(seq));
    }
}

/// While it waits for frames, the reassembler holds exactly the payloads that
/// came early: those beyond the first sequence that did not arrive.
pub proof fn buffer_holds_what_came_early(run: Seq<DownlinkEvent>)
    requires
        possible(run),
        state_after(run).phase is Receiving || state_after(run).phase is Draining,
    ensures
        forall|seq: u64| #[trigger]
            state_after(run).buffer.contains_key(seq) <==> received_in(run).contains_key(seq) && seq
                > written_in(run).len(),
        forall|seq: u64| #[trigger]
            state_after(run).buffer.contains_key(seq) ==> state_after(run).buffer[seq]
                == received_in(run)[seq],
{
    lemma_state_reflects_run(run);
}

/// After a frame or a write the reassembler goes on writing while the next
/// payload is there; when it is not, it stops exactly if a FIN has arrived and
/// everything below it has been written. Else it waits for frames, and takes
/// only those that are queued already exactly if the last reader has ended.
pub proof fn stops_exactly_when_complete(run: Seq<DownlinkEvent>)
    requires
        possible(run),
        run.len() > 0,
        run.last() is Frame || run.last() is Written,
    ensures
        ({
            let next = written_in(run).len() as u64;
            asked_after(run) == (if received_in(run).contains_key(next) {
                DownlinkActionModel::Write(received_in(run)[next])
            } else if final_seq_in(run) matches Some(f) && f <= written_in(run).len() {
                DownlinkActionModel::Shutdown
            } else if run.contains(DownlinkEvent::ReadersDone) {
                DownlinkActionModel::Poll
            } else {
                DownlinkActionModel::Receive
            })
        }),
{
    lemma_state_reflects_run(run);
}

/// What the reassembler waits for follows from the run: it is in the middle of a
/// write exactly if it has asked for one, it drains the inbox only once the last
/// reader has ended, and it is done exactly if it has asked for the shutdown.
pub proof fn draining_begins_when_readers_end(run: Seq<DownlinkEvent>)
    requires
        possible(run),
    ensures
        state_after(run).phase is Receiving <==> asked_after(run) is Receive,
        state_after(run).phase is Draining <==> asked_after(run) is Poll,
        state_after(run).phase is Writing <==> asked_after(run) is Write,
        state_after(run).phase is Done <==> asked_after(run) is Shutdown,
        state_after(run).phase is Draining ==> run.contains(DownlinkEvent::ReadersDone),
        state_after(run).phase is Receiving ==> !run.contains(DownlinkEvent::ReadersDone),
        state_after(run).phase matches DownlinkPhase::Writing { draining } ==> (draining
            <==> run.contains(DownlinkEvent::ReadersDone)),
{
    lemma_state_reflects_run(run);
}

/// Once the last reader has ended, the frames that are queued already are still
/// taken; the stream is over when there is none, when no frame can come any
/// more, or when the application is gone.
pub proof fn stream_ends_with_its_sources(run: Seq<DownlinkEvent>, event: DownlinkEvent)
    requires
        possible(run.push(event)),
    ensures
        event is ReadersDone ==> asked_after(run.push(event)) is Poll,
        event is InboxClosed || event is InboxEmpty || event is WriteFailed ==> asked_after(
            run.push(event),
        ) is Shutdown,
{
    assert(run.push(event).drop_last() =~= run);
}

/// Whatever the reassembler asks for, it takes every answer to it, and nothing
/// else: any frame, the end of the inbox or of the readers while it receives, any
/// frame or an empty inbox while it drains, either outcome of a write, and nothing
/// after the shutdown. A write is confirmed as long as there is a sequence left
/// to follow it.
pub proof fn every_answer_is_taken(run: Seq<DownlinkEvent>, event: DownlinkEvent)
    requires
        possible(run),
    ensures
        possible(run.push(event)) <==> match event {
            DownlinkEvent::Frame(_) => asked_after(run) is Receive || asked_after(run) is Poll,
            DownlinkEvent::InboxClosed => asked_after(run) is Receive,
            DownlinkEvent::ReadersDone => asked_after(run) is Receive,
            DownlinkEvent::InboxEmpty => asked_after(run) is Poll,
            DownlinkEvent::Written => asked_after(run) is Write && written_in(run).len()
                < u64::MAX,
            DownlinkEvent::WriteFailed => asked_after(run) is Write,
        },
{
    lemma_state_reflects_run(run);
    assert(run.push(event).drop_last() =~= run);
}

/// A DATA frame whose sequence arrived before changes nothing.
pub proof fn repeated_frame_is_dropped(run: Seq<DownlinkEvent>, frame: FrameModel)
    requires
        possible(run),
        state_after(run).expects(DownlinkEvent::Frame(frame)),
        frame.kind is Data,
        received_in(run).contains_key(frame.seq),
    ensures
        state_after(run.push(DownlinkEvent::Frame(frame))) == state_after(run),
        written_in(run.push(DownlinkEvent::Frame(frame))) == written_in(run),
{
    lemma_state_reflects_run(run);
    let m = state_after(run);
    assert(run.push(DownlinkEvent::Frame(frame)).drop_last() =~= run);
    assert(frame.seq >= m.next ==> m.buffer.contains_key(frame.seq));
    assert(!m.buffer.contains_key(m.next));
}

/// The order of arrival does not matter: two runs in which the same payloads
/// arrived, neither in the middle of writing, have written the same.
pub proof fn arrival_order_does_not_matter(a: Seq<DownlinkEvent>, b: Seq<DownlinkEvent>)
    requires
        possible(a),
        possible(b),
        received_in(a) == received_in(b),
        !(state_after(a).phase is Writing) && !(a.len() > 0 && a.last() is WriteFailed),
        !(state_after(b).phase is Writing) && !(b.len() > 0 && b.last() is WriteFailed),
    ensures
        written_in(a) == written_in(b),
{
    written_is_the_contiguous_prefix(a);
    written_is_the_contiguous_prefix(b);
    let n = written_in(a).len();
    let k = written_in(b).len();
    if n < k {
        assert(written_in(b)[n as int] == received_in(b)[n as u64]);
    }
    if k < n {
        assert(written_in(a)[k as int] == received_in(a)[k as u64]);
    }
    assert(written_in(a) =~= written_in(b));
}

/// Every frame of the run belongs to the stream that was cut into `chunks`:
/// chunk `i` travels under sequence `i`, and FIN tells their number.
pub open spec fn carries(run: Seq<DownlinkEvent>, chunks: Seq<Seq<u8>>) -> bool {
    forall|i: int| 0 <= i < run.len() ==> belongs(#[trigger] run[i], chunks)
}

/// If `event` is a frame, it is one of the frames of the stream.
pub open spec fn belongs(event: DownlinkEvent, chunks: Seq<Seq<u8>>) -> bool {
    match event {
        DownlinkEvent::Frame(frame) => is_frame_of(frame, chunks),
        _ => true,
    }
}

/// `frame` carries one of `chunks`, or is the FIN that follows them.
pub open spec fn is_frame_of(frame: FrameModel, chunks: Seq<Seq<u8>>) -> bool {
    match frame.kind {
        FrameKind::Data => frame.seq < chunks.len() && frame.payload == chunks[frame.seq as int],
        FrameKind::Fin => frame.seq == chunks.len(),
    }
}

/// Chunk `seq` is among the frames of the run.
pub open spec fn arrived(run: Seq<DownlinkEvent>, chunks: Seq<Seq<u8>>, seq: u64) -> bool {
    run.contains(DownlinkEvent::Frame(data_frame(seq, chunks[seq as int])))
}

proof fn lemma_received_are_chunks(run: Seq<DownlinkEvent>, chunks: Seq<Seq<u8>>)
    requires
        carries(run, chunks),
    ensures
        forall|seq: u64| #[trigger]
            received_in(run).contains_key(seq) ==> seq < chunks.len() && received_in(run)[seq]
                == chunks[seq as int],
        final_seq_in(run) matches Some(f) ==> f == chunks.len(),
        forall|seq: u64| seq < chunks.len() && #[trigger] arrived(run, chunks, seq)
            ==> received_in(run).contains_key(seq),
        run.contains(DownlinkEvent::Frame(fin_frame(chunks.len() as u64))) ==> final_seq_in(
            run,
        ) is Some,
    decreases run.len(),
{
    if run.len() > 0 {
        let before = run.drop_last();
        let last = run.last();
        assert(belongs(run[run.len() - 1], chunks));
        assert forall|i: int| 0 <= i < before.len() implies belongs(
            #[trigger] before[i],
            chunks,
        ) by {
            assert(belongs(run[i], chunks));
        }
        lemma_received_are_chunks(before, chunks);
        assert forall|seq: u64| #[trigger] received_in(run).contains_key(seq) implies seq
            < chunks.len() && received_in(run)[seq] == chunks[seq as int] by {
            if received_in(before).contains_key(seq) {
                assert(received_in(before)[seq] == chunks[seq as int]);
            }
        }
        assert forall|event: DownlinkEvent| #[trigger] run.contains(event) implies event == last
            || before.contains(event) by {
            let i = choose|i: int| 0 <= i < run.len() && run[i] == event;
            if i < before.len() {
                assert(before[i] == event);
            }
        }
        assert forall|seq: u64| seq < chunks.len() && #[trigger] arrived(
            run,
            chunks,
            seq,
        ) implies received_in(run).contains_key(seq) by {
            if before.contains(DownlinkEvent::Frame(data_frame(seq, chunks[seq as int]))) {
                assert(arrived(before, chunks, seq));
            }
        }
    }
}

/// Whatever arrives, in whatever order and however often, the application gets
/// a beginning of the stream: no byte is changed, repeated or out of place.
pub proof fn written_is_a_prefix_of_the_stream(run: Seq<DownlinkEvent>, chunks: Seq<Seq<u8>>)
    requires
        possible(run),
        carries(run, chunks),
    ensures
        written_in(run).len() <= chunks.len(),
        written_in(run) == chunks.take(written_in(run).len() as int),
{
    written_is_the_contiguous_prefix(run);
    lemma_received_are_chunks(run, chunks);
    let written = written_in(run);
    assert forall|i: int| 0 <= i < written.len() implies i < chunks.len() && #[trigger] written[i]
        == chunks[i] by {
        assert(written_in(run)[i] == received_in(run)[i as u64]);
    }
    if written.len() > 0 {
        assert(written[written.len() - 1] == chunks[written.len() - 1]);
    }
    assert(written =~= chunks.take(written.len() as int));
}

/// Once every chunk has arrived, and no write is under way or has failed, the
/// application has got the whole stream, and with a FIN the stream is closed.
pub proof fn all_arrived_means_all_written(run: Seq<DownlinkEvent>, chunks: Seq<Seq<u8>>)
    requires
        possible(run),
        carries(run, chunks),
        forall|seq: u64| seq < chunks.len() ==> #[trigger] arrived(run, chunks, seq),
        !(state_after(run).phase is Writing),
        !(run.len() > 0 && run.last() is WriteFailed),
    ensures
        written_in(run) == chunks,
        run.contains(DownlinkEvent::Frame(fin_frame(chunks.len() as u64))) && chunks.len()
            <= u64::MAX ==> state_after(run).phase is Done,
{
    written_is_a_prefix_of_the_stream(run, chunks);
    written_is_the_contiguous_prefix(run);
    lemma_received_are_chunks(run, chunks);
    lemma_state_reflects_run(run);
    let n = written_in(run).len();
    if n < chunks.len() {
        assert(arrived(run, chunks, n as u64));
        assert(false);
    }
    assert(chunks.take(chunks.len() as int) =~= chunks);
}

/// A reassembler that stops of its own accord, on a frame or after a write,
/// has written the whole stream.
pub proof fn stopping_means_all_written(run: Seq<DownlinkEvent>, chunks: Seq<Seq<u8>>)
    requires
        possible(run),
        carries(run, chunks),
        run.len() > 0,
        run.last() is Frame || run.last() is Written,
        asked_after(run) is Shutdown,
    ensures
        written_in(run) == chunks,
{
    stops_exactly_when_complete(run);
    written_is_a_prefix_of_the_stream(run, chunks);
    lemma_received_are_chunks(run, chunks);
    assert(chunks.take(chunks.len() as int) =~= chunks);
}

} // verus!
