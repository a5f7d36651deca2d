//! What a dispatcher sends over a whole run.
//!
//! A run is the sequence of events that a [`Dispatcher`] has taken, each with
//! the writers as it found them: between two events other tasks may add
//! writers, drain them, or lose them. Whatever they do, the frames that leave
//! are the chunks that were read, numbered in reading order.
//!
//! [`Dispatcher`]: crate::dispatcher::Dispatcher

use vstd::prelude::*;

use crate::protocol::{FRAME_HEADER_LEN, MAX_CHUNK};

verus! {

use crate::dispatcher::{
    DispatchEvent, DispatcherModel, DispatcherPhase, UplinkActionModel,
};
use crate::protocol::{data_frame, fin_frame, frame_bytes, lemma_frame_bytes_layout};
use crate::uplink::{
    after_failed_send, is_least_loaded, lemma_live_count_zero, lemma_live_indices_len,
    live_count, live_indices, live_indices_are_the_live_ones, one_survivor_is_enough, Writer,
};

/// An event, and the writers that the dispatcher found when it happened.
pub struct DispatchStep {
    pub writers: Seq<Writer>,
    pub event: DispatchEvent,
}

/// The dispatcher after a run.
pub open spec fn dispatcher_after(run: Seq<DispatchStep>) -> DispatcherModel
    decreases run.len(),
{
    if run.len() == 0 {
        DispatcherModel::initial()
    } else {
        dispatcher_after(run.drop_last()).step(run.last().writers, run.last().event).dispatcher
    }
}

/// What the dispatcher asks for after a run.
pub open spec fn asked_after(run: Seq<DispatchStep>) -> UplinkActionModel {
    if run.len() == 0 {
        UplinkActionModel::Read
    } else {
        dispatcher_after(run.drop_last()).step(run.last().writers, run.last().event).action
    }
}

/// Each event of the run answered what the dispatcher waited for, and a frame
/// that came back is the frame that was handed out.
pub open spec fn possible(run: Seq<DispatchStep>) -> bool
    decreases run.len(),
{
    run.len() > 0 ==> {
        &&& possible(run.drop_last())
        &&& dispatcher_after(run.drop_last()).expects(run.last().writers, run.last().event)
        &&& run.last().event matches DispatchEvent::SendFailed(frame) ==> asked_after(
            run.drop_last(),
        )->Send_frame == frame
    }
}

/// The chunks that were read from the application.
pub open spec fn chunks_read(run: Seq<DispatchStep>) -> Seq<Seq<u8>>
    decreases run.len(),
{
    if run.len() == 0 {
        Seq::empty()
    } else {
        match run.last().event {
            DispatchEvent::Read(bytes) if bytes.len() > 0 => chunks_read(run.drop_last()).push(
                bytes,
            ),
            _ => chunks_read(run.drop_last()),
        }
    }
}

/// The frames that writers took, in the order in which they took them.
pub open spec fn frames_sent(run: Seq<DispatchStep>) -> Seq<Seq<u8>>
    decreases run.len(),
{
    if run.len() == 0 {
        Seq::empty()
    } else if run.last().event is Sent {
        frames_sent(run.drop_last()).push(asked_after(run.drop_last())->Send_frame)
    } else {
        frames_sent(run.drop_last())
    }
}

/// The encoded DATA frames of `chunks`, numbered from zero.
pub open spec fn numbered(chunks: Seq<Seq<u8>>) -> Seq<Seq<u8>> {
    Seq::new(chunks.len(), |i: int| frame_bytes(data_frame(i as u64, chunks[i])))
}

/// How the state of a dispatcher reflects the run that led to it.
pub open spec fn reflects(d: DispatcherModel, run: Seq<DispatchStep>) -> bool {
    let chunks = chunks_read(run);
    let all = numbered(chunks);
    &&& d.seq == chunks.len()
    &&& forall|i: int| 0 <= i < chunks.len() ==> 0 < (#[trigger] chunks[i]).len() <= MAX_CHUNK
    &&& match d.phase {
        DispatcherPhase::Reading => {
            &&& asked_after(run) is Read
            &&& frames_sent(run) == all
        },
        DispatcherPhase::Waiting(frame) => {
            &&& asked_after(run) is Wait
            &&& chunks.len() > 0
            &&& frame == all.last()
            &&& frames_sent(run) == all.drop_last()
        },
        DispatcherPhase::Sending(writer) => {
            &&& chunks.len() > 0
            &&& asked_after(run) == (UplinkActionModel::Send { writer, frame: all.last() })
            &&& frames_sent(run) == all.drop_last()
        },
        DispatcherPhase::Closing => {
            &&& asked_after(run) is Wait
            &&& frames_sent(run) == all
        },
        DispatcherPhase::Done => {
            ||| {
                &&& asked_after(run) is Stop
                &&& chunks.len() > 0
                &&& frames_sent(run) == all.drop_last()
            }
            ||| {
                &&& asked_after(run) is Stop
                &&& run.last().event is Abandoned
                &&& frames_sent(run) == all
            }
            ||| {
                &&& asked_after(run) matches UplinkActionModel::Fin { frame, .. }
                &&& frame == frame_bytes(fin_frame(chunks.len() as u64))
                &&& frames_sent(run) == all
            }
        },
    }
}

/// Every state that a run can lead to reflects that run.
pub proof fn lemma_dispatcher_reflects_run(run: Seq<DispatchStep>)
    requires
        possible(run),
    ensures
        reflects(dispatcher_after(run), run),
    decreases run.len(),
{
    let chunks = chunks_read(run);
    if run.len() == 0 {
        assert(numbered(chunks) =~= Seq::<Seq<u8>>::empty());
    } else {
        let before = run.drop_last();
        lemma_dispatcher_reflects_run(before);
        let d = dispatcher_after(before);
        match run.last().event {
            DispatchEvent::Read(bytes) => {
                if bytes.len() > 0 {
                    assert(numbered(chunks).drop_last() =~= numbered(chunks_read(before)));
                    assert(numbered(chunks).last() == frame_bytes(data_frame(d.seq, bytes)));
                }
            },
            DispatchEvent::Sent => {
                let all = numbered(chunks);
                assert(all.drop_last().push(all.last()) =~= all);
            },
            _ => {},
        }
    }
}

/// The frames that leave are the chunks in reading order, numbered from zero
/// without a gap; only the last one may still be on its way, or given up for want
/// of a connection.
pub proof fn frames_follow_reading_order(run: Seq<DispatchStep>)
    requires
        possible(run),
    ensures
        frames_sent(run).len() <= chunks_read(run).len() <= frames_sent(run).len() + 1,
        frames_sent(run) == numbered(chunks_read(run)).take(frames_sent(run).len() as int),
        forall|i: int|
            0 <= i < chunks_read(run).len() ==> 0 < (#[trigger] chunks_read(run)[i]).len()
                <= MAX_CHUNK,
{
    lemma_dispatcher_reflects_run(run);
    let all = numbered(chunks_read(run));
    assert(all.take(all.len() as int) =~= all);
    if all.len() > 0 {
        assert(all.take(all.len() - 1) =~= all.drop_last());
    }
}

/// A FIN goes out only when every chunk has been taken by a writer, and tells
/// how many there are.
pub proof fn fin_follows_every_chunk(run: Seq<DispatchStep>)
    requires
        possible(run),
        asked_after(run) is Fin,
    ensures
        frames_sent(run) == numbered(chunks_read(run)),
        asked_after(run)->Fin_frame == frame_bytes(fin_frame(chunks_read(run).len() as u64)),
        chunks_read(run).len() <= u64::MAX,
{
    lemma_dispatcher_reflects_run(run);
}

/// The end of the stream is announced on every live connection at once, and not
/// before there has been a connection to announce it on.
pub proof fn fin_goes_to_every_live_connection(run: Seq<DispatchStep>)
    requires
        possible(run),
        asked_after(run) is Fin,
    ensures
        run.last().writers.len() > 0,
        asked_after(run)->Fin_writers == live_indices(run.last().writers),
        asked_after(run)->Fin_writers.len() == live_count(run.last().writers),
{
    lemma_live_indices_len(run.last().writers);
}

/// A stream that ends before its first connection waits for it, and then
/// announces the end on it: no end is lost for want of a connection.
pub proof fn early_end_is_announced(run: Seq<DispatchStep>, end: DispatchStep, next: DispatchStep)
    requires
        possible(run.push(end).push(next)),
        end.event == DispatchEvent::Read(Seq::empty()) || end.event is ReadFailed,
        end.writers.len() == 0,
        next.event is WriterAdded,
        next.writers.len() > 0,
    ensures
        asked_after(run.push(end)) is Wait,
        dispatcher_after(run.push(end)).phase is Closing,
        asked_after(run.push(end).push(next)) == (UplinkActionModel::Fin {
            writers: live_indices(next.writers),
            frame: frame_bytes(fin_frame(chunks_read(run).len() as u64)),
        }),
{
    assert(run.push(end).push(next).drop_last() =~= run.push(end));
    assert(run.push(end).drop_last() =~= run);
    assert(possible(run.push(end)));
    lemma_dispatcher_reflects_run(run);
}

/// The writers that the last event of the run left to choose from: those that
/// were found, without the one that has just turned out to be dead.
pub open spec fn offered(run: Seq<DispatchStep>) -> Seq<Writer> {
    match run.last().event {
        DispatchEvent::SendFailed(frame) => after_failed_send(
            run.last().writers,
            asked_after(run.drop_last())->Send_writer as int,
            frame.len() as usize,
        ),
        _ => run.last().writers,
    }
}

/// The writers as the last event of the run left them.
pub open spec fn writers_left(run: Seq<DispatchStep>) -> Seq<Writer> {
    dispatcher_after(run.drop_last()).step(run.last().writers, run.last().event).writers
}

/// The last event of the run gave the dispatcher a frame to send: a chunk was
/// read, a writer gave its frame back, or the first writer came for a frame that
/// no writer has taken yet.
pub open spec fn frame_is_due(run: Seq<DispatchStep>) -> bool {
    match run.last().event {
        DispatchEvent::Read(bytes) => bytes.len() > 0,
        DispatchEvent::SendFailed(_) => true,
        DispatchEvent::WriterAdded => frames_sent(run).len() < chunks_read(run).len(),
        _ => false,
    }
}

/// The last event of the run gave the dispatcher the end of the stream to
/// announce: there is nothing more to read, or the first writer came after every
/// frame had been taken.
pub open spec fn end_is_due(run: Seq<DispatchStep>) -> bool {
    match run.last().event {
        DispatchEvent::Read(bytes) => bytes.len() == 0,
        DispatchEvent::ReadFailed => true,
        DispatchEvent::WriterAdded => frames_sent(run).len() == chunks_read(run).len(),
        _ => false,
    }
}

/// Each frame goes to the least loaded live connection. It waits only when there
/// was no connection yet, and is given up only when every connection is lost or
/// none will ever be added.
pub proof fn frames_go_to_the_least_loaded(run: Seq<DispatchStep>)
    requires
        possible(run),
        run.len() > 0,
        run.last().writers.len() <= usize::MAX,
    ensures
        asked_after(run) matches UplinkActionModel::Send { writer, .. } ==> is_least_loaded(
            offered(run),
            writer as int,
        ),
        asked_after(run) is Stop && !(run.last().event is Abandoned) ==> offered(run).len() > 0
            && live_count(offered(run)) == 0,
        asked_after(run) is Wait ==> offered(run).len() == 0,
{
    lemma_dispatcher_reflects_run(run.drop_last());
    let d = dispatcher_after(run.drop_last());
    let frame = match run.last().event {
        DispatchEvent::Read(bytes) => frame_bytes(data_frame(d.seq, bytes)),
        DispatchEvent::SendFailed(frame) => frame,
        _ => d.phase->Waiting_0,
    };
    one_survivor_is_enough(offered(run), frame.len() as usize);
}

/// A frame that is due is sent whenever any of the writers on offer is alive: it
/// is the frame of the last chunk that was read, numbered by the chunks before
/// it, and it goes to the live writer with the least load, the first of those
/// that have as little. It waits exactly when there was no writer yet, and the
/// dispatcher stops exactly when all of them are lost.
pub proof fn due_frame_is_sent(run: Seq<DispatchStep>)
    requires
        possible(run),
        run.len() > 0,
        frame_is_due(run),
        run.last().writers.len() <= usize::MAX,
    ensures
        ({
            let writers = offered(run);
            let chunks = chunks_read(run);
            let frame = frame_bytes(data_frame((chunks.len() - 1) as u64, chunks.last()));
            &&& 0 < chunks.len() <= u64::MAX
            &&& run.last().event matches DispatchEvent::SendFailed(back) ==> back == frame
            &&& if exists|j: int| 0 <= j < writers.len() && (#[trigger] writers[j]).alive {
                &&& asked_after(run) is Send
                &&& asked_after(run)->Send_frame == frame
                &&& asked_after(run)->Send_writer < writers.len()
                &&& writers[asked_after(run)->Send_writer as int].alive
                &&& forall|j: int|
                    0 <= j < writers.len() && (#[trigger] writers[j]).alive
                        ==> writers[asked_after(run)->Send_writer as int].outstanding
                        <= writers[j].outstanding
                &&& forall|j: int|
                    0 <= j < asked_after(run)->Send_writer && (#[trigger] writers[j]).alive
                        ==> writers[asked_after(run)->Send_writer as int].outstanding
                        < writers[j].outstanding
            } else if writers.len() > 0 {
                asked_after(run) is Stop
            } else {
                asked_after(run) is Wait
            }
        }),
{
    lemma_dispatcher_reflects_run(run.drop_last());
    lemma_dispatcher_reflects_run(run);
    let d = dispatcher_after(run.drop_last());
    let chunks = chunks_read(run);
    let all = numbered(chunks);
    assert(chunks.len() > 0 ==> all.last() == frame_bytes(
        data_frame((chunks.len() - 1) as u64, chunks.last()),
    ));
    assert(chunks.len() > 0 ==> all.drop_last().len() == chunks.len() - 1);
    let frame = match run.last().event {
        DispatchEvent::Read(bytes) => frame_bytes(data_frame(d.seq, bytes)),
        DispatchEvent::SendFailed(frame) => frame,
        _ => d.phase->Waiting_0,
    };
    one_survivor_is_enough(offered(run), frame.len() as usize);
    lemma_live_count_zero(offered(run));
}

/// When there is nothing more to read, the end of the stream is announced as soon
/// as there is, or was, a connection: to exactly the live ones, each once, with
/// the number of chunks that were read, and the dispatcher is done. Before the
/// first connection it waits for one.
pub proof fn due_end_is_announced(run: Seq<DispatchStep>)
    requires
        possible(run),
        run.len() > 0,
        end_is_due(run),
        run.last().writers.len() <= usize::MAX,
    ensures
        chunks_read(run).len() <= u64::MAX,
        if run.last().writers.len() > 0 {
            let writers = run.last().writers;
            &&& asked_after(run) is Fin
            &&& asked_after(run)->Fin_frame == frame_bytes(
                fin_frame(chunks_read(run).len() as u64),
            )
            &&& forall|i: usize| #[trigger]
                asked_after(run)->Fin_writers.contains(i) <==> i < writers.len()
                    && writers[i as int].alive
            &&& forall|a: int, b: int|
                0 <= a < b < asked_after(run)->Fin_writers.len() ==> asked_after(
                    run,
                )->Fin_writers[a] < asked_after(run)->Fin_writers[b]
            &&& dispatcher_after(run).phase is Done
        } else {
            asked_after(run) is Wait
        },
{
    lemma_dispatcher_reflects_run(run.drop_last());
    lemma_dispatcher_reflects_run(run);
    live_indices_are_the_live_ones(run.last().writers);
}

/// A frame that was taken is followed by the next read, and the dispatcher stops
/// when no writer will ever be added.
pub proof fn taken_frame_is_followed_by_a_read(run: Seq<DispatchStep>, next: DispatchStep)
    requires
        possible(run.push(next)),
    ensures
        next.event is Sent ==> asked_after(run.push(next)) is Read,
        next.event is Abandoned ==> asked_after(run.push(next)) is Stop,
{
    assert(run.push(next).drop_last() =~= run);
}

/// A writer that gave its frame back is out of the choice: it counts as dead, the
/// bytes of the frame do not count as queued on it any more, and nothing is
/// changed of the other writers. In every other case the choice is among the
/// writers that were found.
pub proof fn lost_writer_is_not_offered(run: Seq<DispatchStep>)
    requires
        possible(run),
        run.len() > 0,
    ensures
        offered(run).len() == run.last().writers.len(),
        match run.last().event {
            DispatchEvent::SendFailed(frame) => {
                let lost = asked_after(run.drop_last())->Send_writer as int;
                let found = run.last().writers;
                &&& asked_after(run.drop_last()) is Send
                &&& 0 <= lost < found.len()
                &&& !offered(run)[lost].alive
                &&& offered(run)[lost].outstanding == found[lost].outstanding - frame.len() + (
                if found[lost].outstanding < frame.len() {
                    usize::MAX + 1
                } else {
                    0
                })
                &&& forall|j: int|
                    0 <= j < found.len() && j != lost ==> #[trigger] offered(run)[j] == found[j]
            },
            _ => offered(run) == run.last().writers,
        },
{
    lemma_dispatcher_reflects_run(run.drop_last());
    lemma_frame_in_hand_is_short(run.drop_last());
}

/// The bytes of a frame that is handed out are counted as queued on the writer
/// that gets it, all of them, and nothing else changes; the bytes of a FIN are
/// counted on every live writer. Without a frame to send no writer changes.
pub proof fn load_grows_by_what_is_sent(run: Seq<DispatchStep>)
    requires
        possible(run),
        run.len() > 0,
        run.last().writers.len() <= usize::MAX,
    ensures
        writers_left(run).len() == offered(run).len(),
        match asked_after(run) {
            UplinkActionModel::Send { writer, frame } => {
                let load = offered(run)[writer as int].outstanding;
                &&& writer < offered(run).len()
                &&& writers_left(run)[writer as int].alive
                &&& writers_left(run)[writer as int].outstanding == load + frame.len() - (if load
                    + frame.len() > usize::MAX {
                    usize::MAX + 1
                } else {
                    0
                })
                &&& forall|j: int|
                    0 <= j < offered(run).len() && j != writer ==> #[trigger] writers_left(run)[j]
                        == offered(run)[j]
            },
            UplinkActionModel::Fin { writers, frame } => forall|j: int|
                0 <= j < offered(run).len() ==> {
                    let load = offered(run)[j].outstanding;
                    &&& (#[trigger] writers_left(run)[j]).alive == offered(run)[j].alive
                    &&& writers_left(run)[j].outstanding == if !offered(run)[j].alive {
                        load as int
                    } else if load + frame.len() > usize::MAX {
                        load + frame.len() - (usize::MAX + 1)
                    } else {
                        load + frame.len()
                    }
                },
            _ => writers_left(run) == offered(run),
        },
{
    lemma_dispatcher_reflects_run(run.drop_last());
    lemma_dispatcher_reflects_run(run);
    lemma_frame_in_hand_is_short(run);
    let d = dispatcher_after(run.drop_last());
    let frame = match run.last().event {
        DispatchEvent::Read(bytes) => frame_bytes(data_frame(d.seq, bytes)),
        DispatchEvent::SendFailed(frame) => frame,
        _ => d.phase->Waiting_0,
    };
    one_survivor_is_enough(offered(run), frame.len() as usize);
}

/// A frame that was handed out, or a FIN, is no longer than a header and a chunk.
proof fn lemma_frame_in_hand_is_short(run: Seq<DispatchStep>)
    requires
        possible(run),
    ensures
        asked_after(run) matches UplinkActionModel::Send { frame, .. } ==> frame.len()
            <= FRAME_HEADER_LEN + MAX_CHUNK,
        asked_after(run) matches UplinkActionModel::Fin { frame, .. } ==> frame.len()
            == FRAME_HEADER_LEN,
{
    lemma_dispatcher_reflects_run(run);
    let chunks = chunks_read(run);
    if chunks.len() > 0 {
        assert(numbered(chunks).last() == frame_bytes(
            data_frame((chunks.len() - 1) as u64, chunks.last()),
        ));
        lemma_frame_bytes_layout(data_frame((chunks.len() - 1) as u64, chunks.last()));
    }
    lemma_frame_bytes_layout(fin_frame(chunks.len() as u64));
}

/// Whatever the dispatcher asks for, it takes every answer to it, and nothing
/// else: any chunk, the end of the application's bytes or a failure while it
/// reads, either outcome of handing out a frame, the first writer or its absence
/// while it waits, and nothing once it has stopped. Chunks are read as long as
/// there is a sequence left to follow them, and a frame that comes back is the
/// one that was handed out, from a writer that is there.
pub proof fn every_answer_is_taken(run: Seq<DispatchStep>, next: DispatchStep)
    requires
        possible(run),
    ensures
        possible(run.push(next)) <==> match next.event {
            DispatchEvent::Read(bytes) => {
                &&& asked_after(run) is Read
                &&& bytes.len() <= MAX_CHUNK
                &&& bytes.len() > 0 ==> chunks_read(run).len() < u64::MAX
            },
            DispatchEvent::ReadFailed => asked_after(run) is Read,
            DispatchEvent::Sent => asked_after(run) is Send,
            DispatchEvent::SendFailed(back) => {
                &&& asked_after(run) is Send
                &&& asked_after(run)->Send_frame == back
                &&& asked_after(run)->Send_writer < next.writers.len()
            },
            DispatchEvent::WriterAdded => asked_after(run) is Wait,
            DispatchEvent::Abandoned => asked_after(run) is Wait,
        },
{
    lemma_dispatcher_reflects_run(run);
    assert(run.push(next).drop_last() =~= run);
}

/// The dispatcher's counter is the number of chunks that were read, and every
/// frame that a writer took carries the chunk of its place, under the number of
/// that place.
pub proof fn frames_carry_their_chunks(run: Seq<DispatchStep>)
    requires
        possible(run),
    ensures
        dispatcher_after(run).seq == chunks_read(run).len(),
        frames_sent(run).len() <= chunks_read(run).len(),
        forall|i: int|
            0 <= i < frames_sent(run).len() ==> #[trigger] frames_sent(run)[i] == frame_bytes(
                data_frame(i as u64, chunks_read(run)[i]),
            ),
{
    lemma_dispatcher_reflects_run(run);
}

} // verus!
