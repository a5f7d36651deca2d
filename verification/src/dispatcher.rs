//! Dispatching: from the application's bytes to frames on sub-connections.
//!
//! A [`Dispatcher`] turns what is read from the application into sequenced DATA
//! frames, has each carried by the sub-connection that the [`Uplink`] chooses,
//! and announces the end of the stream with a FIN. It decides; the task around
//! it reads the socket, hands frames to writers, and reports back.

use vstd::prelude::*;

use crate::protocol::{encode_data, encode_fin, FRAME_HEADER_LEN, MAX_CHUNK};
use crate::uplink::{Dispatch, Uplink};

verus! {

use crate::protocol::{data_frame, fin_frame, frame_bytes};
use crate::uplink::{after_failed_send, dispatch_one, live_indices, queue_on_live, Writer};

/// What the dispatcher waits for.
#[derive(Debug)]
enum Phase {
    /// Bytes of the application.
    Reading,
    /// The first connection; this frame is to be sent on it.
    Waiting(Vec<u8>),
    /// The outcome of handing a frame to this writer.
    Sending(usize),
    /// The first connection; the end of the stream is to be announced on it.
    Closing,
    /// Nothing: the dispatcher has stopped.
    Done,
}

/// The contents of the phase of a [`Dispatcher`].
#[verifier::ext_equal]
pub enum DispatcherPhase {
    /// Waiting for bytes of the application.
    Reading,
    /// Waiting for the first connection, to send this frame on it.
    Waiting(Seq<u8>),
    /// Waiting for the outcome of handing a frame to this writer.
    Sending(usize),
    /// Waiting for the first connection, to announce the end of the stream on it.
    Closing,
    /// Stopped.
    Done,
}

/// What the task around the dispatcher does next.
#[derive(Debug)]
pub enum UplinkAction {
    /// Read from the application, at most [`MAX_CHUNK`] bytes at once.
    Read,
    /// Hand the frame to the writer.
    Send { writer: usize, frame: Vec<u8> },
    /// Wait until a writer is added.
    Wait,
    /// Hand the frame, a FIN, to each of the writers and stop.
    Fin { writers: Vec<usize>, frame: Vec<u8> },
    /// Stop: there are no live sub-connections, nothing more can be sent.
    Stop,
}

/// The contents of an [`UplinkAction`].
#[verifier::ext_equal]
pub enum UplinkActionModel {
    Read,
    Send { writer: usize, frame: Seq<u8> },
    Wait,
    Fin { writers: Seq<usize>, frame: Seq<u8> },
    Stop,
}

impl View for UplinkAction {
    type V = UplinkActionModel;

    open spec fn view(&self) -> UplinkActionModel {
        match self {
            UplinkAction::Read => UplinkActionModel::Read,
            UplinkAction::Send { writer, frame } => UplinkActionModel::Send {
                writer: *writer,
                frame: frame@,
            },
            UplinkAction::Wait => UplinkActionModel::Wait,
            UplinkAction::Fin { writers, frame } => UplinkActionModel::Fin {
                writers: writers@,
                frame: frame@,
            },
            UplinkAction::Stop => UplinkActionModel::Stop,
        }
    }
}

/// An action and its contents are of one kind, and name the same writers and the
/// same bytes.
pub proof fn action_matches_its_contents(action: UplinkAction)
    ensures
        action is Read <==> action@ is Read,
        action is Send <==> action@ is Send,
        action is Wait <==> action@ is Wait,
        action is Fin <==> action@ is Fin,
        action is Stop <==> action@ is Stop,
        action is Send ==> {
            &&& action@->Send_writer == action->Send_writer
            &&& action@->Send_frame == action->Send_frame@
        },
        action is Fin ==> {
            &&& action@->Fin_writers == action->Fin_writers@
            &&& action@->Fin_frame == action->Fin_frame@
        },
{
}

/// What can happen to a dispatcher.
#[verifier::ext_equal]
pub enum DispatchEvent {
    /// Bytes were read from the application; none at all if it half-closed.
    Read(Seq<u8>),
    /// Reading from the application failed.
    ReadFailed,
    /// The writer took the frame.
    Sent,
    /// The writer is dead and gave the frame back.
    SendFailed(Seq<u8>),
    /// A writer was added.
    WriterAdded,
    /// No writer will ever be added.
    Abandoned,
}

/// The contents of a [`Dispatcher`].
#[verifier::ext_equal]
pub struct DispatcherModel {
    /// The number of chunks read so far: the sequence of the next one.
    pub seq: u64,
    pub phase: DispatcherPhase,
}

/// A dispatcher and the writers after an event, and the action that is due.
#[verifier::ext_equal]
pub struct Dispatched {
    pub dispatcher: DispatcherModel,
    pub writers: Seq<Writer>,
    pub action: UplinkActionModel,
}

impl DispatcherModel {
    /// Nothing read yet.
    pub open spec fn initial() -> DispatcherModel {
        DispatcherModel { seq: 0, phase: DispatcherPhase::Reading }
    }

    /// Send `frame` to the least loaded writer.
    pub open spec fn place(self, writers: Seq<Writer>, frame: Seq<u8>) -> Dispatched {
        let (after, dispatch) = dispatch_one(writers, frame.len() as usize);
        match dispatch {
            Dispatch::Send(writer) => Dispatched {
                dispatcher: DispatcherModel { phase: DispatcherPhase::Sending(writer), ..self },
                writers: after,
                action: UplinkActionModel::Send { writer, frame },
            },
            Dispatch::Stop => Dispatched {
                dispatcher: DispatcherModel { phase: DispatcherPhase::Done, ..self },
                writers: after,
                action: UplinkActionModel::Stop,
            },
            Dispatch::Wait => Dispatched {
                dispatcher: DispatcherModel { phase: DispatcherPhase::Waiting(frame), ..self },
                writers: after,
                action: UplinkActionModel::Wait,
            },
        }
    }

    /// Announce the end of the stream on every live writer, or wait for the
    /// first writer to announce it on.
    pub open spec fn close(self, writers: Seq<Writer>) -> Dispatched {
        if writers.len() == 0 {
            Dispatched {
                dispatcher: DispatcherModel { phase: DispatcherPhase::Closing, ..self },
                writers,
                action: UplinkActionModel::Wait,
            }
        } else {
            Dispatched {
                dispatcher: DispatcherModel { phase: DispatcherPhase::Done, ..self },
                writers: queue_on_live(writers, FRAME_HEADER_LEN),
                action: UplinkActionModel::Fin {
                    writers: live_indices(writers),
                    frame: frame_bytes(fin_frame(self.seq)),
                },
            }
        }
    }

    /// `event` answers what the dispatcher waits for. Bytes are read in chunks,
    /// as long as there is a sequence left to follow.
    pub open spec fn expects(self, writers: Seq<Writer>, event: DispatchEvent) -> bool {
        match event {
            DispatchEvent::Read(bytes) => {
                &&& self.phase is Reading
                &&& bytes.len() <= MAX_CHUNK
                &&& bytes.len() > 0 ==> self.seq < u64::MAX
            },
            DispatchEvent::ReadFailed => self.phase is Reading,
            DispatchEvent::Sent => self.phase is Sending,
            DispatchEvent::SendFailed(_) => {
                self.phase matches DispatcherPhase::Sending(writer) && writer < writers.len()
            },
            DispatchEvent::WriterAdded => self.phase is Waiting || self.phase is Closing,
            DispatchEvent::Abandoned => self.phase is Waiting || self.phase is Closing,
        }
    }

    /// How the dispatcher takes an event that it expects.
    pub open spec fn step(self, writers: Seq<Writer>, event: DispatchEvent) -> Dispatched {
        match event {
            DispatchEvent::Read(bytes) => if bytes.len() == 0 {
                self.close(writers)
            } else {
                (DispatcherModel { seq: (self.seq + 1) as u64, ..self }).place(
                    writers,
                    frame_bytes(data_frame(self.seq, bytes)),
                )
            },
            DispatchEvent::ReadFailed => self.close(writers),
            DispatchEvent::Sent => Dispatched {
                dispatcher: DispatcherModel { phase: DispatcherPhase::Reading, ..self },
                writers,
                action: UplinkActionModel::Read,
            },
            DispatchEvent::SendFailed(frame) => self.place(
                after_failed_send(writers, self.phase->Sending_0 as int, frame.len() as usize),
                frame,
            ),
            DispatchEvent::WriterAdded => if self.phase is Closing {
                self.close(writers)
            } else {
                self.place(writers, self.phase->Waiting_0)
            },
            DispatchEvent::Abandoned => Dispatched {
                dispatcher: DispatcherModel { phase: DispatcherPhase::Done, ..self },
                writers,
                action: UplinkActionModel::Stop,
            },
        }
    }
}

/// Sequences one direction of a logical stream and spreads it over writers.
#[derive(Debug)]
pub struct Dispatcher {
    seq: u64,
    phase: Phase,
}

impl View for Dispatcher {
    type V = DispatcherModel;

    closed spec fn view(&self) -> DispatcherModel {
        DispatcherModel {
            seq: self.seq,
            phase: match self.phase {
                Phase::Reading => DispatcherPhase::Reading,
                Phase::Waiting(frame) => DispatcherPhase::Waiting(frame@),
                Phase::Sending(writer) => DispatcherPhase::Sending(writer),
                Phase::Closing => DispatcherPhase::Closing,
                Phase::Done => DispatcherPhase::Done,
            },
        }
    }
}

impl Dispatcher {
    /// A dispatcher that is about to read its first chunk.
    pub fn new() -> (d: Dispatcher)
        ensures
            d@ == DispatcherModel::initial(),
    {
        Dispatcher { seq: 0, phase: Phase::Reading }
    }

    /// The sequence of the next chunk.
    pub fn next_seq(&self) -> (seq: u64)
        ensures
            seq == self@.seq,
    {
        self.seq
    }

    /// Send `frame` to the least loaded writer.
    fn place(&mut self, uplink: &mut Uplink, frame: Vec<u8>) -> (action: UplinkAction)
        requires
            old(uplink).wf(),
        ensures
            final(uplink).wf(),
            (Dispatched {
                dispatcher: final(self)@,
                writers: final(uplink)@,
                action: action@,
            }) == old(self)@.place(old(uplink)@, frame@),
    {
        match uplink.dispatch(frame.len()) {
            Dispatch::Send(writer) => {
                self.phase = Phase::Sending(writer);
                UplinkAction::Send { writer, frame }
            },
            Dispatch::Stop => {
                self.phase = Phase::Done;
                UplinkAction::Stop
            },
            Dispatch::Wait => {
                self.phase = Phase::Waiting(frame);
                UplinkAction::Wait
            },
        }
    }

    /// Announce the end of the stream on every live writer, or wait for the
    /// first writer to announce it on.
    fn close(&mut self, uplink: &mut Uplink) -> (action: UplinkAction)
        requires
            old(uplink).wf(),
        ensures
            final(uplink).wf(),
            (Dispatched {
                dispatcher: final(self)@,
                writers: final(uplink)@,
                action: action@,
            }) == old(self)@.close(old(uplink)@),
    {
        if !uplink.ever_added() {
            self.phase = Phase::Closing;
            return UplinkAction::Wait;
        }
        let frame: Vec<u8> = encode_fin(self.seq);
        let writers: Vec<usize> = uplink.broadcast_fin(frame.len());
        self.phase = Phase::Done;
        UplinkAction::Fin { writers, frame }
    }

    /// Bytes were read from the application; none at all if it half-closed.
    pub fn read(&mut self, uplink: &mut Uplink, bytes: &[u8]) -> (action: UplinkAction)
        requires
            old(uplink).wf(),
            old(self)@.expects(old(uplink)@, DispatchEvent::Read(bytes@)),
        ensures
            final(uplink).wf(),
            (Dispatched {
                dispatcher: final(self)@,
                writers: final(uplink)@,
                action: action@,
            }) == old(self)@.step(old(uplink)@, DispatchEvent::Read(bytes@)),
    {
        if bytes.len() == 0 {
            return self.close(uplink);
        }
        let frame: Vec<u8> = encode_data(self.seq, bytes);
        self.seq = self.seq + 1;
        self.place(uplink, frame)
    }

    /// Reading from the application failed, which ends the stream.
    pub fn read_failed(&mut self, uplink: &mut Uplink) -> (action: UplinkAction)
        requires
            old(uplink).wf(),
            old(self)@.expects(old(uplink)@, DispatchEvent::ReadFailed),
        ensures
            final(uplink).wf(),
            (Dispatched {
                dispatcher: final(self)@,
                writers: final(uplink)@,
                action: action@,
            }) == old(self)@.step(old(uplink)@, DispatchEvent::ReadFailed),
    {
        self.close(uplink)
    }

    /// The writer took the frame.
    pub fn sent(&mut self) -> (action: UplinkAction)
        requires
            old(self)@.phase is Sending,
        ensures
            final(self)@ == (DispatcherModel { phase: DispatcherPhase::Reading, ..old(self)@ }),
            action@ == UplinkActionModel::Read,
            forall|writers: Seq<Writer>| #[trigger]
                old(self)@.step(writers, DispatchEvent::Sent) == (Dispatched {
                    dispatcher: final(self)@,
                    writers,
                    action: action@,
                }),
    {
        self.phase = Phase::Reading;
        UplinkAction::Read
    }

    /// The writer is dead and gave the frame back: try another one.
    pub fn send_failed(&mut self, uplink: &mut Uplink, frame: Vec<u8>) -> (action: UplinkAction)
        requires
            old(uplink).wf(),
            old(self)@.expects(old(uplink)@, DispatchEvent::SendFailed(frame@)),
        ensures
            final(uplink).wf(),
            (Dispatched {
                dispatcher: final(self)@,
                writers: final(uplink)@,
                action: action@,
            }) == old(self)@.step(old(uplink)@, DispatchEvent::SendFailed(frame@)),
    {
        if let Phase::Sending(writer) = self.phase {
            uplink.send_failed(writer, frame.len());
        }
        self.place(uplink, frame)
    }

    /// A writer was added: try again to send the frame that waits, or to
    /// announce the end of the stream.
    pub fn writer_added(&mut self, uplink: &mut Uplink) -> (action: UplinkAction)
        requires
            old(uplink).wf(),
            old(self)@.expects(old(uplink)@, DispatchEvent::WriterAdded),
        ensures
            final(uplink).wf(),
            (Dispatched {
                dispatcher: final(self)@,
                writers: final(uplink)@,
                action: action@,
            }) == old(self)@.step(old(uplink)@, DispatchEvent::WriterAdded),
    {
        let mut phase: Phase = Phase::Done;
        std::mem::swap(&mut phase, &mut self.phase);
        match phase {
            Phase::Waiting(frame) => self.place(uplink, frame),
            Phase::Closing => self.close(uplink),
            _ => UplinkAction::Stop,
        }
    }

    /// No writer will ever be added: give up what waits for the first one.
    pub fn abandoned(&mut self) -> (action: UplinkAction)
        requires
            old(self)@.phase is Waiting || old(self)@.phase is Closing,
        ensures
            final(self)@ == (DispatcherModel { phase: DispatcherPhase::Done, ..old(self)@ }),
            action@ == UplinkActionModel::Stop,
            forall|writers: Seq<Writer>| #[trigger]
                old(self)@.step(writers, DispatchEvent::Abandoned) == (Dispatched {
                    dispatcher: final(self)@,
                    writers,
                    action: action@,
                }),
    {
        self.phase = Phase::Done;
        UplinkAction::Stop
    }
}

} // verus!
