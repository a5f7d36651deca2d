//! Downlink: from the frames of every sub-connection back to one byte stream.
//!
//! Frames race across sub-connections and arrive out of order. A
//! [`Reassembler`] keeps those that came early and hands out payloads in
//! sequence, one write at a time. It decides; the task around it receives,
//! writes to the application socket, and reports back.

use std::collections::BTreeMap;

use vstd::prelude::*;

use crate::protocol::{Frame, FrameKind};

verus! {

use crate::protocol::FrameModel;

broadcast use {
    vstd::laws_cmp::group_laws_cmp,
    vstd::std_specs::btree::group_btree_axioms,
};

/// Frames buffered on the way into the reassembler.
pub const REASSEMBLER_CHANNEL_CAP: usize = 32;

/// What the reassembler waits for.
#[derive(Debug, Clone, Copy, PartialEq, Eq, Structural)]
pub enum DownlinkPhase {
    /// The next frame, the end of every reader, or the end of the inbox.
    Receiving,
    /// Every reader has ended; the frames already queued are still to come.
    Draining,
    /// The outcome of a write to the application.
    Writing { draining: bool },
    /// Nothing: the stream is over.
    Done,
}

/// What the task around the reassembler does next.
#[derive(Debug)]
pub enum DownlinkAction {
    /// Wait for a frame, for the end of the inbox, or for the last reader to end.
    Receive,
    /// Take a frame that is already queued, if there is one.
    Poll,
    /// Write these bytes to the application.
    Write(Vec<u8>),
    /// Shut the application's write direction down and stop.
    Shutdown,
}

/// The contents of a [`DownlinkAction`].
#[verifier::ext_equal]
pub enum DownlinkActionModel {
    Receive,
    Poll,
    Write(Seq<u8>),
    Shutdown,
}

impl View for DownlinkAction {
    type V = DownlinkActionModel;

    open spec fn view(&self) -> DownlinkActionModel {
        match self {
            DownlinkAction::Receive => DownlinkActionModel::Receive,
            DownlinkAction::Poll => DownlinkActionModel::Poll,
            DownlinkAction::Write(payload) => DownlinkActionModel::Write(payload@),
            DownlinkAction::Shutdown => DownlinkActionModel::Shutdown,
        }
    }
}

/// An action and its contents are of one kind, and say the same bytes.
pub proof fn action_matches_its_contents(action: DownlinkAction)
    ensures
        action is Receive <==> action@ is Receive,
        action is Poll <==> action@ is Poll,
        action is Write <==> action@ is Write,
        action is Shutdown <==> action@ is Shutdown,
        action is Write ==> action@->Write_0 == action->Write_0@,
{
}

/// What can happen to a reassembler.
#[verifier::ext_equal]
pub enum DownlinkEvent {
    /// A frame was received.
    Frame(FrameModel),
    /// No frame can be received any more.
    InboxClosed,
    /// The last reader has ended.
    ReadersDone,
    /// No frame is queued.
    InboxEmpty,
    /// The payload was written to the application.
    Written,
    /// The application socket is gone.
    WriteFailed,
}

/// The contents of a [`Reassembler`].
#[verifier::ext_equal]
pub struct ReassemblerModel {
    /// The sequence that the application gets next.
    pub next: u64,
    /// The payloads that came early, by sequence.
    pub buffer: Map<u64, Seq<u8>>,
    /// What the last FIN said.
    pub final_seq: Option<u64>,
    pub phase: DownlinkPhase,
}

impl ReassemblerModel {
    /// Nothing received, nothing written.
    pub open spec fn initial() -> ReassemblerModel {
        ReassemblerModel {
            next: 0,
            buffer: Map::empty(),
            final_seq: None,
            phase: DownlinkPhase::Receiving,
        }
    }

    /// A FIN was received and everything below it has been written.
    pub open spec fn complete(self) -> bool {
        self.final_seq matches Some(f) && self.next >= f
    }

    /// Stop if the stream is complete, else wait for frames.
    pub open spec fn finish(self, draining: bool) -> (ReassemblerModel, DownlinkActionModel) {
        if self.complete() {
            (
                ReassemblerModel { phase: DownlinkPhase::Done, ..self },
                DownlinkActionModel::Shutdown,
            )
        } else if draining {
            (
                ReassemblerModel { phase: DownlinkPhase::Draining, ..self },
                DownlinkActionModel::Poll,
            )
        } else {
            (
                ReassemblerModel { phase: DownlinkPhase::Receiving, ..self },
                DownlinkActionModel::Receive,
            )
        }
    }

    /// Write the payload that is next, if it is there.
    pub open spec fn flush(self, draining: bool) -> (ReassemblerModel, DownlinkActionModel) {
        if self.buffer.contains_key(self.next) {
            (
                ReassemblerModel {
                    buffer: self.buffer.remove(self.next),
                    phase: DownlinkPhase::Writing { draining },
                    ..self
                },
                DownlinkActionModel::Write(self.buffer[self.next]),
            )
        } else {
            self.finish(draining)
        }
    }

    /// Keep a payload that is neither written nor held already.
    pub open spec fn keep(self, seq: u64, payload: Seq<u8>) -> ReassemblerModel {
        if seq >= self.next && !self.buffer.contains_key(seq) {
            ReassemblerModel { buffer: self.buffer.insert(seq, payload), ..self }
        } else {
            self
        }
    }

    /// `event` answers what the reassembler waits for. A payload can be
    /// confirmed as long as there is a sequence left to follow it.
    pub open spec fn expects(self, event: DownlinkEvent) -> bool {
        match event {
            DownlinkEvent::Frame(_) => self.phase is Receiving || self.phase is Draining,
            DownlinkEvent::InboxClosed => self.phase is Receiving,
            DownlinkEvent::ReadersDone => self.phase is Receiving,
            DownlinkEvent::InboxEmpty => self.phase is Draining,
            DownlinkEvent::Written => self.phase is Writing && self.next < u64::MAX,
            DownlinkEvent::WriteFailed => self.phase is Writing,
        }
    }

    /// How the reassembler takes an event that it expects.
    pub open spec fn step(self, event: DownlinkEvent) -> (ReassemblerModel, DownlinkActionModel) {
        match event {
            DownlinkEvent::Frame(frame) => match frame.kind {
                FrameKind::Data => self.keep(frame.seq, frame.payload).flush(
                    self.phase is Draining,
                ),
                FrameKind::Fin => (ReassemblerModel {
                    final_seq: Some(frame.seq),
                    ..self
                }).finish(self.phase is Draining),
            },
            DownlinkEvent::ReadersDone => (
                ReassemblerModel { phase: DownlinkPhase::Draining, ..self },
                DownlinkActionModel::Poll,
            ),
            DownlinkEvent::Written => (ReassemblerModel {
                next: (self.next + 1) as u64,
                ..self
            }).flush(self.phase == (DownlinkPhase::Writing { draining: true })),
            DownlinkEvent::InboxClosed | DownlinkEvent::InboxEmpty | DownlinkEvent::WriteFailed => (
                ReassemblerModel { phase: DownlinkPhase::Done, ..self },
                DownlinkActionModel::Shutdown,
            ),
        }
    }
}

/// Restores the order of the frames of one direction of a logical stream.
#[derive(Debug)]
pub struct Reassembler {
    next: u64,
    buffer: BTreeMap<u64, Vec<u8>>,
    final_seq: Option<u64>,
    phase: DownlinkPhase,
}

impl View for Reassembler {
    type V = ReassemblerModel;

    closed spec fn view(&self) -> ReassemblerModel {
        ReassemblerModel {
            next: self.next,
            buffer: self.buffer@.map_values(|payload: Vec<u8>| payload@),
            final_seq: self.final_seq,
            phase: self.phase,
        }
    }
}

impl Reassembler {
    /// A reassembler that waits for its first frame.
    pub fn new() -> (r: Reassembler)
        ensures
            r@ == ReassemblerModel::initial(),
    {
        let r = Reassembler {
            next: 0,
            buffer: BTreeMap::new(),
            final_seq: None,
            phase: DownlinkPhase::Receiving,
        };
        assert(r@.buffer =~= Map::empty());
        r
    }

    /// What the reassembler waits for.
    pub fn phase(&self) -> (phase: DownlinkPhase)
        ensures
            phase == self@.phase,
    {
        self.phase
    }

    /// The sequence that the application gets next.
    pub fn next_seq(&self) -> (next: u64)
        ensures
            next == self@.next,
    {
        self.next
    }

    /// Stop if the stream is complete, else wait for frames.
    fn finish(&mut self, draining: bool) -> (action: DownlinkAction)
        ensures
            (final(self)@, action@) == old(self)@.finish(draining),
    {
        let complete: bool = match self.final_seq {
            Some(final_seq) => self.next >= final_seq,
            None => false,
        };
        if complete {
            self.phase = DownlinkPhase::Done;
            DownlinkAction::Shutdown
        } else if draining {
            self.phase = DownlinkPhase::Draining;
            DownlinkAction::Poll
        } else {
            self.phase = DownlinkPhase::Receiving;
            DownlinkAction::Receive
        }
    }

    /// Write the payload that is next, if it is there.
    fn flush(&mut self, draining: bool) -> (action: DownlinkAction)
        ensures
            (final(self)@, action@) == old(self)@.flush(draining),
    {
        let ghost before = self@;
        match self.buffer.remove(&self.next) {
            Some(payload) => {
                self.phase = DownlinkPhase::Writing { draining };
                assert(self@.buffer =~= before.buffer.remove(before.next));
                DownlinkAction::Write(payload)
            },
            None => {
                assert(self@.buffer =~= before.buffer);
                self.finish(draining)
            },
        }
    }

    /// Apply one frame to the reorder buffer and start flushing the contiguous
    /// prefix. A sequence that was written or is held already is dropped.
    pub fn deliver(&mut self, frame: Frame) -> (action: DownlinkAction)
        requires
            old(self)@.expects(DownlinkEvent::Frame(frame@)),
        ensures
            (final(self)@, action@) == old(self)@.step(DownlinkEvent::Frame(frame@)),
    {
        let ghost before = self@;
        let draining: bool = match self.phase {
            DownlinkPhase::Draining => true,
            _ => false,
        };
        match frame.kind {
            FrameKind::Fin => {
                self.final_seq = Some(frame.seq);
                self.finish(draining)
            },
            FrameKind::Data => {
                if frame.seq >= self.next && !self.buffer.contains_key(&frame.seq) {
                    self.buffer.insert(frame.seq, frame.payload);
                    assert(self@.buffer =~= before.buffer.insert(frame.seq, frame.payload@));
                }
                self.flush(draining)
            },
        }
    }

    /// The payload was written to the application.
    pub fn written(&mut self) -> (action: DownlinkAction)
        requires
            old(self)@.expects(DownlinkEvent::Written),
        ensures
            (final(self)@, action@) == old(self)@.step(DownlinkEvent::Written),
    {
        let draining: bool = match self.phase {
            DownlinkPhase::Writing { draining } => draining,
            _ => false,
        };
        self.next = self.next + 1;
        self.flush(draining)
    }

    /// The application socket is gone.
    pub fn write_failed(&mut self) -> (action: DownlinkAction)
        requires
            old(self)@.expects(DownlinkEvent::WriteFailed),
        ensures
            (final(self)@, action@) == old(self)@.step(DownlinkEvent::WriteFailed),
    {
        self.phase = DownlinkPhase::Done;
        DownlinkAction::Shutdown
    }

    /// No frame can be received any more.
    pub fn inbox_closed(&mut self) -> (action: DownlinkAction)
        requires
            old(self)@.expects(DownlinkEvent::InboxClosed),
        ensures
            (final(self)@, action@) == old(self)@.step(DownlinkEvent::InboxClosed),
    {
        self.phase = DownlinkPhase::Done;
        DownlinkAction::Shutdown
    }

    /// Every reader has ended: flush anything already queued, then stop even if
    /// a gap remains (the missing bytes are lost).
    pub fn readers_done(&mut self) -> (action: DownlinkAction)
        requires
            old(self)@.expects(DownlinkEvent::ReadersDone),
        ensures
            (final(self)@, action@) == old(self)@.step(DownlinkEvent::ReadersDone),
    {
        self.phase = DownlinkPhase::Draining;
        DownlinkAction::Poll
    }

    /// No frame is queued after the last reader has ended.
    pub fn inbox_empty(&mut self) -> (action: DownlinkAction)
        requires
            old(self)@.expects(DownlinkEvent::InboxEmpty),
        ensures
            (final(self)@, action@) == old(self)@.step(DownlinkEvent::InboxEmpty),
    {
        self.phase = DownlinkPhase::Done;
        DownlinkAction::Shutdown
    }
}

/// Shared downlink state used to detect when every reader has ended.
#[derive(Debug)]
pub struct Downlink {
    live_readers: usize,
}

impl View for Downlink {
    type V = usize;

    /// The number of readers at work. The counter wraps.
    closed spec fn view(&self) -> usize {
        self.live_readers
    }
}

impl Downlink {
    /// No reader yet.
    pub fn new() -> (downlink: Downlink)
        ensures
            downlink@ == 0,
    {
        Downlink { live_readers: 0 }
    }

    /// A reader starts.
    pub fn add_reader(&mut self)
        ensures
            final(self)@ == old(self)@.wrapping_add(1),
            final(self)@ == readers_step(old(self)@, ReaderEvent::Started),
    {
        self.live_readers = self.live_readers.wrapping_add(1);
    }

    /// A reader ends. Tells whether it was the last one, so that the
    /// reassembler can stop instead of blocking forever on a sequence that
    /// will never arrive.
    pub fn reader_ended(&mut self) -> (last: bool)
        ensures
            last == (old(self)@ == 1),
            final(self)@ == old(self)@.wrapping_sub(1),
            final(self)@ == readers_step(old(self)@, ReaderEvent::Ended),
    {
        let last: bool = self.live_readers == 1;
        self.live_readers = self.live_readers.wrapping_sub(1);
        last
    }
}

/// A reader starts or ends.
pub enum ReaderEvent {
    Started,
    Ended,
}

/// The counter after a reader starts or ends.
pub open spec fn readers_step(count: usize, event: ReaderEvent) -> usize {
    match event {
        ReaderEvent::Started => count.wrapping_add(1),
        ReaderEvent::Ended => count.wrapping_sub(1),
    }
}

/// The counter after a history of readers.
pub open spec fn readers_after(history: Seq<ReaderEvent>) -> usize
    decreases history.len(),
{
    if history.len() == 0 {
        0
    } else {
        readers_step(readers_after(history.drop_last()), history.last())
    }
}

/// How many readers have started and not ended.
pub open spec fn readers_at_work(history: Seq<ReaderEvent>) -> int
    decreases history.len(),
{
    if history.len() == 0 {
        0
    } else {
        readers_at_work(history.drop_last()) + match history.last() {
            ReaderEvent::Started => 1int,
            ReaderEvent::Ended => -1int,
        }
    }
}

/// No reader ends that has not started, and there are never more of them than
/// can be counted.
pub open spec fn readers_plausible(history: Seq<ReaderEvent>) -> bool
    decreases history.len(),
{
    &&& 0 <= readers_at_work(history) <= usize::MAX
    &&& history.len() > 0 ==> readers_plausible(history.drop_last())
}

/// The end of a reader is noticed as that of the last one exactly when no
/// reader is left at work.
pub proof fn last_reader_is_noticed(history: Seq<ReaderEvent>)
    requires
        readers_plausible(history),
    ensures
        readers_after(history) == readers_at_work(history),
        history.len() > 0 && history.last() is Ended ==> (readers_after(history.drop_last()) == 1
            <==> readers_at_work(history) == 0),
    decreases history.len(),
{
    if history.len() > 0 {
        last_reader_is_noticed(history.drop_last());
    }
}

} // verus!
