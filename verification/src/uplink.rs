//! Uplink: which sub-connection carries the next frame.
//!
//! An [`Uplink`] knows of every sub-connection of a logical stream whether it
//! is alive and how many bytes are queued or in flight on it. Frames go to the
//! live connection with the least load, which is what spreads bandwidth across
//! links; the end of the stream is announced on all of them.

use vstd::prelude::*;

verus! {

/// Frames buffered per sub-connection writer before back-pressure kicks in.
/// Kept small so that at most a few frames are lost if a connection dies with
/// data still queued.
pub const WRITER_CHANNEL_CAP: usize = 4;

/// One outbound sub-connection.
#[derive(Debug, Clone, Copy, PartialEq, Eq, Structural)]
pub struct Writer {
    /// Bytes queued or in flight on this connection; drives load balancing.
    pub outstanding: usize,
    pub alive: bool,
}

impl Writer {
    /// With `len` more bytes queued. The counter wraps.
    pub open spec fn queue(self, len: usize) -> Writer {
        Writer { outstanding: self.outstanding.wrapping_add(len), ..self }
    }

    /// With `len` bytes gone from the queue. The counter wraps.
    pub open spec fn release(self, len: usize) -> Writer {
        Writer { outstanding: self.outstanding.wrapping_sub(len), ..self }
    }

    /// With the connection lost.
    pub open spec fn dead(self) -> Writer {
        Writer { alive: false, ..self }
    }
}

/// How many of `writers` are alive.
pub open spec fn live_count(writers: Seq<Writer>) -> nat
    decreases writers.len(),
{
    if writers.len() == 0 {
        0
    } else {
        live_count(writers.drop_last()) + if writers.last().alive {
            1nat
        } else {
            0nat
        }
    }
}

/// Writer `i` is alive and no live one has less outstanding; of those that have
/// as little, it is the first.
pub open spec fn is_least_loaded(writers: Seq<Writer>, i: int) -> bool {
    &&& 0 <= i < writers.len()
    &&& writers[i].alive
    &&& forall|j: int|
        #![trigger writers[j]]
        0 <= j < writers.len() && writers[j].alive ==> {
            &&& writers[i].outstanding <= writers[j].outstanding
            &&& j < i ==> writers[i].outstanding < writers[j].outstanding
        }
}

/// The writer that gets the next frame, if any is alive.
pub open spec fn least_loaded(writers: Seq<Writer>) -> Option<usize> {
    if exists|i: usize| is_least_loaded(writers, i as int) {
        Some(choose|i: usize| is_least_loaded(writers, i as int))
    } else {
        None
    }
}

/// What the dispatcher does with the frame at hand.
#[derive(Debug, Clone, Copy, PartialEq, Eq, Structural)]
pub enum Dispatch {
    /// Send it to this writer.
    Send(usize),
    /// Give it up: every connection is lost.
    Stop,
    /// Keep it until the first connection is there.
    Wait,
}

/// The writers, and what becomes of a frame of `len` bytes.
pub open spec fn dispatch_one(writers: Seq<Writer>, len: usize) -> (Seq<Writer>, Dispatch) {
    match least_loaded(writers) {
        Some(i) => (writers.update(i as int, writers[i as int].queue(len)), Dispatch::Send(i)),
        None => if writers.len() > 0 {
            (writers, Dispatch::Stop)
        } else {
            (writers, Dispatch::Wait)
        },
    }
}

/// The writers after a frame of `len` bytes could not be handed to writer `i`.
pub open spec fn after_failed_send(writers: Seq<Writer>, i: int, len: usize) -> Seq<Writer> {
    writers.update(i, writers[i].release(len).dead())
}

/// The writers with `len` more bytes queued on each live one.
pub open spec fn queue_on_live(writers: Seq<Writer>, len: usize) -> Seq<Writer> {
    writers.map_values(
        |w: Writer|
            if w.alive {
                w.queue(len)
            } else {
                w
            },
    )
}

/// The indices of the live ones of `writers`, in ascending order.
pub open spec fn live_indices(writers: Seq<Writer>) -> Seq<usize>
    decreases writers.len(),
{
    if writers.len() == 0 {
        Seq::empty()
    } else if writers.last().alive {
        live_indices(writers.drop_last()).push((writers.len() - 1) as usize)
    } else {
        live_indices(writers.drop_last())
    }
}

/// `indices` lists the live ones of `writers`, each once, in ascending order.
pub open spec fn lists_live(indices: Seq<usize>, writers: Seq<Writer>) -> bool {
    &&& forall|a: int, b: int| 0 <= a < b < indices.len() ==> indices[a] < indices[b]
    &&& forall|i: usize| #[trigger]
        indices.contains(i) <==> i < writers.len() && writers[i as int].alive
}

pub proof fn lemma_live_count_zero(writers: Seq<Writer>)
    ensures
        live_count(writers) <= writers.len(),
        live_count(writers) == 0 <==> forall|i: int|
            0 <= i < writers.len() ==> !(#[trigger] writers[i]).alive,
    decreases writers.len(),
{
    if writers.len() > 0 {
        let rest = writers.drop_last();
        lemma_live_count_zero(rest);
        if live_count(writers) == 0 {
            assert forall|i: int| 0 <= i < writers.len() implies !(#[trigger] writers[i]).alive by {
                if i < rest.len() {
                    assert(!rest[i].alive);
                }
            }
        } else if live_count(rest) == 0 {
            assert(writers[writers.len() - 1].alive);
        } else {
            let i = choose|i: int| 0 <= i < rest.len() && (#[trigger] rest[i]).alive;
            assert(writers[i].alive);
        }
    }
}

pub proof fn lemma_live_count_update(writers: Seq<Writer>, i: int, w: Writer)
    requires
        0 <= i < writers.len(),
    ensures
        live_count(writers.update(i, w)) + (if writers[i].alive {
            1int
        } else {
            0
        }) == live_count(writers) + (if w.alive {
            1int
        } else {
            0
        }),
    decreases writers.len(),
{
    let after = writers.update(i, w);
    if i == writers.len() - 1 {
        assert(after.drop_last() =~= writers.drop_last());
    } else {
        assert(after.drop_last() =~= writers.drop_last().update(i, w));
        lemma_live_count_update(writers.drop_last(), i, w);
    }
}

/// At most one writer is the least loaded.
pub proof fn lemma_least_loaded_unique(writers: Seq<Writer>, i: int, j: int)
    requires
        is_least_loaded(writers, i),
        is_least_loaded(writers, j),
    ensures
        i == j,
{
    assert(writers[i].alive && writers[j].alive);
}

/// Shared uplink state: what is known of every writer.
#[derive(Debug)]
pub struct Uplink {
    writers: Vec<Writer>,
    live_writers: usize,
    /// Set once at least one writer has ever been registered, distinguishing
    /// "not connected yet" from "all connections lost".
    ever_added: bool,
}

impl View for Uplink {
    type V = Seq<Writer>;

    /// The writers, in the order in which they were added.
    closed spec fn view(&self) -> Seq<Writer> {
        self.writers@
    }
}

impl Uplink {
    /// The counters agree with the writers.
    pub closed spec fn wf(&self) -> bool {
        &&& self.live_writers == live_count(self.writers@)
        &&& self.ever_added == (self.writers@.len() > 0)
    }

    /// An uplink without connections.
    pub fn new() -> (uplink: Uplink)
        ensures
            uplink.wf(),
            uplink@ == Seq::<Writer>::empty(),
    {
        Uplink { writers: Vec::new(), live_writers: 0, ever_added: false }
    }

    /// The writers can be counted, whatever else is known of them.
    pub proof fn lemma_writers_bounded(&self)
        requires
            self.wf(),
        ensures
            self@.len() <= usize::MAX,
    {
        assert(self.writers.len() <= usize::MAX);
    }

    /// Whether a connection has ever been registered.
    pub fn ever_added(&self) -> (added: bool)
        requires
            self.wf(),
        ensures
            added == (self@.len() > 0),
    {
        self.ever_added
    }

    /// Register one more connection and give its index.
    pub fn add_writer(&mut self) -> (i: usize)
        requires
            old(self).wf(),
        ensures
            final(self).wf(),
            i == old(self)@.len(),
            final(self)@ == old(self)@.push(Writer { outstanding: 0, alive: true }),
            final(self)@ == uplink_step(old(self)@, UplinkEvent::Added),
            final(self)@.len() <= usize::MAX,
    {
        let i: usize = self.writers.len();
        let ghost before = self.writers@;
        self.writers.push(Writer { outstanding: 0, alive: true });
        proof {
            assert(self.writers@.drop_last() =~= before);
            lemma_live_count_zero(self.writers@);
            assert(self.writers.len() <= usize::MAX);
        }
        self.live_writers = self.live_writers + 1;
        self.ever_added = true;
        i
    }

    /// Flip a writer to dead exactly once, keeping `live_writers` consistent.
    pub fn mark_dead(&mut self, i: usize)
        requires
            old(self).wf(),
            i < old(self)@.len(),
        ensures
            final(self).wf(),
            final(self)@ == old(self)@.update(i as int, old(self)@[i as int].dead()),
            final(self)@ == uplink_step(old(self)@, UplinkEvent::Died(i)),
    {
        let w: Writer = self.writers[i];
        proof {
            lemma_live_count_update(self.writers@, i as int, w.dead());
        }
        if w.alive {
            self.live_writers = self.live_writers - 1;
        }
        self.writers[i] = Writer { outstanding: w.outstanding, alive: false };
    }

    /// The live sub-connection with the fewest outstanding bytes, or `None` if
    /// none are currently alive.
    pub fn pick(&self) -> (r: Option<usize>)
        ensures
            r == least_loaded(self@),
            match r {
                Some(i) => is_least_loaded(self@, i as int),
                None => forall|i: int| 0 <= i < self@.len() ==> !(#[trigger] self@[i]).alive,
            },
    {
        let mut best: Option<usize> = None;
        let mut i: usize = 0;
        while i < self.writers.len()
            invariant
                i <= self.writers@.len(),
                match best {
                    Some(b) => b < i && is_least_loaded(self.writers@.take(i as int), b as int),
                    None => forall|j: int|
                        0 <= j < i ==> !(#[trigger] self.writers@[j]).alive,
                },
            decreases self.writers@.len() - i,
        {
            let w: Writer = self.writers[i];
            let better: bool = match best {
                Some(b) => w.alive && w.outstanding < self.writers[b].outstanding,
                None => w.alive,
            };
            let ghost seen = self.writers@.take(i as int);
            let ghost now = self.writers@.take(i + 1);
            proof {
                assert forall|j: int| 0 <= j < i implies #[trigger] now[j] == seen[j] by {}
                assert(now[i as int] == w);
                if let Some(b) = best {
                    assert(seen[b as int] == self.writers@[b as int]);
                }
            }
            if better {
                best = Some(i);
            }
            i = i + 1;
        }
        proof {
            assert(self.writers@.take(self.writers@.len() as int) =~= self.writers@);
            match best {
                Some(b) => {
                    let c = choose|c: usize| is_least_loaded(self@, c as int);
                    lemma_least_loaded_unique(self@, b as int, c as int);
                },
                None => {},
            }
        }
        best
    }

    /// Choose the connection for a frame of `len` bytes and count the frame as
    /// queued on it.
    ///
    /// Says `Stop` only when the stream has no live connections left and never
    /// will.
    pub fn dispatch(&mut self, len: usize) -> (r: Dispatch)
        requires
            old(self).wf(),
        ensures
            final(self).wf(),
            (final(self)@, r) == dispatch_one(old(self)@, len),
            final(self)@ == uplink_step(old(self)@, UplinkEvent::Dispatched(len)),
            final(self)@.len() <= usize::MAX,
    {
        proof {
            self.lemma_writers_bounded();
        }
        match self.pick() {
            Some(i) => {
                let w: Writer = self.writers[i];
                proof {
                    lemma_live_count_update(self.writers@, i as int, w.queue(len));
                }
                self.writers[i] = Writer {
                    outstanding: w.outstanding.wrapping_add(len),
                    alive: w.alive,
                };
                Dispatch::Send(i)
            },
            None => {
                proof {
                    lemma_live_count_zero(self.writers@);
                }
                if self.ever_added && self.live_writers == 0 {
                    Dispatch::Stop
                } else {
                    Dispatch::Wait
                }
            },
        }
    }

    /// `len` bytes are neither queued nor in flight on writer `i` any more.
    pub fn release(&mut self, i: usize, len: usize)
        requires
            old(self).wf(),
            i < old(self)@.len(),
        ensures
            final(self).wf(),
            final(self)@ == old(self)@.update(i as int, old(self)@[i as int].release(len)),
            final(self)@ == uplink_step(old(self)@, UplinkEvent::Released(i, len)),
    {
        let w: Writer = self.writers[i];
        proof {
            lemma_live_count_update(self.writers@, i as int, w.release(len));
        }
        self.writers[i] = Writer {
            outstanding: w.outstanding.wrapping_sub(len),
            alive: w.alive,
        };
    }

    /// A frame of `len` bytes could not be handed to writer `i`, which has just
    /// died.
    pub fn send_failed(&mut self, i: usize, len: usize)
        requires
            old(self).wf(),
            i < old(self)@.len(),
        ensures
            final(self).wf(),
            final(self)@ == after_failed_send(old(self)@, i as int, len),
            final(self)@ == uplink_step(old(self)@, UplinkEvent::SendFailed(i, len)),
    {
        self.release(i, len);
        self.mark_dead(i);
    }

    /// Choose every currently-live connection for a FIN of `len` bytes, so that
    /// it survives the loss of any single sub-connection, and count the FIN as
    /// queued on each.
    pub fn broadcast_fin(&mut self, len: usize) -> (targets: Vec<usize>)
        requires
            old(self).wf(),
        ensures
            final(self).wf(),
            final(self)@ == queue_on_live(old(self)@, len),
            final(self)@ == uplink_step(old(self)@, UplinkEvent::FinBroadcast(len)),
            targets@ == live_indices(old(self)@),
            lists_live(targets@, old(self)@),
    {
        let mut targets: Vec<usize> = Vec::new();
        let mut i: usize = 0;
        let ghost before = self.writers@;
        while i < self.writers.len()
            invariant
                self.wf(),
                i <= before.len(),
                self.writers@.len() == before.len(),
                forall|j: int|
                    0 <= j < i ==> #[trigger] self.writers@[j] == queue_on_live(before, len)[j],
                forall|j: int| i <= j < before.len() ==> #[trigger] self.writers@[j] == before[j],
                targets@ == live_indices(before.take(i as int)),
                forall|a: int, b: int| 0 <= a < b < targets@.len() ==> targets@[a] < targets@[b],
                forall|a: int| 0 <= a < targets@.len() ==> #[trigger] targets@[a] < i,
                forall|j: usize| #[trigger]
                    targets@.contains(j) <==> j < i && before[j as int].alive,
            decreases before.len() - i,
        {
            let w: Writer = self.writers[i];
            assert(w == before[i as int]);
            assert(before.take(i + 1).drop_last() =~= before.take(i as int));
            if w.alive {
                proof {
                    lemma_live_count_update(self.writers@, i as int, w.queue(len));
                }
                self.writers[i] = Writer {
                    outstanding: w.outstanding.wrapping_add(len),
                    alive: w.alive,
                };
                let ghost listed = targets@;
                targets.push(i);
                proof {
                    assert forall|j: usize| #[trigger] targets@.contains(j) <==> j < i + 1
                        && before[j as int].alive by {
                        if j == i {
                            assert(targets@[targets@.len() - 1] == i);
                        }
                        if listed.contains(j) {
                            let a = choose|a: int| 0 <= a < listed.len() && listed[a] == j;
                            assert(targets@[a] == j);
                        }
                        if targets@.contains(j) && j != i {
                            let a = choose|a: int| 0 <= a < targets@.len() && targets@[a] == j;
                            assert(listed[a] == j);
                        }
                    }
                }
            }
            i = i + 1;
        }
        assert(self.writers@ =~= queue_on_live(before, len));
        assert(before.take(before.len() as int) =~= before);
        targets
    }
}

/// Some live writer is the least loaded, if any writer is alive.
pub proof fn lemma_least_loaded_exists(writers: Seq<Writer>, alive: int) -> (i: int)
    requires
        0 <= alive < writers.len(),
        writers[alive].alive,
    ensures
        is_least_loaded(writers, i),
    decreases writers.len(),
{
    let rest = writers.drop_last();
    let last = writers.len() - 1;
    if exists|j: int| 0 <= j < rest.len() && (#[trigger] rest[j]).alive {
        let j = choose|j: int| 0 <= j < rest.len() && (#[trigger] rest[j]).alive;
        let b = lemma_least_loaded_exists(rest, j);
        assert forall|k: int| 0 <= k < rest.len() implies #[trigger] writers[k] == rest[k] by {}
        assert(rest[b] == writers[b]);
        if writers[last].alive && writers[last].outstanding < writers[b].outstanding {
            last
        } else {
            b
        }
    } else {
        assert forall|k: int| 0 <= k < last implies !(#[trigger] writers[k]).alive by {
            assert(!rest[k].alive);
        }
        last
    }
}

/// A frame is sent as long as one connection survives, to the least loaded one.
/// It is given up exactly when there were connections and all are lost, and
/// kept waiting exactly when there was none yet.
pub proof fn one_survivor_is_enough(writers: Seq<Writer>, len: usize)
    requires
        writers.len() <= usize::MAX,
    ensures
        dispatch_one(writers, len).1 is Send <==> live_count(writers) > 0,
        dispatch_one(writers, len).1 matches Dispatch::Send(i) ==> is_least_loaded(
            writers,
            i as int,
        ),
        dispatch_one(writers, len).1 is Stop <==> live_count(writers) == 0 && writers.len() > 0,
        dispatch_one(writers, len).1 is Wait <==> writers.len() == 0,
{
    lemma_live_count_zero(writers);
    if live_count(writers) > 0 {
        let a = choose|a: int| 0 <= a < writers.len() && (#[trigger] writers[a]).alive;
        let i = lemma_least_loaded_exists(writers, a);
        assert(is_least_loaded(writers, (i as usize) as int));
    }
}

/// The writer that gets the next frame is alive, none that is alive has fewer
/// bytes outstanding, and none before it has as few. There is such a writer
/// exactly if any is alive.
pub proof fn chosen_writer_has_the_least_load(writers: Seq<Writer>)
    requires
        writers.len() <= usize::MAX,
    ensures
        match least_loaded(writers) {
            Some(i) => {
                &&& i < writers.len()
                &&& writers[i as int].alive
                &&& forall|j: int|
                    0 <= j < writers.len() && (#[trigger] writers[j]).alive
                        ==> writers[i as int].outstanding <= writers[j].outstanding
                &&& forall|j: int|
                    0 <= j < i && (#[trigger] writers[j]).alive ==> writers[i as int].outstanding
                        < writers[j].outstanding
            },
            None => forall|j: int| 0 <= j < writers.len() ==> !(#[trigger] writers[j]).alive,
        },
{
    one_survivor_is_enough(writers, 0);
    lemma_live_count_zero(writers);
}

/// Dispatching a frame adds its bytes to the load of the writer that it goes to,
/// which stays alive, and changes nothing else; a frame that is not sent changes
/// nothing at all. The counter wraps.
pub proof fn dispatch_loads_only_the_chosen_writer(writers: Seq<Writer>, len: usize)
    requires
        writers.len() <= usize::MAX,
    ensures
        dispatch_one(writers, len).0.len() == writers.len(),
        match dispatch_one(writers, len).1 {
            Dispatch::Send(i) => {
                let load = writers[i as int].outstanding;
                let after = dispatch_one(writers, len).0;
                &&& least_loaded(writers) == Some(i)
                &&& after[i as int].alive
                &&& after[i as int].outstanding == load + len - (if load + len > usize::MAX {
                    usize::MAX + 1
                } else {
                    0
                })
                &&& forall|j: int|
                    0 <= j < writers.len() && j != i ==> #[trigger] after[j] == writers[j]
            },
            Dispatch::Stop => {
                &&& dispatch_one(writers, len).0 == writers
                &&& writers.len() > 0
                &&& forall|j: int| 0 <= j < writers.len() ==> !(#[trigger] writers[j]).alive
            },
            Dispatch::Wait => writers.len() == 0 && dispatch_one(writers, len).0 == writers,
        },
{
    one_survivor_is_enough(writers, len);
    lemma_live_count_zero(writers);
}

/// A frame that could not be handed out leaves the writer dead, with its load
/// lower by the bytes of the frame, and no other writer changed. The counter
/// wraps.
pub proof fn failed_send_touches_one_writer(writers: Seq<Writer>, i: int, len: usize)
    requires
        0 <= i < writers.len(),
    ensures
        after_failed_send(writers, i, len).len() == writers.len(),
        !after_failed_send(writers, i, len)[i].alive,
        after_failed_send(writers, i, len)[i].outstanding == writers[i].outstanding - len + (
        if writers[i].outstanding < len {
            usize::MAX + 1
        } else {
            0
        }),
        forall|j: int|
            0 <= j < writers.len() && j != i ==> #[trigger] after_failed_send(writers, i, len)[j]
                == writers[j],
{
}

/// A frame that is dispatched and comes back leaves the loads as they were: all
/// that changes is that its writer is dead.
pub proof fn failed_send_undoes_dispatch(writers: Seq<Writer>, len: usize)
    requires
        writers.len() <= usize::MAX,
    ensures
        dispatch_one(writers, len).1 matches Dispatch::Send(i) ==> after_failed_send(
            dispatch_one(writers, len).0,
            i as int,
            len,
        ) == writers.update(
            i as int,
            Writer { outstanding: writers[i as int].outstanding, alive: false },
        ),
{
    one_survivor_is_enough(writers, len);
    if let Dispatch::Send(i) = dispatch_one(writers, len).1 {
        release_undoes_queue(writers[i as int], len);
    }
}

/// Broadcasting a FIN adds its bytes to the load of every live writer and changes
/// nothing else. The counter wraps.
pub proof fn broadcast_loads_every_live_writer(writers: Seq<Writer>, len: usize)
    ensures
        queue_on_live(writers, len).len() == writers.len(),
        forall|j: int|
            0 <= j < writers.len() ==> {
                let load = writers[j].outstanding;
                &&& (#[trigger] queue_on_live(writers, len)[j]).alive == writers[j].alive
                &&& queue_on_live(writers, len)[j].outstanding == if !writers[j].alive {
                    load as int
                } else if load + len > usize::MAX {
                    load + len - (usize::MAX + 1)
                } else {
                    load + len
                }
            },
{
}

/// Queueing and releasing move the load by exactly the bytes in question and leave
/// a connection as alive as it was; losing a connection leaves its load. The
/// counter wraps.
pub proof fn load_moves_by_the_bytes(writer: Writer, len: usize)
    ensures
        writer.queue(len).outstanding == writer.outstanding + len - (if writer.outstanding + len
            > usize::MAX {
            usize::MAX + 1
        } else {
            0
        }),
        writer.release(len).outstanding == writer.outstanding - len + (if writer.outstanding < len {
            usize::MAX + 1
        } else {
            0
        }),
        writer.dead().outstanding == writer.outstanding,
        writer.queue(len).alive == writer.alive,
        writer.release(len).alive == writer.alive,
        !writer.dead().alive,
{
}

/// When a connection turns out to be dead, the frame goes to another live one
/// if there is any; each such failure leaves one live connection fewer, so a
/// frame is retried at most once per connection.
pub proof fn failed_send_moves_on(writers: Seq<Writer>, i: int, len: usize)
    requires
        writers.len() <= usize::MAX,
        0 <= i < writers.len(),
        writers[i].alive,
    ensures
        live_count(after_failed_send(writers, i, len)) == live_count(writers) - 1,
        live_count(writers) > 1 ==> (dispatch_one(
            after_failed_send(writers, i, len),
            len,
        ).1 matches Dispatch::Send(k) && k != i),
        live_count(writers) == 1 ==> dispatch_one(
            after_failed_send(writers, i, len),
            len,
        ).1 is Stop,
{
    lemma_live_count_update(writers, i, writers[i].release(len).dead());
    one_survivor_is_enough(after_failed_send(writers, i, len), len);
}

pub proof fn lemma_live_indices_len(writers: Seq<Writer>)
    ensures
        live_indices(writers).len() == live_count(writers),
    decreases writers.len(),
{
    if writers.len() > 0 {
        lemma_live_indices_len(writers.drop_last());
    }
}

proof fn lemma_live_indices_ascend(writers: Seq<Writer>)
    requires
        writers.len() <= usize::MAX,
    ensures
        forall|a: int|
            0 <= a < live_indices(writers).len() ==> #[trigger] live_indices(writers)[a]
                < writers.len(),
        forall|a: int, b: int|
            0 <= a < b < live_indices(writers).len() ==> live_indices(writers)[a] < live_indices(
                writers,
            )[b],
    decreases writers.len(),
{
    if writers.len() > 0 {
        let before = live_indices(writers.drop_last());
        lemma_live_indices_ascend(writers.drop_last());
        assert(live_indices(writers) == if writers.last().alive {
            before.push((writers.len() - 1) as usize)
        } else {
            before
        });
    }
}

/// A FIN goes to every live connection and to no other, to each of them once, in
/// the order in which they were added.
pub proof fn live_indices_are_the_live_ones(writers: Seq<Writer>)
    requires
        writers.len() <= usize::MAX,
    ensures
        forall|i: usize| #[trigger]
            live_indices(writers).contains(i) <==> i < writers.len() && writers[i as int].alive,
        forall|a: int, b: int|
            0 <= a < b < live_indices(writers).len() ==> live_indices(writers)[a] < live_indices(
                writers,
            )[b],
    decreases writers.len(),
{
    lemma_live_indices_ascend(writers);
    if writers.len() > 0 {
        let rest = writers.drop_last();
        let before = live_indices(rest);
        let now = live_indices(writers);
        let last = (writers.len() - 1) as usize;
        live_indices_are_the_live_ones(rest);
        assert(now == if writers.last().alive {
            before.push(last)
        } else {
            before
        });
        assert forall|i: usize| #[trigger] now.contains(i) <==> i < writers.len()
            && writers[i as int].alive by {
            assert(before.contains(i) <==> i < rest.len() && rest[i as int].alive);
            if before.contains(i) {
                let a = choose|a: int| 0 <= a < before.len() && before[a] == i;
                assert(now[a] == i);
            }
            if i == last && writers.last().alive {
                assert(now[now.len() - 1] == i);
            }
            if now.contains(i) && !before.contains(i) {
                let a = choose|a: int| 0 <= a < now.len() && now[a] == i;
                if a < before.len() {
                    assert(before[a] == i);
                }
            }
        }
    }
}

/// With two or more live connections, a FIN that is broadcast survives the loss
/// of any single one: another carries it as well.
pub proof fn fin_survives_any_single_loss(writers: Seq<Writer>, lost: usize)
    requires
        writers.len() <= usize::MAX,
        live_count(writers) > 1,
    ensures
        exists|i: usize| #[trigger] live_indices(writers).contains(i) && i != lost,
{
    lemma_live_indices_len(writers);
    lemma_live_indices_ascend(writers);
    let targets = live_indices(writers);
    assert(targets[0] < targets[1]);
    if targets[0] != lost {
        assert(targets.contains(targets[0]));
    } else {
        assert(targets.contains(targets[1]));
    }
}

/// A frame that is sent and then leaves the queue leaves no trace in the load.
pub proof fn release_undoes_queue(writer: Writer, len: usize)
    ensures
        writer.queue(len).release(len) == writer,
{
}

/// What can happen to an [`Uplink`].
pub enum UplinkEvent {
    /// A connection was added.
    Added,
    /// A frame of that many bytes was dispatched.
    Dispatched(usize),
    /// A FIN of that many bytes was broadcast.
    FinBroadcast(usize),
    /// That many bytes left the queue of a writer.
    Released(usize, usize),
    /// A frame of that many bytes could not be handed to a writer.
    SendFailed(usize, usize),
    /// A writer died.
    Died(usize),
}

/// How an [`Uplink`] takes an event.
pub open spec fn uplink_step(writers: Seq<Writer>, event: UplinkEvent) -> Seq<Writer> {
    match event {
        UplinkEvent::Added => writers.push(Writer { outstanding: 0, alive: true }),
        UplinkEvent::Dispatched(len) => dispatch_one(writers, len).0,
        UplinkEvent::FinBroadcast(len) => queue_on_live(writers, len),
        UplinkEvent::Released(i, len) => writers.update(i as int, writers[i as int].release(len)),
        UplinkEvent::SendFailed(i, len) => after_failed_send(writers, i as int, len),
        UplinkEvent::Died(i) => writers.update(i as int, writers[i as int].dead()),
    }
}

/// The writers after a history of events, which starts without any.
pub open spec fn writers_after(history: Seq<UplinkEvent>) -> Seq<Writer>
    decreases history.len(),
{
    if history.len() == 0 {
        Seq::empty()
    } else {
        uplink_step(writers_after(history.drop_last()), history.last())
    }
}

/// Each event of the history speaks of a writer that was there.
pub open spec fn is_history(history: Seq<UplinkEvent>) -> bool
    decreases history.len(),
{
    history.len() > 0 ==> {
        &&& is_history(history.drop_last())
        &&& match history.last() {
            UplinkEvent::Released(i, _) | UplinkEvent::SendFailed(i, _) | UplinkEvent::Died(i) => i
                < writers_after(history.drop_last()).len(),
            _ => true,
        }
    }
}

/// The bytes that were queued on writer `i` and have not left its queue.
pub open spec fn bytes_in_flight(history: Seq<UplinkEvent>, i: int) -> int
    decreases history.len(),
{
    if history.len() == 0 {
        0
    } else {
        let before = writers_after(history.drop_last());
        bytes_in_flight(history.drop_last(), i) + match history.last() {
            UplinkEvent::Dispatched(len) if least_loaded(before) == Some(i as usize) => len as int,
            UplinkEvent::FinBroadcast(len) if i < before.len() && before[i].alive => len as int,
            UplinkEvent::Released(j, len) if j == i => -len,
            UplinkEvent::SendFailed(j, len) if j == i => -len,
            _ => 0int,
        }
    }
}

/// The counter and the bytes in flight differ by whole turns of the counter.
proof fn lemma_outstanding_turns(history: Seq<UplinkEvent>, i: int) -> (turns: int)
    requires
        is_history(history),
        0 <= i <= usize::MAX,
    ensures
        i < writers_after(history).len() ==> bytes_in_flight(history, i) == writers_after(
            history,
        )[i].outstanding + turns * (usize::MAX + 1),
        i >= writers_after(history).len() ==> bytes_in_flight(history, i) == 0,
    decreases history.len(),
{
    let modulus: int = usize::MAX + 1;
    if history.len() == 0 {
        0
    } else {
        let before = writers_after(history.drop_last());
        let turns = lemma_outstanding_turns(history.drop_last(), i);
        assert((turns + 1) * modulus == turns * modulus + modulus) by (nonlinear_arith);
        assert((turns - 1) * modulus == turns * modulus - modulus) by (nonlinear_arith);
        if i >= before.len() {
            0
        } else {
            let load = before[i].outstanding;
            match history.last() {
                UplinkEvent::Dispatched(len) if least_loaded(before) == Some(i as usize) && load
                    + len > usize::MAX => turns + 1,
                UplinkEvent::FinBroadcast(len) if before[i].alive && load + len > usize::MAX => turns
                    + 1,
                UplinkEvent::Released(j, len) if j == i && load < len => turns - 1,
                UplinkEvent::SendFailed(j, len) if j == i && load < len => turns - 1,
                _ => turns,
            }
        }
    }
}

/// The load of a connection is the number of bytes queued or in flight on it,
/// as long as that number fits the counter.
pub proof fn outstanding_is_bytes_in_flight(history: Seq<UplinkEvent>, i: int)
    requires
        is_history(history),
        0 <= i < writers_after(history).len() <= usize::MAX,
        0 <= bytes_in_flight(history, i) <= usize::MAX,
    ensures
        writers_after(history)[i].outstanding == bytes_in_flight(history, i),
{
    let modulus: int = usize::MAX + 1;
    let turns = lemma_outstanding_turns(history, i);
    assert(turns * modulus >= modulus || turns * modulus == 0 || turns * modulus <= -modulus)
        by (nonlinear_arith)
        requires
            modulus > 0,
    ;
}

/// A new connection comes after those that are there, alive and without load.
pub proof fn new_connection_is_idle(history: Seq<UplinkEvent>)
    ensures
        ({
            let before = writers_after(history);
            let after = writers_after(history.push(UplinkEvent::Added));
            &&& after.len() == before.len() + 1
            &&& after.last().alive
            &&& after.last().outstanding == 0
            &&& after.drop_last() == before
        }),
{
    assert(history.push(UplinkEvent::Added).drop_last() =~= history);
    assert(writers_after(history.push(UplinkEvent::Added)).drop_last() =~= writers_after(history));
}

/// What leaves the queue of one connection, or the loss of it, does not touch
/// another. The loss of a connection leaves it dead; bytes that leave its queue
/// leave it as alive as it was.
pub proof fn connections_are_independent(writers: Seq<Writer>, i: usize, len: usize)
    requires
        i < writers.len(),
    ensures
        ({
            let released = uplink_step(writers, UplinkEvent::Released(i, len));
            let died = uplink_step(writers, UplinkEvent::Died(i));
            &&& released.len() == died.len() == writers.len()
            &&& forall|j: int|
                0 <= j < writers.len() && j != i ==> #[trigger] released[j] == writers[j]
            &&& forall|j: int| 0 <= j < writers.len() && j != i ==> #[trigger] died[j] == writers[j]
            &&& released[i as int].alive == writers[i as int].alive
            &&& released[i as int].outstanding == writers[i as int].outstanding - len + (
            if writers[i as int].outstanding < len {
                usize::MAX + 1
            } else {
                0
            })
            &&& !died[i as int].alive
            &&& died[i as int].outstanding == writers[i as int].outstanding
        }),
{
}

/// A connection that is lost never comes back.
pub proof fn the_dead_stay_dead(history: Seq<UplinkEvent>, event: UplinkEvent, i: int)
    requires
        is_history(history.push(event)),
        0 <= i < writers_after(history).len(),
        !writers_after(history)[i].alive,
    ensures
        i < writers_after(history.push(event)).len(),
        !writers_after(history.push(event))[i].alive,
{
    assert(history.push(event).drop_last() =~= history);
}

} // verus!
