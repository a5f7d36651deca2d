//! Server mode (mtcp2tcp): sub-connections that share a session are grouped
//! into one logical stream, bridged to one connection to the target.

use std::collections::HashMap;

use vstd::prelude::*;

use crate::bytes::from_be;
use crate::protocol::{SessionId, SESSION_ID_LEN};

verus! {

use crate::bytes::{
    be_value, lemma_be_range_values, lemma_be_value_bound, lemma_be_value_injective,
};

broadcast use vstd::std_specs::hash::group_hash_axioms;

/// Sessions keyed by client-chosen id; the entry is the running logical stream.
#[derive(Debug)]
pub struct Sessions<A> {
    /// The streams, by the number that the session id denotes.
    streams: HashMap<u128, A>,
}

impl<A> View for Sessions<A> {
    type V = Map<Seq<u8>, A>;

    closed spec fn view(&self) -> Map<Seq<u8>, A> {
        Map::new(
            |id: Seq<u8>|
                id.len() == SESSION_ID_LEN && self.streams@.contains_key(be_value(id) as u128),
            |id: Seq<u8>| self.streams@[be_value(id) as u128],
        )
    }
}

/// The number that a session id denotes.
fn session_key(id: &SessionId) -> (key: u128)
    ensures
        key == be_value(id@),
{
    from_be(id.as_slice())
}

impl<A> Sessions<A> {
    /// No session is running.
    pub fn new() -> (sessions: Sessions<A>)
        ensures
            sessions@ == Map::<Seq<u8>, A>::empty(),
    {
        let sessions = Sessions { streams: HashMap::new() };
        assert(sessions@ =~= Map::<Seq<u8>, A>::empty());
        sessions
    }

    /// The logical stream that a sub-connection of this session joins; `None`
    /// if the session is new, and a target connection is to be opened for it.
    pub fn find(&self, id: &SessionId) -> (stream: Option<&A>)
        ensures
            stream == (if self@.contains_key(id@) {
                Some(&self@[id@])
            } else {
                None
            }),
    {
        proof {
            lemma_session_key_injective(id@);
        }
        self.streams.get(&session_key(id))
    }

    /// A sub-connection of a session arrived. Where the session is new,
    /// `target` is the stream that runs on the target connection opened for it,
    /// or `None` if the target could not be reached. A session that runs
    /// already keeps its stream.
    pub fn arrived(&mut self, id: &SessionId, target: Option<A>)
        ensures
            final(self)@ == sessions_step(
                old(self)@,
                SessionEvent::Arrived { id: id@, target },
            ),
    {
        let ghost before = self@;
        let key: u128 = session_key(id);
        proof {
            lemma_session_key_injective(id@);
        }
        if !self.streams.contains_key(&key) {
            if let Some(stream) = target {
                self.streams.insert(key, stream);
                assert(self@ =~= before.insert(id@, stream));
            }
        }
    }

    /// The logical stream of a session has ended.
    pub fn closed(&mut self, id: &SessionId)
        ensures
            final(self)@ == sessions_step(old(self)@, SessionEvent::Closed { id: id@ }),
    {
        let ghost before = self@;
        self.streams.remove(&session_key(id));
        proof {
            lemma_session_key_injective(id@);
            assert(self@ =~= before.remove(id@));
        }
    }
}

/// A session id is the only one that denotes its number.
proof fn lemma_session_key_injective(id: Seq<u8>)
    requires
        id.len() == SESSION_ID_LEN,
    ensures
        be_value(id) <= u128::MAX,
        forall|other: Seq<u8>|
            other.len() == SESSION_ID_LEN && #[trigger] be_value(other) as u128 == be_value(
                id,
            ) as u128 ==> other == id,
{
    lemma_be_range_values();
    lemma_be_value_bound(id);
    assert forall|other: Seq<u8>|
        other.len() == SESSION_ID_LEN && #[trigger] be_value(other) as u128 == be_value(
            id,
        ) as u128 implies other == id by {
        lemma_be_value_bound(other);
        lemma_be_value_injective(other, id);
    }
}

/// What can happen to the sessions of a server.
pub enum SessionEvent<A> {
    /// A sub-connection of a session arrived. `target` is the stream that runs
    /// on a new target connection, if one is asked for and can be opened.
    Arrived { id: Seq<u8>, target: Option<A> },
    /// The logical stream of a session ended.
    Closed { id: Seq<u8> },
}

impl<A> SessionEvent<A> {
    /// The session that the event is about.
    pub open spec fn session(self) -> Seq<u8> {
        match self {
            SessionEvent::Arrived { id, .. } => id,
            SessionEvent::Closed { id } => id,
        }
    }
}

/// The sessions after an event. A sub-connection joins the stream of its
/// session; only where there is none is a target opened.
pub open spec fn sessions_step<A>(
    sessions: Map<Seq<u8>, A>,
    event: SessionEvent<A>,
) -> Map<Seq<u8>, A> {
    match event {
        SessionEvent::Arrived { id, target } => if sessions.contains_key(id) {
            sessions
        } else {
            match target {
                Some(stream) => sessions.insert(id, stream),
                None => sessions,
            }
        },
        SessionEvent::Closed { id } => sessions.remove(id),
    }
}

/// The sessions that run after a history of events.
pub open spec fn sessions_after<A>(history: Seq<SessionEvent<A>>) -> Map<Seq<u8>, A>
    decreases history.len(),
{
    if history.len() == 0 {
        Map::empty()
    } else {
        sessions_step(sessions_after(history.drop_last()), history.last())
    }
}

/// Only streams that run come to an end.
pub open spec fn is_history<A>(history: Seq<SessionEvent<A>>) -> bool
    decreases history.len(),
{
    history.len() > 0 ==> {
        &&& is_history(history.drop_last())
        &&& history.last() matches SessionEvent::Closed { id } ==> sessions_after(
            history.drop_last(),
        ).contains_key(id)
    }
}

/// How many connections to the target are open for a session.
pub open spec fn targets_open<A>(history: Seq<SessionEvent<A>>, id: Seq<u8>) -> int
    decreases history.len(),
{
    if history.len() == 0 {
        0
    } else {
        let before = targets_open(history.drop_last(), id);
        if history.last().session() != id {
            before
        } else {
            match history.last() {
                SessionEvent::Arrived { target, .. } => if target is Some && !sessions_after(
                    history.drop_last(),
                ).contains_key(id) {
                    before + 1
                } else {
                    before
                },
                SessionEvent::Closed { .. } => before - 1,
            }
        }
    }
}

/// However its sub-connections arrive, a session has one connection to the
/// target while it runs, and none otherwise.
pub proof fn one_target_per_session<A>(history: Seq<SessionEvent<A>>, id: Seq<u8>)
    requires
        is_history(history),
    ensures
        targets_open(history, id) == if sessions_after(history).contains_key(id) {
            1int
        } else {
            0int
        },
    decreases history.len(),
{
    if history.len() > 0 {
        one_target_per_session(history.drop_last(), id);
    }
}

/// While a session runs, further sub-connections of it join the same stream.
pub proof fn sub_connections_share_the_stream<A>(
    history: Seq<SessionEvent<A>>,
    id: Seq<u8>,
    target: Option<A>,
)
    requires
        sessions_after(history).contains_key(id),
    ensures
        sessions_after(history.push(SessionEvent::Arrived { id, target })) == sessions_after(
            history,
        ),
{
    assert(history.push(SessionEvent::Arrived { id, target }).drop_last() =~= history);
}

/// A session that is not running starts on the target connection that was opened
/// for its first sub-connection, and does not start where none could be opened.
/// Once it has ended it is not running, and would start anew.
pub proof fn session_runs_from_first_arrival_to_end<A>(
    history: Seq<SessionEvent<A>>,
    id: Seq<u8>,
    stream: A,
)
    requires
        !sessions_after(history).contains_key(id),
    ensures
        ({
            let started = history.push(SessionEvent::Arrived { id, target: Some(stream) });
            let refused = history.push(SessionEvent::Arrived { id, target: None });
            let ended = started.push(SessionEvent::Closed { id });
            &&& sessions_after(started).contains_key(id)
            &&& sessions_after(started)[id] == stream
            &&& sessions_after(refused) == sessions_after(history)
            &&& sessions_after(ended) == sessions_after(history)
        }),
{
    let started = history.push(SessionEvent::Arrived { id, target: Some(stream) });
    let ended = started.push(SessionEvent::Closed { id });
    assert(started.drop_last() =~= history);
    assert(history.push(SessionEvent::Arrived { id, target: None }).drop_last() =~= history);
    assert(sessions_after(started) == sessions_after(history).insert(id, stream));
    assert(ended.drop_last() =~= started);
    assert(sessions_after(ended) =~= sessions_after(history));
}

/// The end of a session takes that session out, whatever came before.
pub proof fn ended_session_is_gone<A>(history: Seq<SessionEvent<A>>, id: Seq<u8>)
    ensures
        !sessions_after(history.push(SessionEvent::Closed { id })).contains_key(id),
{
    assert(history.push(SessionEvent::<A>::Closed { id }).drop_last() =~= history);
}

/// What happens to one session does not touch another.
pub proof fn sessions_stay_isolated<A>(
    history: Seq<SessionEvent<A>>,
    event: SessionEvent<A>,
    other: Seq<u8>,
)
    requires
        event.session() != other,
    ensures
        ({
            let before = sessions_after(history);
            let after = sessions_after(history.push(event));
            &&& after.contains_key(other) == before.contains_key(other)
            &&& before.contains_key(other) ==> after[other] == before[other]
        }),
        targets_open(history.push(event), other) == targets_open(history, other),
{
    assert(history.push(event).drop_last() =~= history);
}

} // verus!
