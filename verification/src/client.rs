//! Client mode (tcp2mtcp): the bundle of sub-connections that carries one local
//! connection to the remote server(s).

use rand::Rng;
use vstd::prelude::*;

use crate::protocol::{encode_handshake, SessionId, HANDSHAKE_LEN, SESSION_ID_LEN};

verus! {

use crate::protocol::handshake_bytes;

/// Why a client cannot start, or cannot carry a connection.
#[derive(Debug, Clone, Copy, PartialEq, Eq, Structural)]
pub enum ClientError {
    /// There is no server to connect to.
    NoRemote,
    /// There is nothing to aggregate.
    NoStreams,
    /// Every sub-connection of a bundle failed.
    NoSubConnection,
}

/// Check what a client is configured with: how many remotes, how many
/// sub-connections per logical stream.
pub fn check_config(remotes: usize, streams: usize) -> (r: Result<(), ClientError>)
    ensures
        r == (if remotes == 0 {
            Err::<(), ClientError>(ClientError::NoRemote)
        } else if streams == 0 {
            Err::<(), ClientError>(ClientError::NoStreams)
        } else {
            Ok::<(), ClientError>(())
        }),
{
    if remotes == 0 {
        return Err(ClientError::NoRemote);
    }
    if streams < 1 {
        return Err(ClientError::NoStreams);
    }
    Ok(())
}

/// A fresh session identifier: `Rng::fill_bytes` of the generator that
/// `rand::rng` gives fills all of it. Nothing is promised of its bytes, which
/// are chosen at random. The generator is seeded by the operating system; where
/// that has no randomness to give, it panics.
#[verifier::external_body]
fn random_session_id() -> SessionId {
    let mut session_id: SessionId = [0u8;SESSION_ID_LEN];
    rand::rng().fill_bytes(&mut session_id);
    session_id
}

/// `session_id` is one that the generator of session identifiers gave.
pub closed spec fn is_drawn(session_id: Seq<u8>) -> bool {
    exists|id: SessionId| #[trigger]
        call_ensures(random_session_id, (), id) && session_id == id@
}

/// The contents of a [`Bundle`].
#[verifier::ext_equal]
pub struct BundleModel {
    pub session_id: Seq<u8>,
    /// The number of sub-connections to try.
    pub streams: usize,
    /// The number of remotes to spread them across.
    pub remotes: usize,
    /// How many were tried.
    pub tried: usize,
    /// How many were established.
    pub connected: usize,
}

impl BundleModel {
    /// A bundle of which nothing was tried yet.
    pub open spec fn fresh(session_id: Seq<u8>, remotes: usize, streams: usize) -> BundleModel {
        BundleModel { session_id, streams, remotes, tried: 0, connected: 0 }
    }

    /// The remote that the next sub-connection goes to.
    pub open spec fn named(self) -> Option<usize> {
        if self.tried < self.streams {
            Some((self.tried as int % self.remotes as int) as usize)
        } else {
            None
        }
    }

    /// The handshake that opens each sub-connection.
    pub open spec fn greeting(self) -> Seq<u8> {
        handshake_bytes(self.session_id, (self.streams % 0x1_0000) as u16)
    }

    /// How many sub-connections carry the stream, if any does.
    pub open spec fn verdict(self) -> Result<usize, ClientError> {
        if self.connected == 0 {
            Err(ClientError::NoSubConnection)
        } else {
            Ok(self.connected)
        }
    }

    /// With the outcome of one more sub-connection.
    pub open spec fn reported(self, established: bool) -> BundleModel {
        BundleModel {
            tried: (self.tried + 1) as usize,
            connected: (self.connected + if established {
                1int
            } else {
                0
            }) as usize,
            ..self
        }
    }
}

/// The sub-connections of one logical stream, while they are being opened.
#[derive(Debug)]
pub struct Bundle {
    session_id: SessionId,
    streams: usize,
    remotes: usize,
    tried: usize,
    connected: usize,
}

impl View for Bundle {
    type V = BundleModel;

    closed spec fn view(&self) -> BundleModel {
        BundleModel {
            session_id: self.session_id@,
            streams: self.streams,
            remotes: self.remotes,
            tried: self.tried,
            connected: self.connected,
        }
    }
}

impl Bundle {
    /// There is a remote, and no more was established than was tried.
    pub open spec fn wf(&self) -> bool {
        &&& self@.session_id.len() == SESSION_ID_LEN
        &&& self@.remotes > 0
        &&& self@.connected <= self@.tried <= self@.streams
    }

    /// A bundle for the session `session_id`.
    pub fn with_session(session_id: SessionId, remotes: usize, streams: usize) -> (bundle: Bundle)
        requires
            remotes > 0,
        ensures
            bundle.wf(),
            bundle@ == BundleModel::fresh(session_id@, remotes, streams),
            bundle@.session_id == session_id@,
            bundle@.remotes == remotes,
            bundle@.streams == streams,
            bundle@.tried == 0,
            bundle@.connected == 0,
    {
        Bundle { session_id, streams, remotes, tried: 0, connected: 0 }
    }

    /// A bundle for a fresh session, whose identifier is drawn at random.
    pub fn open(remotes: usize, streams: usize) -> (bundle: Bundle)
        requires
            remotes > 0,
        ensures
            bundle.wf(),
            bundle@ == BundleModel::fresh(bundle@.session_id, remotes, streams),
            is_drawn(bundle@.session_id),
            bundle@.remotes == remotes,
            bundle@.streams == streams,
            bundle@.tried == 0,
            bundle@.connected == 0,
    {
        Bundle::with_session(random_session_id(), remotes, streams)
    }

    /// The handshake that identifies the stream on each sub-connection. The
    /// stream count that it carries is that of the bundle modulo 2^16.
    pub fn handshake(&self) -> (buf: [u8; HANDSHAKE_LEN])
        ensures
            buf@ == handshake_bytes(self@.session_id, (self@.streams % 0x1_0000) as u16),
            buf@ == self@.greeting(),
    {
        encode_handshake(&self.session_id, (self.streams % 0x1_0000) as u16)
    }

    /// Which remote the next sub-connection goes to; `None` when all were tried.
    pub fn next_remote(&self) -> (remote: Option<usize>)
        requires
            self.wf(),
        ensures
            remote == (if self@.tried < self@.streams {
                Some((self@.tried as int % self@.remotes as int) as usize)
            } else {
                None
            }),
            remote == self@.named(),
            remote matches Some(k) ==> k < self@.remotes,
    {
        if self.tried < self.streams {
            Some(self.tried % self.remotes)
        } else {
            None
        }
    }

    /// A sub-connection was tried, with this outcome.
    pub fn report(&mut self, established: bool)
        requires
            old(self).wf(),
            old(self)@.tried < old(self)@.streams,
        ensures
            final(self).wf(),
            final(self)@ == (BundleModel {
                tried: (old(self)@.tried + 1) as usize,
                connected: (old(self)@.connected + if established {
                    1int
                } else {
                    0
                }) as usize,
                ..old(self)@
            }),
            final(self)@ == old(self)@.reported(established),
    {
        self.tried = self.tried + 1;
        if established {
            self.connected = self.connected + 1;
        }
    }

    /// How many sub-connections carry the stream. Without any it cannot run.
    pub fn finish(&self) -> (r: Result<usize, ClientError>)
        ensures
            r == (if self@.connected == 0 {
                Err::<usize, ClientError>(ClientError::NoSubConnection)
            } else {
                Ok::<usize, ClientError>(self@.connected)
            }),
            r == self@.verdict(),
    {
        if self.connected == 0 {
            return Err(ClientError::NoSubConnection);
        }
        Ok(self.connected)
    }
}

/// The bundle after the outcomes of its first sub-connections.
pub open spec fn bundle_after(start: BundleModel, outcomes: Seq<bool>) -> BundleModel
    decreases outcomes.len(),
{
    if outcomes.len() == 0 {
        start
    } else {
        bundle_after(start, outcomes.drop_last()).reported(outcomes.last())
    }
}

/// How many of the outcomes are good.
pub open spec fn established_in(outcomes: Seq<bool>) -> nat
    decreases outcomes.len(),
{
    if outcomes.len() == 0 {
        0
    } else {
        established_in(outcomes.drop_last()) + if outcomes.last() {
            1nat
        } else {
            0nat
        }
    }
}

/// A bundle tries as many sub-connections as it was made for, and the one that
/// follows `i` others goes to remote `i` modulo the number of remotes, whatever
/// became of the others. Its session stays the same, so that each sub-connection
/// opens with the same handshake, and it counts those that were established: the
/// stream cannot run exactly if none was.
pub proof fn bundle_goes_through_the_remotes(
    session_id: Seq<u8>,
    remotes: usize,
    streams: usize,
    outcomes: Seq<bool>,
)
    requires
        remotes > 0,
        outcomes.len() <= streams,
    ensures
        ({
            let start = BundleModel::fresh(session_id, remotes, streams);
            let bundle = bundle_after(start, outcomes);
            &&& start.session_id == session_id
            &&& start.remotes == remotes
            &&& start.streams == streams
            &&& start.tried == 0
            &&& start.connected == 0
            &&& bundle.session_id == session_id
            &&& bundle.remotes == remotes
            &&& bundle.streams == streams
            &&& bundle.tried == outcomes.len()
            &&& bundle.connected == established_in(outcomes) <= outcomes.len()
            &&& bundle.named() is Some <==> outcomes.len() < streams
            &&& bundle.named() is Some ==> bundle.named()->0 == outcomes.len() as int
                % remotes as int
            &&& bundle.greeting() == handshake_bytes(session_id, (streams % 0x1_0000) as u16)
            &&& streams <= u16::MAX ==> bundle.greeting() == handshake_bytes(
                session_id,
                streams as u16,
            )
            &&& outcomes.contains(true) ==> bundle.verdict() == Ok::<usize, ClientError>(
                established_in(outcomes) as usize,
            ) && established_in(outcomes) > 0
            &&& !outcomes.contains(true) ==> bundle.verdict() == Err::<usize, ClientError>(
                ClientError::NoSubConnection,
            )
        }),
    decreases outcomes.len(),
{
    if outcomes.len() > 0 {
        let before = outcomes.drop_last();
        bundle_goes_through_the_remotes(session_id, remotes, streams, before);
        if before.contains(true) {
            let i = choose|i: int| 0 <= i < before.len() && before[i] == true;
            assert(outcomes[i] == true);
        }
        if outcomes.last() {
            assert(outcomes[outcomes.len() - 1] == true);
        }
        if outcomes.contains(true) && !outcomes.last() {
            let i = choose|i: int| 0 <= i < outcomes.len() && outcomes[i] == true;
            assert(before[i] == true);
        }
    }
    vstd::arithmetic::div_mod::lemma_mod_bound(outcomes.len() as int, remotes as int);
}

/// How many of the first `tried` sub-connections go to remote `k`.
pub open spec fn share(tried: nat, remotes: nat, k: nat) -> nat
    decreases tried,
{
    if tried == 0 {
        0
    } else {
        share((tried - 1) as nat, remotes, k) + if (tried - 1) as nat % remotes == k {
            1nat
        } else {
            0nat
        }
    }
}

/// Sub-connections are spread across the remotes in turn: each gets an equal
/// share, and what is left over goes to the first ones, one each.
pub proof fn remotes_share_equally(tried: nat, remotes: nat, k: nat)
    requires
        k < remotes,
    ensures
        share(tried, remotes, k) == tried / remotes + if k < tried % remotes {
            1nat
        } else {
            0nat
        },
    decreases tried,
{
    if tried == 0 {
        vstd::arithmetic::div_mod::lemma_div_basics(remotes as int);
        vstd::arithmetic::div_mod::lemma_small_mod(0, remotes);
    } else {
        let n = (tried - 1) as nat;
        remotes_share_equally(n, remotes, k);
        let q: int = n as int / remotes as int;
        let r: int = n as int % remotes as int;
        let d = remotes as int;
        vstd::arithmetic::div_mod::lemma_fundamental_div_mod(n as int, d);
        vstd::arithmetic::div_mod::lemma_mod_bound(n as int, d);
        if r + 1 < remotes {
            vstd::arithmetic::div_mod::lemma_fundamental_div_mod_converse(
                tried as int,
                d,
                q,
                r + 1,
            );
        } else {
            assert((q + 1) * d == d * q + d) by (nonlinear_arith);
            vstd::arithmetic::div_mod::lemma_fundamental_div_mod_converse(
                tried as int,
                d,
                q + 1,
                0,
            );
        }
    }
}

} // verus!
