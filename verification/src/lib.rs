//! rust-mtcp: a bandwidth-aggregating TCP tunnel.
//!
//! One logical byte stream is striped over several parallel TCP connections.
//! This crate is the verified core of the tunnel: the wire format, the choice
//! of the connection that carries each chunk, the reordering of what arrives,
//! and the bookkeeping of client bundles and server sessions. Sockets and
//! tasks live around it; they perform the actions that the state machines here
//! ask for and report what happened.

pub mod bytes;
pub mod client;
pub mod delivery;
pub mod dispatcher;
pub mod downlink;
pub mod protocol;
pub mod sequencing;
pub mod server;
pub mod text;
pub mod tunnel;
pub mod uplink;
