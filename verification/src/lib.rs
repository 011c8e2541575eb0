//! Connection registry and request/response bridge for remote host agents.
//!
//! Remote agent processes register over a persistent duplex connection and
//! an operator-facing layer pulls live network-address information from any
//! currently connected agent on demand.  The crate holds the wire protocol,
//! the handshake that admits a connection, the shared table of live
//! connections, and the bridge that turns the push-style transport into a
//! call/response primitive.

pub mod message;
pub mod transport;
pub mod codec;
pub mod error;
pub mod registry;
pub mod handshake;
pub mod bridge;
pub mod auth;
pub mod logging;
pub mod agent;
