//! Core logic of a reverse TCP tunnel: the framed control-channel codec, the
//! control-message wire grammar, HMAC-SHA256 challenge-response authentication,
//! the subdomain/pending-connection registry, the port-claim protocol, and the
//! per-connection state machines of server and client.
//!
//! All network I/O lives outside this crate; these modules work on plain bytes
//! and values and carry machine-checked contracts.

use vstd::prelude::*;

pub mod bytes;
pub mod auth;
pub mod claim;
pub mod client_fsm;
pub mod frame;
pub mod hexstr;
pub mod wire;
pub mod registry;
pub mod server_fsm;

verus! {

/// TCP port on which clients open control connections.
pub const CONTROL_PORT: u16 = 7835;

/// Maximum size of a control frame in bytes, null terminator included.
pub const MAX_FRAME: usize = 512;

/// Milliseconds a handshake message may take to arrive.
pub const HANDSHAKE_TIMEOUT_MS: u64 = 5000;

/// Milliseconds between server heartbeats on an idle control connection.
pub const HEARTBEAT_MS: u64 = 500;

/// Milliseconds an unclaimed pending connection is kept before reaping.
pub const REAP_MS: u64 = 10000;

/// Number of random ports tried before the claim protocol gives up.
pub const CLAIM_ATTEMPTS: u32 = 150;

/// Milliseconds the client sleeps before reconnecting after a tunnel error.
pub const RECONNECT_DELAY_MS: u64 = 3000;

} // verus!
