//! Per-connection state machine of the server's control handler.
//!
//! A fresh connection authenticates (when a secret is configured) and then
//! either registers a tunnel or accepts one parked inbound connection.
//! The driver around it performs the network I/O and feeds every decision
//! through the methods here; each transition out of the registered state
//! releases the subdomain, so a terminating registration can never leave
//! its mapping behind.

use vstd::prelude::*;

use crate::registry::{PendingSlot, Registry};
use crate::wire::ServerMsg;

verus! {

/// Relies on `uuid::Uuid::new_v4` and `Uuid::as_u128`: a fresh random
/// 128-bit id. Nothing is promised of its value.
#[verifier::external_body]
fn fresh_id() -> (r: u128) {
    uuid::Uuid::new_v4().as_u128()
}

/// Where one control connection stands.
pub enum ServerState {
    /// Authenticated (or no secret configured); awaiting the first message.
    Ready,
    /// Driving a registered tunnel.
    Registered { subdomain: Vec<u8>, public_port: u16 },
    /// Splicing the parked socket under `token` with this connection.
    Forwarding { token: u64 },
    /// The connection is done; any registration has been released.
    Closed,
}

/// One control connection of the server.
pub struct ServerConn {
    state: ServerState,
}

impl ServerConn {
    pub closed spec fn state_of(&self) -> ServerState {
        self.state
    }

    /// A new handler starts ready once authentication has passed.
    pub fn new() -> (r: ServerConn)
        ensures
            r.state_of() is Ready,
    {
        ServerConn { state: ServerState::Ready }
    }

    /// The claim for `subdomain` committed with `public_port`: the tunnel
    /// is registered and the client is told its public port.
    pub fn enter_registered(&mut self, subdomain: Vec<u8>, public_port: u16) -> (r: ServerMsg)
        requires
            old(self).state_of() is Ready,
        ensures
            (final(self).state_of() matches ServerState::Registered {
                subdomain: s,
                public_port: p,
            } && s@ == subdomain@ && p == public_port),
            r == (ServerMsg::Hello { public_port }),
    {
        self.state = ServerState::Registered { subdomain, public_port };
        ServerMsg::Hello { public_port }
    }

    /// First message was `Accept(id)`: take the parked connection if it is
    /// still there. With a parked socket the connection turns into a raw
    /// splice; an unknown id closes the connection quietly.
    pub fn on_accept(&mut self, reg: &mut Registry, id: u128) -> (r: Option<u64>)
        requires
            old(self).state_of() is Ready,
            old(reg).wf(),
        ensures
            final(reg).wf(),
            r is Some <==> old(reg).has_pending(id),
            r is Some ==> r->Some_0 == old(reg).pending_of(id).token && (final(self).state_of()
                matches ServerState::Forwarding { token } && token == old(reg).pending_of(
                id,
            ).token),
            r is None ==> final(self).state_of() is Closed,
            !final(reg).has_pending(id),
            forall|i: u128|
                i != id ==> final(reg).has_pending(i) == old(reg).has_pending(i) && (
                old(reg).has_pending(i) ==> final(reg).pending_of(i) == old(reg).pending_of(i)),
            forall|k: Seq<u8>|
                final(reg).has_sub(k) == old(reg).has_sub(k) && (old(reg).has_sub(k) ==> final(reg).port_of(k) == old(reg).port_of(k)),
    {
        match reg.take_pending(id) {
            Some(slot) => {
                self.state = ServerState::Forwarding { token: slot.token };
                Some(slot.token)
            },
            None => {
                self.state = ServerState::Closed;
                None
            },
        }
    }

    /// The public listener accepted an inbound connection while the tunnel
    /// is registered: park it under a fresh id for `REAP_MS` milliseconds
    /// and announce it on the control channel. Returns the id and the
    /// announcement to send.
    pub fn announce_inbound(&self, reg: &mut Registry, token: u64, now: u64) -> (r: (
        u128,
        ServerMsg,
    ))
        requires
            self.state_of() is Registered,
            old(reg).wf(),
            now + crate::REAP_MS <= u64::MAX,
        ensures
            final(reg).wf(),
            final(reg).has_pending(r.0),
            final(reg).pending_of(r.0) == (PendingSlot { token, deadline: (now + crate::REAP_MS) as u64 }),
            r.1 == ServerMsg::Connection(r.0),
            forall|i: u128|
                i != r.0 ==> final(reg).has_pending(i) == old(reg).has_pending(i) && (
                old(reg).has_pending(i) ==> final(reg).pending_of(i) == old(reg).pending_of(i)),
            forall|k: Seq<u8>|
                final(reg).has_sub(k) == old(reg).has_sub(k) && (old(reg).has_sub(k) ==> final(reg).port_of(k) == old(reg).port_of(k)),
    {
        let id = fresh_id();
        reg.insert_pending(id, PendingSlot { token, deadline: now + crate::REAP_MS });
        (id, ServerMsg::Connection(id))
    }

    /// Open the handshake: a fresh nonce and the `Challenge` that carries
    /// it. Whatever id the draw produced, the message matches it.
    pub fn open_challenge() -> (r: (u128, ServerMsg))
        ensures
            r.1 == ServerMsg::Challenge(r.0),
    {
        let id = fresh_id();
        (id, ServerMsg::Challenge(id))
    }

    /// The connection is over — the client vanished, a send failed, the
    /// listener broke, or the splice finished. Whatever the reason, a
    /// registered subdomain is released before the handler ends.
    pub fn finish(&mut self, reg: &mut Registry)
        requires
            old(reg).wf(),
        ensures
            final(reg).wf(),
            final(self).state_of() is Closed,
            (old(self).state_of() matches ServerState::Registered { subdomain, .. } ==> !final(reg).has_sub(subdomain@)),
            (forall|k: Seq<u8>|
                !(old(self).state_of() matches ServerState::Registered { subdomain, .. }
                    && subdomain@ == k) ==> final(reg).has_sub(k) == old(reg).has_sub(k) && (
                old(reg).has_sub(k) ==> final(reg).port_of(k) == old(reg).port_of(k))),
            forall|i: u128|
                final(reg).has_pending(i) == old(reg).has_pending(i) && (old(reg).has_pending(i)
                    ==> final(reg).pending_of(i) == old(reg).pending_of(i)),
    {
        match &self.state {
            ServerState::Registered { subdomain, .. } => {
                reg.remove_sub(subdomain);
            },
            _ => {},
        }
        self.state = ServerState::Closed;
    }
}

} // verus!
