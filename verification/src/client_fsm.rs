//! Decision logic of the client tunnel driver.
//!
//! The client dials the control port, optionally authenticates, sends its
//! `Hello`, judges the server's reply, and then reacts to the event
//! stream. All of those judgements are pure functions here; the driver
//! around them only moves bytes.

use vstd::prelude::*;

use crate::wire::{ClientMsg, Proto, ServerMsg};
use vstd::string::StringSliceAdditionalSpecFns;

verus! {

/// Why the client's run of the tunnel ended with an error.
#[derive(PartialEq, Eq, Clone, Debug)]
pub enum ClientError {
    /// The server reported a reason of its own.
    ServerError(Vec<u8>),
    /// The server demanded authentication but no secret was configured.
    AuthRequired,
    /// The reply to the registration was not in the protocol.
    UnexpectedReply,
}

impl ClientError {
    /// The message the client reports for this failure.
    pub open spec fn spec_message(self) -> Seq<u8> {
        match self {
            ClientError::ServerError(e) => "server error: ".spec_bytes() + e@,
            ClientError::AuthRequired => "server requires auth but no --secret given".spec_bytes(),
            ClientError::UnexpectedReply => "unexpected response from server".spec_bytes(),
        }
    }

    /// Render the failure for the log or the supervisor.
    pub fn message(&self) -> (r: Vec<u8>)
        ensures
            r@ == self.spec_message(),
    {
        match self {
            ClientError::ServerError(e) => {
                let mut out: Vec<u8> = Vec::new();
                crate::bytes::append_bytes(&mut out, "server error: ".as_bytes());
                crate::bytes::append_bytes(&mut out, e.as_slice());
                out
            },
            ClientError::AuthRequired => crate::bytes::copy_slice(
                "server requires auth but no --secret given".as_bytes(),
            ),
            ClientError::UnexpectedReply => crate::bytes::copy_slice(
                "unexpected response from server".as_bytes(),
            ),
        }
    }
}

/// The registration request for `subdomain` under the declared protocol.
pub fn registration_hello(subdomain: &Vec<u8>, proto: Proto) -> (r: ClientMsg)
    ensures
        r matches ClientMsg::Hello { subdomain: s, proto: p } && s@ == subdomain@ && p == proto,
{
    ClientMsg::Hello { subdomain: crate::bytes::copy_slice(subdomain.as_slice()), proto }
}

/// Judge the server's reply to the registration `Hello`.
///
/// `Hello{public_port}` succeeds with that port; `Error` fails with the
/// server's reason; a `Challenge` here means auth was demanded after the
/// client skipped it; anything else — or end of stream — is out of
/// protocol.
pub fn interpret_registration_reply(reply: Option<ServerMsg>) -> (r: Result<u16, ClientError>)
    ensures
        r == (match reply {
            Some(ServerMsg::Hello { public_port }) => Result::<u16, ClientError>::Ok(public_port),
            Some(ServerMsg::Error(e)) => Result::<u16, ClientError>::Err(
                ClientError::ServerError(e),
            ),
            Some(ServerMsg::Challenge(_)) => Result::<u16, ClientError>::Err(
                ClientError::AuthRequired,
            ),
            _ => Result::<u16, ClientError>::Err(ClientError::UnexpectedReply),
        }),
{
    match reply {
        Some(ServerMsg::Hello { public_port }) => Ok(public_port),
        Some(ServerMsg::Error(e)) => Err(ClientError::ServerError(e)),
        Some(ServerMsg::Challenge(_)) => Err(ClientError::AuthRequired),
        _ => Err(ClientError::UnexpectedReply),
    }
}

/// What the event loop does next with one control-channel event.
#[derive(PartialEq, Eq, Clone, Debug)]
pub enum ClientAction {
    /// Nothing to do; keep listening.
    Continue,
    /// Spawn a data connection that accepts this pending id.
    OpenData(u128),
    /// Log the server's reason and keep listening.
    LogError(Vec<u8>),
    /// The stream ended; leave the loop cleanly.
    Exit,
}

/// Dispatch one event of the registered tunnel's control stream.
pub fn on_tunnel_event(event: Option<ServerMsg>) -> (r: ClientAction)
    ensures
        r == (match event {
            Some(ServerMsg::Heartbeat) => ClientAction::Continue,
            Some(ServerMsg::Connection(id)) => ClientAction::OpenData(id),
            Some(ServerMsg::Error(e)) => ClientAction::LogError(e),
            None => ClientAction::Exit,
            _ => ClientAction::Continue,
        }),
{
    match event {
        Some(ServerMsg::Heartbeat) => ClientAction::Continue,
        Some(ServerMsg::Connection(id)) => ClientAction::OpenData(id),
        Some(ServerMsg::Error(e)) => ClientAction::LogError(e),
        None => ClientAction::Exit,
        _ => ClientAction::Continue,
    }
}

/// The message a data connection opens its acceptance with.
pub fn acceptance(id: u128) -> (r: ClientMsg)
    ensures
        r == ClientMsg::Accept(id),
{
    ClientMsg::Accept(id)
}

} // verus!
