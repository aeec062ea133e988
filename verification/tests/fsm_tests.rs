//! The connection state machines of server and client.

use sshx::client_fsm::{
    acceptance, interpret_registration_reply, on_tunnel_event, registration_hello, ClientAction,
    ClientError,
};
use sshx::registry::{PendingSlot, Registry};
use sshx::server_fsm::ServerConn;
use sshx::wire::{ClientMsg, Proto, ServerMsg};

#[test]
fn challenge_message_carries_its_nonce() {
    let (nonce, msg) = ServerConn::open_challenge();
    assert_eq!(msg, ServerMsg::Challenge(nonce));
}

#[test]
fn registration_releases_subdomain_on_finish() {
    let mut reg = Registry::new();
    assert!(reg.insert_sub(&b"demo".to_vec(), 4000));
    let mut conn = ServerConn::new();
    let msg = conn.enter_registered(b"demo".to_vec(), 4000);
    assert_eq!(msg, ServerMsg::Hello { public_port: 4000 });
    // however the tunnel ends, finish releases the mapping
    conn.finish(&mut reg);
    assert!(!reg.contains_sub(&b"demo".to_vec()));
}

#[test]
fn finish_without_registration_releases_nothing() {
    let mut reg = Registry::new();
    assert!(reg.insert_sub(&b"other".to_vec(), 4000));
    let mut conn = ServerConn::new();
    conn.finish(&mut reg);
    assert!(reg.contains_sub(&b"other".to_vec()));
}

#[test]
fn accept_takes_the_parked_connection_once() {
    let mut reg = Registry::new();
    let id = 21u128;
    reg.insert_pending(id, PendingSlot { token: 77, deadline: 10_000 });
    let mut conn = ServerConn::new();
    assert_eq!(conn.on_accept(&mut reg, id), Some(77));
    // a second accept of the same id finds nothing
    let mut conn2 = ServerConn::new();
    assert_eq!(conn2.on_accept(&mut reg, id), None);
}

#[test]
fn announce_inbound_parks_for_ten_seconds() {
    let mut reg = Registry::new();
    let mut conn = ServerConn::new();
    conn.enter_registered(b"demo".to_vec(), 4000);
    let (id, msg) = conn.announce_inbound(&mut reg, 5, 1000);
    assert_eq!(msg, ServerMsg::Connection(id));
    assert_eq!(reg.reap_pending(id, 1000 + sshx::REAP_MS - 1), None);
    assert_eq!(
        reg.reap_pending(id, 1000 + sshx::REAP_MS),
        Some(PendingSlot { token: 5, deadline: 1000 + sshx::REAP_MS })
    );
}

#[test]
fn hello_carries_subdomain_and_proto() {
    let m = registration_hello(&b"myssh".to_vec(), Proto::Tcp);
    assert_eq!(m, ClientMsg::Hello { subdomain: b"myssh".to_vec(), proto: Proto::Tcp });
    assert_eq!(acceptance(3), ClientMsg::Accept(3));
}

#[test]
fn registration_reply_judgement() {
    assert_eq!(interpret_registration_reply(Some(ServerMsg::Hello { public_port: 4000 })), Ok(4000));
    assert_eq!(
        interpret_registration_reply(Some(ServerMsg::Error(b"subdomain 'demo' is already taken".to_vec()))),
        Err(ClientError::ServerError(b"subdomain 'demo' is already taken".to_vec()))
    );
    assert_eq!(
        interpret_registration_reply(Some(ServerMsg::Challenge(1))),
        Err(ClientError::AuthRequired)
    );
    assert_eq!(interpret_registration_reply(Some(ServerMsg::Heartbeat)), Err(ClientError::UnexpectedReply));
    assert_eq!(interpret_registration_reply(None), Err(ClientError::UnexpectedReply));
    assert_eq!(
        ClientError::AuthRequired.message(),
        b"server requires auth but no --secret given".to_vec()
    );
    assert_eq!(
        ClientError::ServerError(b"boom".to_vec()).message(),
        b"server error: boom".to_vec()
    );
}

#[test]
fn tunnel_events_dispatch() {
    assert_eq!(on_tunnel_event(Some(ServerMsg::Heartbeat)), ClientAction::Continue);
    assert_eq!(on_tunnel_event(Some(ServerMsg::Connection(8))), ClientAction::OpenData(8));
    assert_eq!(
        on_tunnel_event(Some(ServerMsg::Error(b"x".to_vec()))),
        ClientAction::LogError(b"x".to_vec())
    );
    assert_eq!(on_tunnel_event(None), ClientAction::Exit);
    assert_eq!(on_tunnel_event(Some(ServerMsg::Hello { public_port: 1 })), ClientAction::Continue);
}
