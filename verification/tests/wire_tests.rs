//! Wire grammar: round trips, interoperability, and rejection of
//! malformed payloads.

use sshx::wire::{parse_client_msg, parse_server_msg, serialize_client, serialize_server};
use sshx::wire::{ClientMsg, Proto, ServerMsg};

fn rt_client(m: ClientMsg) {
    let bytes = serialize_client(&m);
    assert_eq!(parse_client_msg(&bytes), Some(m));
}

fn rt_server(m: ServerMsg) {
    let bytes = serialize_server(&m);
    assert_eq!(parse_server_msg(&bytes), Some(m));
}

#[test]
fn round_trip_client_hello_tcp() {
    rt_client(ClientMsg::Hello { subdomain: b"demo".to_vec(), proto: Proto::Tcp });
}

#[test]
fn round_trip_client_hello_http() {
    rt_client(ClientMsg::Hello { subdomain: b"myapp".to_vec(), proto: Proto::Http });
}

#[test]
fn round_trip_client_hello_awkward_subdomain() {
    // quotes, backslashes, control bytes and UTF-8 all survive
    let sub = b"a\"b\\c\x01\x1f\nz\xc3\xa9".to_vec();
    rt_client(ClientMsg::Hello { subdomain: sub, proto: Proto::Tcp });
}

#[test]
fn round_trip_client_hello_empty_subdomain() {
    rt_client(ClientMsg::Hello { subdomain: Vec::new(), proto: Proto::Http });
}

#[test]
fn round_trip_client_authenticate() {
    rt_client(ClientMsg::Authenticate(b"00ff1e2d3c4b5a69".to_vec()));
}

#[test]
fn round_trip_client_accept() {
    rt_client(ClientMsg::Accept(0x550e8400e29b41d4a716446655440000u128));
    rt_client(ClientMsg::Accept(0));
    rt_client(ClientMsg::Accept(u128::MAX));
}

#[test]
fn round_trip_server_all_variants() {
    rt_server(ServerMsg::Challenge(0xdeadbeefdeadbeefdeadbeefdeadbeefu128));
    rt_server(ServerMsg::Hello { public_port: 0 });
    rt_server(ServerMsg::Hello { public_port: 7835 });
    rt_server(ServerMsg::Hello { public_port: 65535 });
    rt_server(ServerMsg::Heartbeat);
    rt_server(ServerMsg::Connection(1));
    rt_server(ServerMsg::Error(b"invalid secret".to_vec()));
    rt_server(ServerMsg::Error(Vec::new()));
}

#[test]
fn client_hello_exact_bytes() {
    let m = ClientMsg::Hello { subdomain: b"demo".to_vec(), proto: Proto::Tcp };
    let bytes = serialize_client(&m);
    assert_eq!(bytes, br#"{"Hello":{"subdomain":"demo","proto":"Tcp"}}"#.to_vec());
}

#[test]
fn server_hello_exact_bytes() {
    let m = ServerMsg::Hello { public_port: 8080 };
    assert_eq!(serialize_server(&m), br#"{"Hello":{"public_port":8080}}"#.to_vec());
}

#[test]
fn heartbeat_exact_bytes() {
    assert_eq!(serialize_server(&ServerMsg::Heartbeat), br#""Heartbeat""#.to_vec());
}

#[test]
fn uuid_format_matches_uuid_crate() {
    let id = 0x550e8400e29b41d4a716446655440000u128;
    let m = ServerMsg::Connection(id);
    let expected = format!("{{\"Connection\":\"{}\"}}", uuid::Uuid::from_u128(id));
    assert_eq!(serialize_server(&m), expected.into_bytes());
}

#[test]
fn accept_parses_uppercase_hex_uuid() {
    let text = br#"{"Accept":"550E8400-E29B-41D4-A716-446655440000"}"#.to_vec();
    assert_eq!(
        parse_client_msg(&text),
        Some(ClientMsg::Accept(0x550e8400e29b41d4a716446655440000u128))
    );
}

#[test]
fn parse_rejects_malformed() {
    assert_eq!(parse_client_msg(&Vec::new()), None);
    assert_eq!(parse_client_msg(&b"garbage".to_vec()), None);
    assert_eq!(parse_client_msg(&br#"{"Hello":{"subdomain":"x","proto":"Udp"}}"#.to_vec()), None);
    assert_eq!(parse_client_msg(&br#"{"Accept":"not-a-uuid"}"#.to_vec()), None);
    assert_eq!(parse_server_msg(&br#"{"Hello":{"public_port":65536}}"#.to_vec()), None);
    assert_eq!(parse_server_msg(&br#"{"Hello":{"public_port":007}}"#.to_vec()), None);
    assert_eq!(parse_server_msg(&br#"{"Hello":{"public_port":}}"#.to_vec()), None);
    assert_eq!(parse_server_msg(&b"\"Heartbeat\" ".to_vec()), None);
}

#[test]
fn parse_accepts_short_escapes() {
    let text = br#"{"Error":"line\none\ttwo \u0007"}"#.to_vec();
    assert_eq!(parse_server_msg(&text), Some(ServerMsg::Error(b"line\none\ttwo \x07".to_vec())));
}
