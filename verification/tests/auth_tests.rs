//! Challenge-response authentication against the real digest crates.

use hmac::{Hmac, KeyInit, Mac};
use sha2::{Digest, Sha256};
use sshx::auth::{Auth, AuthError};
use sshx::wire::{ClientMsg, ServerMsg};

#[test]
fn answer_validates() {
    let auth = Auth::new(&b"hunter2".to_vec());
    let challenge = 0x0123456789abcdef0123456789abcdefu128;
    let tag = auth.answer(challenge);
    assert_eq!(tag.len(), 64);
    assert!(auth.validate(challenge, &tag));
}

#[test]
fn wrong_length_tag_rejected() {
    let auth = Auth::new(&b"hunter2".to_vec());
    let challenge = 3u128;
    // well-formed hex of the wrong length never validates
    assert!(!auth.validate(challenge, &b"deadbeef".to_vec()));
    let mut long = auth.answer(challenge);
    long.extend_from_slice(b"00");
    assert!(!auth.validate(challenge, &long));
    let short = auth.answer(challenge)[..62].to_vec();
    assert!(!auth.validate(challenge, &short));
}

#[test]
fn answer_matches_direct_hmac_computation() {
    // recompute the tag with sha2/hmac/hex directly; a wrapper that
    // mangled or passed through its input would fail this
    let secret = b"hunter2".to_vec();
    let auth = Auth::new(&secret);
    let challenge = 0x550e8400e29b41d4a716446655440000u128;
    let key = Sha256::digest(&secret);
    let mut mac = Hmac::<Sha256>::new_from_slice(&key).unwrap();
    mac.update(uuid::Uuid::from_u128(challenge).as_bytes());
    let expected = hex::encode(mac.finalize().into_bytes()).into_bytes();
    assert_eq!(auth.answer(challenge), expected);
}

#[test]
fn tampered_tag_rejected() {
    let auth = Auth::new(&b"hunter2".to_vec());
    let challenge = 99u128;
    let mut tag = auth.answer(challenge);
    // flip one hex digit
    tag[0] = if tag[0] == b'0' { b'1' } else { b'0' };
    assert!(!auth.validate(challenge, &tag));
}

#[test]
fn wrong_secret_rejected() {
    let good = Auth::new(&b"hunter2".to_vec());
    let bad = Auth::new(&b"wrong".to_vec());
    let challenge = 7u128;
    let tag = bad.answer(challenge);
    assert!(!good.validate(challenge, &tag));
}

#[test]
fn malformed_hex_rejected() {
    let auth = Auth::new(&b"hunter2".to_vec());
    assert!(!auth.validate(1, &b"zz".to_vec()));
    assert!(!auth.validate(1, &b"abc".to_vec())); // odd length
    assert!(!auth.validate(1, &Vec::new()));
}

#[test]
fn check_response_judges_the_reply() {
    let auth = Auth::new(&b"s3cret".to_vec());
    let challenge = 5u128;
    let good = ClientMsg::Authenticate(auth.answer(challenge));
    assert_eq!(auth.check_response(challenge, &good), Ok(()));
    let wrong = ClientMsg::Authenticate(b"deadbeef".to_vec());
    assert_eq!(auth.check_response(challenge, &wrong), Err(AuthError::InvalidSecret));
    let off_script = ClientMsg::Accept(1);
    assert_eq!(auth.check_response(challenge, &off_script), Err(AuthError::ExpectedAuthenticate));
    assert_eq!(
        AuthError::InvalidSecret.message(),
        b"invalid secret".to_vec()
    );
}

#[test]
fn respond_answers_a_challenge_only() {
    let auth = Auth::new(&b"s3cret".to_vec());
    let challenge = 11u128;
    match auth.respond(&ServerMsg::Challenge(challenge)) {
        Ok(ClientMsg::Authenticate(tag)) => assert!(auth.validate(challenge, &tag)),
        other => panic!("unexpected: {:?}", other),
    }
    assert_eq!(auth.respond(&ServerMsg::Heartbeat), Err(AuthError::ExpectedChallenge));
}

#[test]
fn id_bytes_match_uuid_layout() {
    let id = 0x550e8400e29b41d4a716446655440000u128;
    assert_eq!(sshx::auth::id_to_bytes(id), uuid::Uuid::from_u128(id).as_bytes().to_vec());
}
