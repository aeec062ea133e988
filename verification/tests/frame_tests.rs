//! Framing: the 512-byte bound, incremental decoding, and the
//! leftover-preserving downgrade to a raw stream.

use sshx::frame::{encode_frame, FrameDecoder, FrameError};
use sshx::MAX_FRAME;

#[test]
fn encode_appends_terminator() {
    let f = encode_frame(&b"hello".to_vec()).unwrap();
    assert_eq!(f, b"hello\0".to_vec());
}

#[test]
fn frame_boundary_511_accepted_512_rejected() {
    // 511 payload bytes + null = 512 total: accepted
    let ok = encode_frame(&vec![b'a'; MAX_FRAME - 1]).unwrap();
    assert_eq!(ok.len(), MAX_FRAME);
    assert_eq!(*ok.last().unwrap(), 0);
    // 512 payload bytes + null: rejected
    assert_eq!(encode_frame(&vec![b'a'; MAX_FRAME]), Err(FrameError::Oversize));
}

#[test]
fn decoder_splits_frames() {
    let mut d = FrameDecoder::new();
    d.push_bytes(b"one\0tw");
    assert_eq!(d.next_frame(), Ok(Some(b"one".to_vec())));
    assert_eq!(d.next_frame(), Ok(None));
    d.push_bytes(b"o\0");
    assert_eq!(d.next_frame(), Ok(Some(b"two".to_vec())));
    assert_eq!(d.next_frame(), Ok(None));
}

#[test]
fn decoder_rejects_empty_frame() {
    let mut d = FrameDecoder::new();
    d.push_bytes(b"ok\0\0more\0");
    assert_eq!(d.next_frame(), Ok(Some(b"ok".to_vec())));
    assert_eq!(d.next_frame(), Err(FrameError::Empty));
}

#[test]
fn decoder_rejects_oversize_without_delimiter() {
    let mut d = FrameDecoder::new();
    d.push_bytes(&vec![b'x'; MAX_FRAME]);
    assert_eq!(d.next_frame(), Err(FrameError::Oversize));
}

#[test]
fn decoder_accepts_511_byte_record() {
    let mut d = FrameDecoder::new();
    let mut wire = vec![b'y'; MAX_FRAME - 1];
    wire.push(0);
    d.push_bytes(&wire);
    assert_eq!(d.next_frame(), Ok(Some(vec![b'y'; MAX_FRAME - 1])));
}

#[test]
fn decoder_rejects_512_byte_record() {
    let mut d = FrameDecoder::new();
    let mut wire = vec![b'y'; MAX_FRAME];
    wire.push(0);
    d.push_bytes(&wire);
    assert_eq!(d.next_frame(), Err(FrameError::Oversize));
}

#[test]
fn leftover_bytes_survive_downgrade() {
    // the handoff case: a frame followed by 3 bytes of the data stream
    let mut d = FrameDecoder::new();
    d.push_bytes(b"{\"x\":1}\0abc");
    assert_eq!(d.next_frame(), Ok(Some(b"{\"x\":1}".to_vec())));
    assert_eq!(d.into_leftover(), b"abc".to_vec());
}

#[test]
fn leftover_empty_when_nothing_buffered() {
    let mut d = FrameDecoder::new();
    d.push_bytes(b"msg\0");
    assert_eq!(d.next_frame(), Ok(Some(b"msg".to_vec())));
    assert_eq!(d.into_leftover(), Vec::<u8>::new());
}

#[test]
fn eof_remnant_is_the_final_record() {
    let mut d = FrameDecoder::new();
    d.push_bytes(b"done\0tail");
    assert_eq!(d.next_frame(), Ok(Some(b"done".to_vec())));
    // the stream ends here: the unterminated remnant is the last record
    assert_eq!(d.eof_frame(), Ok(Some(b"tail".to_vec())));
    assert_eq!(d.eof_frame(), Ok(None));
}

#[test]
fn eof_on_empty_buffer_is_clean() {
    let mut d = FrameDecoder::new();
    d.push_bytes(b"msg\0");
    assert_eq!(d.next_frame(), Ok(Some(b"msg".to_vec())));
    assert_eq!(d.eof_frame(), Ok(None));
}
