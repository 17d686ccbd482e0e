//! Length-prefixed framing of messages.

use chordify::tcp::{frame_header, frame_length, frame_message, FrameError, MAX_MESSAGE_SIZE};

#[test]
fn test_frame_message_prefix() {
    let f = frame_message(b"hello");
    assert_eq!(f, vec![0, 0, 0, 5, b'h', b'e', b'l', b'l', b'o']);
    assert_eq!(frame_header(0x01020304), [1, 2, 3, 4]);
}

#[test]
fn test_frame_length_roundtrip() {
    for len in [0usize, 1, 255, 256, 1024, 65536, MAX_MESSAGE_SIZE] {
        assert_eq!(frame_length(frame_header(len)), Ok(len));
    }
}

#[test]
fn test_frame_length_too_large() {
    assert_eq!(
        frame_length(frame_header(MAX_MESSAGE_SIZE + 1)),
        Err(FrameError::TooLarge(MAX_MESSAGE_SIZE + 1))
    );
    assert_eq!(frame_length([0xff, 0xff, 0xff, 0xff]), Err(FrameError::TooLarge(0xffff_ffff)));
}

#[test]
fn test_large_message() {
    let data = vec![42u8; 1024];
    let f = frame_message(&data);
    assert_eq!(f.len(), 1028);
    assert_eq!(frame_length([f[0], f[1], f[2], f[3]]), Ok(1024));
    assert_eq!(&f[4..], &data[..]);
}
