//! Wire framing of RPC messages.

use stract::sonic::{decode_frame, encode_frame};

#[test]
fn frame_round_trip() {
    let body = b"typed request payload".to_vec();
    let mut wire = encode_frame(&body);
    assert_eq!(wire.len(), 8 + body.len());
    // a later frame already sitting behind it does not disturb decoding
    let mut more = encode_frame(&b"second".to_vec());
    wire.append(&mut more);
    let (decoded, consumed) = decode_frame(&wire).unwrap();
    assert_eq!(decoded, body);
    assert_eq!(consumed, 8 + body.len());
    // the remainder decodes to the second message
    let rest: Vec<u8> = wire[consumed..].to_vec();
    let (second, consumed2) = decode_frame(&rest).unwrap();
    assert_eq!(second, b"second".to_vec());
    assert_eq!(consumed2, rest.len());
}

#[test]
fn incomplete_frames_wait_for_more_bytes() {
    let body = b"abc".to_vec();
    let wire = encode_frame(&body);
    // a short header
    assert!(decode_frame(&wire[..5].to_vec()).is_none());
    // a full header with a short body
    assert!(decode_frame(&wire[..9].to_vec()).is_none());
    // the whole frame
    assert!(decode_frame(&wire).is_some());
    // the empty body frames and decodes too
    let empty = encode_frame(&Vec::new());
    assert_eq!(empty.len(), 8);
    let (decoded, consumed) = decode_frame(&empty).unwrap();
    assert_eq!(decoded, Vec::<u8>::new());
    assert_eq!(consumed, 8);
}
