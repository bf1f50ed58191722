use sigma::netutil::{decode_length, encode_length, frame, MAX_PAYLOAD_LENGTH};
use sigma::remote::{verdict_received, verdict_to_send, RemoteProverProtocolError};
use sigma::text::{string_from_bytes, TextError};

#[test]
fn length_prefix_is_big_endian() {
    assert_eq!(encode_length(0), [0, 0, 0, 0]);
    assert_eq!(encode_length(1), [0, 0, 0, 1]);
    assert_eq!(encode_length(258), [0, 0, 1, 2]);
    assert_eq!(encode_length(0x01020304), [1, 2, 3, 4]);
    assert_eq!(encode_length(u32::MAX), [255, 255, 255, 255]);
}

#[test]
fn length_prefix_is_read_back() {
    assert_eq!(decode_length(&[0, 0, 0, 0]), 0);
    assert_eq!(decode_length(&[0, 0, 1, 2]), 258);
    assert_eq!(decode_length(&[1, 2, 3, 4]), 0x01020304);
    assert_eq!(decode_length(&[255, 255, 255, 255]), u32::MAX);
    for n in [0u32, 7, 255, 256, 65535, 65536, 1 << 24, u32::MAX - 1] {
        assert_eq!(decode_length(&encode_length(n)), n);
    }
}

#[test]
fn frame_is_prefix_and_payload() {
    assert_eq!(frame(b"true").unwrap(), vec![0, 0, 0, 4, b't', b'r', b'u', b'e']);
    assert_eq!(frame(b"").unwrap(), vec![0, 0, 0, 0]);
    let long = vec![7u8; 300];
    let framed = frame(&long).unwrap();
    assert_eq!(framed.len(), 304);
    assert_eq!(&framed[..4], &[0, 0, 1, 44]);
    assert_eq!(&framed[4..], &long[..]);
    assert_eq!(MAX_PAYLOAD_LENGTH, 4294967295);
}

#[test]
fn payload_must_be_text() {
    assert_eq!(string_from_bytes(b"[1,[2,3]]".to_vec()).unwrap(), "[1,[2,3]]");
    assert_eq!(string_from_bytes(vec![]).unwrap(), "");
    assert!(matches!(string_from_bytes(vec![0xff, 0xfe]), Err(TextError::InvalidUtf8(_))));
    assert!(matches!(string_from_bytes(vec![b'a', 0x80]), Err(TextError::InvalidUtf8(_))));
}

#[test]
fn verdict_travels_as_one_word() {
    let (result, word) = verdict_to_send::<u8>(Ok(()));
    assert!(result.is_ok());
    assert!(word);
    assert!(verdict_received(word).is_ok());

    let (result, word) = verdict_to_send(Err(9u8));
    assert!(matches!(result, Err(RemoteProverProtocolError::SubProtocolFailure(9))));
    assert!(!word);
    assert_eq!(verdict_received(word), Err(()));
}
