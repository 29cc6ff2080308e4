use cpen431::application::ApplicationError;
use cpen431::protocol::{checksum, frame_crc, message_key, Msg, Protocol};

fn sample_id() -> [u8; 16] {
    [
        0x0a, 0x00, 0x00, 0x01, 0x40, 0x11, 0xde, 0xad, 0x00, 0x01, 0x02, 0x03, 0x04, 0x05, 0x06,
        0x07,
    ]
}

#[test]
fn test_checksum() {
    let message_id = vec![1, 2, 3, 4];
    let payload = vec![5, 6, 7, 8];
    assert_eq!(checksum(&message_id, &payload), 1070237893);
}

#[test]
fn checksum_is_crc32_of_the_concatenation() {
    // CRC-32 of the ASCII string "123456789" is the check value 0xCBF43926.
    assert_eq!(checksum(b"1234", b"56789"), 0xCBF4_3926);
    assert_eq!(checksum(b"", b"123456789"), 0xCBF4_3926);
    assert_eq!(checksum(b"", b""), 0);
}

#[test]
fn frame_round_trip() {
    let id = sample_id();
    let msg = Msg::from_request(id, vec![1, 2, 3]);
    assert_eq!(msg.check_sum, checksum(&id, &[1, 2, 3]));
    let bytes = msg.to_bytes();
    let back = Msg::from_bytes(&bytes).unwrap();
    assert_eq!(back.message_id, id.to_vec());
    assert_eq!(back.payload, vec![1, 2, 3]);
    assert_eq!(back.check_sum, checksum(&id, &[1, 2, 3]));
}

#[test]
fn frame_round_trip_with_empty_payload() {
    let id = sample_id();
    let bytes = Msg::from_request(id, Vec::new()).to_bytes();
    let back = Msg::from_bytes(&bytes).unwrap();
    assert_eq!(back.message_id, id.to_vec());
    assert_eq!(back.payload, Vec::<u8>::new());
}

#[test]
fn frame_bytes_are_exact() {
    let id = [0u8; 16];
    let msg = Msg::from_request(id, vec![0xAB]);
    let crc = checksum(&id, &[0xAB]);
    let mut expected = vec![0x0a, 16];
    expected.extend_from_slice(&id);
    expected.extend_from_slice(&[0x12, 1, 0xAB, 0x18]);
    let mut rest = crc;
    while rest >= 128 {
        expected.push((rest % 128) as u8 + 128);
        rest /= 128;
    }
    expected.push(rest as u8);
    assert_eq!(msg.to_bytes(), expected);
}

#[test]
fn encoding_is_deterministic() {
    let id = sample_id();
    let a = Msg::from_request(id, vec![9, 8, 7]).to_bytes();
    let b = Msg::from_request(id, vec![9, 8, 7]).to_bytes();
    assert_eq!(a, b);
}

#[test]
fn every_flipped_bit_is_detected() {
    let id = sample_id();
    let bytes = Msg::from_request(id, vec![0x10, 0x20, 0x30, 0x40]).to_bytes();
    for i in 0..bytes.len() {
        for bit in 0..8 {
            let mut tampered = bytes.clone();
            tampered[i] ^= 1 << bit;
            assert!(Msg::from_bytes(&tampered).is_err(), "byte {} bit {}", i, bit);
        }
    }
}

#[test]
fn flipped_payload_bit_is_an_invalid_checksum() {
    let id = sample_id();
    let bytes = Msg::from_request(id, vec![0x10, 0x20, 0x30, 0x40]).to_bytes();
    // The payload's bytes follow the identifier's field (18 bytes) and the
    // payload's tag and length.
    for i in 20..24 {
        let mut tampered = bytes.clone();
        tampered[i] ^= 0x01;
        assert!(matches!(
            Msg::from_bytes(&tampered),
            Err(ApplicationError::InvalidChecksum)
        ));
    }
    // So does a flipped bit of the identifier.
    let mut tampered = bytes.clone();
    tampered[5] ^= 0x80;
    assert!(matches!(
        Msg::from_bytes(&tampered),
        Err(ApplicationError::InvalidChecksum)
    ));
}

#[test]
fn wrong_checksum_is_rejected() {
    let id = sample_id();
    let mut msg = Msg::from_request(id, vec![1]);
    msg.check_sum ^= 1;
    assert!(matches!(
        Msg::from_bytes(&msg.to_bytes()),
        Err(ApplicationError::InvalidChecksum)
    ));
}

#[test]
fn malformed_frames_are_invalid_framing() {
    // Not a message at all: a tag with field number 0.
    assert!(matches!(
        Msg::from_bytes(&[0x00, 0x01]),
        Err(ApplicationError::InvalidFraming)
    ));
    // A length that runs past the end.
    assert!(matches!(
        Msg::from_bytes(&[0x0a, 0x10, 0x01]),
        Err(ApplicationError::InvalidFraming)
    ));
    // An empty datagram has no identifier.
    assert!(matches!(
        Msg::from_bytes(&[]),
        Err(ApplicationError::InvalidFraming)
    ));
    // An identifier of the wrong length, even under the right checksum.
    let short = Msg {
        message_id: vec![1, 2, 3],
        payload: vec![4],
        check_sum: checksum(&[1, 2, 3], &[4]),
    };
    assert!(matches!(
        Msg::from_bytes(&short.to_bytes()),
        Err(ApplicationError::InvalidFraming)
    ));
    // A group is not part of the encoding.
    assert!(matches!(
        Msg::from_bytes(&[0x0b, 0x0c]),
        Err(ApplicationError::InvalidFraming)
    ));
}

#[test]
fn unknown_fields_are_passed_over_and_the_last_occurrence_counts() {
    let id = sample_id();
    let good = Msg::from_request(id, vec![7, 7]).to_bytes();
    // Field 9 as an integer, field 10 as eight raw bytes, field 11 as four,
    // field 12 as a byte string: all unknown to a frame.
    let mut bytes = vec![0x48, 0x96, 0x01];
    bytes.extend_from_slice(&[0x51, 1, 2, 3, 4, 5, 6, 7, 8]);
    bytes.extend_from_slice(&[0x5d, 1, 2, 3, 4]);
    bytes.extend_from_slice(&[0x62, 2, 0xff, 0xff]);
    // A payload that is overridden by the one that follows.
    bytes.extend_from_slice(&[0x12, 1, 0x55]);
    bytes.extend_from_slice(&good);
    let back = Msg::from_bytes(&bytes).unwrap();
    assert_eq!(back.message_id, id.to_vec());
    assert_eq!(back.payload, vec![7, 7]);
}

#[test]
fn message_key_is_big_endian() {
    let mut id = [0u8; 16];
    id[15] = 1;
    assert_eq!(message_key(&id), 1);
    id[14] = 1;
    assert_eq!(message_key(&id), 257);
    let mut high = [0u8; 16];
    high[0] = 0x80;
    assert_eq!(message_key(&high), 1u128 << 127);
    assert_eq!(message_key(&[0xff; 16]), u128::MAX);
    assert_eq!(message_key(&sample_id()), u128::from_be_bytes(sample_id()));
}

#[test]
fn decoder_reads_what_the_protobuf_crate_writes() {
    let id = sample_id();
    let payload = vec![0u8, 1, 2, 3, 250];
    let crc = checksum(&id, &payload);
    let mut bytes = Vec::new();
    {
        let mut os = protobuf::CodedOutputStream::vec(&mut bytes);
        os.write_bytes(1, &id).unwrap();
        os.write_bytes(2, &payload).unwrap();
        os.write_uint64(3, crc).unwrap();
        os.flush().unwrap();
    }
    let back = Msg::from_bytes(&bytes).unwrap();
    assert_eq!(back.message_id, id.to_vec());
    assert_eq!(back.payload, payload);
    assert_eq!(back.check_sum, crc);
    // And the encoder writes the same bytes.
    assert_eq!(Msg::from_request(id, payload).to_bytes(), bytes);
}

#[test]
fn protobuf_crate_reads_what_the_encoder_writes() {
    let id = sample_id();
    let payload = vec![42u8; 300];
    let bytes = Msg::from_request(id, payload.clone()).to_bytes();
    let mut is = protobuf::CodedInputStream::from_bytes(&bytes);
    assert_eq!(is.read_raw_tag_or_eof().unwrap(), Some(10));
    assert_eq!(is.read_bytes().unwrap(), id.to_vec());
    assert_eq!(is.read_raw_tag_or_eof().unwrap(), Some(18));
    assert_eq!(is.read_bytes().unwrap(), payload);
    assert_eq!(is.read_raw_tag_or_eof().unwrap(), Some(24));
    assert_eq!(is.read_uint64().unwrap(), checksum(&id, &payload));
    assert_eq!(is.read_raw_tag_or_eof().unwrap(), None);
}

#[test]
fn frame_crc_is_the_checksum_in_32_bits() {
    assert_eq!(frame_crc(&[1, 2, 3, 4], &[5, 6, 7, 8]), 1070237893);
    assert_eq!(frame_crc(b"12345", b"6789"), 0xCBF4_3926);
    assert_eq!(frame_crc(&sample_id(), &[1]) as u64, checksum(&sample_id(), &[1]));
    assert_ne!(frame_crc(&[1], &[2]), frame_crc(&[2], &[1]));
}

#[test]
fn sealed_parse_and_checked() {
    let id = sample_id();
    let msg = Msg::sealed(id, vec![1, 2], 0xdead_beef);
    assert_eq!(msg.message_id, id.to_vec());
    assert_eq!(msg.payload, vec![1, 2]);
    assert_eq!(msg.check_sum, 0xdead_beef);

    // Parsing does not look at the checksum.
    let parsed = Msg::parse(&msg.to_bytes()).unwrap();
    assert_eq!(parsed.message_id, id.to_vec());
    assert_eq!(parsed.payload, vec![1, 2]);
    assert_eq!(parsed.check_sum, 0xdead_beef);
    assert!(Msg::parse(&[0x0a, 0x05, 0x01]).is_none());
    let empty = Msg::parse(&[]).unwrap();
    assert!(empty.message_id.is_empty() && empty.payload.is_empty());
    assert_eq!(empty.check_sum, 0);

    // Checking compares with the value it is given.
    let kept = Msg::sealed(id, vec![1, 2], 7).checked(7).unwrap();
    assert_eq!((kept.payload, kept.check_sum), (vec![1, 2], 7));
    assert!(matches!(
        Msg::sealed(id, vec![1, 2], 7).checked(8),
        Err(ApplicationError::InvalidChecksum)
    ));
    // A checksum wider than 32 bits is none.
    let wide = Msg { message_id: id.to_vec(), payload: Vec::new(), check_sum: (1 << 32) + 7 };
    assert!(matches!(wide.checked(7), Err(ApplicationError::InvalidChecksum)));
    // The identifier's length is looked at first.
    let short = Msg { message_id: vec![0; 15], payload: Vec::new(), check_sum: 7 };
    assert!(matches!(short.checked(8), Err(ApplicationError::InvalidFraming)));
    let long = Msg { message_id: vec![0; 17], payload: Vec::new(), check_sum: 7 };
    assert!(matches!(long.checked(7), Err(ApplicationError::InvalidFraming)));
}
