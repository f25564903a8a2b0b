use pingcore::checksum::checksum;
use pingcore::codec::{
    decode, encode_echo, encode_request, DecodeError, EncodingError, Packet, ECHO_REPLY,
    ECHO_REQUEST, MAX_PAYLOAD,
};

fn folded_sum(bytes: &[u8]) -> u32 {
    let mut sum: u32 = 0;
    let mut i = 0;
    while i < bytes.len() {
        let hi = bytes[i] as u32;
        let lo = if i + 1 < bytes.len() { bytes[i + 1] as u32 } else { 0 };
        sum += (hi << 8) | lo;
        i += 2;
    }
    while sum > 0xFFFF {
        sum = (sum & 0xFFFF) + (sum >> 16);
    }
    sum
}

#[test]
fn checksum_of_empty_input_is_all_ones() {
    assert_eq!(checksum(&[]), 0xFFFF);
}

#[test]
fn checksum_matches_rfc1071_example() {
    let data = [0x00, 0x01, 0xf2, 0x03, 0xf4, 0xf5, 0xf6, 0xf7];
    assert_eq!(checksum(&data), 0x220d);
}

#[test]
fn checksum_pads_odd_trailing_byte() {
    assert_eq!(checksum(&[0x01]), 0xFEFF);
    assert_eq!(checksum(&[0x12, 0x34, 0x56]), !(0x1234u16 + 0x5600));
}

#[test]
fn checksum_folds_carries() {
    // 0xFFFF + 0xFFFF = 0x1FFFE, folded 0xFFFF, complemented 0.
    assert_eq!(checksum(&[0xFF, 0xFF, 0xFF, 0xFF]), 0);
}

#[test]
fn encode_request_example_sums_to_all_ones() {
    let bytes = encode_request(0x1234, 0x0001, b"abc").unwrap();
    assert_eq!(
        bytes,
        vec![0x08, 0x00, 0x21, 0x68, 0x12, 0x34, 0x00, 0x01, b'a', b'b', b'c']
    );
    assert_eq!(folded_sum(&bytes), 0xFFFF);
    assert_eq!(checksum(&bytes), 0);
}

#[test]
fn encode_request_accepts_payload_up_to_bound() {
    assert_eq!(encode_request(1, 2, &[]).unwrap().len(), 8);
    let payload = vec![0xA5u8; MAX_PAYLOAD];
    let bytes = encode_request(1, 2, &payload).unwrap();
    assert_eq!(bytes.len(), MAX_PAYLOAD + 8);
    assert_eq!(folded_sum(&bytes), 0xFFFF);
}

#[test]
fn encode_request_rejects_payload_over_bound() {
    let payload = vec![0u8; MAX_PAYLOAD + 1];
    assert_eq!(encode_request(1, 2, &payload), Err(EncodingError::PayloadTooLarge));
}

#[test]
fn decode_reproduces_encoded_fields() {
    for (id, seq, payload) in [
        (0x1234u16, 0x0001u16, b"abc".to_vec()),
        (0, 0, vec![]),
        (0xFFFF, 0xFFFF, vec![0xFF; 33]),
    ] {
        let bytes = encode_request(id, seq, &payload).unwrap();
        let p = decode(&bytes).unwrap();
        assert_eq!(p.icmp_type, ECHO_REQUEST);
        assert_eq!(p.code, 0);
        assert_eq!(p.identifier, id);
        assert_eq!(p.sequence, seq);
        assert_eq!(p.payload, payload);
    }
}

#[test]
fn decode_rejects_short_input() {
    assert_eq!(decode(&[0, 0, 0xFF, 0xFF, 0, 0, 0]).unwrap_err(), DecodeError::Truncated);
    assert_eq!(decode(&[]).unwrap_err(), DecodeError::Truncated);
}

#[test]
fn decode_rejects_bad_checksum() {
    let mut bytes = encode_request(7, 9, b"xyz").unwrap();
    bytes[9] ^= 0x01;
    assert_eq!(decode(&bytes).unwrap_err(), DecodeError::ChecksumMismatch);
}

#[test]
fn decode_classifies_other_icmp_types() {
    let mut bytes = vec![3u8, 1, 0, 0, 0, 0, 0, 0, 0x45, 0x00];
    let c = checksum(&bytes);
    bytes[2] = (c >> 8) as u8;
    bytes[3] = (c & 0xFF) as u8;
    assert_eq!(
        decode(&bytes).unwrap_err(),
        DecodeError::UnsupportedType { icmp_type: 3, code: 1 }
    );
}

#[test]
fn decode_accepts_echo_reply() {
    let bytes = encode_echo(ECHO_REPLY, 0x0102, 0x0304, b"pong");
    let p = decode(&bytes).unwrap();
    assert_eq!(p.icmp_type, ECHO_REPLY);
    assert_eq!(p.identifier, 0x0102);
    assert_eq!(p.sequence, 0x0304);
    assert_eq!(p.payload, b"pong".to_vec());
}

#[test]
fn packet_request_matches_encoded_request() {
    let ts = [1, 2, 3, 4, 5, 6, 7, 8];
    let p = Packet::request(0xBEEF, 42, ts);
    assert_eq!(p.icmp_type, ECHO_REQUEST);
    assert_eq!(p.icmp_code, 0);
    assert_eq!(p.icmp_identifier, 0xBEEF);
    assert_eq!(p.icmp_seq_number, 42);
    assert_eq!(p.icmp_timestamp, ts);
    let bytes = p.to_bytes();
    assert_eq!(bytes, encode_request(0xBEEF, 42, &ts).unwrap());
    assert_eq!(u16::from_be_bytes([bytes[2], bytes[3]]), p.icmp_chksum);
    assert_ne!(p.icmp_chksum, 0);
}
