use eventsrv::envelope::{decode, encode, DecodeError, Envelope};

fn make_envelope(member: &[u8], service: &[u8], ts: u64, payload: &[u8]) -> Envelope {
    Envelope {
        member_id: member.to_vec(),
        service: service.to_vec(),
        timestamp: ts,
        payload: payload.to_vec(),
    }
}

#[test]
fn encode_exact_bytes() {
    let e = make_envelope(b"m", b"s", 1, &[0xAB]);
    let bytes = encode(&e);
    let expected: Vec<u8> = vec![
        1, 0, 0, 0, 0, 0, 0, 0, // timestamp, little endian
        1, 0, 0, 0, // member length
        b'm', // member
        1, 0, 0, 0, // service length
        b's', // service
        0xAB, // payload
    ];
    assert_eq!(bytes, expected);
}

#[test]
fn encode_decode_round_trip() {
    let e = make_envelope(b"m1", b"redis", 123456789, b"payload bytes");
    let bytes = encode(&e);
    let back = decode(&bytes).unwrap();
    assert_eq!(back.member_id, b"m1".to_vec());
    assert_eq!(back.service, b"redis".to_vec());
    assert_eq!(back.timestamp, 123456789);
    assert_eq!(back.payload, b"payload bytes".to_vec());
}

#[test]
fn encode_decode_round_trip_empty_fields() {
    let e = make_envelope(b"m", b"", 0, b"");
    let bytes = encode(&e);
    let back = decode(&bytes).unwrap();
    assert_eq!(back.member_id, b"m".to_vec());
    assert_eq!(back.service, Vec::<u8>::new());
    assert_eq!(back.timestamp, 0);
    assert_eq!(back.payload, Vec::<u8>::new());
}

#[test]
fn decode_header_truncated() {
    assert_eq!(decode(&Vec::new()).unwrap_err(), DecodeError::HeaderTruncated);
    assert_eq!(decode(&vec![0u8; 11]).unwrap_err(), DecodeError::HeaderTruncated);
}

#[test]
fn decode_member_truncated() {
    // Twelve-byte header claiming a four-byte member with nothing after it.
    let mut bytes = vec![0u8; 8];
    bytes.extend_from_slice(&[4, 0, 0, 0]);
    assert_eq!(decode(&bytes).unwrap_err(), DecodeError::MemberTruncated);
}

#[test]
fn decode_service_header_truncated() {
    // A one-byte member present, but no room for the service length.
    let mut bytes = vec![0u8; 8];
    bytes.extend_from_slice(&[1, 0, 0, 0]);
    bytes.push(b'm');
    assert_eq!(decode(&bytes).unwrap_err(), DecodeError::ServiceHeaderTruncated);
}

#[test]
fn decode_service_truncated() {
    // A service length of two with only one byte following.
    let mut bytes = vec![0u8; 8];
    bytes.extend_from_slice(&[1, 0, 0, 0]);
    bytes.push(b'm');
    bytes.extend_from_slice(&[2, 0, 0, 0]);
    bytes.push(b's');
    assert_eq!(decode(&bytes).unwrap_err(), DecodeError::ServiceTruncated);
}

#[test]
fn decode_accepts_exact_length() {
    // The same message with the service completed decodes.
    let mut bytes = vec![0u8; 8];
    bytes.extend_from_slice(&[1, 0, 0, 0]);
    bytes.push(b'm');
    bytes.extend_from_slice(&[2, 0, 0, 0]);
    bytes.extend_from_slice(b"sv");
    let e = decode(&bytes).unwrap();
    assert_eq!(e.member_id, b"m".to_vec());
    assert_eq!(e.service, b"sv".to_vec());
    assert_eq!(e.payload, Vec::<u8>::new());
}

#[test]
fn decode_large_timestamp() {
    let e = make_envelope(b"member", b"svc", u64::MAX, b"x");
    let bytes = encode(&e);
    assert_eq!(decode(&bytes).unwrap().timestamp, u64::MAX);
}
