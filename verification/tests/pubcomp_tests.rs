use bytes::{Bytes, BytesMut};
use rumqtt_core::mqttbytes::{parse_fixed_header, write_remaining_length, Error};
use rumqtt_core::pubcomp::{PubComp, PubCompProperties, PubCompReason};

const USER_PROP_KEY: &str = "property-name";
const USER_PROP_VAL: &str =
    "a long property value that pads the packet body well past one hundred and twenty eight \
     bytes so that the remaining-length field needs a second byte on the wire";

fn encode(packet: &PubComp) -> (usize, Vec<u8>) {
    let mut buffer = BytesMut::new();
    let written = packet.write(&mut buffer).unwrap();
    (written, buffer.freeze().to_vec())
}

fn decode(bytes: &[u8]) -> Result<PubComp, Error> {
    let v = bytes.to_vec();
    let fixed_header = parse_fixed_header(&v)?;
    PubComp::read(fixed_header, Bytes::copy_from_slice(bytes))
}

#[test]
fn length_calculation() {
    let mut dummy_bytes = BytesMut::new();
    // Use user_properties to pad the size to exceed ~128 bytes to make the
    // remaining_length field in the packet be 2 bytes long.
    let pubcomp_props = PubCompProperties {
        reason_string: None,
        user_properties: vec![(USER_PROP_KEY.into(), USER_PROP_VAL.into())],
    };

    let pubcomp_pkt = PubComp::new(1, Some(pubcomp_props));

    let size_from_size = pubcomp_pkt.size();
    let size_from_write = pubcomp_pkt.write(&mut dummy_bytes).unwrap();
    let size_from_bytes = dummy_bytes.len();

    assert_eq!(size_from_write, size_from_bytes);
    assert_eq!(size_from_size, size_from_bytes);
}

#[test]
fn pubcomp_short_form() {
    let packet = PubComp::new(7, None);
    assert_eq!(packet.size(), 4);
    let (written, bytes) = encode(&packet);
    assert_eq!(written, 4);
    assert_eq!(bytes, vec![0x70, 0x02, 0x00, 0x07]);

    let back = decode(&bytes).unwrap();
    assert_eq!(back, packet);
}

#[test]
fn pubcomp_with_one_user_property() {
    let props = PubCompProperties {
        reason_string: None,
        user_properties: vec![("k".to_string(), "v".to_string())],
    };
    let packet = PubComp::new(3, Some(props));
    let (written, bytes) = encode(&packet);
    assert_eq!(packet.size(), bytes.len());
    assert_eq!(written, bytes.len());

    let back = decode(&bytes).unwrap();
    assert_eq!(back, packet);
}

#[test]
fn pubcomp_long_form_round_trip() {
    let props = PubCompProperties {
        reason_string: Some("not found anywhere".to_string()),
        user_properties: vec![
            ("first".to_string(), "value-1".to_string()),
            ("second".to_string(), "value-2".to_string()),
            ("first".to_string(), "value-3".to_string()),
        ],
    };
    let packet = PubComp {
        pkid: 512,
        reason: PubCompReason::PacketIdentifierNotFound,
        properties: Some(props),
    };
    let (written, bytes) = encode(&packet);
    assert_eq!(written, bytes.len());
    assert_eq!(packet.size(), bytes.len());
    assert_eq!(bytes[0], 0x70);

    let back = decode(&bytes).unwrap();
    assert_eq!(back, packet);
}

#[test]
fn pubcomp_reason_without_properties_round_trips() {
    let packet = PubComp {
        pkid: 11,
        reason: PubCompReason::PacketIdentifierNotFound,
        properties: None,
    };
    assert_eq!(packet.size(), 6);
    let (written, bytes) = encode(&packet);
    assert_eq!(written, 6);
    assert_eq!(bytes, vec![0x70, 0x04, 0x00, 0x0B, 0x92, 0x00]);
    let back = decode(&bytes).unwrap();
    assert_eq!(back, packet);
}

#[test]
fn unknown_reason_code_fails_decoding() {
    let bytes = vec![0x70, 0x04, 0x00, 0x07, 0x55, 0x00];
    assert_eq!(decode(&bytes), Err(Error::InvalidConnectReturnCode(0x55)));
}

#[test]
fn unknown_property_id_fails_decoding() {
    // remaining length 6: pkid, reason, property length 2, property 0x99.
    let bytes = vec![0x70, 0x06, 0x00, 0x07, 0x00, 0x02, 0x99, 0x00];
    assert_eq!(decode(&bytes), Err(Error::InvalidPropertyType(0x99)));
}

#[test]
fn truncated_packet_fails_decoding() {
    let bytes = vec![0x70, 0x02, 0x00];
    assert_eq!(decode(&bytes), Err(Error::InsufficientBytes(2)));
}

#[test]
fn truncated_property_string_fails_decoding() {
    // Declares a 16-byte reason string but the buffer ends first.
    let bytes = vec![0x70, 0x08, 0x00, 0x07, 0x00, 0x04, 0x1F, 0x00, 0x10, 0x61];
    assert_eq!(decode(&bytes), Err(Error::BoundaryCrossed(16)));
}

#[test]
fn malformed_remaining_length_is_rejected() {
    let bytes = vec![0x70, 0xFF, 0xFF, 0xFF, 0xFF, 0x00];
    assert!(parse_fixed_header(&bytes).is_err());
}

#[test]
fn oversized_remaining_length_is_refused() {
    let mut buffer = BytesMut::new();
    assert_eq!(
        write_remaining_length(&mut buffer, 268_435_456),
        Err(Error::PayloadTooLong)
    );
    assert_eq!(buffer.len(), 0);
    assert_eq!(write_remaining_length(&mut buffer, 268_435_455), Ok(4));
}

#[test]
fn oversized_string_is_refused_whole() {
    let props = PubCompProperties {
        reason_string: Some("x".repeat(70_000)),
        user_properties: vec![],
    };
    let packet = PubComp::new(1, Some(props));
    let mut buffer = BytesMut::new();
    assert_eq!(packet.write(&mut buffer), Err(Error::PayloadTooLong));
    assert_eq!(buffer.len(), 0);
}

#[test]
fn varint_boundaries_round_trip_through_headers() {
    for len in [0usize, 1, 127, 128, 16_383, 16_384, 2_097_151, 2_097_152] {
        let mut buffer = BytesMut::new();
        buffer.extend_from_slice(&[0x70]);
        write_remaining_length(&mut buffer, len).unwrap();
        let bytes = buffer.freeze().to_vec();
        let fh = parse_fixed_header(&bytes).unwrap();
        assert_eq!(fh.byte1, 0x70);
        assert_eq!(fh.remaining_len, len);
        assert_eq!(fh.fixed_header_len, bytes.len());
    }
}

#[test]
fn non_ascii_strings_round_trip() {
    let props = PubCompProperties {
        reason_string: Some("ingen s\u{00e5}dan post".to_string()),
        user_properties: vec![("nyckel".to_string(), "v\u{00e4}rde \u{2713}".to_string())],
    };
    let packet = PubComp::new(77, Some(props));
    let (written, bytes) = encode(&packet);
    assert_eq!(written, bytes.len());
    assert_eq!(packet.size(), bytes.len());
    let back = decode(&bytes).unwrap();
    assert_eq!(back, packet);
}
