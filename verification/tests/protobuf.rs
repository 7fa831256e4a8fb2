use iwork::protobuf::{ProtoField, ProtoMessage, ProtoValue};

#[test]
fn decode_single_varint_field() {
    let msg = ProtoMessage::decode(&[0x08, 0x96, 0x01]).unwrap();
    assert_eq!(msg.fields().len(), 1);
    assert_eq!(msg.field(1).unwrap().value.as_varint(), Some(150));
}

#[test]
fn decode_length_delimited_field() {
    let bytes = [0x12, 0x05, b'h', b'e', b'l', b'l', b'o'];
    let msg = ProtoMessage::decode(&bytes).unwrap();
    assert_eq!(msg.field(2).unwrap().value.as_bytes(), Some(b"hello" as &[u8]));
}

#[test]
fn decode_fixed32_field() {
    let bytes = [0x0d, 0x04, 0x03, 0x02, 0x01];
    let msg = ProtoMessage::decode(&bytes).unwrap();
    assert_eq!(msg.field(1).unwrap().value, ProtoValue::Fixed32(0x0102_0304));
}

#[test]
fn decode_fixed64_field() {
    let bytes = [0x09, 0x08, 0x07, 0x06, 0x05, 0x04, 0x03, 0x02, 0x01];
    let msg = ProtoMessage::decode(&bytes).unwrap();
    assert_eq!(msg.field(1).unwrap().value, ProtoValue::Fixed64(0x0102_0304_0506_0708));
}

#[test]
fn decode_multiple_fields_in_order() {
    let bytes = [0x08, 0x01, 0x12, 0x02, b'h', b'i'];
    let msg = ProtoMessage::decode(&bytes).unwrap();
    assert_eq!(msg.fields().len(), 2);
    assert_eq!(msg.field(1).unwrap().value.as_varint(), Some(1));
    assert_eq!(msg.field(2).unwrap().value.as_bytes(), Some(b"hi" as &[u8]));
}

#[test]
fn decode_empty_message() {
    let msg = ProtoMessage::decode(&[]).unwrap();
    assert!(msg.fields().is_empty());
}

#[test]
fn field_returns_none_for_absent_number() {
    let msg = ProtoMessage::decode(&[0x08, 0x01]).unwrap();
    assert!(msg.field(99).is_none());
}

#[test]
fn fields_by_number_returns_all_repeated_occurrences() {
    let bytes = [0x08, 0x01, 0x08, 0x02];
    let msg = ProtoMessage::decode(&bytes).unwrap();
    let vals: Vec<u64> = msg
        .fields_by_number(1)
        .into_iter()
        .filter_map(|f| f.value.as_varint())
        .collect();
    assert_eq!(vals, [1, 2]);
}

#[test]
fn encode_decode_roundtrip() {
    let original = ProtoMessage::new(vec![
        ProtoField::varint(1, 42),
        ProtoField::string(2, "hello"),
        ProtoField::fixed32(3, 0xDEAD_BEEF),
        ProtoField::fixed64(4, u64::MAX),
    ]);
    let encoded = original.encode().unwrap();
    let decoded = ProtoMessage::decode(&encoded).unwrap();
    assert_eq!(original, decoded);
}

#[test]
fn nested_message_roundtrip() {
    let inner = ProtoMessage::new(vec![ProtoField::varint(1, 7)]);
    let outer = ProtoMessage::new(vec![ProtoField::message(2, &inner).unwrap()]);
    let bytes = outer.encode().unwrap();
    let decoded = ProtoMessage::decode(&bytes).unwrap();
    let inner_decoded = decoded.field(2).unwrap().value.as_message().unwrap().unwrap();
    assert_eq!(inner_decoded.field(1).unwrap().value.as_varint(), Some(7));
}

#[test]
fn decode_rejects_tag_zero() {
    assert!(ProtoMessage::decode(&[0x00]).is_err());
}

#[test]
fn decode_rejects_unsupported_wire_type() {
    assert!(ProtoMessage::decode(&[0x0B]).is_err());
}

#[test]
fn decode_rejects_truncated_length_delimited() {
    let bytes = [0x0a, 0x0a, 0x01, 0x02, 0x03];
    assert!(ProtoMessage::decode(&bytes).is_err());
}

#[test]
fn decode_rejects_truncated_varint() {
    let bytes = [0x08, 0x80];
    assert!(ProtoMessage::decode(&bytes).is_err());
}

#[test]
fn decode_rejects_varint_overflow() {
    let mut bytes = vec![0x08u8];
    bytes.extend(std::iter::repeat(0x80u8).take(10));
    assert!(ProtoMessage::decode(&bytes).is_err());
}

#[test]
fn decode_varint_bytes_extracts_single_varint() {
    let field = ProtoField::bytes(1, vec![0x96, 0x01]);
    assert_eq!(field.value.decode_varint_bytes().unwrap(), Some(150));
}

#[test]
fn decode_varint_bytes_returns_none_for_wrong_wire_type() {
    let field = ProtoField::varint(1, 42);
    assert_eq!(field.value.decode_varint_bytes().unwrap(), None);
}

#[test]
fn decode_varint_bytes_returns_none_when_trailing_bytes_remain() {
    let field = ProtoField::bytes(1, vec![0x01, 0xFF]);
    assert_eq!(field.value.decode_varint_bytes().unwrap(), None);
}

#[test]
fn protobuf_messages_round_trip_through_encoder() {
    let nested = ProtoMessage::new(vec![ProtoField::varint(1, 99)]);
    let message = ProtoMessage::new(vec![
        ProtoField::varint(1, 7),
        ProtoField::fixed32(2, 1234),
        ProtoField::fixed64(3, 5678),
        ProtoField::string(4, "hello"),
        ProtoField::message(5, &nested).unwrap(),
    ]);

    let decoded = ProtoMessage::decode(&message.encode().unwrap()).unwrap();
    assert_eq!(decoded.field(1).and_then(|field| field.value.as_varint()), Some(7));
    assert_eq!(decoded.field(4).and_then(|field| field.value.as_bytes()), Some(&b"hello"[..]));
    assert_eq!(
        decoded
            .field(5)
            .and_then(|field| field.value.as_message().ok())
            .flatten()
            .and_then(|nested| nested.field(1).and_then(|field| field.value.as_varint())),
        Some(99)
    );
}

#[test]
fn varint_encoding_matches_known_bytes() {
    let mut out = Vec::new();
    iwork::protobuf::push_varint(&mut out, 300);
    assert_eq!(out, vec![0xAC, 0x02]);
    let mut cursor = 0usize;
    assert_eq!(iwork::protobuf::read_varint(&out, &mut cursor), Ok(300));
    assert_eq!(cursor, 2);
}

#[test]
fn decode_varint_bytes_returns_none_for_empty_bytes() {
    assert_eq!(ProtoValue::LengthDelimited(vec![]).decode_varint_bytes(), Ok(None));
    assert_eq!(ProtoValue::LengthDelimited(vec![0x80]).decode_varint_bytes(), Ok(None));
}

#[test]
fn read_varint_refuses_values_wider_than_64_bits() {
    let mut bytes = vec![0xFFu8; 9];
    bytes.push(0x7F);
    let mut cursor = 0usize;
    assert!(matches!(iwork::protobuf::read_varint(&bytes, &mut cursor), Err(iwork::Error::InvalidIwa(_))));
    let mut max = vec![0xFFu8; 9];
    max.push(0x01);
    let mut cursor = 0usize;
    assert_eq!(iwork::protobuf::read_varint(&max, &mut cursor), Ok(u64::MAX));
    assert_eq!(cursor, 10);
}
