use iwork::iwa::{IwaArchive, IwaArchiveDescriptor, IwaObjectReference, IwaPacket, IWA_CHUNK_SIZE};
use iwork::protobuf::{ProtoField, ProtoMessage};
use iwork::Error;

fn empty_header() -> IwaPacket {
    IwaPacket::new(vec![])
}

fn header_from(descriptor: &IwaArchiveDescriptor) -> IwaPacket {
    let msg = descriptor.encode_message().unwrap();
    IwaPacket::new(msg.encode().unwrap())
}

#[test]
fn encode_decode_empty_body() {
    let encoded = IwaArchive::encode(empty_header(), vec![]).unwrap();
    let decoded = IwaArchive::decode(&encoded).unwrap();
    assert_eq!(decoded.body(), &[] as &[u8]);
    assert_eq!(decoded.chunks().len(), 1);
    assert_eq!(decoded.descriptor().root_object_id, None);
    assert_eq!(decoded.descriptor().kind_hint, None);
}

#[test]
fn encode_decode_body_preserved() {
    let body = b"hello world".to_vec();
    let encoded = IwaArchive::encode(empty_header(), body.clone()).unwrap();
    let decoded = IwaArchive::decode(&encoded).unwrap();
    assert_eq!(decoded.body(), body.as_slice());
}

#[test]
fn encode_decode_descriptor_preserved() {
    let descriptor = IwaArchiveDescriptor {
        root_object_id: Some(42),
        kind_hint: Some(6001),
        message_version: Some(vec![1, 0, 5]),
        body_hint: None,
        object_references: vec![IwaObjectReference {
            object_id: Some(99),
            kind_hint: Some(2),
            state_hint: None,
        }],
    };
    let encoded = IwaArchive::encode(header_from(&descriptor), vec![]).unwrap();
    let decoded = IwaArchive::decode(&encoded).unwrap();
    let d = decoded.descriptor();
    assert_eq!(d.root_object_id, Some(42));
    assert_eq!(d.kind_hint, Some(6001));
    assert_eq!(d.message_version, Some(vec![1, 0, 5]));
    assert_eq!(d.object_references.len(), 1);
    assert_eq!(d.object_references[0].object_id, Some(99));
    assert_eq!(d.object_references[0].kind_hint, Some(2));
    assert_eq!(d.object_references[0].state_hint, None);
}

#[test]
fn reencode_roundtrip_preserves_body() {
    let body = b"test reencode body".to_vec();
    let encoded = IwaArchive::encode(empty_header(), body.clone()).unwrap();
    let decoded = IwaArchive::decode(&encoded).unwrap();
    let reencoded = decoded.reencode().unwrap();
    let redecoded = IwaArchive::decode(&reencoded).unwrap();
    assert_eq!(redecoded.body(), body.as_slice());
    assert_eq!(redecoded.descriptor().root_object_id, None);
}

#[test]
fn decode_empty_bytes_fails() {
    let result = IwaArchive::decode(&[]);
    assert!(matches!(result, Err(Error::InvalidIwa("archive contained no chunks"))));
}

#[test]
fn decode_unsupported_chunk_type_fails() {
    let bytes = [1u8, 0, 0, 0];
    let result = IwaArchive::decode(&bytes);
    assert!(matches!(result, Err(Error::UnsupportedIwaChunkType(1))));
}

#[test]
fn decode_truncated_chunk_header_fails() {
    let result = IwaArchive::decode(&[0u8, 0, 0]);
    assert!(result.is_err());
}

#[test]
fn small_archive_produces_single_chunk() {
    let body = vec![0x41u8; 100];
    let encoded = IwaArchive::encode(empty_header(), body.clone()).unwrap();
    let decoded = IwaArchive::decode(&encoded).unwrap();
    assert_eq!(decoded.chunks().len(), 1);
    assert_eq!(decoded.body(), body.as_slice());
}

#[test]
fn large_body_produces_multiple_chunks() {
    let body = vec![0x42u8; IWA_CHUNK_SIZE + 1];
    let encoded = IwaArchive::encode(empty_header(), body.clone()).unwrap();
    let decoded = IwaArchive::decode(&encoded).unwrap();
    assert!(decoded.chunks().len() >= 2);
    assert_eq!(decoded.body(), body.as_slice());
}

#[test]
fn ascii_strings_extracts_printable_runs() {
    let mut body = b"hello".to_vec();
    body.push(0x00);
    body.extend_from_slice(b"world");
    let encoded = IwaArchive::encode(empty_header(), body).unwrap();
    let decoded = IwaArchive::decode(&encoded).unwrap();
    let strings = decoded.ascii_strings(3);
    assert!(strings.iter().any(|s| s == "hello"), "expected 'hello' in {strings:?}");
    assert!(strings.iter().any(|s| s == "world"), "expected 'world' in {strings:?}");
}

#[test]
fn ascii_strings_respects_min_len() {
    let mut body = b"ab".to_vec();
    body.push(0x00);
    body.extend_from_slice(b"long_enough");
    let encoded = IwaArchive::encode(empty_header(), body).unwrap();
    let decoded = IwaArchive::decode(&encoded).unwrap();
    let strings = decoded.ascii_strings(3);
    assert!(!strings.iter().any(|s| s == "ab"), "'ab' should be excluded");
    assert!(strings.iter().any(|s| s == "long_enough"));
}

#[test]
fn chunk_decompressed_len_matches_body() {
    let body = b"test".to_vec();
    let encoded = IwaArchive::encode(empty_header(), body).unwrap();
    let decoded = IwaArchive::decode(&encoded).unwrap();
    let chunks = decoded.chunks();
    assert_eq!(chunks.len(), 1);
    assert_eq!(chunks[0].kind, 0);
    assert_eq!(chunks[0].decompressed_len, 5);
}

#[test]
fn leading_object_references_empty_for_empty_body() {
    let encoded = IwaArchive::encode(empty_header(), vec![]).unwrap();
    let decoded = IwaArchive::decode(&encoded).unwrap();
    assert!(decoded.leading_object_references().is_empty());
    assert_eq!(decoded.leading_object_references_len(), 0);
}

#[test]
fn iwa_packet_decode_message_on_empty_is_ok() {
    let packet = empty_header();
    assert!(packet.decode_message().is_ok());
    assert_eq!(packet.decode_message().unwrap().fields().len(), 0);
}

#[test]
fn leading_object_references_are_read_until_the_first_other_record() {
    // Two `{1: {1: id}}` records, then a varint field that ends the run.
    let mut body = Vec::new();
    for id in [5u64, 300] {
        let inner = ProtoMessage::new(vec![ProtoField::varint(1, id)]).encode().unwrap();
        body.extend(ProtoMessage::new(vec![ProtoField::bytes(1, inner)]).encode().unwrap());
    }
    let lead_len = body.len();
    body.extend_from_slice(&[0x10, 0x01]);
    let encoded = IwaArchive::encode(empty_header(), body).unwrap();
    let decoded = IwaArchive::decode(&encoded).unwrap();
    assert_eq!(decoded.leading_object_references(), vec![5, 300]);
    assert_eq!(decoded.leading_object_references_len(), lead_len);
}

#[test]
fn objects_walk_records_after_the_root_payload() {
    let root = IwaArchiveDescriptor {
        root_object_id: Some(1),
        kind_hint: Some(10),
        message_version: None,
        body_hint: Some(3),
        object_references: vec![],
    };
    let second = IwaArchiveDescriptor {
        root_object_id: Some(2),
        kind_hint: Some(7),
        message_version: None,
        body_hint: Some(2),
        object_references: vec![],
    };
    let mut body = b"abc".to_vec();
    let info = second.encode_message().unwrap().encode().unwrap();
    body.push(info.len() as u8);
    body.extend_from_slice(&info);
    body.extend_from_slice(b"xy");
    let encoded = IwaArchive::encode(header_from(&root), body).unwrap();
    let decoded = IwaArchive::decode(&encoded).unwrap();
    let objects = decoded.objects();
    assert_eq!(objects.len(), 2);
    assert_eq!(objects[0].identifier, Some(1));
    assert_eq!(objects[0].payload, b"abc".to_vec());
    assert_eq!(objects[1].identifier, Some(2));
    assert_eq!(objects[1].message_type, Some(7));
    assert_eq!(objects[1].payload, b"xy".to_vec());
}

#[test]
fn snappy_literal_block_round_trips() {
    let data: Vec<u8> = (0..200u32).map(|i| (i % 251) as u8).collect();
    let block = iwork::snappy::compress_snappy_literal(&data);
    assert_eq!(iwork::snappy::decompress_snappy(&block).unwrap(), data);
}

#[test]
fn snappy_copy_elements_repeat_earlier_output() {
    // Length 6: literal "ab", then a 1-byte-offset copy of 4 bytes at offset 2.
    let block = [0x06, 0x04, b'a', b'b', 0x01, 0x02];
    assert_eq!(iwork::snappy::decompress_snappy(&block).unwrap(), b"ababab".to_vec());
}

#[test]
fn snappy_rejects_a_length_mismatch() {
    let block = [0x05, 0x04, b'a', b'b'];
    assert!(matches!(
        iwork::snappy::decompress_snappy(&block),
        Err(Error::InvalidIwa("snappy length mismatch"))
    ));
}

#[test]
fn concatenated_archives_read_as_one_multi_object_archive() -> Result<(), Error> {
    let mut bytes = iwork::encode::encode_single_object(100, 10001, b"first".to_vec(), Vec::new())?;
    bytes.extend_from_slice(&iwork::encode::encode_single_object(200, 2001, b"second!".to_vec(), Vec::new())?);
    let archive = IwaArchive::decode(&bytes)?;
    assert_eq!(archive.descriptor().root_object_id, Some(100));
    let objects = archive.objects();
    assert_eq!(objects.len(), 2);
    assert_eq!((objects[0].identifier, objects[0].message_type), (Some(100), Some(10001)));
    assert_eq!(objects[0].payload, b"first".to_vec());
    assert_eq!((objects[1].identifier, objects[1].message_type), (Some(200), Some(2001)));
    assert_eq!(objects[1].payload, b"second!".to_vec());
    Ok(())
}

#[test]
fn a_truncated_record_is_not_part_of_the_leading_block() -> Result<(), Error> {
    let bytes = IwaArchive::encode(IwaPacket::new(vec![]), vec![0x0a, 0x02, 0x08, 0x2a, 0x80])?;
    let a = IwaArchive::decode(&bytes)?;
    assert_eq!(a.leading_object_references(), vec![42]);
    assert_eq!(a.leading_object_references_len(), 4);
    assert_eq!(a.header().offset, 0);
    Ok(())
}
