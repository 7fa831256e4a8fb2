//! `.iwa` archives: Snappy-framed streams of protobuf `ArchiveInfo` records
//! and object payloads.
use crate::error::Error;
use crate::protobuf::{
    bytes_value, copy_bytes, extend_bytes, first_field, lemma_decode_from_shorter, lemma_first_field_in,
    lemma_read_varint_advances, nested_message, push_varint, read_varint, spec_decode_message,
    spec_encode_fields, spec_encode_varint, spec_read_varint, value_size, varint_value, ProtoField,
    ProtoFieldView, ProtoMessage, ProtoValue, ProtoValueView,
};
use crate::snappy::{compress_snappy_literal, decompress_snappy, spec_compress_literal, spec_decompress_snappy};
use vstd::prelude::*;

verus! {

/// Bytes in the header in front of every chunk: a kind byte and a 24-bit length.
pub const CHUNK_HEADER_LEN: usize = 4;

/// The kind byte of a Snappy chunk, the only kind supported.
pub const SNAPPY_CHUNK_TYPE: u8 = 0;

/// Decompressed bytes per Snappy chunk written by [`IwaArchive::encode`]
/// (the 64 KiB window that iWork writers use).
pub const IWA_CHUNK_SIZE: usize = 65536;

// ───────────────────────────── types ─────────────────────────────

/// Metadata for one Snappy chunk within an `.iwa` file.
#[derive(Debug, Clone, Copy, PartialEq, Eq)]
pub struct IwaChunk {
    /// The chunk kind byte (always `0` for Snappy in supported archives).
    pub kind: u8,
    /// Byte length of the compressed payload on disk.
    pub compressed_len: usize,
    /// Byte length after Snappy decompression.
    pub decompressed_len: usize,
}

/// A length-prefixed protobuf packet within an IWA archive stream.
#[derive(Debug, Clone, PartialEq, Eq)]
pub struct IwaPacket {
    pub offset: usize,
    pub bytes: Vec<u8>,
}

impl View for IwaPacket {
    type V = Seq<u8>;

    open spec fn view(&self) -> Seq<u8> {
        self.bytes@
    }
}

/// A cross-object reference declared in an `ArchiveInfo` header.
#[derive(Debug, Clone, Copy, PartialEq, Eq)]
pub struct IwaObjectReference {
    /// The referenced object's identifier.
    pub object_id: Option<u64>,
    /// The message type of the referenced object.
    pub kind_hint: Option<u64>,
    /// An opaque state field from the reference record.
    pub state_hint: Option<u64>,
}

/// The decoded `ArchiveInfo` header that describes one object in an archive.
#[derive(Debug, Clone, PartialEq, Eq)]
pub struct IwaArchiveDescriptor {
    /// The object identifier of this archive's root object.
    pub root_object_id: Option<u64>,
    /// The iWork message type of the root object (e.g. `6001` for `TableModel`).
    pub kind_hint: Option<u64>,
    /// Raw `MessageInfo.version` bytes (e.g. `[1, 0, 5]`).
    pub message_version: Option<Vec<u8>>,
    /// Optional body length hint from the `MessageInfo` (field 3).
    pub body_hint: Option<u64>,
    /// Cross-object references declared by the root object's `ArchiveInfo`.
    pub object_references: Vec<IwaObjectReference>,
}

/// The mathematical content of an [`IwaArchiveDescriptor`].
pub struct DescriptorView {
    pub root_object_id: Option<u64>,
    pub kind_hint: Option<u64>,
    pub message_version: Option<Seq<u8>>,
    pub body_hint: Option<u64>,
    pub object_references: Seq<IwaObjectReference>,
}

/// The view of an optional byte vector.
pub open spec fn opt_bytes_view(v: Option<Vec<u8>>) -> Option<Seq<u8>> {
    match v {
        Some(b) => Some(b@),
        None => None,
    }
}

impl View for IwaArchiveDescriptor {
    type V = DescriptorView;

    open spec fn view(&self) -> DescriptorView {
        DescriptorView {
            root_object_id: self.root_object_id,
            kind_hint: self.kind_hint,
            message_version: opt_bytes_view(self.message_version),
            body_hint: self.body_hint,
            object_references: self.object_references@,
        }
    }
}

/// A single object decoded from an archive's `(ArchiveInfo, payload)` stream.
#[derive(Debug, Clone, PartialEq, Eq)]
pub struct IwaObject {
    pub identifier: Option<u64>,
    pub message_type: Option<u64>,
    /// Raw `MessageInfo.version` bytes, preserved for faithful re-encoding.
    pub version: Option<Vec<u8>>,
    pub references: Vec<IwaObjectReference>,
    pub payload: Vec<u8>,
}

/// The mathematical content of an [`IwaObject`].
pub struct ObjectView {
    pub identifier: Option<u64>,
    pub message_type: Option<u64>,
    pub version: Option<Seq<u8>>,
    pub references: Seq<IwaObjectReference>,
    pub payload: Seq<u8>,
}

impl View for IwaObject {
    type V = ObjectView;

    open spec fn view(&self) -> ObjectView {
        ObjectView {
            identifier: self.identifier,
            message_type: self.message_type,
            version: opt_bytes_view(self.version),
            references: self.references@,
            payload: self.payload@,
        }
    }
}

/// A decoded `.iwa` archive: its Snappy chunks, header packet, root
/// descriptor and the body that follows the header.
#[derive(Debug, PartialEq, Eq)]
pub struct IwaArchive {
    chunks: Vec<IwaChunk>,
    header: IwaPacket,
    descriptor: IwaArchiveDescriptor,
    body: Vec<u8>,
}

/// The mathematical content of an [`IwaArchive`].
pub struct ArchiveView {
    pub chunks: Seq<IwaChunk>,
    pub header: Seq<u8>,
    pub descriptor: DescriptorView,
    pub body: Seq<u8>,
}

impl Clone for IwaArchive {
    fn clone(&self) -> (r: IwaArchive) {
        proof {
            use_type_invariant(self);
        }
        IwaArchive {
            chunks: self.chunks.clone(),
            header: self.header.duplicate(),
            descriptor: self.descriptor.clone(),
            body: self.body.clone(),
        }
    }
}

impl IwaArchive {
    /// The header packet of a decoded archive starts at offset 0.
    #[verifier::type_invariant]
    spec fn header_at_start(self) -> bool {
        self.header.offset == 0
    }
}

impl View for IwaArchive {
    type V = ArchiveView;

    closed spec fn view(&self) -> ArchiveView {
        ArchiveView {
            chunks: self.chunks@,
            header: self.header@,
            descriptor: self.descriptor@,
            body: self.body@,
        }
    }
}

// ───────────────────────────── descriptor decoding ─────────────────────────────

/// The object identifier carried by a reference's field 1: the value when the
/// bytes are exactly one varint, else field 1 of the nested message (followed
/// through further nesting); `None` where neither holds.
pub open spec fn spec_object_id_hint(v: ProtoValueView) -> Result<Option<u64>, Error>
    decreases value_size(v),
{
    match v {
        ProtoValueView::LengthDelimited(b) => {
            if spec_read_varint(b, 0).0 is Ok && spec_read_varint(b, 0).1 == b.len() {
                Ok(Some(spec_read_varint(b, 0).0->Ok_0))
            } else {
                match spec_decode_message(b) {
                    Err(_) => Ok(None),
                    Ok(fs) => match first_field(fs, 1) {
                        None => Ok(None),
                        Some(f) => match f.value {
                            ProtoValueView::Varint(id) => Ok(Some(id)),
                            _ => {
                                proof {
                                    lemma_decode_from_shorter(b, 0);
                                    lemma_first_field_in(fs, 1);
                                }
                                spec_object_id_hint(f.value)
                            },
                        },
                    },
                }
            }
        },
        _ => Ok(None),
    }
}

/// One object reference decoded from the fields of its record.
pub open spec fn spec_reference(fs: Seq<ProtoFieldView>) -> Result<IwaObjectReference, Error> {
    let id = match first_field(fs, 1) {
        None => Ok(None),
        Some(f) => spec_object_id_hint(f.value),
    };
    match id {
        Err(e) => Err(e),
        Ok(object_id) => Ok(
            IwaObjectReference {
                object_id,
                kind_hint: varint_value(first_field(fs, 2)),
                state_hint: varint_value(first_field(fs, 3)),
            },
        ),
    }
}

/// The object references of a `MessageInfo`: every field 4 whose bytes decode
/// as a message, in order; the first reference that fails to decode fails all.
pub open spec fn spec_references(fs: Seq<ProtoFieldView>) -> Result<Seq<IwaObjectReference>, Error>
    decreases fs.len(),
{
    if fs.len() == 0 {
        Ok(seq![])
    } else {
        let rest = spec_references(fs.drop_first());
        if fs[0].number != 4 {
            rest
        } else {
            match nested_message(fs[0].value) {
                None => rest,
                Some(m) => match spec_reference(m) {
                    Err(e) => Err(e),
                    Ok(r) => match rest {
                        Err(e) => Err(e),
                        Ok(rs) => Ok(seq![r] + rs),
                    },
                },
            }
        }
    }
}

/// Decoding a descriptor from the fields of an `ArchiveInfo` message.
pub open spec fn spec_descriptor(fs: Seq<ProtoFieldView>) -> Result<DescriptorView, Error> {
    let root = varint_value(first_field(fs, 1));
    let info = match first_field(fs, 2) {
        Some(f) => nested_message(f.value),
        None => None,
    };
    match info {
        Some(m) => match spec_references(m) {
            Err(e) => Err(e),
            Ok(rs) => Ok(
                DescriptorView {
                    root_object_id: root,
                    kind_hint: varint_value(first_field(m, 1)),
                    message_version: bytes_value(first_field(m, 2)),
                    body_hint: varint_value(first_field(m, 3)),
                    object_references: rs,
                },
            ),
        },
        None => Ok(
            DescriptorView {
                root_object_id: root,
                kind_hint: None,
                message_version: None,
                body_hint: None,
                object_references: seq![],
            },
        ),
    }
}

fn maybe_decode_message(value: &ProtoValue) -> (r: Option<ProtoMessage>)
    ensures
        match nested_message(value@) {
            Some(fs) => r matches Some(m) && m@ == fs,
            None => r is None,
        },
{
    match value.as_bytes() {
        Some(bytes) => match ProtoMessage::decode(bytes) {
            Ok(m) => Some(m),
            Err(_) => None,
        },
        None => None,
    }
}

fn decode_object_id_hint(value: &ProtoValue) -> (r: Result<Option<u64>, Error>)
    ensures
        r == spec_object_id_hint(value@),
    decreases value_size(value@),
{
    if let Some(object_id) = value.decode_varint_bytes()? {
        return Ok(Some(object_id));
    }
    let message = match maybe_decode_message(value) {
        Some(m) => m,
        None => return Ok(None),
    };
    match message.field(1) {
        None => Ok(None),
        Some(field) => match field.value.as_varint() {
            Some(object_id) => Ok(Some(object_id)),
            None => {
                proof {
                    if let ProtoValueView::LengthDelimited(b) = value@ {
                        lemma_decode_from_shorter(b, 0);
                        lemma_first_field_in(message@, 1);
                    }
                }
                decode_object_id_hint(&field.value)
            },
        },
    }
}

/// `prefix` followed by the references of `r`, or the error of `r`.
pub open spec fn prepend_references(prefix: Seq<IwaObjectReference>, r: Result<Seq<IwaObjectReference>, Error>) -> Result<
    Seq<IwaObjectReference>,
    Error,
> {
    match r {
        Ok(rest) => Ok(prefix + rest),
        Err(e) => Err(e),
    }
}

fn decode_reference(message: &ProtoMessage) -> (r: Result<IwaObjectReference, Error>)
    ensures
        r == spec_reference(message@),
{
    let object_id = match message.field(1) {
        None => None,
        Some(field) => decode_object_id_hint(&field.value)?,
    };
    let kind_hint = match message.field(2) {
        Some(field) => field.value.as_varint(),
        None => None,
    };
    let state_hint = match message.field(3) {
        Some(field) => field.value.as_varint(),
        None => None,
    };
    Ok(IwaObjectReference { object_id, kind_hint, state_hint })
}

fn decode_references(info: &ProtoMessage) -> (r: Result<Vec<IwaObjectReference>, Error>)
    ensures
        match spec_references(info@) {
            Ok(rs) => r matches Ok(v) && v@ == rs,
            Err(e) => r == Err::<Vec<IwaObjectReference>, Error>(e),
        },
{
    let fields = info.fields();
    let ghost fs = info@;
    let mut refs: Vec<IwaObjectReference> = Vec::new();
    let mut i: usize = 0;
    assert(fs.skip(0) =~= fs);
    assert(refs@ + seq![] =~= refs@);
    while i < fields.len()
        invariant
            i <= fields@.len(),
            fields@.map_values(|f: ProtoField| f@) == fs,
            fs.len() == fields@.len(),
            fs == info@,
            spec_references(fs) == prepend_references(refs@, spec_references(fs.skip(i as int))),
        decreases fields.len() - i,
    {
        let field = &fields[i];
        assert(fs.skip(i as int)[0] == field@);
        assert(fs.skip(i as int).drop_first() =~= fs.skip(i + 1));
        if field.number == 4 {
            if let Some(m) = maybe_decode_message(&field.value) {
                let r = match decode_reference(&m) {
                    Ok(r) => r,
                    Err(e) => {
                        assert(fs.skip(i as int).len() > 0);
                        assert(spec_references(fs.skip(i as int)) == Err::<Seq<IwaObjectReference>, Error>(e));
                        assert(spec_references(fs) == Err::<Seq<IwaObjectReference>, Error>(e));
                        return Err(e);
                    },
                };
                let ghost before = refs@;
                refs.push(r);
                proof {
                    match spec_references(fs.skip(i + 1)) {
                        Ok(rest) => {
                            assert(before + (seq![r] + rest) =~= refs@ + rest);
                        },
                        Err(_) => {},
                    }
                }
            }
        }
        i = i + 1;
    }
    assert(fs.skip(i as int) =~= seq![]);
    assert(refs@ + seq![] =~= refs@);
    Ok(refs)
}

impl IwaArchiveDescriptor {
    fn decode(message: &ProtoMessage) -> (r: Result<IwaArchiveDescriptor, Error>)
        ensures
            match spec_descriptor(message@) {
                Ok(d) => r matches Ok(x) && x@ == d,
                Err(e) => r == Err::<IwaArchiveDescriptor, Error>(e),
            },
    {
        let root_object_id = match message.field(1) {
            Some(field) => field.value.as_varint(),
            None => None,
        };
        let info = match message.field(2) {
            Some(field) => maybe_decode_message(&field.value),
            None => None,
        };
        match info {
            None => Ok(
                IwaArchiveDescriptor {
                    root_object_id,
                    kind_hint: None,
                    message_version: None,
                    body_hint: None,
                    object_references: Vec::new(),
                },
            ),
            Some(info) => {
                let object_references = decode_references(&info)?;
                let kind_hint = match info.field(1) {
                    Some(field) => field.value.as_varint(),
                    None => None,
                };
                let message_version = match info.field(2) {
                    Some(field) => match field.value.as_bytes() {
                        Some(b) => Some(copy_bytes(b)),
                        None => None,
                    },
                    None => None,
                };
                let body_hint = match info.field(3) {
                    Some(field) => field.value.as_varint(),
                    None => None,
                };
                Ok(IwaArchiveDescriptor { root_object_id, kind_hint, message_version, body_hint, object_references })
            },
        }
    }
}


// ───────────────────────────── archive decoding ─────────────────────────────

/// The 24-bit little-endian payload length in the chunk header at `c`.
pub open spec fn chunk_len_at(bytes: Seq<u8>, c: int) -> nat {
    bytes[c + 1] as nat + 256 * (bytes[c + 2] as nat) + 65536 * (bytes[c + 3] as nat)
}

/// Walking the chunks from `c` to the end of `bytes`: the chunks seen and the
/// concatenated decompressed stream, or the first error.
pub open spec fn spec_chunk_walk(bytes: Seq<u8>, c: int, chunks: Seq<IwaChunk>, out: Seq<u8>) -> Result<
    (Seq<IwaChunk>, Seq<u8>),
    Error,
>
    decreases bytes.len() - c,
{
    if c < 0 || c >= bytes.len() {
        Ok((chunks, out))
    } else if c + 4 > usize::MAX {
        Err(Error::InvalidIwa("chunk header overflow"))
    } else if c + 4 > bytes.len() {
        Err(Error::Truncated("iwa chunk header"))
    } else {
        let kind = bytes[c];
        let n = chunk_len_at(bytes, c);
        let p = c + 4;
        if p + n > usize::MAX {
            Err(Error::InvalidIwa("chunk length overflow"))
        } else if p + n > bytes.len() {
            Err(Error::Truncated("iwa chunk payload"))
        } else if kind != 0 {
            Err(Error::UnsupportedIwaChunkType(kind))
        } else {
            match spec_decompress_snappy(bytes.subrange(p, p + n)) {
                Err(e) => Err(e),
                Ok(d) => spec_chunk_walk(
                    bytes,
                    p + n,
                    chunks.push(IwaChunk { kind, compressed_len: n as usize, decompressed_len: d.len() as usize }),
                    out + d,
                ),
            }
        }
    }
}

/// Splitting a decompressed stream into its varint-length-prefixed header
/// packet and the body after it.
pub open spec fn spec_split_stream(stream: Seq<u8>) -> Result<(Seq<u8>, Seq<u8>), Error> {
    let (r, c) = spec_read_varint(stream, 0);
    match r {
        Err(e) => Err(e),
        Ok(n) => {
            if n > usize::MAX || c + n > usize::MAX {
                Err(Error::InvalidIwa("packet length overflow"))
            } else if c + n > stream.len() {
                Err(Error::Truncated("iwa packet"))
            } else {
                Ok((stream.subrange(c, c + n), stream.subrange(c + n, stream.len() as int)))
            }
        },
    }
}

/// Decoding a whole `.iwa` file.
pub open spec fn spec_decode_archive(bytes: Seq<u8>) -> Result<ArchiveView, Error> {
    match spec_chunk_walk(bytes, 0, seq![], seq![]) {
        Err(e) => Err(e),
        Ok((chunks, stream)) => {
            if chunks.len() == 0 {
                Err(Error::InvalidIwa("archive contained no chunks"))
            } else {
                match spec_split_stream(stream) {
                    Err(e) => Err(e),
                    Ok((header, body)) => match spec_decode_message(header) {
                        Err(e) => Err(e),
                        Ok(fs) => match spec_descriptor(fs) {
                            Err(e) => Err(e),
                            Ok(descriptor) => Ok(ArchiveView { chunks, header, descriptor, body }),
                        },
                    },
                }
            }
        },
    }
}

fn decode_archive_stream(bytes: &[u8]) -> (r: Result<(IwaPacket, Vec<u8>), Error>)
    ensures
        match spec_split_stream(bytes@) {
            Ok((h, b)) => r matches Ok((p, v)) && p@ == h && p.offset == 0 && v@ == b,
            Err(e) => r == Err::<(IwaPacket, Vec<u8>), Error>(e),
        },
{
    let mut cursor: usize = 0;
    let packet_len64 = read_varint(bytes, &mut cursor)?;
    if packet_len64 > usize::MAX as u64 {
        return Err(Error::InvalidIwa("packet length overflow"));
    }
    let packet_len = packet_len64 as usize;
    let packet_end = match cursor.checked_add(packet_len) {
        Some(e) => e,
        None => return Err(Error::InvalidIwa("packet length overflow")),
    };
    if packet_end > bytes.len() {
        return Err(Error::Truncated("iwa packet"));
    }
    let header = IwaPacket { offset: 0, bytes: copy_bytes(&bytes[cursor..packet_end]) };
    let body = copy_bytes(&bytes[packet_end..bytes.len()]);
    Ok((header, body))
}

impl IwaPacket {
    /// Wraps raw `ArchiveInfo` protobuf bytes into a packet for encoding.
    pub fn new(bytes: Vec<u8>) -> (r: IwaPacket)
        ensures
            r@ == bytes@,
            r.offset == 0,
    {
        IwaPacket { offset: 0, bytes }
    }

    /// The raw protobuf bytes of this packet.
    pub fn bytes(&self) -> (r: &[u8])
        ensures
            r@ == self@,
    {
        self.bytes.as_slice()
    }

    /// Decodes the packet bytes as a [`ProtoMessage`].
    pub fn decode_message(&self) -> (r: Result<ProtoMessage, Error>)
        ensures
            match spec_decode_message(self@) {
                Ok(fs) => r matches Ok(m) && m@ == fs,
                Err(e) => r == Err::<ProtoMessage, Error>(e),
            },
    {
        ProtoMessage::decode(self.bytes.as_slice())
    }

    /// A copy of this packet.
    pub fn duplicate(&self) -> (r: IwaPacket)
        ensures
            r@ == self@,
            r.offset == self.offset,
    {
        IwaPacket { offset: self.offset, bytes: copy_bytes(self.bytes.as_slice()) }
    }
}

impl IwaArchive {
    /// Decodes a `.iwa` file from its raw on-disk bytes: decompresses every
    /// Snappy chunk, then splits the stream into the header packet, the root
    /// descriptor decoded from it, and the body that follows.
    pub fn decode(bytes: &[u8]) -> (r: Result<IwaArchive, Error>)
        ensures
            match spec_decode_archive(bytes@) {
                Ok(a) => r matches Ok(x) && x@ == a,
                Err(e) => r == Err::<IwaArchive, Error>(e),
            },
    {
        let mut chunks: Vec<IwaChunk> = Vec::new();
        let mut archive_bytes: Vec<u8> = Vec::new();
        let mut cursor: usize = 0;
        while cursor < bytes.len()
            invariant
                cursor <= bytes@.len(),
                spec_chunk_walk(bytes@, 0, seq![], seq![]) == spec_chunk_walk(
                    bytes@,
                    cursor as int,
                    chunks@,
                    archive_bytes@,
                ),
            decreases bytes.len() - cursor,
        {
            let header_end = match cursor.checked_add(CHUNK_HEADER_LEN) {
                Some(e) => e,
                None => return Err(Error::InvalidIwa("chunk header overflow")),
            };
            if header_end > bytes.len() {
                return Err(Error::Truncated("iwa chunk header"));
            }
            let kind = bytes[cursor];
            let compressed_len = (bytes[cursor + 1] as usize) + (bytes[cursor + 2] as usize) * 256 + (bytes[cursor
                + 3] as usize) * 65536;
            let ghost c0 = cursor as int;
            cursor = header_end;
            let chunk_end = match cursor.checked_add(compressed_len) {
                Some(e) => e,
                None => return Err(Error::InvalidIwa("chunk length overflow")),
            };
            if chunk_end > bytes.len() {
                return Err(Error::Truncated("iwa chunk payload"));
            }
            if kind != SNAPPY_CHUNK_TYPE {
                return Err(Error::UnsupportedIwaChunkType(kind));
            }
            let decompressed = decompress_snappy(&bytes[cursor..chunk_end])?;
            cursor = chunk_end;
            extend_bytes(&mut archive_bytes, decompressed.as_slice());
            chunks.push(IwaChunk { kind, compressed_len, decompressed_len: decompressed.len() });
            assert(chunk_len_at(bytes@, c0) == compressed_len);
        }
        if chunks.len() == 0 {
            return Err(Error::InvalidIwa("archive contained no chunks"));
        }
        let (header, body) = decode_archive_stream(archive_bytes.as_slice())?;
        let message = header.decode_message()?;
        let descriptor = IwaArchiveDescriptor::decode(&message)?;
        Ok(IwaArchive { chunks, header, descriptor, body })
    }

    /// The Snappy chunks that make up this archive's on-disk form.
    pub fn chunks(&self) -> (r: &[IwaChunk])
        ensures
            r@ == self@.chunks,
    {
        self.chunks.as_slice()
    }

    /// The leading `ArchiveInfo` packet (the archive header).
    pub fn header(&self) -> (r: &IwaPacket)
        ensures
            r@ == self@.header,
            r.offset == 0,
    {
        proof {
            use_type_invariant(self);
        }
        &self.header
    }

    /// The root object's descriptor, decoded from the archive header.
    pub fn descriptor(&self) -> (r: &IwaArchiveDescriptor)
        ensures
            r@ == self@.descriptor,
    {
        &self.descriptor
    }

    /// The raw decompressed bytes that follow the header packet.
    pub fn body(&self) -> (r: &[u8])
        ensures
            r@ == self@.body,
    {
        self.body.as_slice()
    }
}


// ───────────────────────────── archive encoding ─────────────────────────────

/// The decompressed stream of an archive: the varint length of the header
/// packet, the packet, then the body.
pub open spec fn archive_stream(header: Seq<u8>, body: Seq<u8>) -> Seq<u8> {
    spec_encode_varint(header.len() as u64) + header + body
}

/// One Snappy chunk holding `w`: kind `0`, the 24-bit little-endian length of
/// the compressed block, then the block.
pub open spec fn chunk_frame(w: Seq<u8>) -> Seq<u8> {
    let c = spec_compress_literal(w);
    seq![0u8, (c.len() % 256) as u8, ((c.len() / 256) % 256) as u8, ((c.len() / 65536) % 256) as u8] + c
}

/// `s` cut into windows of [`IWA_CHUNK_SIZE`] bytes (the last may be
/// shorter), each framed as one chunk, in order.
pub open spec fn spec_frame_windows(s: Seq<u8>) -> Seq<u8>
    decreases s.len(),
{
    if s.len() == 0 {
        seq![]
    } else {
        let n: nat = if s.len() < 65536 { s.len() } else { 65536 };
        chunk_frame(s.subrange(0, n as int)) + spec_frame_windows(s.subrange(n as int, s.len() as int))
    }
}

/// The on-disk bytes written for a header packet and a body.
pub open spec fn spec_encode_archive(header: Seq<u8>, body: Seq<u8>) -> Seq<u8> {
    spec_frame_windows(archive_stream(header, body))
}

proof fn lemma_literal_elements_upper(b: Seq<u8>)
    ensures
        crate::snappy::literal_elements(b).len() <= 2 * b.len(),
    decreases b.len(),
{
    if b.len() > 0 {
        let n: nat = if b.len() < 60 { b.len() } else { 60 };
        lemma_literal_elements_upper(b.subrange(n as int, b.len() as int));
    }
}

proof fn lemma_compressed_window_len(w: Seq<u8>)
    requires
        w.len() <= 65536,
    ensures
        spec_compress_literal(w).len() <= 0x00ff_ffff,
{
    lemma_literal_elements_upper(w);
    crate::protobuf::lemma_encode_varint_len(w.len() as u64);
}

proof fn lemma_len_bytes(x: u32)
    requires
        x <= 0x00ff_ffff,
    ensures
        (x & 0xff) as u8 == (x % 256) as u8,
        ((x >> 8u32) & 0xff) as u8 == ((x / 256) % 256) as u8,
        ((x >> 16u32) & 0xff) as u8 == ((x / 65536) % 256) as u8,
        ((x % 256) as u8) as nat + 256 * (((x / 256) % 256) as u8) as nat + 65536 * (((x / 65536) % 256) as u8) as nat
            == x,
{
    assert((x & 0xff) as u8 == (x % 256) as u8) by (bit_vector);
    assert(((x >> 8u32) & 0xff) as u8 == ((x / 256) % 256) as u8) by (bit_vector);
    assert(((x >> 16u32) & 0xff) as u8 == ((x / 65536) % 256) as u8) by (bit_vector);
    assert(((x % 256) as u8) as u32 + 256 * (((x / 256) % 256) as u8) as u32 + 65536 * (((x / 65536) % 256) as u8) as u32
        == x) by (bit_vector)
        requires
            x <= 0x00ff_ffff,
    ;
}

impl IwaArchive {
    /// Serializes an archive from its header packet and body into the on-disk
    /// `.iwa` byte stream: the length-prefixed packet and the body, cut into
    /// 64 KiB windows, each stored as one Snappy chunk.
    pub fn encode(header: IwaPacket, body: Vec<u8>) -> (r: Result<Vec<u8>, Error>)
        ensures
            r matches Ok(v) && v@ == spec_encode_archive(header@, body@),
    {
        let mut archive_bytes: Vec<u8> = Vec::new();
        push_varint(&mut archive_bytes, header.bytes.len() as u64);
        extend_bytes(&mut archive_bytes, header.bytes.as_slice());
        extend_bytes(&mut archive_bytes, body.as_slice());
        let ghost stream = archive_bytes@;
        assert(stream =~= archive_stream(header@, body@));
        let mut out: Vec<u8> = Vec::new();
        let mut start: usize = 0;
        let total = archive_bytes.len();
        assert(stream.subrange(0, total as int) =~= stream);
        assert(out@ + spec_frame_windows(stream) =~= spec_frame_windows(stream));
        while start < total
            invariant
                start <= total,
                total == stream.len(),
                archive_bytes@ == stream,
                out@ + spec_frame_windows(stream.subrange(start as int, total as int)) == spec_frame_windows(stream),
            decreases total - start,
        {
            let ghost rest = stream.subrange(start as int, total as int);
            let end: usize = if total - start < IWA_CHUNK_SIZE { total } else { start + IWA_CHUNK_SIZE };
            let window = &archive_bytes[start..end];
            let compressed = compress_snappy_literal(window);
            let compressed_len = compressed.len();
            proof {
                lemma_compressed_window_len(window@);
            }
            if compressed_len > 0x00ff_ffff {
                return Err(Error::InvalidIwa("chunk length overflow"));
            }
            let n32 = compressed_len as u32;
            proof {
                lemma_len_bytes(n32);
            }
            let ghost before = out@;
            out.push(SNAPPY_CHUNK_TYPE);
            out.push((n32 & 0xff) as u8);
            out.push(((n32 >> 8) & 0xff) as u8);
            out.push(((n32 >> 16) & 0xff) as u8);
            extend_bytes(&mut out, compressed.as_slice());
            proof {
                let n = (end - start) as int;
                assert(rest.subrange(0, n) =~= window@);
                assert(rest.subrange(n, rest.len() as int) =~= stream.subrange(end as int, total as int));
                assert(out@ =~= before + chunk_frame(window@));
                assert(before + spec_frame_windows(rest) =~= out@ + spec_frame_windows(
                    stream.subrange(end as int, total as int),
                ));
            }
            start = end;
        }
        assert(stream.subrange(start as int, total as int) =~= seq![]);
        assert(out@ + seq![] =~= out@);
        Ok(out)
    }

    /// Re-serializes this archive, reproducing the same header packet and body
    /// bytes a reader will observe (the Snappy framing may differ).
    pub fn reencode(&self) -> (r: Result<Vec<u8>, Error>)
        ensures
            r matches Ok(v) && v@ == spec_encode_archive(self@.header, self@.body),
    {
        Self::encode(self.header.duplicate(), copy_bytes(self.body.as_slice()))
    }
}

// ───────────────────────────── round-trip law ─────────────────────────────

#[verifier::rlimit(50)]
#[verifier::spinoff_prover]
proof fn lemma_frames_walk(whole: Seq<u8>, pre: Seq<u8>, s: Seq<u8>, chunks: Seq<IwaChunk>, out: Seq<u8>)
    requires
        whole == pre + spec_frame_windows(s),
        whole.len() <= usize::MAX,
    ensures
        spec_chunk_walk(whole, pre.len() as int, chunks, out) matches Ok((cs, o)) && o == out + s && cs.len()
            >= chunks.len() && (s.len() > 0 ==> cs.len() > chunks.len()),
    decreases s.len(),
{
    let c = pre.len() as int;
    if s.len() == 0 {
        assert(whole.len() == c);
        assert(out + s =~= out);
    } else {
        let n: nat = if s.len() < 65536 { s.len() } else { 65536 };
        let w = s.subrange(0, n as int);
        let tail = s.subrange(n as int, s.len() as int);
        let comp = spec_compress_literal(w);
        lemma_compressed_window_len(w);
        let x = comp.len() as u32;
        lemma_len_bytes(x);
        let frame = chunk_frame(w);
        let pre2 = pre + frame;
        assert(whole =~= pre2 + spec_frame_windows(tail));
        assert(whole[c] == 0u8);
        assert(whole[c + 1] == frame[1]);
        assert(whole[c + 2] == frame[2]);
        assert(whole[c + 3] == frame[3]);
        assert(chunk_len_at(whole, c) == comp.len());
        assert(whole.subrange(c + 4, c + 4 + comp.len()) =~= comp);
        crate::snappy::lemma_snappy_literal_roundtrip(w);
        let chunk = IwaChunk { kind: 0, compressed_len: comp.len() as usize, decompressed_len: w.len() as usize };
        lemma_frames_walk(whole, pre2, tail, chunks.push(chunk), out + w);
        assert(out + w + tail =~= out + s);
    }
}

proof fn lemma_split_stream(header: Seq<u8>, body: Seq<u8>)
    requires
        archive_stream(header, body).len() <= usize::MAX,
    ensures
        spec_split_stream(archive_stream(header, body)) == Ok::<(Seq<u8>, Seq<u8>), Error>((header, body)),
{
    let stream = archive_stream(header, body);
    let prefix = spec_encode_varint(header.len() as u64);
    assert(stream.subrange(0, prefix.len() as int) =~= prefix);
    crate::protobuf::lemma_varint_roundtrip(stream, 0, header.len() as u64);
    let c = prefix.len() as int;
    assert(stream.subrange(c, c + header.len()) =~= header);
    assert(stream.subrange(c + header.len(), stream.len() as int) =~= body);
}

/// Law: decoding what [`IwaArchive::encode`] wrote for a header packet and a
/// body gives back that packet, that body and the descriptor the packet
/// declares, whenever the packet is a well-formed `ArchiveInfo` and the
/// output fits in memory.
pub proof fn lemma_archive_roundtrip(header: Seq<u8>, body: Seq<u8>)
    requires
        spec_decode_message(header) is Ok,
        spec_descriptor(spec_decode_message(header)->Ok_0) is Ok,
        spec_encode_archive(header, body).len() <= usize::MAX,
    ensures
        spec_decode_archive(spec_encode_archive(header, body)) matches Ok(a) && a.header == header && a.body == body
            && a.descriptor == spec_descriptor(spec_decode_message(header)->Ok_0)->Ok_0,
{
    let stream = archive_stream(header, body);
    let whole = spec_encode_archive(header, body);
    lemma_frames_walk(whole, seq![], stream, seq![], seq![]);
    assert(seq![] + spec_frame_windows(stream) =~= whole);
    crate::protobuf::lemma_encode_varint_len(header.len() as u64);
    assert(seq![] + stream =~= stream);
    lemma_archive_stream_fits(header, body);
    lemma_split_stream(header, body);
}

/// The chunk records that walking [`spec_frame_windows`] of `s` yields.
pub open spec fn frame_chunks(s: Seq<u8>) -> Seq<IwaChunk>
    decreases s.len(),
{
    if s.len() == 0 {
        seq![]
    } else {
        let n: nat = if s.len() < 65536 { s.len() } else { 65536 };
        let w = s.subrange(0, n as int);
        seq![IwaChunk { kind: 0, compressed_len: spec_compress_literal(w).len() as usize, decompressed_len: w.len() as usize }]
            + frame_chunks(s.subrange(n as int, s.len() as int))
    }
}

#[verifier::rlimit(50)]
#[verifier::spinoff_prover]
proof fn lemma_frames_walk_then(
    whole: Seq<u8>,
    pre: Seq<u8>,
    s: Seq<u8>,
    post: Seq<u8>,
    chunks: Seq<IwaChunk>,
    out: Seq<u8>,
)
    requires
        whole == pre + spec_frame_windows(s) + post,
        whole.len() <= usize::MAX,
    ensures
        spec_chunk_walk(whole, pre.len() as int, chunks, out) == spec_chunk_walk(
            whole,
            (pre.len() + spec_frame_windows(s).len()) as int,
            chunks + frame_chunks(s),
            out + s,
        ),
    decreases s.len(),
{
    let c = pre.len() as int;
    if s.len() == 0 {
        assert(out + s =~= out);
        assert(chunks + frame_chunks(s) =~= chunks);
    } else {
        let n: nat = if s.len() < 65536 { s.len() } else { 65536 };
        let w = s.subrange(0, n as int);
        let tail = s.subrange(n as int, s.len() as int);
        let comp = spec_compress_literal(w);
        lemma_compressed_window_len(w);
        let x = comp.len() as u32;
        lemma_len_bytes(x);
        let frame = chunk_frame(w);
        let pre2 = pre + frame;
        assert(whole =~= pre2 + spec_frame_windows(tail) + post);
        assert(whole[c] == 0u8);
        assert(whole[c + 1] == frame[1]);
        assert(whole[c + 2] == frame[2]);
        assert(whole[c + 3] == frame[3]);
        assert(chunk_len_at(whole, c) == comp.len());
        assert(whole.subrange(c + 4, c + 4 + comp.len()) =~= comp);
        crate::snappy::lemma_snappy_literal_roundtrip(w);
        let chunk = IwaChunk { kind: 0, compressed_len: comp.len() as usize, decompressed_len: w.len() as usize };
        lemma_frames_walk_then(whole, pre2, tail, post, chunks.push(chunk), out + w);
        assert(out + w + tail =~= out + s);
        assert(chunks.push(chunk) + frame_chunks(tail) =~= chunks + frame_chunks(s));
        assert(pre2.len() + spec_frame_windows(tail).len() == pre.len() + spec_frame_windows(s).len());
    }
}

/// Law: two archives written one after the other read as one archive: the
/// first archive's header and descriptor, and a body that holds the first
/// body followed by the second archive's length-prefixed header and body.
/// This is how the object stream of a multi-object archive is laid out, so
/// writing the objects as separate archives and concatenating them gives a
/// multi-object archive.
pub proof fn lemma_concatenated_archives(h1: Seq<u8>, b1: Seq<u8>, h2: Seq<u8>, b2: Seq<u8>)
    requires
        spec_decode_message(h1) is Ok,
        spec_descriptor(spec_decode_message(h1)->Ok_0) is Ok,
        (spec_encode_archive(h1, b1) + spec_encode_archive(h2, b2)).len() <= usize::MAX,
    ensures
        spec_decode_archive(spec_encode_archive(h1, b1) + spec_encode_archive(h2, b2)) matches Ok(a) && a.header
            == h1 && a.body == b1 + archive_stream(h2, b2) && a.descriptor == spec_descriptor(
            spec_decode_message(h1)->Ok_0,
        )->Ok_0,
{
    let s1 = archive_stream(h1, b1);
    let s2 = archive_stream(h2, b2);
    let e1 = spec_encode_archive(h1, b1);
    let e2 = spec_encode_archive(h2, b2);
    let whole = e1 + e2;
    lemma_frames_walk_then(whole, seq![], s1, e2, seq![], seq![]);
    assert(whole =~= seq![] + spec_frame_windows(s1) + e2);
    lemma_frames_walk_then(whole, e1, s2, seq![], frame_chunks(s1), s1);
    assert(whole =~= e1 + spec_frame_windows(s2) + seq![]);
    assert(seq![] + frame_chunks(s1) =~= frame_chunks(s1));
    assert(seq![] + s1 =~= s1);
    crate::protobuf::lemma_encode_varint_len(h1.len() as u64);
    assert(frame_chunks(s1).len() > 0);
    lemma_archive_stream_fits(h1, b1);
    lemma_archive_stream_fits(h2, b2);
    assert(s1 + s2 =~= archive_stream(h1, b1 + s2));
    lemma_split_stream(h1, b1 + s2);
}

/// The chunk frames of each stream of `ss`, one after the other.
pub open spec fn frames_seq(ss: Seq<Seq<u8>>) -> Seq<u8>
    decreases ss.len(),
{
    if ss.len() == 0 {
        seq![]
    } else {
        spec_frame_windows(ss[0]) + frames_seq(ss.drop_first())
    }
}

/// The streams of `ss`, one after the other.
pub open spec fn streams_seq(ss: Seq<Seq<u8>>) -> Seq<u8>
    decreases ss.len(),
{
    if ss.len() == 0 {
        seq![]
    } else {
        ss[0] + streams_seq(ss.drop_first())
    }
}

/// The chunk records of [`frames_seq`].
pub open spec fn chunks_seq(ss: Seq<Seq<u8>>) -> Seq<IwaChunk>
    decreases ss.len(),
{
    if ss.len() == 0 {
        seq![]
    } else {
        frame_chunks(ss[0]) + chunks_seq(ss.drop_first())
    }
}

proof fn lemma_walk_seq(whole: Seq<u8>, pre: Seq<u8>, ss: Seq<Seq<u8>>, chunks: Seq<IwaChunk>, out: Seq<u8>)
    requires
        whole == pre + frames_seq(ss),
        whole.len() <= usize::MAX,
    ensures
        spec_chunk_walk(whole, pre.len() as int, chunks, out) == Ok::<(Seq<IwaChunk>, Seq<u8>), Error>(
            (chunks + chunks_seq(ss), out + streams_seq(ss)),
        ),
    decreases ss.len(),
{
    if ss.len() == 0 {
        assert(chunks + chunks_seq(ss) =~= chunks);
        assert(out + streams_seq(ss) =~= out);
    } else {
        let rest = ss.drop_first();
        assert(frames_seq(ss) == spec_frame_windows(ss[0]) + frames_seq(rest));
        assert(whole =~= pre + spec_frame_windows(ss[0]) + frames_seq(rest));
        lemma_frames_walk_then(whole, pre, ss[0], frames_seq(rest), chunks, out);
        let pre2 = pre + spec_frame_windows(ss[0]);
        assert(whole =~= pre2 + frames_seq(rest));
        lemma_walk_seq(whole, pre2, rest, chunks + frame_chunks(ss[0]), out + ss[0]);
        assert(chunks + frame_chunks(ss[0]) + chunks_seq(rest) =~= chunks + chunks_seq(ss));
        assert(out + ss[0] + streams_seq(rest) =~= out + streams_seq(ss));
    }
}

/// Law: an archive followed by the chunk frames of further streams reads as
/// that archive's header and descriptor, with a body that holds its own body
/// followed by those streams.
pub proof fn lemma_archive_then_streams(h1: Seq<u8>, b1: Seq<u8>, ss: Seq<Seq<u8>>)
    requires
        spec_decode_message(h1) is Ok,
        spec_descriptor(spec_decode_message(h1)->Ok_0) is Ok,
        (spec_encode_archive(h1, b1) + frames_seq(ss)).len() <= usize::MAX,
    ensures
        spec_decode_archive(spec_encode_archive(h1, b1) + frames_seq(ss)) matches Ok(a) && a.header == h1 && a.body
            == b1 + streams_seq(ss) && a.descriptor == spec_descriptor(spec_decode_message(h1)->Ok_0)->Ok_0,
{
    let s1 = archive_stream(h1, b1);
    let whole = spec_encode_archive(h1, b1) + frames_seq(ss);
    assert(whole =~= Seq::<u8>::empty() + frames_seq(seq![s1] + ss)) by {
        assert((seq![s1] + ss).drop_first() =~= ss);
    }
    lemma_walk_seq(whole, Seq::<u8>::empty(), seq![s1] + ss, Seq::<IwaChunk>::empty(), Seq::<u8>::empty());
    assert((seq![s1] + ss).drop_first() =~= ss);
    assert(Seq::<u8>::empty() + streams_seq(seq![s1] + ss) =~= s1 + streams_seq(ss));
    crate::protobuf::lemma_encode_varint_len(h1.len() as u64);
    assert(Seq::<IwaChunk>::empty() + chunks_seq(seq![s1] + ss) =~= frame_chunks(s1) + chunks_seq(ss));
    assert(frame_chunks(s1).len() > 0);
    lemma_archive_stream_fits(h1, b1);
    assert(s1 + streams_seq(ss) =~= archive_stream(h1, b1 + streams_seq(ss)));
    lemma_frames_seq_len(ss);
    lemma_split_stream(h1, b1 + streams_seq(ss));
}

proof fn lemma_frames_seq_len(ss: Seq<Seq<u8>>)
    ensures
        streams_seq(ss).len() <= frames_seq(ss).len(),
    decreases ss.len(),
{
    if ss.len() > 0 {
        lemma_frame_windows_len(ss[0]);
        lemma_frames_seq_len(ss.drop_first());
    }
}

proof fn lemma_frame_windows_len(s: Seq<u8>)
    ensures
        spec_frame_windows(s).len() >= s.len(),
    decreases s.len(),
{
    if s.len() > 0 {
        let n: nat = if s.len() < 65536 { s.len() } else { 65536 };
        let w = s.subrange(0, n as int);
        crate::snappy::lemma_literal_elements_len(w);
        lemma_frame_windows_len(s.subrange(n as int, s.len() as int));
    }
}

pub(crate) proof fn lemma_archive_stream_fits(header: Seq<u8>, body: Seq<u8>)
    ensures
        archive_stream(header, body).len() <= spec_encode_archive(header, body).len(),
{
    lemma_frame_windows_len(archive_stream(header, body));
}


// ───────────────────────────── object stream ─────────────────────────────

/// The payload length a `MessageInfo` field declares in its field 3, when it
/// is a message with such a varint that fits in `usize`.
pub open spec fn info_length(f: ProtoFieldView) -> Option<nat> {
    match nested_message(f.value) {
        Some(m) => match varint_value(first_field(m, 3)) {
            Some(x) => if x <= usize::MAX {
                Some(x as nat)
            } else {
                None
            },
            None => None,
        },
        None => None,
    }
}

/// The saturating (at `usize::MAX`) sum of the declared lengths in `fs`,
/// added to `acc`.
pub open spec fn lengths_sum(fs: Seq<ProtoFieldView>, acc: nat) -> nat
    decreases fs.len(),
{
    if fs.len() == 0 {
        acc
    } else {
        let acc2 = match info_length(fs[0]) {
            Some(l) => if acc + l > usize::MAX {
                usize::MAX as nat
            } else {
                acc + l
            },
            None => acc,
        };
        lengths_sum(fs.drop_first(), acc2)
    }
}

/// The `MessageInfo` fields (field 2) of an `ArchiveInfo`.
pub open spec fn message_infos(fs: Seq<ProtoFieldView>) -> Seq<ProtoFieldView> {
    fs.filter(|f: ProtoFieldView| f.number == 2)
}

/// The length of the first (primary) message of an object: the declared
/// length of its first `MessageInfo`, or `0`.
pub open spec fn first_message_len(fs: Seq<ProtoFieldView>) -> nat {
    let infos = message_infos(fs);
    if infos.len() > 0 {
        match info_length(infos[0]) {
            Some(l) => l,
            None => 0,
        }
    } else {
        0
    }
}

/// The whole payload span of an object: the sum of every declared length.
pub open spec fn total_message_len(fs: Seq<ProtoFieldView>) -> nat {
    lengths_sum(message_infos(fs), 0)
}

/// The object records of `body` from `c` on, appended to `objs`: each record
/// is `varint(info_len) ArchiveInfo payload`; the walk stops at the first
/// record that cannot be decoded.
pub open spec fn spec_object_records(body: Seq<u8>, c: int, objs: Seq<ObjectView>) -> Seq<ObjectView>
    decreases body.len() - c,
{
    if c < 0 || c >= body.len() {
        objs
    } else {
        let (r, c1) = spec_read_varint(body, c);
        match r {
            Err(_) => objs,
            Ok(n) => {
                if n > usize::MAX || c1 + n > usize::MAX || c1 + n > body.len() {
                    objs
                } else {
                    let c2 = c1 + n;
                    match spec_decode_message(body.subrange(c1, c2)) {
                        Err(_) => objs,
                        Ok(fs) => match spec_descriptor(fs) {
                            Err(_) => objs,
                            Ok(d) => {
                                let first = first_message_len(fs);
                                let total = total_message_len(fs);
                                if c2 + first > usize::MAX || c2 + first > body.len() || c2 + total > usize::MAX
                                    || c2 + total > body.len() {
                                    objs
                                } else {
                                    proof {
                                        lemma_read_varint_advances(body, c);
                                    }
                                    spec_object_records(
                                        body,
                                        c2 + total,
                                        objs.push(
                                            ObjectView {
                                                identifier: d.root_object_id,
                                                message_type: d.kind_hint,
                                                version: d.message_version,
                                                references: d.object_references,
                                                payload: body.subrange(c2, c2 + first),
                                            },
                                        ),
                                    )
                                }
                            },
                        },
                    }
                }
            },
        }
    }
}

/// Every object of an archive: the root object, described by the header and
/// starting the body, then the records that follow its payload span.
pub open spec fn spec_objects(a: ArchiveView) -> Seq<ObjectView> {
    let (first, total) = match spec_decode_message(a.header) {
        Ok(fs) => (first_message_len(fs), total_message_len(fs)),
        Err(_) => (a.body.len(), a.body.len()),
    };
    let first_len = if first < a.body.len() {
        first
    } else {
        a.body.len()
    };
    let start = if total < a.body.len() {
        total
    } else {
        a.body.len()
    };
    let root = ObjectView {
        identifier: a.descriptor.root_object_id,
        message_type: a.descriptor.kind_hint,
        version: a.descriptor.message_version,
        references: a.descriptor.object_references,
        payload: a.body.subrange(0, first_len as int),
    };
    spec_object_records(a.body, start as int, seq![root])
}

fn message_info_lengths(archive_info: &ProtoMessage) -> (r: (usize, usize))
    ensures
        r.0 == first_message_len(archive_info@),
        r.1 == total_message_len(archive_info@),
{
    let infos = archive_info.fields_by_number(2);
    let ghost all = message_infos(archive_info@);
    assert(infos@.map_values(|f: &ProtoField| f@) == all);
    let mut first: usize = 0;
    let mut total: usize = 0;
    let mut index: usize = 0;
    assert(all.skip(0) =~= all);
    while index < infos.len()
        invariant
            index <= infos@.len(),
            infos@.len() == all.len(),
            infos@.map_values(|f: &ProtoField| f@) == all,
            all == message_infos(archive_info@),
            lengths_sum(all, 0) == lengths_sum(all.skip(index as int), total as nat),
            index == 0 ==> first == 0,
            index > 0 ==> first == first_message_len(archive_info@),
        decreases infos.len() - index,
    {
        let info_field = infos[index];
        assert(all[index as int] == info_field@);
        assert(all.skip(index as int)[0] == info_field@);
        assert(all.skip(index as int).drop_first() =~= all.skip(index + 1));
        let length: Option<usize> = match maybe_decode_message(&info_field.value) {
            Some(info) => match info.field(3) {
                Some(field) => match field.value.as_varint() {
                    Some(x) => if x <= usize::MAX as u64 {
                        Some(x as usize)
                    } else {
                        None
                    },
                    None => None,
                },
                None => None,
            },
            None => None,
        };
        assert(length == match info_length(info_field@) {
            Some(l) => Some(l as usize),
            None => None::<usize>,
        });
        match length {
            Some(l) => {
                if index == 0 {
                    first = l;
                }
                total = total.saturating_add(l);
            },
            None => {
                if index == 0 {
                    first = 0;
                }
            },
        }
        index = index + 1;
    }
    assert(all.skip(index as int) =~= seq![]);
    (first, total)
}

/// The one root object together with the records after it.
fn push_record(objs: &mut Vec<IwaObject>, descriptor: IwaArchiveDescriptor, payload: Vec<u8>)
    ensures
        final(objs)@.map_values(|o: IwaObject| o@) == old(objs)@.map_values(|o: IwaObject| o@).push(
            ObjectView {
                identifier: descriptor@.root_object_id,
                message_type: descriptor@.kind_hint,
                version: descriptor@.message_version,
                references: descriptor@.object_references,
                payload: payload@,
            },
        ),
{
    let IwaArchiveDescriptor { root_object_id, kind_hint, message_version, body_hint: _, object_references } =
        descriptor;
    objs.push(
        IwaObject {
            identifier: root_object_id,
            message_type: kind_hint,
            version: message_version,
            references: object_references,
            payload,
        },
    );
    assert(objs@.map_values(|o: IwaObject| o@) =~= old(objs)@.map_values(|o: IwaObject| o@).push(
        ObjectView {
            identifier: root_object_id,
            message_type: kind_hint,
            version: opt_bytes_view(message_version),
            references: object_references@,
            payload: payload@,
        },
    ));
}

fn copy_descriptor(d: &IwaArchiveDescriptor) -> (r: IwaArchiveDescriptor)
    ensures
        r@ == d@,
{
    let message_version = match &d.message_version {
        Some(v) => Some(copy_bytes(v.as_slice())),
        None => None,
    };
    let mut object_references: Vec<IwaObjectReference> = Vec::new();
    let mut i: usize = 0;
    while i < d.object_references.len()
        invariant
            i <= d.object_references@.len(),
            object_references@ == d.object_references@.subrange(0, i as int),
        decreases d.object_references.len() - i,
    {
        object_references.push(d.object_references[i]);
        i = i + 1;
        assert(object_references@ =~= d.object_references@.subrange(0, i as int));
    }
    assert(object_references@ =~= d.object_references@);
    IwaArchiveDescriptor {
        root_object_id: d.root_object_id,
        kind_hint: d.kind_hint,
        message_version,
        body_hint: d.body_hint,
        object_references,
    }
}

impl IwaArchive {
    /// Decodes every object stored in this archive: the root object, whose
    /// `ArchiveInfo` is the header and whose payload starts the body, then
    /// each `varint(info_len) ArchiveInfo payload` record after it. An
    /// object's payload is its first message; the walk skips the sum of all
    /// its declared message lengths, and stops at the first record it cannot
    /// decode, returning the objects found so far.
    pub fn objects(&self) -> (r: Vec<IwaObject>)
        ensures
            r@.map_values(|o: IwaObject| o@) == spec_objects(self@),
    {
        let body_len = self.body.len();
        let (first_len0, total_len0) = match self.header.decode_message() {
            Ok(message) => message_info_lengths(&message),
            Err(_) => (body_len, body_len),
        };
        let first_len = if first_len0 < body_len { first_len0 } else { body_len };
        let mut objects: Vec<IwaObject> = Vec::new();
        push_record(&mut objects, copy_descriptor(&self.descriptor), copy_bytes(&self.body.as_slice()[0..first_len]));
        let mut cursor: usize = if total_len0 < body_len { total_len0 } else { body_len };
        let ghost body = self.body@;
        proof {
            let a = self@;
            assert(self.body@.subrange(0, first_len as int) == a.body.subrange(0, first_len as int));
            assert(objects@.map_values(|o: IwaObject| o@) =~= seq![
                ObjectView {
                    identifier: a.descriptor.root_object_id,
                    message_type: a.descriptor.kind_hint,
                    version: a.descriptor.message_version,
                    references: a.descriptor.object_references,
                    payload: a.body.subrange(0, first_len as int),
                },
            ]);
        }
        while cursor < body_len
            invariant_except_break
                cursor <= body_len,
                spec_objects(self@) == spec_object_records(body, cursor as int, objects@.map_values(|o: IwaObject| o@)),
            invariant
                body_len == body.len(),
                body == self.body@,
            ensures
                spec_objects(self@) == objects@.map_values(|o: IwaObject| o@),
            decreases body_len - cursor,
        {
            let ghost c0 = cursor as int;
            let ghost objs = objects@.map_values(|o: IwaObject| o@);
            proof {
                lemma_read_varint_advances(body, c0);
            }
            let info_len64 = match read_varint(self.body.as_slice(), &mut cursor) {
                Ok(v) => v,
                Err(_) => break,
            };
            if info_len64 > usize::MAX as u64 {
                break;
            }
            let info_len = info_len64 as usize;
            let info_end = match cursor.checked_add(info_len) {
                Some(e) => e,
                None => break,
            };
            if info_end > body_len {
                break;
            }
            let info_message = match ProtoMessage::decode(&self.body.as_slice()[cursor..info_end]) {
                Ok(m) => m,
                Err(_) => break,
            };
            let descriptor = match IwaArchiveDescriptor::decode(&info_message) {
                Ok(d) => d,
                Err(_) => break,
            };
            let (first, total) = message_info_lengths(&info_message);
            let payload_end = match info_end.checked_add(first) {
                Some(e) => e,
                None => break,
            };
            if payload_end > body_len {
                break;
            }
            let next_cursor = match info_end.checked_add(total) {
                Some(e) => e,
                None => break,
            };
            if next_cursor > body_len {
                break;
            }
            push_record(&mut objects, descriptor, copy_bytes(&self.body.as_slice()[info_end..payload_end]));
            cursor = next_cursor;
        }
        objects
    }
}


// ───────────────────────────── leading references ─────────────────────────────

/// One leading `{field 1: {field 1 varint: object_id}}` record at `c`: the
/// object id and the position after the record, or `None` when the bytes at
/// `c` are not such a record.
pub open spec fn leading_entry(body: Seq<u8>, c: int) -> Option<(u64, int)> {
    let (tr, c1) = spec_read_varint(body, c);
    match tr {
        Err(_) => None,
        Ok(tag) => {
            if tag >> 3u64 != 1 || tag & 7u64 != 2 {
                None
            } else {
                let (lr, c2) = spec_read_varint(body, c1);
                match lr {
                    Err(_) => None,
                    Ok(len) => {
                        if len > usize::MAX || c2 + len > usize::MAX || c2 + len > body.len() {
                            None
                        } else {
                            let value = body.subrange(c2, c2 + len);
                            let (ir, v1) = spec_read_varint(value, 0);
                            match ir {
                                Err(_) => None,
                                Ok(inner) => {
                                    if inner != 8 {
                                        None
                                    } else {
                                        let (idr, v2) = spec_read_varint(value, v1);
                                        match idr {
                                            Err(_) => None,
                                            Ok(id) => if v2 != value.len() {
                                                None
                                            } else {
                                                Some((id, c2 + len))
                                            },
                                        }
                                    }
                                },
                            }
                        }
                    },
                }
            }
        },
    }
}

/// A leading reference record that parses ends after it starts and inside the body.
pub proof fn lemma_leading_entry_advances(body: Seq<u8>, c: int)
    requires
        0 <= c,
    ensures
        leading_entry(body, c) matches Some((_, next)) ==> c < next <= body.len(),
{
    lemma_read_varint_advances(body, c);
    let (tr, c1) = spec_read_varint(body, c);
    lemma_read_varint_advances(body, c1);
}

/// The object ids of the leading reference records from `c` on.
pub open spec fn leading_refs(body: Seq<u8>, c: int) -> Seq<u64>
    decreases body.len() - c,
{
    if c < 0 || c >= body.len() {
        seq![]
    } else {
        match leading_entry(body, c) {
            None => seq![],
            Some((id, next)) => {
                proof {
                    lemma_leading_entry_advances(body, c);
                }
                seq![id] + leading_refs(body, next)
            },
        }
    }
}

/// Where the leading reference records that start at `c` end: only the
/// bytes of whole reference records belong to the block.
pub open spec fn leading_len(body: Seq<u8>, c: int) -> int
    decreases body.len() - c,
{
    if c < 0 || c >= body.len() {
        c
    } else {
        match leading_entry(body, c) {
            None => c,
            Some((_, next)) => {
                proof {
                    lemma_leading_entry_advances(body, c);
                }
                leading_len(body, next)
            },
        }
    }
}

fn read_leading_entry(body: &[u8], c: usize) -> (r: Option<(u64, usize)>)
    ensures
        match leading_entry(body@, c as int) {
            Some((id, next)) => r == Some((id, next as usize)),
            None => r is None,
        },
{
    let mut cursor = c;
    let tag = match read_varint(body, &mut cursor) {
        Ok(t) => t,
        Err(_) => return None,
    };
    if tag >> 3 != 1 || tag & 0x07 != 2 {
        return None;
    }
    let len64 = match read_varint(body, &mut cursor) {
        Ok(l) => l,
        Err(_) => return None,
    };
    if len64 > usize::MAX as u64 {
        return None;
    }
    let field_end = match cursor.checked_add(len64 as usize) {
        Some(e) => e,
        None => return None,
    };
    if field_end > body.len() {
        return None;
    }
    let value = &body[cursor..field_end];
    let mut value_cursor: usize = 0;
    let inner_tag = match read_varint(value, &mut value_cursor) {
        Ok(t) => t,
        Err(_) => return None,
    };
    if inner_tag != 8 {
        return None;
    }
    let object_id = match read_varint(value, &mut value_cursor) {
        Ok(v) => v,
        Err(_) => return None,
    };
    if value_cursor != value.len() {
        return None;
    }
    Some((object_id, field_end))
}

impl IwaArchive {
    /// Reads the leading `{field 1: {field 1: object_id}}` records from the
    /// start of the body, stopping at the first byte that is not one.
    pub fn leading_object_references(&self) -> (r: Vec<u64>)
        ensures
            r@ == leading_refs(self@.body, 0),
    {
        let mut references: Vec<u64> = Vec::new();
        let mut cursor: usize = 0;
        let ghost body = self.body@;
        while cursor < self.body.len()
            invariant_except_break
                cursor <= body.len(),
                leading_refs(body, 0) == references@ + leading_refs(body, cursor as int),
            invariant
                body == self.body@,
            ensures
                leading_refs(body, 0) == references@,
            decreases self.body.len() - cursor,
        {
            proof {
                lemma_leading_entry_advances(body, cursor as int);
            }
            match read_leading_entry(self.body.as_slice(), cursor) {
                None => {
                    assert(references@ + seq![] =~= references@);
                    break;
                },
                Some((id, next)) => {
                    let ghost before = references@;
                    references.push(id);
                    assert(before + (seq![id] + leading_refs(body, next as int)) =~= references@ + leading_refs(
                        body,
                        next as int,
                    ));
                    cursor = next;
                },
            }
        }
        proof {
            if cursor >= body.len() {
                assert(references@ + seq![] =~= references@);
            }
        }
        references
    }

    /// The number of body bytes taken by the leading reference records; the
    /// first real object payload starts at this offset.
    pub fn leading_object_references_len(&self) -> (r: usize)
        ensures
            r == leading_len(self@.body, 0),
    {
        let mut cursor: usize = 0;
        let ghost body = self.body@;
        while cursor < self.body.len()
            invariant
                cursor <= body.len(),
                body == self.body@,
                leading_len(body, 0) == leading_len(body, cursor as int),
            decreases self.body.len() - cursor,
        {
            proof {
                lemma_leading_entry_advances(body, cursor as int);
            }
            match read_leading_entry(self.body.as_slice(), cursor) {
                None => return cursor,
                Some((_, next)) => {
                    cursor = next;
                },
            }
        }
        cursor
    }
}

// ───────────────────────────── printable runs ─────────────────────────────

/// A printable ASCII byte: a graphic character or a space.
pub open spec fn is_printable_ascii(b: u8) -> bool {
    0x20 <= b <= 0x7e
}

/// The maximal runs of printable bytes of `b` from `i` on, where `cur` is the
/// run in progress; only runs at least `min_len` long are kept.
pub open spec fn printable_runs(b: Seq<u8>, i: int, cur: Seq<u8>, min_len: nat) -> Seq<Seq<u8>>
    decreases b.len() - i,
{
    if i < 0 || i >= b.len() {
        if cur.len() >= min_len {
            seq![cur]
        } else {
            seq![]
        }
    } else if is_printable_ascii(b[i]) {
        printable_runs(b, i + 1, cur.push(b[i]), min_len)
    } else {
        let kept: Seq<Seq<u8>> = if cur.len() >= min_len {
            seq![cur]
        } else {
            seq![]
        };
        kept + printable_runs(b, i + 1, seq![], min_len)
    }
}

/// Bytes read as characters, one per byte (for ASCII, the text they spell).
pub open spec fn ascii_text(bytes: Seq<u8>) -> Seq<char> {
    bytes.map_values(|b: u8| b as char)
}

fn ascii_string(bytes: &[u8]) -> (s: String)
    ensures
        s@ == ascii_text(bytes@),
{
    let mut cs: Vec<char> = Vec::new();
    let mut i: usize = 0;
    while i < bytes.len()
        invariant
            i <= bytes@.len(),
            cs@ == ascii_text(bytes@.subrange(0, i as int)),
        decreases bytes.len() - i,
    {
        cs.push(bytes[i] as char);
        i = i + 1;
        assert(cs@ =~= ascii_text(bytes@.subrange(0, i as int)));
    }
    assert(bytes@.subrange(0, i as int) =~= bytes@);
    crate::text::string_from_chars(cs.as_slice())
}

impl IwaArchive {
    /// Extracts printable ASCII runs (graphic characters and spaces) from the
    /// raw body; only runs at least `min_len` bytes long are returned.
    pub fn ascii_strings(&self, min_len: usize) -> (r: Vec<String>)
        ensures
            r@.map_values(|s: String| s@) == printable_runs(self@.body, 0, seq![], min_len as nat).map_values(
                |run: Seq<u8>| ascii_text(run),
            ),
    {
        let ghost body = self.body@;
        let mut strings: Vec<String> = Vec::new();
        let mut current: Vec<u8> = Vec::new();
        let mut i: usize = 0;
        while i < self.body.len()
            invariant
                i <= body.len(),
                body == self.body@,
                printable_runs(body, 0, seq![], min_len as nat).map_values(|run: Seq<u8>| ascii_text(run))
                    == strings@.map_values(|s: String| s@) + printable_runs(body, i as int, current@, min_len as nat).map_values(
                    |run: Seq<u8>| ascii_text(run),
                ),
            decreases self.body.len() - i,
        {
            let byte = self.body[i];
            if 0x20 <= byte && byte <= 0x7e {
                current.push(byte);
            } else {
                let ghost before = strings@.map_values(|s: String| s@);
                let ghost run = current@;
                if current.len() >= min_len {
                    let s = ascii_string(current.as_slice());
                    strings.push(s);
                }
                proof {
                    let kept: Seq<Seq<u8>> = if run.len() >= min_len {
                        seq![run]
                    } else {
                        seq![]
                    };
                    let tail = printable_runs(body, i + 1, seq![], min_len as nat);
                    assert((kept + tail).map_values(|r: Seq<u8>| ascii_text(r)) =~= kept.map_values(
                        |r: Seq<u8>| ascii_text(r),
                    ) + tail.map_values(|r: Seq<u8>| ascii_text(r)));
                    assert(strings@.map_values(|s: String| s@) =~= before + kept.map_values(
                        |r: Seq<u8>| ascii_text(r),
                    ));
                }
                current = Vec::new();
            }
            i = i + 1;
        }
        let ghost before = strings@.map_values(|s: String| s@);
        let ghost run = current@;
        if current.len() >= min_len {
            let s = ascii_string(current.as_slice());
            strings.push(s);
        }
        proof {
            let kept: Seq<Seq<u8>> = if run.len() >= min_len {
                seq![run]
            } else {
                seq![]
            };
            assert(strings@.map_values(|s: String| s@) =~= before + kept.map_values(
                |r: Seq<u8>| ascii_text(r),
            ));
        }
        strings
    }
}

// ───────────────────────────── descriptor encoding ─────────────────────────────

/// A one-field list holding a varint field, or nothing.
pub open spec fn opt_varint_field(number: u32, v: Option<u64>) -> Seq<ProtoFieldView> {
    match v {
        Some(x) => seq![ProtoFieldView { number, value: ProtoValueView::Varint(x) }],
        None => seq![],
    }
}

/// A one-field list holding a length-delimited field, or nothing.
pub open spec fn opt_bytes_field(number: u32, v: Option<Seq<u8>>) -> Seq<ProtoFieldView> {
    match v {
        Some(b) => seq![ProtoFieldView { number, value: ProtoValueView::LengthDelimited(b) }],
        None => seq![],
    }
}

/// The fields written for an object reference: field 1 holds the id as the
/// bytes of one varint, fields 2 and 3 the kind and state hints.
pub open spec fn spec_reference_fields(r: IwaObjectReference) -> Seq<ProtoFieldView> {
    opt_bytes_field(
        1,
        match r.object_id {
            Some(id) => Some(spec_encode_varint(id)),
            None => None,
        },
    ) + opt_varint_field(2, r.kind_hint) + opt_varint_field(3, r.state_hint)
}

/// The field 4 written for each object reference, in order.
pub open spec fn reference_info_fields(rs: Seq<IwaObjectReference>) -> Seq<ProtoFieldView> {
    rs.map_values(
        |r: IwaObjectReference|
            ProtoFieldView {
                number: 4,
                value: ProtoValueView::LengthDelimited(spec_encode_fields(spec_reference_fields(r))),
            },
    )
}

/// The `MessageInfo` fields written for a descriptor.
pub open spec fn spec_info_fields(d: DescriptorView) -> Seq<ProtoFieldView> {
    opt_varint_field(1, d.kind_hint) + opt_bytes_field(2, d.message_version) + opt_varint_field(3, d.body_hint)
        + reference_info_fields(d.object_references)
}

/// The `ArchiveInfo` fields written for a descriptor: the root id, then the
/// `MessageInfo` as field 2 unless it would be empty.
pub open spec fn spec_descriptor_fields(d: DescriptorView) -> Seq<ProtoFieldView> {
    let info = spec_info_fields(d);
    opt_varint_field(1, d.root_object_id) + if info.len() > 0 {
        seq![ProtoFieldView { number: 2, value: ProtoValueView::LengthDelimited(spec_encode_fields(info)) }]
    } else {
        seq![]
    }
}

fn encode_varint_bytes(value: u64) -> (r: Vec<u8>)
    ensures
        r@ == spec_encode_varint(value),
{
    let mut out: Vec<u8> = Vec::new();
    push_varint(&mut out, value);
    assert(out@ =~= spec_encode_varint(value));
    out
}

fn push_field(fields: &mut Vec<ProtoField>, f: ProtoField)
    ensures
        final(fields)@.map_values(|x: ProtoField| x@) == old(fields)@.map_values(|x: ProtoField| x@).push(f@),
{
    fields.push(f);
    assert(fields@.map_values(|x: ProtoField| x@) =~= old(fields)@.map_values(|x: ProtoField| x@).push(f@));
}

impl IwaObjectReference {
    /// Encodes this reference as the message an `ArchiveInfo` carries.
    pub fn encode_message(&self) -> (r: Result<ProtoMessage, Error>)
        ensures
            r matches Ok(m) && m@ == spec_reference_fields(*self),
    {
        let mut fields: Vec<ProtoField> = Vec::new();
        if let Some(object_id) = self.object_id {
            push_field(&mut fields, ProtoField::bytes(1, encode_varint_bytes(object_id)));
        }
        let ghost a = fields@.map_values(|x: ProtoField| x@);
        if let Some(kind_hint) = self.kind_hint {
            push_field(&mut fields, ProtoField::varint(2, kind_hint));
        }
        let ghost b = fields@.map_values(|x: ProtoField| x@);
        if let Some(state_hint) = self.state_hint {
            push_field(&mut fields, ProtoField::varint(3, state_hint));
        }
        let m = ProtoMessage::new(fields);
        assert(m@ =~= spec_reference_fields(*self));
        Ok(m)
    }
}

impl IwaArchiveDescriptor {
    /// Encodes this descriptor as an `ArchiveInfo` message.
    pub fn encode_message(&self) -> (r: Result<ProtoMessage, Error>)
        ensures
            r matches Ok(m) && m@ == spec_descriptor_fields(self@),
    {
        let mut fields: Vec<ProtoField> = Vec::new();
        if let Some(root_object_id) = self.root_object_id {
            push_field(&mut fields, ProtoField::varint(1, root_object_id));
        }
        let mut info_fields: Vec<ProtoField> = Vec::new();
        if let Some(kind_hint) = self.kind_hint {
            push_field(&mut info_fields, ProtoField::varint(1, kind_hint));
        }
        if let Some(version) = &self.message_version {
            push_field(&mut info_fields, ProtoField::bytes(2, copy_bytes(version.as_slice())));
        }
        if let Some(body_hint) = self.body_hint {
            push_field(&mut info_fields, ProtoField::varint(3, body_hint));
        }
        let ghost head = info_fields@.map_values(|x: ProtoField| x@);
        assert(head =~= opt_varint_field(1, self@.kind_hint) + opt_bytes_field(2, self@.message_version)
            + opt_varint_field(3, self@.body_hint));
        let mut i: usize = 0;
        while i < self.object_references.len()
            invariant
                i <= self.object_references@.len(),
                info_fields@.map_values(|x: ProtoField| x@) == head + reference_info_fields(
                    self.object_references@.subrange(0, i as int),
                ),
            decreases self.object_references.len() - i,
        {
            let message = self.object_references[i].encode_message()?;
            let field = ProtoField::message(4, &message)?;
            push_field(&mut info_fields, field);
            i = i + 1;
            assert(reference_info_fields(self.object_references@.subrange(0, i as int)) =~= reference_info_fields(
                self.object_references@.subrange(0, i - 1),
            ).push(field@));
        }
        assert(self.object_references@.subrange(0, i as int) =~= self.object_references@);
        let ghost info = info_fields@.map_values(|x: ProtoField| x@);
        assert(info =~= spec_info_fields(self@));
        if info_fields.len() > 0 {
            let nested = ProtoMessage::new(info_fields);
            push_field(&mut fields, ProtoField::message(2, &nested)?);
        }
        let m = ProtoMessage::new(fields);
        assert(m@ =~= spec_descriptor_fields(self@));
        Ok(m)
    }
}


// ───────────────────────────── object payloads ─────────────────────────────

/// The fields of an object's payload, when it decodes as a message.
pub open spec fn payload_fields(o: ObjectView) -> Option<Seq<ProtoFieldView>> {
    match spec_decode_message(o.payload) {
        Ok(fs) => Some(fs),
        Err(_) => None,
    }
}

/// The fields of the message nested in field `n` of `fs`.
pub open spec fn nested_fields(fs: Seq<ProtoFieldView>, n: u32) -> Option<Seq<ProtoFieldView>> {
    match bytes_value(first_field(fs, n)) {
        Some(b) => match spec_decode_message(b) {
            Ok(m) => Some(m),
            Err(_) => None,
        },
        None => None,
    }
}

/// Decodes an object's payload as a message.
pub fn decode_payload(o: &IwaObject) -> (r: Option<ProtoMessage>)
    ensures
        match payload_fields(o@) {
            Some(fs) => r matches Some(m) && m@ == fs,
            None => r is None,
        },
{
    match ProtoMessage::decode(o.payload.as_slice()) {
        Ok(m) => Some(m),
        Err(_) => None,
    }
}

/// The bytes of field `n` of a message.
pub fn field_bytes(m: &ProtoMessage, n: u32) -> (r: Option<Vec<u8>>)
    ensures
        match bytes_value(first_field(m@, n)) {
            Some(b) => r matches Some(v) && v@ == b,
            None => r is None,
        },
{
    match m.field(n) {
        Some(f) => match f.value.as_bytes() {
            Some(b) => Some(copy_bytes(b)),
            None => None,
        },
        None => None,
    }
}

/// The varint of field `n` of a message.
pub fn field_varint(m: &ProtoMessage, n: u32) -> (r: Option<u64>)
    ensures
        r == varint_value(first_field(m@, n)),
{
    match m.field(n) {
        Some(f) => f.value.as_varint(),
        None => None,
    }
}

/// The message nested in field `n` of a message.
pub fn nested_message_of(m: &ProtoMessage, n: u32) -> (r: Option<ProtoMessage>)
    ensures
        match nested_fields(m@, n) {
            Some(fs) => r matches Some(x) && x@ == fs,
            None => r is None,
        },
{
    match field_bytes(m, n) {
        Some(b) => match ProtoMessage::decode(b.as_slice()) {
            Ok(x) => Some(x),
            Err(_) => None,
        },
        None => None,
    }
}

} // verus!
