//! Decoding what the archive encoder writes: descriptors, one-object
//! archives and archives written one after the other.
use crate::error::Error;
use crate::encode::{archive_version, header_bytes, header_descriptor, single_object_archive};
use crate::iwa::{
    archive_stream, first_message_len, frames_seq, info_length, lemma_archive_roundtrip, lemma_archive_stream_fits,
    lemma_archive_then_streams, spec_encode_archive, streams_seq,
    lemma_concatenated_archives, message_infos, opt_bytes_field, opt_varint_field, reference_info_fields,
    spec_decode_archive, spec_descriptor, spec_descriptor_fields, spec_info_fields, spec_object_id_hint,
    spec_object_records, spec_objects, spec_reference, spec_reference_fields, spec_references, total_message_len,
    DescriptorView, IwaObjectReference, ObjectView,
};
use crate::protobuf::{
    encodable_field, first_field, lemma_encode_varint_len, lemma_message_roundtrip, lemma_varint_roundtrip,
    nested_message, spec_decode_message, spec_encode_field, spec_encode_fields, spec_encode_varint, value_size,
    varint_value, bytes_value, ProtoFieldView, ProtoValueView,
};
use vstd::prelude::*;

verus! {

/// A length-delimited value is no longer than the encoding of its list.
proof fn lemma_value_within(fs: Seq<ProtoFieldView>, i: int)
    requires
        0 <= i < fs.len(),
    ensures
        value_size(fs[i].value) <= spec_encode_fields(fs).len(),
    decreases fs.len(),
{
    if i == 0 {
        let f = fs[0];
        if let ProtoValueView::LengthDelimited(b) = f.value {
            assert(spec_encode_field(f).len() >= b.len());
        }
    } else {
        lemma_value_within(fs.drop_first(), i - 1);
    }
}

/// Fields numbered other than `n` in front do not change the first field `n`.
proof fn lemma_first_field_skip(a: Seq<ProtoFieldView>, b: Seq<ProtoFieldView>, n: u32)
    requires
        forall|i: int| 0 <= i < a.len() ==> #[trigger] a[i].number != n,
    ensures
        first_field(a + b, n) == first_field(b, n),
    decreases a.len(),
{
    if a.len() > 0 {
        assert((a + b).drop_first() =~= a.drop_first() + b);
        assert(a[0].number != n);
        lemma_first_field_skip(a.drop_first(), b, n);
    } else {
        assert(a + b =~= b);
    }
}

/// No field numbered `n`: no first field `n`.
proof fn lemma_first_field_absent(a: Seq<ProtoFieldView>, n: u32)
    requires
        forall|i: int| 0 <= i < a.len() ==> #[trigger] a[i].number != n,
    ensures
        first_field(a, n) is None,
{
    lemma_first_field_skip(a, seq![], n);
    assert(a + seq![] =~= a);
}

/// Fields other than object references in front do not change the references.
proof fn lemma_references_skip(a: Seq<ProtoFieldView>, b: Seq<ProtoFieldView>)
    requires
        forall|i: int| 0 <= i < a.len() ==> #[trigger] a[i].number != 4,
    ensures
        spec_references(a + b) == spec_references(b),
    decreases a.len(),
{
    if a.len() > 0 {
        assert((a + b).drop_first() =~= a.drop_first() + b);
        assert(a[0].number != 4);
        lemma_references_skip(a.drop_first(), b);
    } else {
        assert(a + b =~= b);
    }
}

/// The fields written for a reference decode as that reference.
proof fn lemma_reference_reads(r: IwaObjectReference)
    ensures
        spec_reference(spec_reference_fields(r)) == Ok::<IwaObjectReference, Error>(r),
{
    let a = opt_bytes_field(
        1,
        match r.object_id {
            Some(id) => Some(spec_encode_varint(id)),
            None => None,
        },
    );
    let b = opt_varint_field(2, r.kind_hint);
    let c = opt_varint_field(3, r.state_hint);
    let fs = spec_reference_fields(r);
    assert(fs == a + b + c);
    if let Some(id) = r.object_id {
        let v = spec_encode_varint(id);
        lemma_encode_varint_len(id);
        assert(v.subrange(0, v.len() as int) =~= v);
        lemma_varint_roundtrip(v, 0, id);
        assert(spec_object_id_hint(ProtoValueView::LengthDelimited(v)) == Ok::<Option<u64>, Error>(Some(id)));
        assert(first_field(fs, 1) == Some(fs[0]));
    } else {
        lemma_first_field_skip(a, b + c, 1);
        assert(a + (b + c) =~= fs);
        lemma_first_field_skip(b, c, 1);
        lemma_first_field_absent(c, 1);
    }
    lemma_first_field_skip(a, b + c, 2);
    assert(a + (b + c) =~= fs);
    lemma_first_field_skip(a, b + c, 3);
    lemma_first_field_skip(b, c, 3);
    if r.kind_hint is None {
        assert(b + c =~= c);
        lemma_first_field_absent(c, 2);
    }
}

/// The reference fields of a list of references read back as that list,
/// when their encodings fit in memory.
proof fn lemma_references_read(rs: Seq<IwaObjectReference>, limit: nat)
    requires
        spec_encode_fields(reference_info_fields(rs)).len() <= limit,
        limit <= usize::MAX,
    ensures
        spec_references(reference_info_fields(rs)) == Ok::<Seq<IwaObjectReference>, Error>(rs),
    decreases rs.len(),
{
    let fs = reference_info_fields(rs);
    if rs.len() > 0 {
        let tail = rs.drop_first();
        assert(fs.drop_first() =~= reference_info_fields(tail));
        let inner = spec_reference_fields(rs[0]);
        assert(fs[0] == ProtoFieldView { number: 4, value: ProtoValueView::LengthDelimited(spec_encode_fields(inner)) });
        lemma_value_within(fs, 0);
        assert(spec_encode_fields(fs) == spec_encode_field(fs[0]) + spec_encode_fields(fs.drop_first()));
        assert(spec_encode_fields(reference_info_fields(tail)).len() <= limit);
        assert forall|i: int| 0 <= i < inner.len() implies encodable_field(#[trigger] inner[i]) by {
            assert(inner[i].number <= 3);
        }
        lemma_message_roundtrip(inner);
        assert(nested_message(fs[0].value) == Some(inner));
        lemma_reference_reads(rs[0]);
        lemma_references_read(tail, limit);
        assert(spec_references(fs.drop_first()) == Ok::<Seq<IwaObjectReference>, Error>(tail));
        assert(fs[0].number == 4);
        assert(spec_reference(inner) == Ok::<IwaObjectReference, Error>(rs[0]));
        assert(spec_references(fs) == Ok::<Seq<IwaObjectReference>, Error>(seq![rs[0]] + tail));
        assert(seq![rs[0]] + tail =~= rs);
    } else {
        assert(fs =~= Seq::<ProtoFieldView>::empty());
        assert(rs =~= Seq::<IwaObjectReference>::empty());
    }
}

/// The hint fields of a written `MessageInfo` read back as the hints.
proof fn lemma_info_hints(d: DescriptorView)
    ensures
        varint_value(first_field(spec_info_fields(d), 1)) == d.kind_hint,
        bytes_value(first_field(spec_info_fields(d), 2)) == d.message_version,
        varint_value(first_field(spec_info_fields(d), 3)) == d.body_hint,
{
    let k = opt_varint_field(1, d.kind_hint);
    let v = opt_bytes_field(2, d.message_version);
    let h = opt_varint_field(3, d.body_hint);
    let refs = reference_info_fields(d.object_references);
    let info = spec_info_fields(d);
    assert(info == k + v + h + refs);
    assert(forall|i: int| 0 <= i < refs.len() ==> (#[trigger] refs[i]).number == 4);
    assert(k + (v + h + refs) =~= info);
    assert(v + (h + refs) =~= v + h + refs);
    lemma_first_field_skip(k, v + h + refs, 2);
    lemma_first_field_skip(k, v + h + refs, 3);
    lemma_first_field_skip(v, h + refs, 3);
    lemma_first_field_absent(refs, 1);
    lemma_first_field_absent(refs, 2);
    lemma_first_field_absent(refs, 3);
    if d.kind_hint is None {
        lemma_first_field_skip(v, h + refs, 1);
        lemma_first_field_skip(h, refs, 1);
    }
    if d.message_version is None {
        lemma_first_field_skip(h, refs, 2);
    }
}

/// The references of a written `MessageInfo` read back as the references.
proof fn lemma_info_references(d: DescriptorView, limit: nat)
    requires
        spec_encode_fields(spec_info_fields(d)).len() <= limit,
        limit <= usize::MAX,
    ensures
        spec_references(spec_info_fields(d)) == Ok::<Seq<IwaObjectReference>, Error>(d.object_references),
{
    let k = opt_varint_field(1, d.kind_hint);
    let v = opt_bytes_field(2, d.message_version);
    let h = opt_varint_field(3, d.body_hint);
    let refs = reference_info_fields(d.object_references);
    let info = spec_info_fields(d);
    let front = k + v + h;
    assert(info =~= front + refs);
    lemma_references_skip(front, refs);
    lemma_encode_fields_split(front, refs);
    lemma_references_read(d.object_references, limit);
}

/// Law: decoding the `ArchiveInfo` written for a descriptor gives back that
/// descriptor, whenever the encoding fits in memory.
pub proof fn lemma_descriptor_roundtrip(d: DescriptorView)
    requires
        spec_encode_fields(spec_descriptor_fields(d)).len() <= usize::MAX,
    ensures
        spec_decode_message(spec_encode_fields(spec_descriptor_fields(d))) matches Ok(fs) && spec_descriptor(fs)
            == Ok::<DescriptorView, Error>(d),
{
    let fs = spec_descriptor_fields(d);
    let info = spec_info_fields(d);
    let root = opt_varint_field(1, d.root_object_id);
    let tail = if info.len() > 0 {
        seq![ProtoFieldView { number: 2, value: ProtoValueView::LengthDelimited(spec_encode_fields(info)) }]
    } else {
        seq![]
    };
    assert(fs == root + tail);
    assert forall|i: int| 0 <= i < fs.len() implies encodable_field(#[trigger] fs[i]) by {
        assert(fs[i].number <= 2);
    }
    lemma_message_roundtrip(fs);
    if d.root_object_id is None {
        assert(fs =~= tail);
        lemma_first_field_absent(tail, 1);
    }
    lemma_first_field_skip(root, tail, 2);
    if info.len() > 0 {
        let enc = spec_encode_fields(info);
        lemma_value_within(fs, fs.len() - 1);
        assert(fs[fs.len() - 1] == tail[0]);
        assert forall|i: int| 0 <= i < info.len() implies encodable_field(#[trigger] info[i]) by {
            let refs = reference_info_fields(d.object_references);
            let front = opt_varint_field(1, d.kind_hint) + opt_bytes_field(2, d.message_version) + opt_varint_field(
                3,
                d.body_hint,
            );
            assert(info == front + refs);
            if i >= front.len() {
                assert(info[i] == refs[i - front.len()]);
            }
        }
        lemma_message_roundtrip(info);
        assert(first_field(tail, 2) == Some(tail[0]));
        assert(nested_message(tail[0].value) == Some(info));
        lemma_info_hints(d);
        lemma_info_references(d, enc.len());
    } else {
        assert(fs =~= root);
        lemma_first_field_absent(root, 2);
        let refs = reference_info_fields(d.object_references);
        assert(info == opt_varint_field(1, d.kind_hint) + opt_bytes_field(2, d.message_version) + opt_varint_field(
            3,
            d.body_hint,
        ) + refs);
        assert(refs.len() == d.object_references.len());
        assert(d.object_references =~= Seq::<IwaObjectReference>::empty());
    }
}

/// The encoding of `a + b` is the encoding of `a` followed by that of `b`.
proof fn lemma_encode_fields_split(a: Seq<ProtoFieldView>, b: Seq<ProtoFieldView>)
    ensures
        spec_encode_fields(a + b) == spec_encode_fields(a) + spec_encode_fields(b),
    decreases a.len(),
{
    if a.len() > 0 {
        assert((a + b).drop_first() =~= a.drop_first() + b);
        lemma_encode_fields_split(a.drop_first(), b);
        assert(spec_encode_fields(a + b) =~= spec_encode_fields(a) + spec_encode_fields(b));
    } else {
        assert(a + b =~= b);
        assert(spec_encode_fields(a) + spec_encode_fields(b) =~= spec_encode_fields(b));
    }
}

/// The fields of a written `ArchiveInfo` decode back to themselves.
proof fn lemma_descriptor_fields_read(d: DescriptorView)
    requires
        spec_encode_fields(spec_descriptor_fields(d)).len() <= usize::MAX,
    ensures
        spec_decode_message(spec_encode_fields(spec_descriptor_fields(d))) == Ok::<Seq<ProtoFieldView>, Error>(
            spec_descriptor_fields(d),
        ),
{
    let fs = spec_descriptor_fields(d);
    assert forall|i: int| 0 <= i < fs.len() implies encodable_field(#[trigger] fs[i]) by {
        assert(fs[i].number == 1 || fs[i].number == 2);
    }
    lemma_message_roundtrip(fs);
}

/// A written header declares one message whose length is the body length.
proof fn lemma_header_lengths(root: u64, kind: u64, body_len: usize, refs: Seq<IwaObjectReference>)
    requires
        header_bytes(root, kind, body_len, refs).len() <= usize::MAX,
    ensures
        first_message_len(spec_descriptor_fields(header_descriptor(root, kind, body_len, refs))) == body_len,
        total_message_len(spec_descriptor_fields(header_descriptor(root, kind, body_len, refs))) == body_len,
{
    reveal(header_bytes);
    let d = header_descriptor(root, kind, body_len, refs);
    let fs = spec_descriptor_fields(d);
    let info = spec_info_fields(d);
    let enc = spec_encode_fields(info);
    let f2 = ProtoFieldView { number: 2, value: ProtoValueView::LengthDelimited(enc) };
    assert(info.len() > 0);
    assert(fs =~= seq![ProtoFieldView { number: 1, value: ProtoValueView::Varint(root) }, f2]);
    reveal_with_fuel(Seq::<_>::filter, 3);
    assert(message_infos(fs) =~= seq![f2]);
    lemma_value_within(fs, 1);
    assert forall|i: int| 0 <= i < info.len() implies encodable_field(#[trigger] info[i]) by {
        let refs_f = reference_info_fields(d.object_references);
        let front = opt_varint_field(1, d.kind_hint) + opt_bytes_field(2, d.message_version) + opt_varint_field(
            3,
            d.body_hint,
        );
        assert(info == front + refs_f);
        if i >= front.len() {
            assert(info[i] == refs_f[i - front.len()]);
        }
    }
    lemma_message_roundtrip(info);
    lemma_info_hints(d);
    assert(nested_message(f2.value) == Some(info));
    assert(info_length(f2) == Some(body_len as nat));
    assert(seq![f2].drop_first() =~= Seq::<ProtoFieldView>::empty());
    assert(crate::iwa::lengths_sum(Seq::<ProtoFieldView>::empty(), body_len as nat) == body_len);
    assert(crate::iwa::lengths_sum(seq![f2], 0) == body_len);
}

/// The object a one-object archive written with these parts holds.
pub open spec fn written_object(root: u64, kind: u64, body: Seq<u8>, refs: Seq<IwaObjectReference>) -> ObjectView {
    ObjectView {
        identifier: Some(root),
        message_type: Some(kind),
        version: Some(archive_version()),
        references: refs,
        payload: body,
    }
}

/// A written header decodes to the descriptor it was written for, and
/// declares one message as long as the body.
pub(crate) proof fn lemma_written_header(root: u64, kind: u64, body: Seq<u8>, refs: Seq<IwaObjectReference>)
    requires
        single_object_archive(root, kind, body, refs).len() <= usize::MAX,
    ensures
        header_bytes(root, kind, body.len() as usize, refs).len() <= usize::MAX,
        body.len() <= usize::MAX,
        spec_decode_message(header_bytes(root, kind, body.len() as usize, refs)) == Ok::<Seq<ProtoFieldView>, Error>(
            spec_descriptor_fields(header_descriptor(root, kind, body.len() as usize, refs)),
        ),
        spec_descriptor(spec_descriptor_fields(header_descriptor(root, kind, body.len() as usize, refs))) == Ok::<
            DescriptorView,
            Error,
        >(header_descriptor(root, kind, body.len() as usize, refs)),
        first_message_len(spec_descriptor_fields(header_descriptor(root, kind, body.len() as usize, refs)))
            == body.len(),
        total_message_len(spec_descriptor_fields(header_descriptor(root, kind, body.len() as usize, refs)))
            == body.len(),
{
    reveal(header_bytes);
    let h = header_bytes(root, kind, body.len() as usize, refs);
    lemma_archive_stream_fits(h, body);
    let d = header_descriptor(root, kind, body.len() as usize, refs);
    lemma_descriptor_fields_read(d);
    lemma_descriptor_roundtrip(d);
    lemma_header_lengths(root, kind, body.len() as usize, refs);
}

/// A written one-object archive decodes, and its body is the written body.
pub proof fn lemma_single_object_body(root: u64, kind: u64, body: Seq<u8>, refs: Seq<IwaObjectReference>)
    requires
        single_object_archive(root, kind, body, refs).len() <= usize::MAX,
    ensures
        spec_decode_archive(single_object_archive(root, kind, body, refs)) matches Ok(a) && a.body == body,
        body.len() <= single_object_archive(root, kind, body, refs).len(),
{
    crate::iwa::lemma_archive_stream_fits(header_bytes(root, kind, body.len() as usize, refs), body);
    lemma_written_header(root, kind, body, refs);
    lemma_archive_roundtrip(header_bytes(root, kind, body.len() as usize, refs), body);
}

/// Law: reading a written one-object archive gives back exactly the written
/// object: its id, message type, version, references and payload.
pub proof fn lemma_single_object_read(root: u64, kind: u64, body: Seq<u8>, refs: Seq<IwaObjectReference>)
    requires
        single_object_archive(root, kind, body, refs).len() <= usize::MAX,
    ensures
        spec_decode_archive(single_object_archive(root, kind, body, refs)) matches Ok(a) && spec_objects(a) == seq![
            written_object(root, kind, body, refs),
        ],
{
    let h = header_bytes(root, kind, body.len() as usize, refs);
    lemma_written_header(root, kind, body, refs);
    lemma_archive_roundtrip(h, body);
    let a = spec_decode_archive(single_object_archive(root, kind, body, refs))->Ok_0;
    assert(body.subrange(0, body.len() as int) =~= body);
    assert(spec_object_records(a.body, a.body.len() as int, seq![written_object(root, kind, body, refs)]) == seq![
        written_object(root, kind, body, refs),
    ]);
}

/// A record `varint(|h|) h b` at `c` that ends the body, where `h` is a
/// written header for `b`, adds its object and ends the walk.
#[verifier::spinoff_prover]
proof fn lemma_last_record(
    body: Seq<u8>,
    c: int,
    objs: Seq<ObjectView>,
    root: u64,
    kind: u64,
    b: Seq<u8>,
    refs: Seq<IwaObjectReference>,
)
    requires
        0 <= c <= body.len(),
        body.len() <= usize::MAX,
        single_object_archive(root, kind, b, refs).len() <= usize::MAX,
        body.subrange(c, body.len() as int) == archive_stream(header_bytes(root, kind, b.len() as usize, refs), b),
    ensures
        spec_object_records(body, c, objs) == objs.push(written_object(root, kind, b, refs)),
{
    let h = header_bytes(root, kind, b.len() as usize, refs);
    lemma_written_header(root, kind, b, refs);
    let v = spec_encode_varint(h.len() as u64);
    lemma_encode_varint_len(h.len() as u64);
    let stream = archive_stream(h, b);
    assert(body.subrange(c, c + v.len()) =~= stream.subrange(0, v.len() as int));
    assert(stream.subrange(0, v.len() as int) =~= v);
    lemma_varint_roundtrip(body, c, h.len() as u64);
    let c1 = c + v.len();
    let c2 = c1 + h.len();
    assert(body.subrange(c1, c2) =~= stream.subrange(v.len() as int, (v.len() + h.len()) as int));
    assert(stream.subrange(v.len() as int, (v.len() + h.len()) as int) =~= h);
    assert(body.subrange(c2, c2 + b.len()) =~= stream.subrange((v.len() + h.len()) as int, stream.len() as int));
    assert(stream.subrange((v.len() + h.len()) as int, stream.len() as int) =~= b);
    assert(c2 + b.len() == body.len());
    let o = written_object(root, kind, b, refs);
    assert(spec_object_records(body, body.len() as int, objs.push(o)) == objs.push(o));
}

/// A written record `varint(|h|) h b` at `c`, where `h` is a written header
/// for `b`, adds its object, and the walk goes on after it.
#[verifier::spinoff_prover]
pub(crate) proof fn lemma_record_at(
    body: Seq<u8>,
    c: int,
    objs: Seq<ObjectView>,
    root: u64,
    kind: u64,
    b: Seq<u8>,
    refs: Seq<IwaObjectReference>,
)
    requires
        0 <= c,
        c + archive_stream(header_bytes(root, kind, b.len() as usize, refs), b).len() <= body.len(),
        body.len() <= usize::MAX,
        single_object_archive(root, kind, b, refs).len() <= usize::MAX,
        body.subrange(c, c + archive_stream(header_bytes(root, kind, b.len() as usize, refs), b).len())
            == archive_stream(header_bytes(root, kind, b.len() as usize, refs), b),
    ensures
        spec_object_records(body, c, objs) == spec_object_records(
            body,
            c + archive_stream(header_bytes(root, kind, b.len() as usize, refs), b).len(),
            objs.push(written_object(root, kind, b, refs)),
        ),
{
    let h = header_bytes(root, kind, b.len() as usize, refs);
    lemma_written_header(root, kind, b, refs);
    let v = spec_encode_varint(h.len() as u64);
    lemma_encode_varint_len(h.len() as u64);
    let stream = archive_stream(h, b);
    let end = c + stream.len();
    assert(body.subrange(c, c + v.len()) =~= stream.subrange(0, v.len() as int));
    assert(stream.subrange(0, v.len() as int) =~= v);
    lemma_varint_roundtrip(body, c, h.len() as u64);
    let c1 = c + v.len();
    let c2 = c1 + h.len();
    assert(body.subrange(c1, c2) =~= stream.subrange(v.len() as int, (v.len() + h.len()) as int));
    assert(stream.subrange(v.len() as int, (v.len() + h.len()) as int) =~= h);
    assert(body.subrange(c2, c2 + b.len()) =~= stream.subrange((v.len() + h.len()) as int, stream.len() as int));
    assert(stream.subrange((v.len() + h.len()) as int, stream.len() as int) =~= b);
    assert(c2 + b.len() == end);
}

/// The objects of an archive whose header is written for `b1` and whose
/// body is `b1` followed by written records for `b2`, `b3` and `b4`.
#[verifier::spinoff_prover]
#[verifier::rlimit(80)]
pub(crate) proof fn lemma_four_objects_of(
    a: crate::iwa::ArchiveView,
    r1: u64,
    k1: u64,
    b1: Seq<u8>,
    r2: u64,
    k2: u64,
    b2: Seq<u8>,
    r3: u64,
    k3: u64,
    b3: Seq<u8>,
    r4: u64,
    k4: u64,
    b4: Seq<u8>,
)
    requires
        single_object_archive(r1, k1, b1, seq![]).len() <= usize::MAX,
        single_object_archive(r2, k2, b2, seq![]).len() <= usize::MAX,
        single_object_archive(r3, k3, b3, seq![]).len() <= usize::MAX,
        single_object_archive(r4, k4, b4, seq![]).len() <= usize::MAX,
        a.body.len() <= usize::MAX,
        a.header == header_bytes(r1, k1, b1.len() as usize, seq![]),
        a.descriptor == header_descriptor(r1, k1, b1.len() as usize, seq![]),
        a.body == b1 + archive_stream(header_bytes(r2, k2, b2.len() as usize, seq![]), b2) + archive_stream(
            header_bytes(r3, k3, b3.len() as usize, seq![]),
            b3,
        ) + archive_stream(header_bytes(r4, k4, b4.len() as usize, seq![]), b4),
    ensures
        spec_objects(a) == seq![
            written_object(r1, k1, b1, seq![]),
            written_object(r2, k2, b2, seq![]),
            written_object(r3, k3, b3, seq![]),
            written_object(r4, k4, b4, seq![]),
        ],
{
    let none: Seq<IwaObjectReference> = seq![];
    lemma_written_header(r1, k1, b1, none);
    let s2 = archive_stream(header_bytes(r2, k2, b2.len() as usize, none), b2);
    let s3 = archive_stream(header_bytes(r3, k3, b3.len() as usize, none), b3);
    let s4 = archive_stream(header_bytes(r4, k4, b4.len() as usize, none), b4);
    let o1 = written_object(r1, k1, b1, none);
    let o2 = written_object(r2, k2, b2, none);
    let o3 = written_object(r3, k3, b3, none);
    let o4 = written_object(r4, k4, b4, none);
    let c2 = b1.len() as int;
    let c3 = c2 + s2.len();
    let c4 = c3 + s3.len();
    assert(a.body.subrange(0, b1.len() as int) =~= b1);
    assert(a.body.subrange(c2, c3) =~= s2);
    assert(a.body.subrange(c3, c4) =~= s3);
    assert(a.body.subrange(c4, a.body.len() as int) =~= s4);
    lemma_record_at(a.body, c2, seq![o1], r2, k2, b2, none);
    lemma_record_at(a.body, c3, seq![o1, o2], r3, k3, b3, none);
    assert(seq![o1].push(o2) =~= seq![o1, o2]);
    assert(seq![o1, o2].push(o3) =~= seq![o1, o2, o3]);
    lemma_last_record(a.body, c4, seq![o1, o2, o3], r4, k4, b4, none);
    assert(seq![o1, o2, o3].push(o4) =~= seq![o1, o2, o3, o4]);
}

/// The objects of an archive whose header is written for `b1` and whose
/// body is `b1` followed by a written record for `b2`.
#[verifier::spinoff_prover]
proof fn lemma_two_objects_of(
    a: crate::iwa::ArchiveView,
    r1: u64,
    k1: u64,
    b1: Seq<u8>,
    refs1: Seq<IwaObjectReference>,
    r2: u64,
    k2: u64,
    b2: Seq<u8>,
    refs2: Seq<IwaObjectReference>,
)
    requires
        single_object_archive(r1, k1, b1, refs1).len() <= usize::MAX,
        single_object_archive(r2, k2, b2, refs2).len() <= usize::MAX,
        a.body.len() <= usize::MAX,
        a.header == header_bytes(r1, k1, b1.len() as usize, refs1),
        a.descriptor == header_descriptor(r1, k1, b1.len() as usize, refs1),
        a.body == b1 + archive_stream(header_bytes(r2, k2, b2.len() as usize, refs2), b2),
    ensures
        spec_objects(a) == seq![written_object(r1, k1, b1, refs1), written_object(r2, k2, b2, refs2)],
{
    lemma_written_header(r1, k1, b1, refs1);
    let s2 = archive_stream(header_bytes(r2, k2, b2.len() as usize, refs2), b2);
    let o1 = written_object(r1, k1, b1, refs1);
    assert(a.body.subrange(0, b1.len() as int) =~= b1);
    assert(a.body.subrange(b1.len() as int, a.body.len() as int) =~= s2);
    lemma_last_record(a.body, b1.len() as int, seq![o1], r2, k2, b2, refs2);
    assert(seq![o1].push(written_object(r2, k2, b2, refs2)) =~= seq![o1, written_object(r2, k2, b2, refs2)]);
}

/// Law: two one-object archives written one after the other read as one
/// archive holding both objects, in order.
pub proof fn lemma_two_objects_read(
    r1: u64,
    k1: u64,
    b1: Seq<u8>,
    refs1: Seq<IwaObjectReference>,
    r2: u64,
    k2: u64,
    b2: Seq<u8>,
    refs2: Seq<IwaObjectReference>,
)
    requires
        (single_object_archive(r1, k1, b1, refs1) + single_object_archive(r2, k2, b2, refs2)).len() <= usize::MAX,
    ensures
        spec_decode_archive(single_object_archive(r1, k1, b1, refs1) + single_object_archive(r2, k2, b2, refs2)) matches Ok(
            a,
        ) && spec_objects(a) == seq![written_object(r1, k1, b1, refs1), written_object(r2, k2, b2, refs2)],
{
    let h1 = header_bytes(r1, k1, b1.len() as usize, refs1);
    let h2 = header_bytes(r2, k2, b2.len() as usize, refs2);
    lemma_written_header(r1, k1, b1, refs1);
    lemma_written_header(r2, k2, b2, refs2);
    lemma_concatenated_archives(h1, b1, h2, b2);
    lemma_archive_stream_fits(h1, b1);
    lemma_archive_stream_fits(h2, b2);
    let a = spec_decode_archive(single_object_archive(r1, k1, b1, refs1) + single_object_archive(r2, k2, b2, refs2))->Ok_0;
    assert(a.body.len() <= usize::MAX);
    lemma_two_objects_of(a, r1, k1, b1, refs1, r2, k2, b2, refs2);
}

pub(crate) proof fn lemma_frames_one(a: Seq<u8>)
    ensures
        frames_seq(seq![a]) == crate::iwa::spec_frame_windows(a),
{
    assert(seq![a].drop_first() =~= Seq::<Seq<u8>>::empty());
    assert(seq![a][0] == a);
    assert(frames_seq(Seq::<Seq<u8>>::empty()) =~= Seq::<u8>::empty());
    assert(crate::iwa::spec_frame_windows(a) + Seq::<u8>::empty() =~= crate::iwa::spec_frame_windows(a));
}

pub(crate) proof fn lemma_frames_three(a: Seq<u8>, b: Seq<u8>, c: Seq<u8>)
    ensures
        frames_seq(seq![a, b, c]) == crate::iwa::spec_frame_windows(a) + crate::iwa::spec_frame_windows(b)
            + crate::iwa::spec_frame_windows(c),
{
    assert(seq![a, b, c].drop_first() =~= seq![b, c]);
    assert(seq![b, c].drop_first() =~= seq![c]);
    assert(seq![a, b, c][0] == a);
    assert(seq![b, c][0] == b);
    lemma_frames_one(c);
    let (fa, fb, fc) = (
        crate::iwa::spec_frame_windows(a),
        crate::iwa::spec_frame_windows(b),
        crate::iwa::spec_frame_windows(c),
    );
    assert(frames_seq(seq![b, c]) == fb + frames_seq(seq![c]));
    assert(frames_seq(seq![a, b, c]) == fa + frames_seq(seq![b, c]));
    assert(fa + (fb + fc) =~= fa + fb + fc);
}

/// Law: four one-object archives written one after the other read as one
/// archive holding the four objects, in order.
#[verifier::spinoff_prover]
#[verifier::rlimit(100)]
pub proof fn lemma_four_objects_read(
    r1: u64,
    k1: u64,
    b1: Seq<u8>,
    r2: u64,
    k2: u64,
    b2: Seq<u8>,
    r3: u64,
    k3: u64,
    b3: Seq<u8>,
    r4: u64,
    k4: u64,
    b4: Seq<u8>,
)
    requires
        (single_object_archive(r1, k1, b1, seq![]) + single_object_archive(r2, k2, b2, seq![]) + single_object_archive(
            r3,
            k3,
            b3,
            seq![],
        ) + single_object_archive(r4, k4, b4, seq![])).len() <= usize::MAX,
    ensures
        spec_decode_archive(
            single_object_archive(r1, k1, b1, seq![]) + single_object_archive(r2, k2, b2, seq![])
                + single_object_archive(r3, k3, b3, seq![]) + single_object_archive(r4, k4, b4, seq![]),
        ) matches Ok(a) && spec_objects(a) == seq![
            written_object(r1, k1, b1, seq![]),
            written_object(r2, k2, b2, seq![]),
            written_object(r3, k3, b3, seq![]),
            written_object(r4, k4, b4, seq![]),
        ],
{
    let none: Seq<IwaObjectReference> = seq![];
    let h1 = header_bytes(r1, k1, b1.len() as usize, none);
    let s2 = archive_stream(header_bytes(r2, k2, b2.len() as usize, none), b2);
    let s3 = archive_stream(header_bytes(r3, k3, b3.len() as usize, none), b3);
    let s4 = archive_stream(header_bytes(r4, k4, b4.len() as usize, none), b4);
    let ss = seq![s2, s3, s4];
    let e1 = single_object_archive(r1, k1, b1, none);
    let e2 = single_object_archive(r2, k2, b2, none);
    let e3 = single_object_archive(r3, k3, b3, none);
    let e4 = single_object_archive(r4, k4, b4, none);
    lemma_written_header(r1, k1, b1, none);
    assert(e1 + e2 + e3 + e4 == spec_encode_archive(h1, b1) + frames_seq(ss)) by {
        lemma_frames_three(s2, s3, s4);
        assert(e1 + e2 + e3 + e4 =~= e1 + (e2 + e3 + e4));
    }
    lemma_archive_then_streams(h1, b1, ss);
    assert(streams_seq(ss) == s2 + s3 + s4) by {
        assert(ss.drop_first() =~= seq![s3, s4]);
        assert(seq![s3, s4].drop_first() =~= seq![s4]);
        assert(seq![s4].drop_first() =~= Seq::<Seq<u8>>::empty());
        assert(seq![s4][0] == s4);
        assert(seq![s3, s4][0] == s3);
        assert(ss[0] == s2);
        assert(streams_seq(Seq::<Seq<u8>>::empty()) =~= Seq::<u8>::empty());
        assert(streams_seq(seq![s4]) == s4 + Seq::<u8>::empty());
        assert(s4 + Seq::<u8>::empty() =~= s4);
        assert(streams_seq(seq![s3, s4]) == s3 + s4);
        assert(s2 + (s3 + s4) =~= s2 + s3 + s4);
    }
    assert(b1 + (s2 + s3 + s4) =~= b1 + s2 + s3 + s4);
    lemma_archive_stream_fits(h1, b1);
    lemma_archive_stream_fits(header_bytes(r2, k2, b2.len() as usize, none), b2);
    lemma_archive_stream_fits(header_bytes(r3, k3, b3.len() as usize, none), b3);
    lemma_archive_stream_fits(header_bytes(r4, k4, b4.len() as usize, none), b4);
    let a = spec_decode_archive(e1 + e2 + e3 + e4)->Ok_0;
    lemma_four_objects_of(a, r1, k1, b1, r2, k2, b2, r3, k3, b3, r4, k4, b4);
}

} // verus!
