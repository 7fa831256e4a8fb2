//! Pages document encoder.
use crate::encode::{
    annotation_archive, bfield, build_version_history_plist, build_version_history_text, document_identifier,
    document_identifier_text, document_metadata_archive, encode_infra_archives, encode_single_object,
    metadata_archive, object_container_archive, object_reference, objref, one_ref, properties_plist,
    properties_plist_text, single_object_archive, stylesheet_archive, InfraArchives, InfraIds,
};
use crate::error::Error;
use crate::iwa::IwaObjectReference;
use crate::package::{member_bytes, spec_zip, zip_fits, PackageWriter};
use crate::pages::body::{strings_view, Body, BodyView};
use crate::protobuf::{copy_bytes, spec_encode_fields, ProtoField, ProtoFieldView, ProtoMessage};
use crate::text::{chars_of, join, join_chars, string_from_chars};
use vstd::prelude::*;
use vstd::utf8::encode_utf8;

verus! {

/// Object id of the word-processor body object in `Index/Document.iwa`.
pub const WP_BODY_ID: u64 = 100;

/// Object id of the text storage object in `Index/Document.iwa`.
pub const TSWP_BASE_ID: u64 = 200;

/// The infrastructure object ids of a written `.pages` package.
pub open spec fn pages_ids() -> InfraIds {
    InfraIds {
        document: 1,
        metadata: 2,
        object_container: 61,
        document_metadata: 71,
        annotation: 80,
        stylesheet: 1002,
    }
}

/// The payload of the body object: field `1.3` holds the template name, and
/// field 2 references the text storage when there is text.
pub open spec fn wp_body_payload(template: Option<Seq<char>>, has_text: bool) -> Seq<u8> {
    let head: Seq<ProtoFieldView> = match template {
        Some(name) => seq![bfield(1, spec_encode_fields(seq![bfield(3, encode_utf8(name))]))],
        None => seq![],
    };
    let tail: Seq<ProtoFieldView> = if has_text {
        seq![bfield(2, objref(TSWP_BASE_ID))]
    } else {
        seq![]
    };
    spec_encode_fields(head + tail)
}

/// `Index/Document.iwa` of a written package: the body object, declaring a
/// reference to the text storage, followed, when there are text fragments,
/// by the text storage holding them joined with newlines.
pub open spec fn pages_document_iwa(b: BodyView) -> Seq<u8> {
    let has_text = b.text_fragments.len() > 0;
    if has_text {
        single_object_archive(WP_BODY_ID, 10001, wp_body_payload(b.template_name, true), one_ref(TSWP_BASE_ID, 10001, 0))
            + single_object_archive(
            TSWP_BASE_ID,
            2001,
            spec_encode_fields(seq![bfield(3, encode_utf8(join(b.text_fragments, seq!['\n'])))]),
            seq![],
        )
    } else {
        single_object_archive(WP_BODY_ID, 10001, wp_body_payload(b.template_name, false), seq![])
    }
}

/// The members of a written `.pages` package, in order.
pub open spec fn pages_members(b: BodyView) -> Seq<(Seq<char>, Seq<u8>)> {
    let ids = pages_ids();
    seq![
        ("Metadata/Properties.plist"@, encode_utf8(properties_plist_text())),
        ("Metadata/DocumentIdentifier"@, encode_utf8(document_identifier_text())),
        ("Metadata/BuildVersionHistory.plist"@, encode_utf8(build_version_history_text())),
        ("Index/Document.iwa"@, pages_document_iwa(b)),
        ("Index/DocumentMetadata.iwa"@, document_metadata_archive(ids)),
        ("Index/Metadata.iwa"@, metadata_archive(ids)),
        ("Index/ObjectContainer.iwa"@, object_container_archive(ids)),
        ("Index/AnnotationAuthorStorage.iwa"@, annotation_archive(ids)),
        ("Index/DocumentStylesheet.iwa"@, stylesheet_archive(ids)),
    ]
}

fn push_field(fields: &mut Vec<ProtoField>, f: ProtoField)
    ensures
        final(fields)@.map_values(|x: ProtoField| x@) == old(fields)@.map_values(|x: ProtoField| x@).push(f@),
{
    fields.push(f);
    assert(fields@.map_values(|x: ProtoField| x@) =~= old(fields)@.map_values(|x: ProtoField| x@).push(f@));
}

fn wp_payload(template: Option<&str>, has_text: bool) -> (r: Result<Vec<u8>, Error>)
    ensures
        r matches Ok(v) && v@ == wp_body_payload(
            match template {
                Some(n) => Some(n@),
                None => None,
            },
            has_text,
        ),
{
    let mut fields: Vec<ProtoField> = Vec::new();
    let ghost t = match template {
        Some(n) => Some(n@),
        None => None::<Seq<char>>,
    };
    let ghost head: Seq<ProtoFieldView> = match t {
        Some(name) => seq![bfield(1, spec_encode_fields(seq![bfield(3, encode_utf8(name))]))],
        None => seq![],
    };
    if let Some(name) = template {
        let mut inner: Vec<ProtoField> = Vec::new();
        push_field(&mut inner, ProtoField::bytes(3, copy_bytes(name.as_bytes())));
        let nested = ProtoMessage::new(inner);
        assert(nested@ =~= seq![bfield(3, encode_utf8(name@))]);
        push_field(&mut fields, ProtoField::message(1, &nested)?);
    }
    assert(fields@.map_values(|x: ProtoField| x@) =~= head);
    if has_text {
        push_field(&mut fields, ProtoField::bytes(2, object_reference(TSWP_BASE_ID)?));
        assert(fields@.map_values(|x: ProtoField| x@) =~= head + seq![bfield(2, objref(TSWP_BASE_ID))]);
    } else {
        assert(fields@.map_values(|x: ProtoField| x@) =~= head + seq![]);
    }
    ProtoMessage::new(fields).encode()
}

fn joined_fragments(fragments: &[String]) -> (r: Vec<u8>)
    ensures
        r@ == encode_utf8(join(strings_view(fragments@), seq!['\n'])),
{
    let ghost fv = strings_view(fragments@);
    let mut parts: Vec<Vec<char>> = Vec::new();
    let mut i: usize = 0;
    while i < fragments.len()
        invariant
            i <= fragments@.len(),
            fv == strings_view(fragments@),
            parts@.map_values(|v: Vec<char>| v@) == fv.take(i as int),
        decreases fragments.len() - i,
    {
        let ghost before = parts@.map_values(|v: Vec<char>| v@);
        parts.push(chars_of(fragments[i].as_str()));
        assert(fv[i as int] == fragments@[i as int]@);
        assert(fv.take(i + 1) =~= fv.take(i as int).push(fv[i as int]));
        assert(parts@.map_values(|v: Vec<char>| v@) =~= before.push(fv[i as int]));
        i = i + 1;
        assert(parts@.map_values(|v: Vec<char>| v@) =~= fv.take(i as int));
    }
    assert(fv.take(fragments@.len() as int) =~= fv);
    let text = join_chars(&parts, &['\n']);
    assert(['\n']@ =~= seq!['\n']);
    let s = string_from_chars(text.as_slice());
    copy_bytes(s.as_str().as_bytes())
}

fn encode_document_iwa(body: &Body) -> (r: Result<Vec<u8>, Error>)
    ensures
        r matches Ok(v) && v@ == pages_document_iwa(body@),
{
    let fragments = body.text_fragments();
    let has_text = fragments.len() > 0;
    let payload = wp_payload(body.template_name(), has_text)?;
    if has_text {
        let refs = vec![IwaObjectReference { object_id: Some(TSWP_BASE_ID), kind_hint: Some(10001), state_hint: Some(0) }];
        assert(refs@ =~= one_ref(TSWP_BASE_ID, 10001, 0));
        let mut out = encode_single_object(WP_BODY_ID, 10001, payload, refs)?;
        let mut f: Vec<ProtoField> = Vec::new();
        let text = joined_fragments(fragments);
        let ghost tv = text@;
        push_field(&mut f, ProtoField::bytes(3, text));
        assert(f@.map_values(|x: ProtoField| x@) =~= seq![bfield(3, tv)]);
        let text_payload = ProtoMessage::new(f).encode()?;
        let none: Vec<IwaObjectReference> = Vec::new();
        assert(none@ =~= seq![]);
        let part = encode_single_object(TSWP_BASE_ID, 2001, text_payload, none)?;
        crate::protobuf::extend_bytes(&mut out, part.as_slice());
        Ok(out)
    } else {
        let none: Vec<IwaObjectReference> = Vec::new();
        assert(none@ =~= seq![]);
        encode_single_object(WP_BODY_ID, 10001, payload, none)
    }
}

impl Body {
    /// Serializes this body as a minimal `.pages` package: metadata, the
    /// core `Index/` archives, and `Index/Document.iwa` with the body object
    /// and one text storage holding the text fragments joined with
    /// newlines. Paragraph styles and media descriptions are not written.
    pub fn to_pages_bytes(&self) -> (r: Result<Vec<u8>, Error>)
        ensures
            zip_fits(member_bytes(pages_members(self@))) ==> (r matches Ok(v) && v@ == spec_zip(
                member_bytes(pages_members(self@)),
            )),
            !zip_fits(member_bytes(pages_members(self@))) ==> r matches Err(Error::InvalidCentralDirectory),
    {
        let ids = InfraIds {
            document: 1,
            metadata: 2,
            object_container: 61,
            document_metadata: 71,
            annotation: 80,
            stylesheet: 1002,
        };
        let infra = encode_infra_archives(&ids)?;
        let document_iwa = encode_document_iwa(self)?;
        let mut writer = PackageWriter::new();
        let InfraArchives { document_metadata, metadata, object_container, annotation_author_storage, document_stylesheet } =
            infra;
        writer.add_entry("Metadata/Properties.plist", properties_plist());
        writer.add_entry("Metadata/DocumentIdentifier", document_identifier());
        writer.add_entry("Metadata/BuildVersionHistory.plist", build_version_history_plist());
        writer.add_entry("Index/Document.iwa", document_iwa);
        writer.add_entry("Index/DocumentMetadata.iwa", document_metadata);
        writer.add_entry("Index/Metadata.iwa", metadata);
        writer.add_entry("Index/ObjectContainer.iwa", object_container);
        writer.add_entry("Index/AnnotationAuthorStorage.iwa", annotation_author_storage);
        writer.add_entry("Index/DocumentStylesheet.iwa", document_stylesheet);
        assert(writer@ =~= pages_members(self@));
        writer.finish()
    }
}

} // verus!
