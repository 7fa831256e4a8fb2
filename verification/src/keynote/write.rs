//! Keynote presentation encoder.
use crate::encode::{
    bfield, build_version_history_plist, build_version_history_text, document_identifier, document_identifier_text,
    encode_infra_archives, encode_single_object, annotation_archive, document_metadata_archive, metadata_archive,
    object_container_archive, one_ref, properties_plist, properties_plist_text, single_object_archive,
    stylesheet_archive, vfield, InfraArchives, InfraIds,
};
use crate::error::Error;
use crate::iwa::IwaObjectReference;
use crate::keynote::presentation::{Presentation, PresentationView, Slide, SlideView};
use crate::package::{member_bytes, spec_zip, zip_fits, PackageWriter};
use crate::protobuf::{copy_bytes, spec_encode_fields, ProtoField, ProtoMessage};
use crate::text::{chars_equal, chars_of, join, join_chars, string_from_chars};
use vstd::prelude::*;
use vstd::utf8::encode_utf8;

verus! {

/// Object id of the theme object in `Index/Document.iwa`.
pub const THEME_ID: u64 = 100;

/// Local object ids inside each written slide archive.
pub const SLIDE_TITLE_DRAWABLE_ID: u64 = 1;

/// The body drawable's local id.
pub const SLIDE_BODY_DRAWABLE_ID: u64 = 2;

/// The title text object's local id.
pub const SLIDE_TITLE_TEXT_ID: u64 = 10;

/// The body text object's local id.
pub const SLIDE_BODY_TEXT_ID: u64 = 11;

/// The infrastructure object ids of a written `.key` package.
pub open spec fn keynote_ids() -> InfraIds {
    InfraIds {
        document: 1,
        metadata: 2,
        object_container: 61,
        document_metadata: 71,
        annotation: 80,
        stylesheet: 1002,
    }
}

/// The payload of the theme object: field `1.3` holds the theme name.
pub open spec fn theme_payload(theme: Option<Seq<char>>) -> Seq<u8> {
    let inner = match theme {
        Some(name) => seq![bfield(3, encode_utf8(name))],
        None => seq![],
    };
    spec_encode_fields(seq![bfield(1, spec_encode_fields(inner))])
}

/// `Index/Document.iwa`: the theme object, referencing the document root.
pub open spec fn document_iwa(theme: Option<Seq<char>>) -> Seq<u8> {
    single_object_archive(THEME_ID, 10, theme_payload(theme), one_ref(1, 1, 0))
}

/// The payload of a drawable placeholder of kind `kind` whose field `1.4.1`
/// points at the text object `text_id`.
pub open spec fn drawable_payload(text_id: u64, kind: u64) -> Seq<u8> {
    spec_encode_fields(
        seq![
            bfield(1, spec_encode_fields(seq![bfield(4, spec_encode_fields(seq![vfield(1, text_id)]))])),
            vfield(2, kind),
        ],
    )
}

/// The payload of a text storage object: field 3 holds the text.
pub open spec fn text_payload(text: Seq<char>) -> Seq<u8> {
    spec_encode_fields(seq![bfield(3, encode_utf8(text))])
}

/// The fragments written to a slide's body: every fragment but the title.
pub open spec fn body_fragments(s: SlideView) -> Seq<Seq<char>> {
    s.text_fragments.filter(|f: Seq<char>| s.title is None || f != s.title->Some_0)
}

/// A written `Index/Slide-N.iwa`: the title text and its drawable, then,
/// when there are body fragments, the body text (joined with newlines) and
/// its drawable, each as its own archive, concatenated.
pub open spec fn spec_slide_iwa(s: SlideView) -> Seq<u8> {
    let title = match s.title {
        Some(t) => t,
        None => seq![],
    };
    let head = single_object_archive(SLIDE_TITLE_TEXT_ID, 2001, text_payload(title), seq![]) + single_object_archive(
        SLIDE_TITLE_DRAWABLE_ID,
        7,
        drawable_payload(SLIDE_TITLE_TEXT_ID, 2),
        seq![],
    );
    let body = body_fragments(s);
    if body.len() > 0 {
        head + single_object_archive(SLIDE_BODY_TEXT_ID, 2001, text_payload(join(body, seq!['\n'])), seq![])
            + single_object_archive(SLIDE_BODY_DRAWABLE_ID, 7, drawable_payload(SLIDE_BODY_TEXT_ID, 3), seq![])
    } else {
        head
    }
}

/// The decimal digits of `n`.
pub open spec fn decimal(n: nat) -> Seq<char>
    decreases n,
{
    let d = ((n % 10) + 0x30) as char;
    if n < 10 {
        seq![d]
    } else {
        decimal(n / 10).push(d)
    }
}

/// `digits` with `0`s in front, up to `width` characters.
pub open spec fn zero_padded(digits: Seq<char>, width: nat) -> Seq<char>
    decreases width,
{
    if digits.len() >= width {
        digits
    } else {
        seq!['0'] + zero_padded(digits, (width - 1) as nat)
    }
}

/// The path of the `n`-th written slide, its number padded with `0`s to
/// `width` digits so that the paths sort in slide order.
pub open spec fn slide_path(n: nat, width: nat) -> Seq<char> {
    "Index/Slide-"@ + zero_padded(decimal(n), width) + ".iwa"@
}

/// The slides that are not layout masters, in order.
pub open spec fn real_slides(ss: Seq<SlideView>) -> Seq<SlideView> {
    ss.filter(|s: SlideView| !s.is_template)
}

/// Slide members numbered from 1 with `width`-digit numbers.
pub open spec fn slide_members_of(rs: Seq<SlideView>, width: nat) -> Seq<(Seq<char>, Seq<u8>)> {
    Seq::new(rs.len(), |i: int| (slide_path((i + 1) as nat, width), spec_slide_iwa(rs[i])))
}

/// The slide members of a written package: `Index/Slide-1.iwa`, … in order,
/// every number as wide as the slide count (`Index/Slide-01.iwa` … for ten
/// slides or more).
pub open spec fn slide_members(rs: Seq<SlideView>) -> Seq<(Seq<char>, Seq<u8>)> {
    slide_members_of(rs, decimal(rs.len()).len())
}

/// The members of a written `.key` package, in order.
pub open spec fn keynote_members(p: PresentationView) -> Seq<(Seq<char>, Seq<u8>)> {
    let ids = keynote_ids();
    seq![
        ("Metadata/Properties.plist"@, encode_utf8(properties_plist_text())),
        ("Metadata/DocumentIdentifier"@, encode_utf8(document_identifier_text())),
        ("Metadata/BuildVersionHistory.plist"@, encode_utf8(build_version_history_text())),
        ("Index/Document.iwa"@, document_iwa(p.theme_name)),
        ("Index/DocumentMetadata.iwa"@, document_metadata_archive(ids)),
        ("Index/Metadata.iwa"@, metadata_archive(ids)),
        ("Index/ObjectContainer.iwa"@, object_container_archive(ids)),
        ("Index/AnnotationAuthorStorage.iwa"@, annotation_archive(ids)),
        ("Index/DocumentStylesheet.iwa"@, stylesheet_archive(ids)),
        ("Index/TemplateSlide-1.iwa"@, single_object_archive(1, 7, seq![], seq![])),
    ] + slide_members(real_slides(p.slides))
}

fn push_field(fields: &mut Vec<ProtoField>, f: ProtoField)
    ensures
        final(fields)@.map_values(|x: ProtoField| x@) == old(fields)@.map_values(|x: ProtoField| x@).push(f@),
{
    fields.push(f);
    assert(fields@.map_values(|x: ProtoField| x@) =~= old(fields)@.map_values(|x: ProtoField| x@).push(f@));
}

fn string_bytes(s: &str) -> (r: Vec<u8>)
    ensures
        r@ == encode_utf8(s@),
{
    copy_bytes(s.as_bytes())
}

fn encode_document_iwa(theme_name: Option<&str>) -> (r: Result<Vec<u8>, Error>)
    ensures
        r matches Ok(v) && v@ == document_iwa(match theme_name {
            Some(n) => Some(n@),
            None => None,
        }),
{
    let mut inner: Vec<ProtoField> = Vec::new();
    if let Some(name) = theme_name {
        push_field(&mut inner, ProtoField::bytes(3, string_bytes(name)));
    }
    let ghost iv = inner@.map_values(|x: ProtoField| x@);
    let nested = ProtoMessage::new(inner);
    let mut outer: Vec<ProtoField> = Vec::new();
    push_field(&mut outer, ProtoField::message(1, &nested)?);
    assert(outer@.map_values(|x: ProtoField| x@) =~= seq![bfield(1, spec_encode_fields(iv))]);
    let payload = ProtoMessage::new(outer).encode()?;
    proof {
        let theme = match theme_name {
            Some(n) => Some(n@),
            None => None,
        };
        let expected_inner: Seq<crate::protobuf::ProtoFieldView> = match theme {
            Some(name) => seq![bfield(3, encode_utf8(name))],
            None => seq![],
        };
        assert(iv =~= expected_inner);
        assert(payload@ == theme_payload(theme));
    }
    let refs = vec![IwaObjectReference { object_id: Some(1), kind_hint: Some(1), state_hint: Some(0) }];
    assert(refs@ =~= one_ref(1, 1, 0));
    encode_single_object(THEME_ID, 10, payload, refs)
}

fn encode_drawable_payload(text_object_id: u64, placeholder_kind: u64) -> (r: Result<Vec<u8>, Error>)
    ensures
        r matches Ok(v) && v@ == drawable_payload(text_object_id, placeholder_kind),
{
    let mut a: Vec<ProtoField> = Vec::new();
    push_field(&mut a, ProtoField::varint(1, text_object_id));
    let ma = ProtoMessage::new(a);
    let mut b: Vec<ProtoField> = Vec::new();
    push_field(&mut b, ProtoField::message(4, &ma)?);
    let mb = ProtoMessage::new(b);
    let mut c: Vec<ProtoField> = Vec::new();
    push_field(&mut c, ProtoField::message(1, &mb)?);
    push_field(&mut c, ProtoField::varint(2, placeholder_kind));
    proof {
        assert(ma@ =~= seq![vfield(1, text_object_id)]);
        assert(mb@ =~= seq![bfield(4, spec_encode_fields(seq![vfield(1, text_object_id)]))]);
        assert(c@.map_values(|x: ProtoField| x@) =~= seq![
            bfield(1, spec_encode_fields(seq![bfield(4, spec_encode_fields(seq![vfield(1, text_object_id)]))])),
            vfield(2, placeholder_kind),
        ]);
    }
    ProtoMessage::new(c).encode()
}

fn encode_text_payload(text: Vec<u8>) -> (r: Result<Vec<u8>, Error>)
    ensures
        r matches Ok(v) && v@ == spec_encode_fields(seq![bfield(3, text@)]),
{
    let ghost tv = text@;
    let mut f: Vec<ProtoField> = Vec::new();
    push_field(&mut f, ProtoField::bytes(3, text));
    assert(f@.map_values(|x: ProtoField| x@) =~= seq![bfield(3, tv)]);
    ProtoMessage::new(f).encode()
}

fn encode_object(root: u64, kind: u64, payload: Vec<u8>) -> (r: Result<Vec<u8>, Error>)
    ensures
        r matches Ok(v) && v@ == single_object_archive(root, kind, payload@, seq![]),
{
    let none: Vec<IwaObjectReference> = Vec::new();
    assert(none@ =~= seq![]);
    encode_single_object(root, kind, payload, none)
}

fn body_fragments_of(slide: &Slide) -> (r: Vec<Vec<char>>)
    ensures
        r@.map_values(|v: Vec<char>| v@) == body_fragments(slide@),
{
    let ghost s = slide@;
    let frags = slide.text_fragments();
    let title = match slide.title() {
        Some(t) => Some(chars_of(t)),
        None => None,
    };
    let mut out: Vec<Vec<char>> = Vec::new();
    let mut i: usize = 0;
    let ghost all = s.text_fragments;
    assert(all.take(0).filter(|f: Seq<char>| s.title is None || f != s.title->Some_0) =~= seq![]);
    while i < frags.len()
        invariant
            i <= frags@.len(),
            s == slide@,
            all == s.text_fragments,
            frags@.map_values(|x: String| x@) == all,
            match title {
                Some(t) => s.title == Some(t@),
                None => s.title is None,
            },
            out@.map_values(|v: Vec<char>| v@) == all.take(i as int).filter(
                |f: Seq<char>| s.title is None || f != s.title->Some_0,
            ),
        decreases frags.len() - i,
    {
        reveal_with_fuel(Seq::<_>::filter, 1);
        let f = chars_of(frags[i].as_str());
        assert(all[i as int] == frags@[i as int]@);
        assert(all.take(i + 1).drop_last() =~= all.take(i as int));
        let keep = match &title {
            Some(t) => !chars_equal(f.as_slice(), t.as_slice()),
            None => true,
        };
        let ghost before = out@.map_values(|v: Vec<char>| v@);
        if keep {
            out.push(f);
            assert(out@.map_values(|v: Vec<char>| v@) =~= before.push(all[i as int]));
        }
        i = i + 1;
    }
    assert(all.take(i as int) =~= all);
    out
}

fn encode_slide_iwa(slide: &Slide) -> (r: Result<Vec<u8>, Error>)
    ensures
        r matches Ok(v) && v@ == spec_slide_iwa(slide@),
{
    let title_text: &str = match slide.title() {
        Some(t) => t,
        None => "",
    };
    proof {
        reveal_strlit("");
    }
    let title_payload = encode_text_payload(string_bytes(title_text))?;
    let mut out = encode_object(SLIDE_TITLE_TEXT_ID, 2001, title_payload)?;
    let drawable = encode_drawable_payload(SLIDE_TITLE_TEXT_ID, 2)?;
    let part = encode_object(SLIDE_TITLE_DRAWABLE_ID, 7, drawable)?;
    crate::protobuf::extend_bytes(&mut out, part.as_slice());
    let body = body_fragments_of(slide);
    if body.len() > 0 {
        let text = join_chars(&body, &['\n']);
        assert(['\n']@ =~= seq!['\n']);
        let body_string = string_from_chars(text.as_slice());
        let body_payload = encode_text_payload(string_bytes(body_string.as_str()))?;
        let part = encode_object(SLIDE_BODY_TEXT_ID, 2001, body_payload)?;
        crate::protobuf::extend_bytes(&mut out, part.as_slice());
        let drawable = encode_drawable_payload(SLIDE_BODY_TEXT_ID, 3)?;
        let part = encode_object(SLIDE_BODY_DRAWABLE_ID, 7, drawable)?;
        crate::protobuf::extend_bytes(&mut out, part.as_slice());
    }
    Ok(out)
}

fn digit_char(d: u64) -> (r: char)
    requires
        d < 10,
    ensures
        r == (d + 0x30) as char,
{
    ((d + 0x30) as u8) as char
}

/// The decimal digits of `n`.
pub(crate) fn decimal_chars(n: u64) -> (r: Vec<char>)
    ensures
        r@ == decimal(n as nat),
    decreases n,
{
    let d = digit_char(n % 10);
    if n < 10 {
        let v = vec![d];
        assert(v@ =~= seq![d]);
        v
    } else {
        let mut v = decimal_chars(n / 10);
        v.push(d);
        v
    }
}

fn padded_digits(n: u64, width: usize) -> (r: Vec<char>)
    ensures
        r@ == zero_padded(decimal(n as nat), width as nat),
    decreases width,
{
    let digits = decimal_chars(n);
    if digits.len() >= width {
        digits
    } else {
        let mut v = vec!['0'];
        let rest = padded_digits(n, width - 1);
        let ghost a = v@;
        let mut i: usize = 0;
        while i < rest.len()
            invariant
                i <= rest@.len(),
                v@ == a + rest@.subrange(0, i as int),
            decreases rest.len() - i,
        {
            v.push(rest[i]);
            i = i + 1;
            assert(v@ =~= a + rest@.subrange(0, i as int));
        }
        assert(rest@.subrange(0, rest@.len() as int) =~= rest@);
        assert(a =~= seq!['0']);
        v
    }
}

fn slide_path_string(n: u64, width: usize) -> (r: String)
    ensures
        r@ == slide_path(n as nat, width as nat),
{
    let mut cs = chars_of("Index/Slide-");
    let digits = padded_digits(n, width);
    let suffix = chars_of(".iwa");
    let ghost a = cs@;
    let mut i: usize = 0;
    while i < digits.len()
        invariant
            i <= digits@.len(),
            cs@ == a + digits@.subrange(0, i as int),
        decreases digits.len() - i,
    {
        cs.push(digits[i]);
        i = i + 1;
        assert(cs@ =~= a + digits@.subrange(0, i as int));
    }
    let ghost b = cs@;
    let mut k: usize = 0;
    while k < suffix.len()
        invariant
            k <= suffix@.len(),
            cs@ == b + suffix@.subrange(0, k as int),
        decreases suffix.len() - k,
    {
        cs.push(suffix[k]);
        k = k + 1;
        assert(cs@ =~= b + suffix@.subrange(0, k as int));
    }
    assert(digits@.subrange(0, digits@.len() as int) =~= digits@);
    assert(suffix@.subrange(0, suffix@.len() as int) =~= suffix@);
    string_from_chars(cs.as_slice())
}

fn base_writer(theme_name: Option<&str>) -> (r: Result<PackageWriter, Error>)
    ensures
        r matches Ok(w) && w@ == keynote_members(PresentationView {
            theme_name: match theme_name {
                Some(n) => Some(n@),
                None => None,
            },
            slides: seq![],
        }),
{
    let ids = InfraIds { document: 1, metadata: 2, object_container: 61, document_metadata: 71, annotation: 80, stylesheet: 1002 };
    let infra = encode_infra_archives(&ids)?;
    let document_iwa = encode_document_iwa(theme_name);
    let document_iwa = document_iwa?;
    let empty: Vec<u8> = Vec::new();
    assert(empty@ =~= seq![]);
    let template_slide_iwa = encode_object(1, 7, empty)?;
    let mut writer = PackageWriter::new();
    let InfraArchives { document_metadata, metadata, object_container, annotation_author_storage, document_stylesheet } = infra;
    writer.add_entry("Metadata/Properties.plist", properties_plist());
    writer.add_entry("Metadata/DocumentIdentifier", document_identifier());
    writer.add_entry("Metadata/BuildVersionHistory.plist", build_version_history_plist());
    writer.add_entry("Index/Document.iwa", document_iwa);
    writer.add_entry("Index/DocumentMetadata.iwa", document_metadata);
    writer.add_entry("Index/Metadata.iwa", metadata);
    writer.add_entry("Index/ObjectContainer.iwa", object_container);
    writer.add_entry("Index/AnnotationAuthorStorage.iwa", annotation_author_storage);
    writer.add_entry("Index/DocumentStylesheet.iwa", document_stylesheet);
    writer.add_entry("Index/TemplateSlide-1.iwa", template_slide_iwa);
    proof {
        let p = PresentationView {
            theme_name: match theme_name {
                Some(n) => Some(n@),
                None => None,
            },
            slides: seq![],
        };
        assert(real_slides(p.slides) =~= seq![]);
        assert(slide_members(real_slides(p.slides)) =~= seq![]);
        assert(writer@ =~= keynote_members(p));
    }
    Ok(writer)
}

impl Presentation {
    /// Serializes this presentation as a minimal `.key` package: metadata,
    /// the core `Index/` archives, `Index/Document.iwa` with the theme
    /// object, one `Index/TemplateSlide-1.iwa` stub, and one
    /// `Index/Slide-N.iwa` per non-template slide. Media descriptions are
    /// not written.
    pub fn to_keynote_bytes(&self) -> (r: Result<Vec<u8>, Error>)
        ensures
            zip_fits(member_bytes(keynote_members(self@))) ==> (r matches Ok(v) && v@ == spec_zip(
                member_bytes(keynote_members(self@)),
            )),
            !zip_fits(member_bytes(keynote_members(self@))) ==> r matches Err(Error::InvalidCentralDirectory),
    {
        let mut writer = base_writer(self.theme_name())?;
        let ghost base = writer@;
        let ghost all = self@.slides;
        let slides = self.slides();
        let mut total: u64 = 0;
        let mut j: usize = 0;
        assert(real_slides(all.take(0)) =~= seq![]);
        while j < slides.len()
            invariant
                j <= slides@.len(),
                slides@.map_values(|s: Slide| s@) == all,
                total as nat == real_slides(all.take(j as int)).len(),
                total <= j,
            decreases slides.len() - j,
        {
            reveal_with_fuel(Seq::<_>::filter, 1);
            assert(all[j as int] == slides[j as int]@);
            assert(all.take(j + 1).drop_last() =~= all.take(j as int));
            if !slides[j].is_template() {
                total = total + 1;
            }
            j = j + 1;
        }
        assert(all.take(j as int) =~= all);
        let width = decimal_chars(total).len();
        let mut count: u64 = 0;
        let mut i: usize = 0;
        assert(slide_members_of(seq![], width as nat) =~= seq![]);
        while i < slides.len()
            invariant
                i <= slides@.len(),
                slides@.map_values(|s: Slide| s@) == all,
                all == self@.slides,
                width as nat == decimal(real_slides(all).len()).len(),
                count as nat == real_slides(all.take(i as int)).len(),
                count <= i,
                writer@ == base + slide_members_of(real_slides(all.take(i as int)), width as nat),
            decreases slides.len() - i,
        {
            reveal_with_fuel(Seq::<_>::filter, 1);
            let slide = &slides[i];
            assert(all[i as int] == slide@);
            assert(all.take(i + 1).drop_last() =~= all.take(i as int));
            if !slide.is_template() {
                let slide_iwa = encode_slide_iwa(slide)?;
                count = count + 1;
                let path = slide_path_string(count, width);
                let ghost before = writer@;
                writer.add_entry(path.as_str(), slide_iwa);
                proof {
                    let rs = real_slides(all.take(i + 1));
                    assert(rs =~= real_slides(all.take(i as int)).push(slide@));
                    assert(slide_members_of(rs, width as nat) =~= slide_members_of(
                        real_slides(all.take(i as int)),
                        width as nat,
                    ).push((slide_path(count as nat, width as nat), spec_slide_iwa(slide@))));
                    assert(writer@ =~= base + slide_members_of(rs, width as nat));
                }
            }
            i = i + 1;
        }
        assert(all.take(i as int) =~= all);
        proof {
            let p = PresentationView { theme_name: self@.theme_name, slides: seq![] };
            assert(real_slides(p.slides) =~= seq![]);
            assert(slide_members(real_slides(p.slides)) =~= seq![]);
            assert(base =~= keynote_members(p).take(10));
            assert(writer@ =~= keynote_members(self@));
        }
        writer.finish()
    }
}

} // verus!
