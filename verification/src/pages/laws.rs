//! Laws of the Pages body: how plain text and written packages read back.
use crate::encode::{bfield, header_bytes, one_ref, single_object_archive};
use crate::iwa::{lemma_archive_stream_fits, spec_decode_archive, spec_objects, ObjectView};
use crate::iwa_laws::{lemma_single_object_read, lemma_two_objects_read, written_object};
use crate::keynote::presentation::first_of_type;
use crate::numbers::table_model::text_of;
use crate::package::{member_bytes, spec_package_entries, spec_zip, zip_fits, EntryView, PackageView};
use crate::pages::body::{
    classify, default_formatting, id_run_blocks, is_heading_style, is_title_style, media_descriptions_of, merged,
    runs_text, sort_by_offset, spec_body, spec_id_runs, spec_style_runs, spec_template_name, style_maps_of,
    style_run_blocks, BodyView, ClassifiedView, ParagraphView, TextRunView,
};
use crate::pages::paragraphs::{
    body_paragraphs, boundaries, char_at_byte, formatting_at, offsets, paragraph_of, paragraphs_upto,
    piece_paragraph, piece_start, placeholder, run_at, runs_upto, text_paragraphs, text_runs, StyleMapsView,
};
use crate::pages::write::{pages_document_iwa, pages_ids, pages_members, wp_body_payload, TSWP_BASE_ID, WP_BODY_ID};
use crate::protobuf::{
    encodable_field, first_field, lemma_message_roundtrip, spec_decode_message, spec_encode_fields, ProtoFieldView,
};
use crate::text::{is_control_char, join, lemma_utf8_len_prefix, trim, utf8_len};
use crate::zip_laws::{end_record_unambiguous, lemma_member_read, written_package};
use vstd::prelude::*;
use vstd::utf8::encode_utf8;

verus! {

/// A plain paragraph: no paragraph or list style, one unformatted run
/// holding `t`.
pub open spec fn plain_paragraph(t: Seq<char>) -> ParagraphView {
    ParagraphView {
        style_name: seq![],
        list_style: None,
        runs: seq![TextRunView { text: t, formatting: default_formatting() }],
    }
}

/// The plain paragraphs of a list of texts.
pub open spec fn plain_paragraphs(ts: Seq<Seq<char>>) -> Seq<ParagraphView> {
    ts.map_values(|t: Seq<char>| plain_paragraph(t))
}

/// A text that a paragraph keeps as it is: non-empty, with no white space
/// at either end, no control character and no inline object placeholder.
pub open spec fn plain_fragment(t: Seq<char>) -> bool {
    &&& t.len() > 0
    &&& trim(t) == t
    &&& forall|i: int| 0 <= i < t.len() ==> !is_control_char(#[trigger] t[i])
    &&& !t.contains(placeholder())
}

proof fn lemma_char_width_positive(c: char)
    ensures
        utf8_len(seq![c]) >= 1,
{
    assert(seq![c].drop_first() =~= seq![]);
    assert(seq![c][0] == c);
}

proof fn lemma_char_at_end(cs: Seq<char>, k: int)
    requires
        0 <= k <= cs.len(),
    ensures
        char_at_byte(cs, utf8_len(cs) as int, k) == Some(cs.len() as int),
    decreases cs.len() - k,
{
    if k == cs.len() {
        assert(cs.take(k) =~= cs);
    } else {
        lemma_utf8_len_prefix(cs, k);
        lemma_char_width_positive(cs[k]);
        lemma_char_at_end(cs, k + 1);
    }
}

/// Without style runs, a plain text makes one plain paragraph.
proof fn lemma_plain_paragraph_of(f: Seq<char>, ps: usize, m: StyleMapsView)
    requires
        plain_fragment(f),
    ensures
        paragraph_of(f, ps, seq![], seq![], seq![], m) == seq![plain_paragraph(f)],
{
    let none: Seq<(usize, u64)> = seq![];
    let offs = offsets(none) + offsets(none);
    assert(offs =~= Seq::<usize>::empty());
    let b = boundaries(offs, ps, ps + utf8_len(f));
    assert(b == seq![ps]);
    assert(f.take(0) =~= Seq::<char>::empty());
    assert(utf8_len(Seq::<char>::empty()) == 0);
    assert(char_at_byte(f, 0, 0) == Some(0int));
    lemma_char_at_end(f, 0);
    assert(merged(default_formatting(), default_formatting()) == default_formatting());
    assert(formatting_at(none, m.char_fmt, ps as int) == default_formatting());
    assert(f.subrange(0, f.len() as int) =~= f);
    let r = TextRunView { text: f, formatting: default_formatting() };
    assert(run_at(f, ps, b, 0, none, none, m) == Some(r));
    assert(runs_upto(f, ps, b, none, none, m, 0) =~= Seq::<TextRunView>::empty());
    assert(runs_upto(f, ps, b, none, none, m, 1) =~= seq![r]);
    assert(text_runs(f, ps, none, none, m) == seq![r]);
}

proof fn lemma_piece_start_prefix(a: Seq<char>, b: Seq<char>, k: int)
    requires
        0 <= k <= a.len(),
        k <= b.len(),
        a.take(k) == b.take(k),
    ensures
        piece_start(a, k) == piece_start(b, k),
    decreases k,
{
    if k > 0 {
        assert(a[k - 1] == a.take(k)[k - 1]);
        assert(b[k - 1] == b.take(k)[k - 1]);
        assert(a.take(k - 1) =~= a.take(k).take(k - 1));
        assert(b.take(k - 1) =~= b.take(k).take(k - 1));
        lemma_piece_start_prefix(a, b, k - 1);
    }
}

proof fn lemma_piece_start_bounds(a: Seq<char>, k: int)
    requires
        0 <= k <= a.len(),
    ensures
        0 <= piece_start(a, k) <= k,
    decreases k,
{
    if k > 0 {
        lemma_piece_start_bounds(a, k - 1);
    }
}

proof fn lemma_paragraphs_upto_prefix(
    a: Seq<char>,
    b: Seq<char>,
    pr: Seq<(usize, Seq<char>)>,
    cr: Seq<(usize, u64)>,
    nr: Seq<(usize, u64)>,
    m: StyleMapsView,
    k: int,
)
    requires
        0 <= k <= a.len(),
        k <= b.len(),
        a.take(k) == b.take(k),
    ensures
        paragraphs_upto(a, pr, cr, nr, m, k) == paragraphs_upto(b, pr, cr, nr, m, k),
    decreases k,
{
    if k > 0 {
        assert(a[k - 1] == a.take(k)[k - 1]);
        assert(b[k - 1] == b.take(k)[k - 1]);
        assert(a.take(k - 1) =~= a.take(k).take(k - 1));
        assert(b.take(k - 1) =~= b.take(k).take(k - 1));
        lemma_paragraphs_upto_prefix(a, b, pr, cr, nr, m, k - 1);
        lemma_piece_start_prefix(a, b, k - 1);
        let s = piece_start(a, k - 1);
        lemma_piece_start_bounds(a, k - 1);
        assert(a.subrange(s, k - 1) =~= a.take(k).subrange(s, k - 1));
        assert(b.subrange(s, k - 1) =~= b.take(k).subrange(s, k - 1));
        assert(a.take(s) =~= a.take(k).take(s));
        assert(b.take(s) =~= b.take(k).take(s));
    }
}

proof fn lemma_no_control_stretch(
    raw: Seq<char>,
    pr: Seq<(usize, Seq<char>)>,
    cr: Seq<(usize, u64)>,
    nr: Seq<(usize, u64)>,
    m: StyleMapsView,
    s: int,
    k: int,
)
    requires
        0 <= s <= k <= raw.len(),
        forall|j: int| s <= j < k ==> !is_control_char(#[trigger] raw[j]),
    ensures
        paragraphs_upto(raw, pr, cr, nr, m, k) == paragraphs_upto(raw, pr, cr, nr, m, s),
        piece_start(raw, k) == piece_start(raw, s),
    decreases k - s,
{
    if k > s {
        lemma_no_control_stretch(raw, pr, cr, nr, m, s, k - 1);
    }
}

/// The newline-joined text of the first `k` texts: the paragraphs before
/// its last piece are those of the first `k - 1` texts, and its last piece
/// is the `k`-th text.
proof fn lemma_joined_prefix(fs: Seq<Seq<char>>, m: StyleMapsView, k: int)
    requires
        1 <= k <= fs.len(),
        forall|i: int| 0 <= i < fs.len() ==> plain_fragment(#[trigger] fs[i]),
    ensures
        ({
            let raw = join(fs.take(k), seq!['\n']);
            let n = raw.len() as int;
            let f = fs[k - 1];
            &&& n >= f.len()
            &&& raw.subrange(n - f.len(), n) == f
            &&& piece_start(raw, n) == n - f.len()
            &&& paragraphs_upto(raw, seq![], seq![], seq![], m, n) == plain_paragraphs(fs.take(k - 1))
        }),
    decreases k,
{
    let none: Seq<(usize, u64)> = seq![];
    let pr: Seq<(usize, Seq<char>)> = seq![];
    let raw = join(fs.take(k), seq!['\n']);
    let n = raw.len() as int;
    let f = fs[k - 1];
    assert(plain_fragment(f));
    if k == 1 {
        assert(fs.take(1).len() == 1);
        assert(raw == fs.take(1)[0]);
        assert(raw == f);
        lemma_no_control_stretch(raw, pr, none, none, m, 0, n);
        assert(raw.subrange(0, n) =~= raw);
        assert(fs.take(0) =~= Seq::<Seq<char>>::empty());
        assert(plain_paragraphs(fs.take(0)) =~= Seq::<ParagraphView>::empty());
    } else {
        lemma_joined_prefix(fs, m, k - 1);
        let prev = join(fs.take(k - 1), seq!['\n']);
        let p = prev.len() as int;
        let g = fs[k - 2];
        assert(plain_fragment(g));
        assert(fs.take(k).drop_last() =~= fs.take(k - 1));
        assert(fs.take(k).last() == f);
        assert(raw == prev + seq!['\n'] + f);
        assert(raw.take(p) =~= prev.take(p));
        assert(prev.take(p) =~= prev);
        lemma_paragraphs_upto_prefix(raw, prev, pr, none, none, m, p);
        lemma_piece_start_prefix(raw, prev, p);
        assert(raw[p] == '\n');
        let s = p - g.len();
        assert(raw.subrange(s, p) =~= prev.subrange(s, p));
        lemma_plain_paragraph_of(g, crate::text::utf8_len(raw.take(s)) as usize, m);
        assert(piece_paragraph(raw, s, p, pr, none, none, m) == seq![plain_paragraph(g)]);
        assert(paragraphs_upto(raw, pr, none, none, m, p + 1) == plain_paragraphs(fs.take(k - 2)) + seq![
            plain_paragraph(g),
        ]);
        assert(plain_paragraphs(fs.take(k - 2)) + seq![plain_paragraph(g)] =~= plain_paragraphs(fs.take(k - 1)));
        assert(piece_start(raw, p + 1) == p + 1);
        assert forall|j: int| p + 1 <= j < n implies !is_control_char(#[trigger] raw[j]) by {
            assert(raw[j] == f[j - p - 1]);
        }
        lemma_no_control_stretch(raw, pr, none, none, m, p + 1, n);
        assert(raw.subrange(n - f.len(), n) =~= f);
    }
}

/// Law: plain texts joined with newlines, without style runs, read back as
/// one plain paragraph per text, in order.
pub proof fn lemma_joined_text_paragraphs(fs: Seq<Seq<char>>, m: StyleMapsView)
    requires
        forall|i: int| 0 <= i < fs.len() ==> plain_fragment(#[trigger] fs[i]),
    ensures
        text_paragraphs(join(fs, seq!['\n']), seq![], seq![], seq![], m) == plain_paragraphs(fs),
{
    let none: Seq<(usize, u64)> = seq![];
    let pr: Seq<(usize, Seq<char>)> = seq![];
    if fs.len() == 0 {
        let raw = join(fs, seq!['\n']);
        assert(raw =~= Seq::<char>::empty());
        assert(raw.subrange(0, 0) =~= Seq::<char>::empty());
        assert(trim(Seq::<char>::empty()) =~= Seq::<char>::empty());
        assert(plain_paragraphs(fs) =~= Seq::<ParagraphView>::empty());
    } else {
        let k = fs.len() as int;
        lemma_joined_prefix(fs, m, k);
        assert(fs.take(k) =~= fs);
        let raw = join(fs, seq!['\n']);
        let n = raw.len() as int;
        let f = fs[k - 1];
        lemma_plain_paragraph_of(f, crate::text::utf8_len(raw.take(n - f.len())) as usize, m);
        assert(plain_paragraphs(fs.take(k - 1)) + seq![plain_paragraph(f)] =~= plain_paragraphs(fs));
    }
}

/// Law: distinct plain texts, each a plain paragraph, are classified as text
/// fragments, in order: no title and no heading.
pub proof fn lemma_classify_plain(fs: Seq<Seq<char>>)
    requires
        forall|i: int| 0 <= i < fs.len() ==> plain_fragment(#[trigger] fs[i]),
        fs.no_duplicates(),
    ensures
        classify(plain_paragraphs(fs)) == (ClassifiedView { title: None, headings: seq![], fragments: fs, seen: fs }),
    decreases fs.len(),
{
    let ps = plain_paragraphs(fs);
    if fs.len() == 0 {
        assert(ps =~= Seq::<ParagraphView>::empty());
        assert(fs =~= Seq::<Seq<char>>::empty());
    } else {
        let init = fs.drop_last();
        let f = fs.last();
        assert forall|i: int| 0 <= i < init.len() implies plain_fragment(#[trigger] init[i]) by {
            assert(init[i] == fs[i]);
        }
        assert(init.no_duplicates()) by {
            assert forall|i: int, j: int| 0 <= i < init.len() && 0 <= j < init.len() && i != j implies init[i]
                != init[j] by {
                assert(init[i] == fs[i] && init[j] == fs[j]);
            }
        }
        lemma_classify_plain(init);
        assert(ps.drop_last() =~= plain_paragraphs(init));
        assert(ps.last() == plain_paragraph(f));
        assert(plain_fragment(fs[fs.len() - 1]));
        let r = TextRunView { text: f, formatting: default_formatting() };
        assert(seq![r].drop_last() =~= Seq::<TextRunView>::empty());
        assert(runs_text(Seq::<TextRunView>::empty()) =~= Seq::<char>::empty());
        assert(seq![r].last() == r);
        assert(runs_text(seq![r]) == runs_text(seq![r].drop_last()) + r.text);
        assert(runs_text(seq![r]) =~= f);
        assert(!init.contains(f)) by {
            if init.contains(f) {
                let j = choose|j: int| 0 <= j < init.len() && init[j] == f;
                assert(fs[j] == fs[fs.len() - 1]);
            }
        }
        assert(!is_title_style(seq![]));
        assert(!is_heading_style(seq![]));
        assert(init.push(f) =~= fs);
    }
}

proof fn lemma_utf8_text(t: Seq<char>)
    ensures
        crate::text::utf8_chars(encode_utf8(t)) == Some(t),
{
    vstd::utf8::encode_utf8_valid_utf8(t);
    vstd::utf8::encode_utf8_decode_utf8(t);
}

proof fn lemma_one_field_read(f: ProtoFieldView)
    requires
        encodable_field(f),
        spec_encode_fields(seq![f]).len() <= usize::MAX,
    ensures
        spec_decode_message(spec_encode_fields(seq![f])) == Ok::<Seq<ProtoFieldView>, crate::error::Error>(seq![f]),
{
    lemma_message_roundtrip(seq![f]);
}

/// A text storage payload written for `t` reads back as a message whose
/// field 3 is `t` and that has no style runs.
proof fn lemma_text_payload_read(t: Seq<char>, para: Seq<(u64, Seq<char>)>)
    requires
        spec_encode_fields(seq![bfield(3, encode_utf8(t))]).len() <= usize::MAX,
    ensures
        ({
            let payload = spec_encode_fields(seq![bfield(3, encode_utf8(t))]);
            &&& spec_decode_message(payload) matches Ok(fs) && text_of(fs, 3) == Some(t)
            &&& spec_style_runs(payload, para) == Seq::<(usize, Seq<char>)>::empty()
            &&& spec_id_runs(payload, 7) == Seq::<(usize, u64)>::empty()
            &&& spec_id_runs(payload, 8) == Seq::<(usize, u64)>::empty()
        }),
{
    let f = bfield(3, encode_utf8(t));
    lemma_one_field_read(f);
    lemma_utf8_text(t);
    let fs = seq![f];
    assert(first_field(fs, 3) == Some(f));
    assert(fs.drop_last() =~= Seq::<ProtoFieldView>::empty());
    assert(style_run_blocks(fs, para) == style_run_blocks(Seq::<ProtoFieldView>::empty(), para));
    assert(id_run_blocks(fs, 7) == id_run_blocks(Seq::<ProtoFieldView>::empty(), 7));
    assert(id_run_blocks(fs, 8) == id_run_blocks(Seq::<ProtoFieldView>::empty(), 8));
    assert(sort_by_offset(Seq::<(usize, Seq<char>)>::empty()) =~= Seq::<(usize, Seq<char>)>::empty());
    assert(sort_by_offset(Seq::<(usize, u64)>::empty()) =~= Seq::<(usize, u64)>::empty());
}

/// The body object's payload reads back with the template name at field
/// 1.3.
proof fn lemma_wp_payload_read(t: Option<Seq<char>>, has_text: bool)
    requires
        wp_body_payload(t, has_text).len() <= usize::MAX,
    ensures
        spec_decode_message(wp_body_payload(t, has_text)) matches Ok(fs) && (match crate::iwa::nested_fields(fs, 1) {
            Some(inner) => text_of(inner, 3),
            None => None,
        }) == t,
{
    let head: Seq<ProtoFieldView> = match t {
        Some(name) => seq![bfield(1, spec_encode_fields(seq![bfield(3, encode_utf8(name))]))],
        None => seq![],
    };
    let tail: Seq<ProtoFieldView> = if has_text {
        seq![bfield(2, crate::encode::objref(TSWP_BASE_ID))]
    } else {
        seq![]
    };
    let fs = head + tail;
    assert forall|i: int| 0 <= i < fs.len() implies encodable_field(#[trigger] fs[i]) by {
        assert(fs[i].number == 1 || fs[i].number == 2);
    }
    lemma_message_roundtrip(fs);
    match t {
        Some(name) => {
            let inner = seq![bfield(3, encode_utf8(name))];
            let enc = spec_encode_fields(inner);
            assert(fs[0] == bfield(1, enc));
            assert(first_field(fs, 1) == Some(bfield(1, enc)));
            assert(fs.drop_first() =~= tail);
            assert(spec_encode_fields(fs) == crate::protobuf::spec_encode_field(fs[0]) + spec_encode_fields(tail));
            assert(enc.len() <= usize::MAX);
            lemma_one_field_read(bfield(3, encode_utf8(name)));
            lemma_utf8_text(name);
            assert(first_field(inner, 3) == Some(bfield(3, encode_utf8(name))));
        },
        None => {
            assert(fs =~= tail);
            if has_text {
                assert(tail.drop_first() =~= Seq::<ProtoFieldView>::empty());
                assert(first_field(tail, 1) == first_field(Seq::<ProtoFieldView>::empty(), 1));
            }
        },
    }
}

proof fn lemma_payload_fits(root: u64, kind: u64, body: Seq<u8>, refs: Seq<crate::iwa::IwaObjectReference>)
    ensures
        body.len() <= single_object_archive(root, kind, body, refs).len(),
{
    lemma_archive_stream_fits(header_bytes(root, kind, body.len() as usize, refs), body);
}

/// The objects of the body object alone: no paragraphs, no media, and the
/// template name of its payload.
proof fn lemma_body_object_alone(o1: ObjectView, t: Option<Seq<char>>, m: StyleMapsView)
    requires
        o1.message_type == Some(10001u64),
        spec_decode_message(o1.payload) matches Ok(fs) && (match crate::iwa::nested_fields(fs, 1) {
            Some(inner) => text_of(inner, 3),
            None => None,
        }) == t,
    ensures
        spec_template_name(seq![o1]) == t,
        body_paragraphs(seq![o1], m) == Seq::<ParagraphView>::empty(),
        media_descriptions_of(seq![o1]) == Seq::<Seq<char>>::empty(),
{
    let none: Seq<ObjectView> = seq![];
    assert(first_of_type(seq![o1], 10001, 0) == Some(0int));
    assert(seq![o1].drop_last() =~= none);
    assert(seq![o1].last() == o1);
    assert(body_paragraphs(none, m) =~= Seq::<ParagraphView>::empty());
    assert(body_paragraphs(seq![o1], m) =~= Seq::<ParagraphView>::empty());
    assert(media_descriptions_of(none) =~= Seq::<Seq<char>>::empty());
    assert(crate::pages::body::media_description(o1) is None);
    assert(media_descriptions_of(seq![o1]) =~= Seq::<Seq<char>>::empty());
}

/// The objects of the body object and a text storage: the template name of
/// the first, the paragraphs of the second's text, no media.
proof fn lemma_body_and_text_objects(o1: ObjectView, o2: ObjectView, t: Option<Seq<char>>, j: Seq<char>, m: StyleMapsView)
    requires
        o1.message_type == Some(10001u64),
        spec_decode_message(o1.payload) matches Ok(fs) && (match crate::iwa::nested_fields(fs, 1) {
            Some(inner) => text_of(inner, 3),
            None => None,
        }) == t,
        o2.message_type == Some(2001u64),
        spec_decode_message(o2.payload) matches Ok(fs) && text_of(fs, 3) == Some(j),
        spec_style_runs(o2.payload, m.para) == Seq::<(usize, Seq<char>)>::empty(),
        spec_id_runs(o2.payload, 7) == Seq::<(usize, u64)>::empty(),
        spec_id_runs(o2.payload, 8) == Seq::<(usize, u64)>::empty(),
    ensures
        spec_template_name(seq![o1, o2]) == t,
        body_paragraphs(seq![o1, o2], m) == text_paragraphs(j, seq![], seq![], seq![], m),
        media_descriptions_of(seq![o1, o2]) == Seq::<Seq<char>>::empty(),
{
    lemma_body_object_alone(o1, t, m);
    let objs = seq![o1, o2];
    assert(first_of_type(objs, 10001, 0) == Some(0int));
    assert(objs.drop_last() =~= seq![o1]);
    assert(objs.last() == o2);
    assert(body_paragraphs(objs, m) =~= text_paragraphs(j, seq![], seq![], seq![], m));
    assert(media_descriptions_of(objs) =~= Seq::<Seq<char>>::empty());
}

proof fn lemma_document_iwa_with_text(b: BodyView, m: StyleMapsView)
    requires
        b.text_fragments.len() > 0,
        pages_document_iwa(b).len() <= usize::MAX,
    ensures
        spec_decode_archive(pages_document_iwa(b)) matches Ok(a) && spec_template_name(spec_objects(a))
            == b.template_name && media_descriptions_of(spec_objects(a)) == Seq::<Seq<char>>::empty() && body_paragraphs(
            spec_objects(a),
            m,
        ) == text_paragraphs(join(b.text_fragments, seq!['\n']), seq![], seq![], seq![], m),
{
    let empty_refs: Seq<crate::iwa::IwaObjectReference> = seq![];
    let p1 = wp_body_payload(b.template_name, true);
    let j = join(b.text_fragments, seq!['\n']);
    let p2 = spec_encode_fields(seq![bfield(3, encode_utf8(j))]);
    let refs1 = one_ref(TSWP_BASE_ID, 10001, 0);
    assert(pages_document_iwa(b) == single_object_archive(WP_BODY_ID, 10001, p1, refs1) + single_object_archive(
        TSWP_BASE_ID,
        2001,
        p2,
        empty_refs,
    ));
    lemma_two_objects_read(WP_BODY_ID, 10001, p1, refs1, TSWP_BASE_ID, 2001, p2, empty_refs);
    lemma_payload_fits(WP_BODY_ID, 10001, p1, refs1);
    lemma_payload_fits(TSWP_BASE_ID, 2001, p2, empty_refs);
    lemma_wp_payload_read(b.template_name, true);
    lemma_text_payload_read(j, m.para);
    lemma_body_and_text_objects(
        written_object(WP_BODY_ID, 10001, p1, refs1),
        written_object(TSWP_BASE_ID, 2001, p2, empty_refs),
        b.template_name,
        j,
        m,
    );
}

proof fn lemma_document_iwa_without_text(b: BodyView, m: StyleMapsView)
    requires
        b.text_fragments.len() == 0,
        pages_document_iwa(b).len() <= usize::MAX,
    ensures
        spec_decode_archive(pages_document_iwa(b)) matches Ok(a) && spec_template_name(spec_objects(a))
            == b.template_name && media_descriptions_of(spec_objects(a)) == Seq::<Seq<char>>::empty() && body_paragraphs(
            spec_objects(a),
            m,
        ) == Seq::<ParagraphView>::empty(),
{
    let empty_refs: Seq<crate::iwa::IwaObjectReference> = seq![];
    let p1 = wp_body_payload(b.template_name, false);
    assert(pages_document_iwa(b) == single_object_archive(WP_BODY_ID, 10001, p1, empty_refs));
    lemma_single_object_read(WP_BODY_ID, 10001, p1, empty_refs);
    lemma_payload_fits(WP_BODY_ID, 10001, p1, empty_refs);
    lemma_wp_payload_read(b.template_name, false);
    lemma_body_object_alone(written_object(WP_BODY_ID, 10001, p1, empty_refs), b.template_name, m);
}

/// The style registries of the stylesheet archive a written package holds.
pub open spec fn written_style_maps() -> StyleMapsView {
    style_maps_of(spec_objects(spec_decode_archive(crate::encode::stylesheet_archive(pages_ids()))->Ok_0))
}

/// The member paths of a written package, in order.
proof fn lemma_pages_paths(b: BodyView)
    ensures
        pages_members(b).len() == 9,
        pages_members(b)[3] == ("Index/Document.iwa"@, pages_document_iwa(b)),
        pages_members(b)[8] == ("Index/DocumentStylesheet.iwa"@, crate::encode::stylesheet_archive(pages_ids())),
        forall|j: int| 0 <= j < 3 ==> (#[trigger] pages_members(b)[j]).0 != pages_members(b)[3].0,
        forall|j: int| 0 <= j < 8 ==> (#[trigger] pages_members(b)[j]).0 != pages_members(b)[8].0,
{
    let ws = pages_members(b);
    reveal_strlit("Metadata/Properties.plist");
    reveal_strlit("Metadata/DocumentIdentifier");
    reveal_strlit("Metadata/BuildVersionHistory.plist");
    reveal_strlit("Index/Document.iwa");
    reveal_strlit("Index/DocumentMetadata.iwa");
    reveal_strlit("Index/Metadata.iwa");
    reveal_strlit("Index/ObjectContainer.iwa");
    reveal_strlit("Index/AnnotationAuthorStorage.iwa");
    reveal_strlit("Index/DocumentStylesheet.iwa");
    assert forall|j: int| 0 <= j < 3 implies (#[trigger] ws[j]).0 != ws[3].0 by {
        assert(ws[j].0.len() != ws[3].0.len() || ws[j].0[6] != ws[3].0[6]);
    }
    assert forall|j: int| 0 <= j < 8 implies (#[trigger] ws[j]).0 != ws[8].0 by {
        assert(ws[j].0.len() != ws[8].0.len());
    }
}

/// The body read back from the bytes written for `b`: its template name, no
/// media, and the paragraphs of its newline-joined text fragments, classified.
proof fn lemma_written_body(b: BodyView)
    requires
        zip_fits(member_bytes(pages_members(b))),
        spec_zip(member_bytes(pages_members(b))).len() <= usize::MAX,
        end_record_unambiguous(spec_zip(member_bytes(pages_members(b)))),
    ensures
        spec_package_entries(spec_zip(member_bytes(pages_members(b)))) == Ok::<Seq<EntryView>, crate::error::Error>(
            written_package(pages_members(b)).entries,
        ),
        spec_body(written_package(pages_members(b))) matches Ok(d) && d.template_name == b.template_name
            && d.media_descriptions == Seq::<Seq<char>>::empty() && d.paragraphs == (if b.text_fragments.len() > 0 {
            text_paragraphs(join(b.text_fragments, seq!['\n']), seq![], seq![], seq![], written_style_maps())
        } else {
            Seq::<ParagraphView>::empty()
        }) && d.title == classify(d.paragraphs).title && d.headings == classify(d.paragraphs).headings
            && d.text_fragments == classify(d.paragraphs).fragments,
{
    let ws = pages_members(b);
    lemma_pages_paths(b);
    lemma_member_read(ws, 3);
    lemma_member_read(ws, 8);
    let ss = crate::encode::stylesheet_archive(pages_ids());
    lemma_single_object_read(1002, 2, crate::encode::stylesheet_body(pages_ids()), one_ref(1, 1, 0));
    let m = written_style_maps();
    if b.text_fragments.len() > 0 {
        lemma_document_iwa_with_text(b, m);
    } else {
        lemma_document_iwa_without_text(b, m);
    }
}

/// Law: the bytes [`Body::to_pages_bytes`](crate::pages::body::Body) writes
/// read back (through `Package::from_bytes` and `Body::from_package`) as a
/// body with the same template name and no media descriptions, whenever
/// they form a plain ZIP archive that fits in memory and whose end record
/// holds no second end-record signature.
pub proof fn lemma_pages_template_round_trip(b: BodyView)
    requires
        zip_fits(member_bytes(pages_members(b))),
        spec_zip(member_bytes(pages_members(b))).len() <= usize::MAX,
        end_record_unambiguous(spec_zip(member_bytes(pages_members(b)))),
    ensures
        ({
            let z = spec_zip(member_bytes(pages_members(b)));
            spec_package_entries(z) matches Ok(es) && spec_body(PackageView { bytes: z, entries: es }) matches Ok(d)
                && d.template_name == b.template_name && d.media_descriptions == Seq::<Seq<char>>::empty()
        }),
{
    lemma_written_body(b);
}

/// Law: when the text fragments of a body are distinct plain texts
/// (non-empty, without white space at either end, control characters or
/// inline object placeholders), the bytes [`Body::to_pages_bytes`] writes
/// read back as a body with the same text fragments, each a plain
/// paragraph, and with no title and no headings; the conditions on the ZIP
/// archive are those of [`lemma_pages_template_round_trip`].
pub proof fn lemma_pages_text_round_trip(b: BodyView)
    requires
        zip_fits(member_bytes(pages_members(b))),
        spec_zip(member_bytes(pages_members(b))).len() <= usize::MAX,
        end_record_unambiguous(spec_zip(member_bytes(pages_members(b)))),
        forall|i: int| 0 <= i < b.text_fragments.len() ==> plain_fragment(#[trigger] b.text_fragments[i]),
        b.text_fragments.no_duplicates(),
    ensures
        ({
            let z = spec_zip(member_bytes(pages_members(b)));
            spec_package_entries(z) matches Ok(es) && spec_body(PackageView { bytes: z, entries: es }) matches Ok(d)
                && d.text_fragments == b.text_fragments && d.paragraphs == plain_paragraphs(b.text_fragments)
                && d.title is None && d.headings == Seq::<Seq<char>>::empty()
        }),
{
    lemma_written_body(b);
    let fs = b.text_fragments;
    lemma_joined_text_paragraphs(fs, written_style_maps());
    lemma_classify_plain(fs);
    if fs.len() == 0 {
        assert(plain_paragraphs(fs) =~= Seq::<ParagraphView>::empty());
    }
}

} // verus!
