//! Laws of the Keynote encoder: what a written presentation reads back as.
use crate::encode::{header_bytes, header_descriptor, one_ref, single_object_archive};
use crate::iwa::{
    ObjectView,
    archive_stream, frames_seq, lemma_archive_then_streams, spec_decode_archive, spec_encode_archive, spec_objects,
    streams_seq, IwaObjectReference,
};
use crate::iwa_laws::{
    lemma_four_objects_read, lemma_frames_one, lemma_frames_three, lemma_single_object_read, lemma_two_objects_read, lemma_written_header, written_object,
};
use crate::keynote::presentation::{
    add_fragments, drawable_reference, first_of_type, placeholder_from, spec_slide_title, spec_tswp_text, text_for_id,
    tswp_placeholder_text, is_slide_path, object_replacement, slide_prefix, spec_presentation,
    spec_slide, spec_slides_from, spec_theme_name, template_prefix, tswp_raw_text, PresentationView, SlideView,
    insert_by_path, sort_by_path,
    DRAWABLE_TYPE, PLACEHOLDER_TITLE, THEME_TYPE, TSWP_TEXT_TYPE,
};
use crate::keynote::write::{
    body_fragments, decimal, document_iwa, drawable_payload, keynote_members, real_slides, slide_members, slide_path,
    spec_slide_iwa,
    text_payload, THEME_ID, theme_payload, SLIDE_BODY_DRAWABLE_ID, SLIDE_BODY_TEXT_ID, SLIDE_TITLE_DRAWABLE_ID,
    SLIDE_TITLE_TEXT_ID,
};
use crate::package::{member_bytes, spec_package_entries, spec_read_archive, spec_zip, zip_fits, EntryView, PackageView};
use crate::protobuf::{encodable_field, first_field, lemma_message_roundtrip, spec_encode_fields};
use crate::inspect::chars_less_from;
use crate::keynote::order_laws::{
    lemma_fits_width, lemma_less_irreflexive, lemma_slide_before_template_w, lemma_slide_path_shape,
    lemma_slide_paths_ordered_w, lemma_sort_moves_first_last, template_path,
};
use crate::package::LoadError;
use crate::text::{clean_piece, control_fragments, has_prefix, join, lemma_joined_lines_fragments};
use crate::zip_laws::{end_record_unambiguous, lemma_member_read, written_package};
use vstd::prelude::*;

verus! {

/// Two written one-object archives, one after the other, decode.
proof fn lemma_two_archives_decode(
    r1: u64,
    k1: u64,
    b1: Seq<u8>,
    r2: u64,
    k2: u64,
    b2: Seq<u8>,
)
    requires
        (single_object_archive(r1, k1, b1, seq![]) + single_object_archive(r2, k2, b2, seq![])).len() <= usize::MAX,
    ensures
        spec_decode_archive(single_object_archive(r1, k1, b1, seq![]) + single_object_archive(r2, k2, b2, seq![]))
            is Ok,
{
    let none: Seq<IwaObjectReference> = seq![];
    let h1 = header_bytes(r1, k1, b1.len() as usize, none);
    let s2 = archive_stream(header_bytes(r2, k2, b2.len() as usize, none), b2);
    lemma_written_header(r1, k1, b1, none);
    let ss = seq![s2];
    lemma_frames_one(s2);
    assert(single_object_archive(r1, k1, b1, none) == spec_encode_archive(h1, b1));
    lemma_archive_then_streams(h1, b1, ss);
}

/// Four written one-object archives, one after the other, decode.
#[verifier::spinoff_prover]
#[verifier::rlimit(60)]
proof fn lemma_four_archives_decode(
    r1: u64,
    k1: u64,
    b1: Seq<u8>,
    r2: u64,
    k2: u64,
    b2: Seq<u8>,
    r3: u64,
    k3: u64,
    b3: Seq<u8>,
    r4: u64,
    k4: u64,
    b4: Seq<u8>,
)
    requires
        (single_object_archive(r1, k1, b1, seq![]) + single_object_archive(r2, k2, b2, seq![]) + single_object_archive(
            r3,
            k3,
            b3,
            seq![],
        ) + single_object_archive(r4, k4, b4, seq![])).len() <= usize::MAX,
    ensures
        spec_decode_archive(
            single_object_archive(r1, k1, b1, seq![]) + single_object_archive(r2, k2, b2, seq![])
                + single_object_archive(r3, k3, b3, seq![]) + single_object_archive(r4, k4, b4, seq![]),
        ) is Ok,
{
    let none: Seq<IwaObjectReference> = seq![];
    let h1 = header_bytes(r1, k1, b1.len() as usize, none);
    let s2 = archive_stream(header_bytes(r2, k2, b2.len() as usize, none), b2);
    let s3 = archive_stream(header_bytes(r3, k3, b3.len() as usize, none), b3);
    let s4 = archive_stream(header_bytes(r4, k4, b4.len() as usize, none), b4);
    lemma_written_header(r1, k1, b1, none);
    let ss = seq![s2, s3, s4];
    lemma_frames_three(s2, s3, s4);
    let e1 = single_object_archive(r1, k1, b1, none);
    let e2 = single_object_archive(r2, k2, b2, none);
    let e3 = single_object_archive(r3, k3, b3, none);
    let e4 = single_object_archive(r4, k4, b4, none);
    assert(e1 == spec_encode_archive(h1, b1));
    assert(frames_seq(ss) == e2 + e3 + e4);
    assert(e1 + e2 + e3 + e4 =~= e1 + (e2 + e3 + e4));
    lemma_archive_then_streams(h1, b1, ss);
}

/// A written slide archive decodes.
proof fn lemma_slide_iwa_decodes(s: SlideView)
    requires
        spec_slide_iwa(s).len() <= usize::MAX,
    ensures
        spec_decode_archive(spec_slide_iwa(s)) is Ok,
{
    let title = match s.title {
        Some(t) => t,
        None => seq![],
    };
    let body = body_fragments(s);
    if body.len() > 0 {
        lemma_four_archives_decode(
            10,
            2001,
            text_payload(title),
            1,
            7,
            drawable_payload(10, 2),
            11,
            2001,
            text_payload(join(body, seq!['\n'])),
            2,
            7,
            drawable_payload(11, 3),
        );
    } else {
        lemma_two_archives_decode(10, 2001, text_payload(title), 1, 7, drawable_payload(10, 2));
    }
}

/// The objects a written slide archive holds: the title text and its
/// drawable, then, when there is body text, the body text and its drawable.
pub open spec fn slide_objects(s: SlideView) -> Seq<ObjectView> {
    let title = match s.title {
        Some(t) => t,
        None => seq![],
    };
    let head = seq![
        written_object(SLIDE_TITLE_TEXT_ID, TSWP_TEXT_TYPE, text_payload(title), seq![]),
        written_object(SLIDE_TITLE_DRAWABLE_ID, DRAWABLE_TYPE, drawable_payload(SLIDE_TITLE_TEXT_ID, PLACEHOLDER_TITLE), seq![]),
    ];
    let body = body_fragments(s);
    if body.len() > 0 {
        head + seq![
            written_object(SLIDE_BODY_TEXT_ID, TSWP_TEXT_TYPE, text_payload(join(body, seq!['\n'])), seq![]),
            written_object(SLIDE_BODY_DRAWABLE_ID, DRAWABLE_TYPE, drawable_payload(SLIDE_BODY_TEXT_ID, 3), seq![]),
        ]
    } else {
        head
    }
}

/// A written slide archive reads back as [`slide_objects`].
#[verifier::spinoff_prover]
#[verifier::rlimit(40)]
proof fn lemma_slide_objects(s: SlideView)
    requires
        spec_slide_iwa(s).len() <= usize::MAX,
    ensures
        spec_decode_archive(spec_slide_iwa(s)) matches Ok(a) && spec_objects(a) == slide_objects(s),
{
    let title = match s.title {
        Some(t) => t,
        None => seq![],
    };
    let body = body_fragments(s);
    if body.len() > 0 {
        lemma_four_objects_read(
            10,
            2001,
            text_payload(title),
            1,
            7,
            drawable_payload(10, 2),
            11,
            2001,
            text_payload(join(body, seq!['\n'])),
            2,
            7,
            drawable_payload(11, 3),
        );
    } else {
        lemma_two_objects_read(10, 2001, text_payload(title), seq![], 1, 7, drawable_payload(10, 2), seq![]);
    }
}

/// A written text storage object reads back with its text.
proof fn lemma_text_read(id: u64, t: Seq<char>)
    requires
        text_payload(t).len() <= usize::MAX,
    ensures
        tswp_raw_text(written_object(id, TSWP_TEXT_TYPE, text_payload(t), seq![])) == Some(t),
{
    let f = crate::encode::bfield(3, vstd::utf8::encode_utf8(t));
    lemma_message_roundtrip(seq![f]);
    vstd::utf8::encode_utf8_valid_utf8(t);
    vstd::utf8::encode_utf8_decode_utf8(t);
    assert(first_field(seq![f], 3) == Some(f));
}

/// A written placeholder drawable of kind `kind` points at `id` for that
/// kind and at nothing for another.
proof fn lemma_drawable_read(d: u64, id: u64, kind: u64, k: u64)
    requires
        drawable_payload(id, kind).len() <= usize::MAX,
    ensures
        drawable_reference(written_object(d, DRAWABLE_TYPE, drawable_payload(id, kind), seq![]), k) == (if k
            == kind {
            Some(id)
        } else {
            None
        }),
{
    let f3 = seq![crate::encode::vfield(1, id)];
    let e3 = spec_encode_fields(f3);
    let f2 = seq![crate::encode::bfield(4, e3)];
    let e2 = spec_encode_fields(f2);
    let f1 = seq![crate::encode::bfield(1, e2), crate::encode::vfield(2, kind)];
    assert(spec_encode_fields(f1) == crate::protobuf::spec_encode_field(f1[0]) + spec_encode_fields(f1.drop_first()));
    assert(e2.len() <= usize::MAX);
    assert(e2 == crate::protobuf::spec_encode_field(f2[0]) + spec_encode_fields(f2.drop_first()));
    assert(e3.len() <= usize::MAX);
    assert forall|i: int| 0 <= i < f1.len() implies encodable_field(#[trigger] f1[i]) by {}
    lemma_message_roundtrip(f1);
    assert(encodable_field(f2[0]));
    lemma_message_roundtrip(f2);
    assert(encodable_field(f3[0]));
    lemma_message_roundtrip(f3);
    assert(first_field(f1, 1) == Some(f1[0]));
    assert(f1.drop_first() =~= seq![f1[1]]);
    assert(first_field(f1.drop_first(), 2) == Some(f1[1]));
    assert(first_field(f1, 2) == Some(f1[1]));
    assert(first_field(f2, 4) == Some(f2[0]));
    assert(first_field(f3, 1) == Some(f3[0]));
}

/// Fragments that are new, distinct and free of U+FFFC are all added.
proof fn lemma_add_fragments(acc: Seq<Seq<char>>, fs: Seq<Seq<char>>)
    requires
        fs.no_duplicates(),
        forall|i: int| 0 <= i < fs.len() ==> !(#[trigger] fs[i]).contains(object_replacement()),
        forall|i: int| 0 <= i < fs.len() ==> !acc.contains(#[trigger] fs[i]),
    ensures
        add_fragments(acc, fs) == acc + fs,
    decreases fs.len(),
{
    if fs.len() == 0 {
        assert(acc + fs =~= acc);
    } else {
        let rest = fs.drop_first();
        let acc2 = acc.push(fs[0]);
        assert forall|i: int| 0 <= i < rest.len() implies !acc2.contains(#[trigger] rest[i]) by {
            assert(rest[i] == fs[i + 1]);
            if acc2.contains(rest[i]) {
                let j = choose|j: int| 0 <= j < acc2.len() && acc2[j] == rest[i];
                if j < acc.len() {
                    assert(acc.contains(fs[i + 1]));
                } else {
                    assert(fs[0] == fs[i + 1]);
                }
            }
        }
        assert forall|i: int| 0 <= i < rest.len() implies !(#[trigger] rest[i]).contains(object_replacement()) by {
            assert(rest[i] == fs[i + 1]);
        }
        assert(rest.no_duplicates()) by {
            assert forall|i: int, j: int| 0 <= i < rest.len() && 0 <= j < rest.len() && i != j implies rest[i] != rest[j] by {
                assert(rest[i] == fs[i + 1] && rest[j] == fs[j + 1]);
            }
        }
        lemma_add_fragments(acc2, rest);
        assert(acc2 + rest =~= acc + fs);
    }
}

/// Filtering with a predicate that every element past the first meets
/// keeps all of them, and the first exactly when it meets it too.
proof fn lemma_filter_cases(fs: Seq<Seq<char>>, p: spec_fn(Seq<char>) -> bool)
    requires
        forall|i: int| 0 < i < fs.len() ==> p(#[trigger] fs[i]),
    ensures
        fs.len() == 0 ==> fs.filter(p) == fs,
        fs.len() > 0 ==> fs.filter(p) == (if p(fs[0]) {
            fs
        } else {
            fs.drop_first()
        }),
    decreases fs.len(),
{
    reveal_with_fuel(Seq::<_>::filter, 1);
    if fs.len() == 0 {
        assert(fs.filter(p) =~= fs);
    } else if fs.len() == 1 {
        assert(fs.drop_last() =~= Seq::<Seq<char>>::empty());
        assert(Seq::<Seq<char>>::empty().filter(p) =~= Seq::<Seq<char>>::empty());
        if p(fs[0]) {
            assert(Seq::<Seq<char>>::empty().push(fs[0]) =~= fs);
        } else {
            assert(fs.drop_first() =~= Seq::<Seq<char>>::empty());
        }
    } else {
        let init = fs.drop_last();
        assert forall|i: int| 0 < i < init.len() implies p(#[trigger] init[i]) by {
            assert(init[i] == fs[i]);
        }
        lemma_filter_cases(init, p);
        assert(p(fs[fs.len() - 1]));
        assert(init[0] == fs[0]);
        if p(fs[0]) {
            assert(init.push(fs.last()) =~= fs);
        } else {
            assert(init.drop_first().push(fs.last()) =~= fs.drop_first());
        }
    }
}

/// A slide that reads back as written: every text fragment non-empty,
/// trimmed, free of control characters and of U+FFFC, no fragment twice,
/// and the title, when there is one, its first fragment.
pub open spec fn plain_slide(s: SlideView) -> bool {
    &&& forall|i: int| 0 <= i < s.text_fragments.len() ==> clean_piece(#[trigger] s.text_fragments[i])
    &&& forall|i: int| 0 <= i < s.text_fragments.len() ==> !(#[trigger] s.text_fragments[i]).contains(
        object_replacement(),
    )
    &&& s.text_fragments.no_duplicates()
    &&& s.title matches Some(t) ==> s.text_fragments.len() > 0 && s.text_fragments[0] == t
}

/// The body of a plain slide: its fragments after the title, or all of
/// them without one.
proof fn lemma_plain_body(s: SlideView)
    requires
        plain_slide(s),
    ensures
        body_fragments(s) == (if s.title is Some {
            s.text_fragments.drop_first()
        } else {
            s.text_fragments
        }),
{
    let fs = s.text_fragments;
    assert forall|i: int| 0 < i < fs.len() implies (s.title is None || #[trigger] fs[i] != s.title->Some_0) by {
        if s.title is Some {
            assert(fs[0] != fs[i]);
        }
    }
    lemma_filter_cases(fs, |f: Seq<char>| s.title is None || f != s.title->Some_0);
}

/// The payloads of a written slide's objects fit in memory.
proof fn lemma_slide_payloads_fit(s: SlideView)
    requires
        spec_slide_iwa(s).len() <= usize::MAX,
    ensures
        text_payload(
            match s.title {
                Some(t) => t,
                None => seq![],
            },
        ).len() <= usize::MAX,
        drawable_payload(SLIDE_TITLE_TEXT_ID, PLACEHOLDER_TITLE).len() <= usize::MAX,
        body_fragments(s).len() > 0 ==> text_payload(join(body_fragments(s), seq!['\n'])).len() <= usize::MAX,
        body_fragments(s).len() > 0 ==> drawable_payload(SLIDE_BODY_TEXT_ID, 3).len() <= usize::MAX,
{
    let title = match s.title {
        Some(t) => t,
        None => seq![],
    };
    let none: Seq<IwaObjectReference> = seq![];
    lemma_written_header(10, 2001, text_payload(title), none);
    lemma_written_header(1, 7, drawable_payload(10, 2), none);
    let body = body_fragments(s);
    if body.len() > 0 {
        lemma_written_header(11, 2001, text_payload(join(body, seq!['\n'])), none);
        lemma_written_header(2, 7, drawable_payload(11, 3), none);
    }
}

/// A clean piece is one fragment, and joins back to itself.
proof fn lemma_single_piece(t: Seq<char>, sep: Seq<char>)
    requires
        clean_piece(t),
    ensures
        control_fragments(t) == seq![t],
        join(seq![t], sep) == t,
{
    assert(seq![t][0] == t);
    assert forall|i: int| 0 <= i < seq![t].len() implies clean_piece(#[trigger] seq![t][i]) by {}
    lemma_joined_lines_fragments(seq![t]);
}

/// Empty text has no fragments.
proof fn lemma_empty_pieces(sep: Seq<char>)
    ensures
        control_fragments(Seq::<char>::empty()) == Seq::<Seq<char>>::empty(),
        join(Seq::<Seq<char>>::empty(), sep) == Seq::<char>::empty(),
{
    lemma_joined_lines_fragments(Seq::<Seq<char>>::empty());
}

/// Objects laid out as a written slide: a text object with identifier 10
/// holding `raw`, the title drawable naming it, and, with a body, a second
/// text object and a drawable of another kind.
pub open spec fn slide_layout(objs: Seq<ObjectView>, raw: Seq<char>, body: Option<Seq<char>>) -> bool {
    &&& objs.len() == (if body is Some { 4int } else { 2int })
    &&& objs[0].message_type == Some(TSWP_TEXT_TYPE) && objs[0].identifier == Some(10u64)
    &&& tswp_raw_text(objs[0]) == Some(raw)
    &&& objs[1].message_type == Some(DRAWABLE_TYPE)
    &&& drawable_reference(objs[1], PLACEHOLDER_TITLE) == Some(10u64)
    &&& body matches Some(b) ==> {
        &&& objs[2].message_type == Some(TSWP_TEXT_TYPE) && objs[2].identifier == Some(11u64)
        &&& tswp_raw_text(objs[2]) == Some(b)
        &&& objs[3].message_type == Some(DRAWABLE_TYPE)
        &&& drawable_reference(objs[3], PLACEHOLDER_TITLE) is None
    }
}

/// The title placeholder of objects laid out as a slide reads `raw` back,
/// when it is one clean piece, and nothing when it is empty.
#[verifier::spinoff_prover]
proof fn lemma_layout_title(objs: Seq<ObjectView>, raw: Seq<char>, body: Option<Seq<char>>)
    requires
        slide_layout(objs, raw, body),
        raw.len() == 0 || clean_piece(raw),
    ensures
        spec_slide_title(objs) == (if raw.len() == 0 {
            None::<Seq<char>>
        } else {
            Some(raw)
        }),
{
    let sp = seq![' '];
    let o0 = objs[0];
    if raw.len() == 0 {
        lemma_empty_pieces(sp);
        assert(raw =~= Seq::<char>::empty());
        assert(tswp_placeholder_text(o0, sp) is None);
    } else {
        lemma_single_piece(raw, sp);
        assert(tswp_placeholder_text(o0, sp) == Some(raw));
    }
    let two = objs.take(2);
    assert(two.drop_last() =~= seq![o0]);
    assert(seq![o0].drop_last() =~= Seq::<ObjectView>::empty());
    assert(seq![o0].last() == o0);
    assert(two.last() == objs[1]);
    assert(text_for_id(Seq::<ObjectView>::empty(), 10, sp) is None);
    assert(text_for_id(seq![o0], 10, sp) == tswp_placeholder_text(o0, sp));
    assert(text_for_id(two, 10, sp) == text_for_id(seq![o0], 10, sp));
    if body is Some {
        let three = objs.take(3);
        assert(objs.drop_last() =~= three);
        assert(three.drop_last() =~= two);
        assert(three.last() == objs[2]);
        assert(objs.last() == objs[3]);
        assert(text_for_id(three, 10, sp) == text_for_id(two, 10, sp));
        assert(drawable_reference(objs[2], PLACEHOLDER_TITLE) is None);
    } else {
        assert(objs =~= two);
    }
    assert(text_for_id(objs, 10, sp) == tswp_placeholder_text(o0, sp));
    assert(drawable_reference(o0, PLACEHOLDER_TITLE) is None);
    assert(placeholder_from(objs, 2, sp, 0) == placeholder_from(objs, 2, sp, 1));
    if raw.len() == 0 {
        assert(placeholder_from(objs, 2, sp, objs.len() as int) is None);
        if body is Some {
            assert(placeholder_from(objs, 2, sp, 3) is None);
            assert(placeholder_from(objs, 2, sp, 2) is None);
        }
    }
}

/// The text fragments of objects laid out as a slide: those of the first
/// text, then those of the second.
#[verifier::spinoff_prover]
proof fn lemma_layout_text(objs: Seq<ObjectView>, raw: Seq<char>, body: Option<Seq<char>>)
    requires
        slide_layout(objs, raw, body),
    ensures
        spec_tswp_text(objs) == (match body {
            Some(b) => add_fragments(add_fragments(seq![], control_fragments(raw)), control_fragments(b)),
            None => add_fragments(seq![], control_fragments(raw)),
        }),
{
    let o0 = objs[0];
    assert(seq![o0].drop_last() =~= Seq::<ObjectView>::empty());
    assert(seq![o0].last() == o0);
    let two = objs.take(2);
    assert(two.drop_last() =~= seq![o0]);
    assert(two.last() == objs[1]);
    let h = add_fragments(seq![], control_fragments(raw));
    assert(spec_tswp_text(Seq::<ObjectView>::empty()) == Seq::<Seq<char>>::empty());
    assert(spec_tswp_text(seq![o0]) == h);
    assert(spec_tswp_text(two) == h);
    if body is Some {
        let three = objs.take(3);
        assert(objs.drop_last() =~= three);
        assert(three.drop_last() =~= two);
        assert(three.last() == objs[2]);
        assert(objs.last() == objs[3]);
        assert(spec_tswp_text(three) == add_fragments(h, control_fragments(body->Some_0)));
    } else {
        assert(objs =~= two);
    }
}

/// The fragments of a clean piece, or of nothing, added to nothing.
proof fn lemma_head_fragments(raw: Seq<char>)
    requires
        raw.len() == 0 || clean_piece(raw),
        !raw.contains(object_replacement()),
    ensures
        add_fragments(seq![], control_fragments(raw)) == (if raw.len() == 0 {
            Seq::<Seq<char>>::empty()
        } else {
            seq![raw]
        }),
{
    let empty: Seq<Seq<char>> = seq![];
    if raw.len() == 0 {
        lemma_empty_pieces(seq!['\n']);
        assert(raw =~= Seq::<char>::empty());
        lemma_add_fragments(empty, empty);
        assert(empty + empty =~= empty);
    } else {
        lemma_single_piece(raw, seq!['\n']);
        assert(seq![raw].no_duplicates());
        assert(seq![raw][0] == raw);
        lemma_add_fragments(empty, seq![raw]);
        assert(empty + seq![raw] =~= seq![raw]);
    }
}

/// A written plain slide's objects are laid out as a slide.
#[verifier::spinoff_prover]
proof fn lemma_written_layout(s: SlideView)
    requires
        spec_slide_iwa(s).len() <= usize::MAX,
    ensures
        slide_layout(
            slide_objects(s),
            match s.title {
                Some(t) => t,
                None => seq![],
            },
            if body_fragments(s).len() > 0 {
                Some(join(body_fragments(s), seq!['\n']))
            } else {
                None
            },
        ),
{
    let title = match s.title {
        Some(t) => t,
        None => seq![],
    };
    lemma_slide_payloads_fit(s);
    lemma_text_read(10, title);
    lemma_drawable_read(1, 10, 2, 2);
    let body = body_fragments(s);
    if body.len() > 0 {
        lemma_text_read(11, join(body, seq!['\n']));
        lemma_drawable_read(2, 11, 3, 2);
    }
}

/// The body of a plain slide, joined with newlines, adds its fragments
/// after the title.
proof fn lemma_body_fragments_added(s: SlideView, head: Seq<Seq<char>>)
    requires
        plain_slide(s),
        body_fragments(s).len() > 0,
        head == (match s.title {
            Some(t) => seq![t],
            None => Seq::<Seq<char>>::empty(),
        }),
    ensures
        add_fragments(head, control_fragments(join(body_fragments(s), seq!['\n']))) == head + body_fragments(s),
{
    lemma_plain_body(s);
    let fs = s.text_fragments;
    let body = body_fragments(s);
    assert forall|i: int| 0 <= i < body.len() implies clean_piece(#[trigger] body[i]) by {
        if s.title is Some {
            assert(body[i] == fs[i + 1]);
        }
    }
    lemma_joined_lines_fragments(body);
    assert forall|i: int| 0 <= i < body.len() implies !(#[trigger] body[i]).contains(object_replacement()) by {
        if s.title is Some {
            assert(body[i] == fs[i + 1]);
        }
    }
    assert forall|i: int| 0 <= i < body.len() implies !head.contains(#[trigger] body[i]) by {
        if s.title is Some {
            assert(body[i] == fs[i + 1]);
            assert(fs[i + 1] != fs[0]);
            assert(head[0] == fs[0]);
            assert(head.len() == 1);
        }
    }
    assert(body.no_duplicates()) by {
        if s.title is Some {
            assert forall|i: int, j: int| 0 <= i < body.len() && 0 <= j < body.len() && i != j implies body[i]
                != body[j] by {
                assert(body[i] == fs[i + 1] && body[j] == fs[j + 1]);
            }
        }
    }
    lemma_add_fragments(head, body);
}

/// Law: a slide archive written by
/// [`Presentation::to_keynote_bytes`](crate::keynote::presentation::Presentation)
/// reads back, under any path, with the slide's title and its text
/// fragments, in order, for every plain slide.
pub proof fn lemma_slide_archive_round_trip(s: SlideView, path: Seq<char>)
    requires
        plain_slide(s),
        spec_slide_iwa(s).len() <= usize::MAX,
    ensures
        spec_decode_archive(spec_slide_iwa(s)) matches Ok(a) && spec_slide(path, spec_objects(a)).title == s.title
            && spec_slide(path, spec_objects(a)).text_fragments == s.text_fragments,
{
    lemma_slide_objects(s);
    lemma_written_layout(s);
    lemma_plain_body(s);
    let objs = slide_objects(s);
    let fs = s.text_fragments;
    let raw = match s.title {
        Some(t) => t,
        None => seq![],
    };
    let body = body_fragments(s);
    let b = if body.len() > 0 {
        Some(join(body, seq!['\n']))
    } else {
        None
    };
    if s.title is Some {
        assert(clean_piece(fs[0]));
        assert(!fs[0].contains(object_replacement()));
    } else {
        assert(raw.len() == 0);
    }
    lemma_layout_title(objs, raw, b);
    lemma_layout_text(objs, raw, b);
    lemma_head_fragments(raw);
    let head = if raw.len() == 0 {
        Seq::<Seq<char>>::empty()
    } else {
        seq![raw]
    };
    if body.len() > 0 {
        lemma_body_fragments_added(s, head);
        assert(head + body =~= fs);
    } else {
        assert(head =~= fs);
    }
}

/// The written `Index/Document.iwa` reads back with the theme name.
proof fn lemma_theme_read(theme: Option<Seq<char>>)
    requires
        document_iwa(theme).len() <= usize::MAX,
    ensures
        spec_decode_archive(document_iwa(theme)) matches Ok(a) && spec_theme_name(spec_objects(a)) == theme,
{
    let refs = one_ref(1, 1, 0);
    let payload = theme_payload(theme);
    lemma_single_object_read(THEME_ID, THEME_TYPE, payload, refs);
    lemma_written_header(THEME_ID, THEME_TYPE, payload, refs);
    crate::iwa::lemma_archive_stream_fits(header_bytes(THEME_ID, THEME_TYPE, payload.len() as usize, refs), payload);
    let inner: Seq<crate::protobuf::ProtoFieldView> = match theme {
        Some(name) => seq![crate::encode::bfield(3, vstd::utf8::encode_utf8(name))],
        None => seq![],
    };
    let enc = spec_encode_fields(inner);
    let outer = seq![crate::encode::bfield(1, enc)];
    assert(outer[0].number == 1);
    lemma_message_roundtrip(outer);
    assert(spec_encode_fields(outer) == crate::protobuf::spec_encode_field(outer[0]) + spec_encode_fields(
        outer.drop_first(),
    ));
    assert(enc.len() <= usize::MAX);
    assert forall|i: int| 0 <= i < inner.len() implies encodable_field(#[trigger] inner[i]) by {
        assert(inner[i].number == 3);
    }
    lemma_message_roundtrip(inner);
    assert(first_field(outer, 1) == Some(outer[0]));
    let o = written_object(THEME_ID, THEME_TYPE, payload, refs);
    assert(first_of_type(seq![o], THEME_TYPE, 0) == Some(0int));
    match theme {
        Some(name) => {
            vstd::utf8::encode_utf8_valid_utf8(name);
            vstd::utf8::encode_utf8_decode_utf8(name);
            assert(first_field(inner, 3) == Some(inner[0]));
        },
        None => {
            assert(first_field(inner, 3) is None);
        },
    }
}

/// A path that starts neither with `I` nor, at its seventh character, with
/// the `S` or `T` of a slide prefix names no slide archive.
proof fn lemma_not_slide(p: Seq<char>)
    requires
        p.len() > 6,
        p[0] != 'I' || (p[6] != 'S' && p[6] != 'T'),
    ensures
        !is_slide_path(p),
{
    reveal_strlit("Index/Slide-");
    reveal_strlit("Index/TemplateSlide-");
    if has_prefix(p, slide_prefix()) {
        assert(p[0] == p.subrange(0, 12)[0]);
        assert(p[6] == p.subrange(0, 12)[6]);
    }
    if has_prefix(p, template_prefix()) {
        assert(p[0] == p.subrange(0, 20)[0]);
        assert(p[6] == p.subrange(0, 20)[6]);
    }
}

/// The first index from `j` on at which `ws` holds a member written under
/// `path`, or the length of `ws`.
pub open spec fn first_with_path(ws: Seq<(Seq<char>, Seq<u8>)>, path: Seq<char>, j: int) -> int
    decreases ws.len() - j,
{
    if j < 0 || j >= ws.len() {
        ws.len() as int
    } else if ws[j].0 == path {
        j
    } else {
        first_with_path(ws, path, j + 1)
    }
}

proof fn lemma_first_with_path(ws: Seq<(Seq<char>, Seq<u8>)>, path: Seq<char>, j: int, i: int)
    requires
        0 <= j <= i < ws.len(),
        ws[i].0 == path,
    ensures
        j <= first_with_path(ws, path, j) <= i,
        ws[first_with_path(ws, path, j)].0 == path,
        forall|k: int| j <= k < first_with_path(ws, path, j) ==> (#[trigger] ws[k]).0 != path,
    decreases i - j,
{
    if ws[j].0 != path {
        lemma_first_with_path(ws, path, j + 1, i);
    }
}

/// Every slide archive a written presentation holds decodes.
proof fn lemma_members_decode(p: PresentationView, k: int)
    requires
        0 <= k < keynote_members(p).len(),
        is_slide_path(keynote_members(p)[k].0),
        keynote_members(p)[k].1.len() <= usize::MAX,
    ensures
        spec_decode_archive(keynote_members(p)[k].1) is Ok,
{
    let ws = keynote_members(p);
    reveal_strlit("Metadata/Properties.plist");
    reveal_strlit("Metadata/DocumentIdentifier");
    reveal_strlit("Metadata/BuildVersionHistory.plist");
    reveal_strlit("Index/Document.iwa");
    reveal_strlit("Index/DocumentMetadata.iwa");
    reveal_strlit("Index/Metadata.iwa");
    reveal_strlit("Index/ObjectContainer.iwa");
    reveal_strlit("Index/AnnotationAuthorStorage.iwa");
    reveal_strlit("Index/DocumentStylesheet.iwa");
    if k < 9 {
        lemma_not_slide(ws[k].0);
    } else if k == 9 {
        let none: Seq<u8> = seq![];
        let refs: Seq<IwaObjectReference> = seq![];
        lemma_single_object_read(1, 7, none, refs);
    } else {
        let rs = real_slides(p.slides);
        assert(ws[k] == slide_members(rs)[k - 10]);
        lemma_slide_iwa_decodes(rs[k - 10]);
    }
}

/// Reading the slide archives among `es` succeeds when each of them can be
/// read and decoded.
proof fn lemma_slides_from_ok(p: PackageView, es: Seq<EntryView>)
    requires
        forall|i: int| 0 <= i < es.len() && is_slide_path(#[trigger] es[i].path) ==> spec_read_archive(p, es[i].path) is Ok,
    ensures
        spec_slides_from(p, es) is Ok,
    decreases es.len(),
{
    reveal(spec_slides_from);
    if es.len() > 0 {
        let rest = es.drop_first();
        assert forall|i: int| 0 <= i < rest.len() && is_slide_path(#[trigger] rest[i].path) implies spec_read_archive(
            p,
            rest[i].path,
        ) is Ok by {
            assert(rest[i] == es[i + 1]);
        }
        lemma_slides_from_ok(p, rest);
    }
}

/// Every member written under a slide path reads back and decodes.
#[verifier::spinoff_prover]
proof fn lemma_slide_members_read(p: PresentationView)
    requires
        zip_fits(member_bytes(keynote_members(p))),
        spec_zip(member_bytes(keynote_members(p))).len() <= usize::MAX,
        end_record_unambiguous(spec_zip(member_bytes(keynote_members(p)))),
    ensures
        ({
            let pv = written_package(keynote_members(p));
            forall|i: int|
                0 <= i < pv.entries.len() && is_slide_path(#[trigger] pv.entries[i].path) ==> spec_read_archive(
                    pv,
                    pv.entries[i].path,
                ) is Ok
        }),
{
    let ws = keynote_members(p);
    let pv = written_package(ws);
    crate::zip_laws::lemma_package_writer_round_trip(ws);
    assert forall|i: int|
        0 <= i < pv.entries.len() && is_slide_path(#[trigger] pv.entries[i].path) implies spec_read_archive(
        pv,
        pv.entries[i].path,
    ) is Ok by {
        let path = ws[i].0;
        assert(pv.entries[i].path == path);
        lemma_first_with_path(ws, path, 0, i);
        let i0 = first_with_path(ws, path, 0);
        lemma_member_read(ws, i0);
        lemma_members_decode(p, i0);
    }
}

/// The written package holds `Index/Document.iwa` as its fourth member,
/// first under that path.
proof fn lemma_document_path(p: PresentationView)
    ensures
        keynote_members(p).len() >= 4,
        keynote_members(p)[3] == ("Index/Document.iwa"@, document_iwa(p.theme_name)),
        forall|j: int| 0 <= j < 3 ==> (#[trigger] keynote_members(p)[j]).0 != keynote_members(p)[3].0,
{
    let ws = keynote_members(p);
    reveal_strlit("Metadata/Properties.plist");
    reveal_strlit("Metadata/DocumentIdentifier");
    reveal_strlit("Metadata/BuildVersionHistory.plist");
    reveal_strlit("Index/Document.iwa");
    assert forall|j: int| 0 <= j < 3 implies (#[trigger] ws[j]).0 != ws[3].0 by {
        assert(ws[j].0[0] != ws[3].0[0]);
    }
}

/// The written `Index/Document.iwa` reads back from the written package
/// with the theme name.
proof fn lemma_document_member(p: PresentationView)
    requires
        zip_fits(member_bytes(keynote_members(p))),
        spec_zip(member_bytes(keynote_members(p))).len() <= usize::MAX,
        end_record_unambiguous(spec_zip(member_bytes(keynote_members(p)))),
    ensures
        spec_package_entries(spec_zip(member_bytes(keynote_members(p)))) == Ok::<Seq<EntryView>, crate::error::Error>(
            written_package(keynote_members(p)).entries,
        ),
        spec_read_archive(written_package(keynote_members(p)), "Index/Document.iwa"@) matches Ok(a)
            && spec_theme_name(spec_objects(a)) == p.theme_name,
{
    let ws = keynote_members(p);
    lemma_document_path(p);
    lemma_member_read(ws, 3);
    lemma_theme_read(p.theme_name);
}

/// Law: the bytes [`Presentation::to_keynote_bytes`](crate::keynote::presentation::Presentation)
/// writes read back (through `Package::from_bytes` and
/// `Presentation::from_package`) as a presentation with the same theme name,
/// whenever they form a plain ZIP archive that fits in memory and whose end
/// record holds no second end-record signature.
pub proof fn lemma_keynote_theme_round_trip(p: PresentationView)
    requires
        zip_fits(member_bytes(keynote_members(p))),
        spec_zip(member_bytes(keynote_members(p))).len() <= usize::MAX,
        end_record_unambiguous(spec_zip(member_bytes(keynote_members(p)))),
    ensures
        ({
            let z = spec_zip(member_bytes(keynote_members(p)));
            spec_package_entries(z) matches Ok(es) && spec_presentation(PackageView { bytes: z, entries: es }) matches Ok(
                q,
            ) && q.theme_name == p.theme_name
        }),
{
    let pv = written_package(keynote_members(p));
    lemma_document_member(p);
    lemma_slide_members_read(p);
    lemma_slides_from_ok(pv, pv.entries);
}

// ───────────────────────────── slides read back from a written package ─────────────────────────────

/// The slide read back from the `k`-th written slide archive.
pub open spec fn written_slide(rs: Seq<SlideView>, k: int) -> SlideView {
    spec_slide(slide_path((k + 1) as nat, decimal(rs.len()).len()), spec_objects(spec_decode_archive(spec_slide_iwa(rs[k]))->Ok_0))
}

/// The layout master read back from a written package.
pub open spec fn written_template() -> SlideView {
    spec_slide(template_path(), spec_objects(spec_decode_archive(single_object_archive(1, 7, seq![], seq![]))->Ok_0))
}

/// The slides read from the entries of a written package from the `j`-th on.
pub open spec fn slides_after(n: int, rs: Seq<SlideView>, j: int) -> Seq<SlideView> {
    let start = if j <= 10 { 0 } else { j - 10 };
    (if j <= 9 {
        seq![written_template()]
    } else {
        Seq::<SlideView>::empty()
    }) + Seq::new((n - start) as nat, |k: int| written_slide(rs, k + start))
}

/// The tenth member of a written package is the layout master.
proof fn lemma_template_member(p: PresentationView)
    ensures
        keynote_members(p).len() >= 10,
        keynote_members(p)[9] == (template_path(), single_object_archive(1, 7, seq![], seq![])),
        is_slide_path(template_path()),
        has_prefix(template_path(), template_prefix()),
{
    reveal_strlit("Index/TemplateSlide-1.iwa");
    reveal_strlit("Index/TemplateSlide-");
    reveal_strlit(".iwa");
    assert(template_path().subrange(0, 20) =~= template_prefix());
    assert(template_path().subrange(21, 25) =~= ".iwa"@);
}

/// The members of a written package after the tenth are its slides.
proof fn lemma_slide_member(p: PresentationView, i: int)
    requires
        10 <= i < keynote_members(p).len(),
    ensures
        keynote_members(p)[i] == (
            slide_path((i - 9) as nat, decimal(real_slides(p.slides).len()).len()),
            spec_slide_iwa(real_slides(p.slides)[i - 10]),
        ),
        is_slide_path(keynote_members(p)[i].0),
        !has_prefix(keynote_members(p)[i].0, template_prefix()),
{
    let rs = real_slides(p.slides);
    let w = decimal(rs.len()).len();
    assert(keynote_members(p)[i] == slide_members(rs)[i - 10]);
    lemma_fits_width((i - 9) as nat, rs.len());
    lemma_slide_path_shape((i - 9) as nat, w);
}

/// The paths of a written package: from the tenth member on, slide paths,
/// each first under its path.
proof fn lemma_member_paths(p: PresentationView, i: int)
    requires
        9 <= i < keynote_members(p).len(),
    ensures
        is_slide_path(keynote_members(p)[i].0),
        forall|j: int| 0 <= j < i ==> (#[trigger] keynote_members(p)[j]).0 != keynote_members(p)[i].0,
{
    let ws = keynote_members(p);
    let rs = real_slides(p.slides);
    let w = decimal(rs.len()).len();
    lemma_template_member(p);
    if i >= 10 {
        lemma_slide_member(p, i);
    }
    assert forall|j: int| 0 <= j < i implies (#[trigger] ws[j]).0 != ws[i].0 by {
        if j < 9 {
            lemma_not_slide_member(p, j);
        } else if j >= 10 {
            lemma_slide_member(p, j);
            lemma_fits_width((j - 9) as nat, rs.len());
            lemma_fits_width((i - 9) as nat, rs.len());
            lemma_slide_paths_ordered_w((j - 9) as nat, (i - 9) as nat, w);
            lemma_less_irreflexive(ws[i].0, 0);
        }
    }
}

/// One step of [`slides_after`].
proof fn lemma_slides_after_step(n: int, rs: Seq<SlideView>, j: int)
    requires
        0 <= j < 10 + n,
        n >= 0,
    ensures
        j < 9 ==> slides_after(n, rs, j) == slides_after(n, rs, j + 1),
        j == 9 ==> slides_after(n, rs, j) == seq![written_template()] + slides_after(n, rs, j + 1),
        j >= 10 ==> slides_after(n, rs, j) == seq![written_slide(rs, j - 10)] + slides_after(n, rs, j + 1),
{
    if j < 9 {
        assert(slides_after(n, rs, j) =~= slides_after(n, rs, j + 1));
    } else if j == 9 {
        assert(slides_after(n, rs, j) =~= seq![written_template()] + slides_after(n, rs, j + 1));
    } else {
        assert(slides_after(n, rs, j) =~= seq![written_slide(rs, j - 10)] + slides_after(n, rs, j + 1));
    }
}

/// The entries a written package lists carry the members' paths.
proof fn lemma_entry_path(p: PresentationView, j: int)
    requires
        zip_fits(member_bytes(keynote_members(p))),
        spec_zip(member_bytes(keynote_members(p))).len() <= usize::MAX,
        end_record_unambiguous(spec_zip(member_bytes(keynote_members(p)))),
        0 <= j < keynote_members(p).len(),
    ensures
        written_package(keynote_members(p)).entries.len() == keynote_members(p).len(),
        written_package(keynote_members(p)).entries[j].path == keynote_members(p)[j].0,
{
    let ws = keynote_members(p);
    crate::zip_laws::lemma_package_writer_round_trip(ws);
    lemma_document_path(p);
    lemma_member_read(ws, 3);
}

/// Reading the slide archives among the entries of a written package, from
/// the `j`-th entry on.
#[verifier::spinoff_prover]
#[verifier::rlimit(100)]
proof fn lemma_slides_after(p: PresentationView, j: int)
    requires
        zip_fits(member_bytes(keynote_members(p))),
        spec_zip(member_bytes(keynote_members(p))).len() <= usize::MAX,
        end_record_unambiguous(spec_zip(member_bytes(keynote_members(p)))),
        0 <= j <= keynote_members(p).len(),
    ensures
        spec_slides_from(
            written_package(keynote_members(p)),
            written_package(keynote_members(p)).entries.skip(j),
        ) == Ok::<Seq<SlideView>, LoadError>(slides_after(real_slides(p.slides).len() as int, real_slides(p.slides), j)),
    decreases keynote_members(p).len() - j,
{
    let ws = keynote_members(p);
    let rs = real_slides(p.slides);
    let n = rs.len() as int;
    let pv = written_package(ws);
    lemma_template_member(p);
    assert(ws.len() == 10 + n);
    lemma_entry_path(p, 0);
    let es = pv.entries.skip(j);
    if j == ws.len() {
        assert(es.len() == 0);
        crate::keynote::presentation::lemma_slides_from_empty(pv, es);
        assert(slides_after(n, rs, j) =~= Seq::<SlideView>::empty());
    } else {
        lemma_slides_after(p, j + 1);
        lemma_entry_path(p, j);
        crate::keynote::presentation::lemma_slides_from_step(pv, es);
        assert(es.drop_first() =~= pv.entries.skip(j + 1));
        assert(es[0].path == ws[j].0);
        lemma_slides_after_step(n, rs, j);
        if j < 9 {
            lemma_not_slide_member(p, j);
        } else {
            lemma_member_paths(p, j);
            lemma_member_read(ws, j);
            if j == 9 {
                lemma_single_object_read(1, 7, seq![], seq![]);
            } else {
                lemma_slide_member(p, j);
                lemma_slide_iwa_decodes(rs[j - 10]);
            }
        }
    }
}

/// The first nine members of a written package are not slide archives.
proof fn lemma_not_slide_member(p: PresentationView, j: int)
    requires
        0 <= j < 9,
    ensures
        !is_slide_path(keynote_members(p)[j].0),
{
    let ws = keynote_members(p);
    reveal_strlit("Metadata/Properties.plist");
    reveal_strlit("Metadata/DocumentIdentifier");
    reveal_strlit("Metadata/BuildVersionHistory.plist");
    reveal_strlit("Index/Document.iwa");
    reveal_strlit("Index/DocumentMetadata.iwa");
    reveal_strlit("Index/Metadata.iwa");
    reveal_strlit("Index/ObjectContainer.iwa");
    reveal_strlit("Index/AnnotationAuthorStorage.iwa");
    reveal_strlit("Index/DocumentStylesheet.iwa");
    lemma_not_slide(ws[j].0);
}


/// Keeping the slides that are not layout masters, of slides that are not,
/// followed by one that is.
proof fn lemma_real_slides_of(ss: Seq<SlideView>, t: SlideView)
    requires
        forall|i: int| 0 <= i < ss.len() ==> !(#[trigger] ss[i]).is_template,
        t.is_template,
    ensures
        real_slides(ss.push(t)) == ss,
{
    reveal_with_fuel(Seq::<_>::filter, 1);
    assert(ss.push(t).drop_last() =~= ss);
    lemma_real_slides_all(ss);
}

proof fn lemma_real_slides_all(ss: Seq<SlideView>)
    requires
        forall|i: int| 0 <= i < ss.len() ==> !(#[trigger] ss[i]).is_template,
    ensures
        real_slides(ss) == ss,
    decreases ss.len(),
{
    reveal_with_fuel(Seq::<_>::filter, 1);
    if ss.len() == 0 {
        assert(real_slides(ss) =~= ss);
    } else {
        let init = ss.drop_last();
        assert forall|i: int| 0 <= i < init.len() implies !(#[trigger] init[i]).is_template by {
            assert(init[i] == ss[i]);
        }
        lemma_real_slides_all(init);
        assert(!ss.last().is_template);
        assert(init.push(ss.last()) =~= ss);
    }
}

/// The slides read back from a written package: the
/// written slide archives in order, then the layout master.
#[verifier::spinoff_prover]
#[verifier::rlimit(100)]
proof fn lemma_read_slides(p: PresentationView)
    requires
        zip_fits(member_bytes(keynote_members(p))),
        spec_zip(member_bytes(keynote_members(p))).len() <= usize::MAX,
        end_record_unambiguous(spec_zip(member_bytes(keynote_members(p)))),
    ensures
        ({
            let z = spec_zip(member_bytes(keynote_members(p)));
            let rs = real_slides(p.slides);
            spec_package_entries(z) matches Ok(es) && spec_presentation(PackageView { bytes: z, entries: es }) matches Ok(
                q,
            ) && real_slides(q.slides) == Seq::new(rs.len(), |k: int| written_slide(rs, k))
        }),
{
    let ws = keynote_members(p);
    let rs = real_slides(p.slides);
    let n = rs.len() as int;
    let pv = written_package(ws);
    lemma_document_member(p);
    lemma_slides_after(p, 0);
    lemma_template_member(p);
    assert(pv.entries.skip(0) =~= pv.entries);
    let ss = Seq::new(n as nat, |k: int| written_slide(rs, k));
    let t = written_template();
    assert(slides_after(n, rs, 0) =~= seq![t] + ss);
    assert forall|i: int| 0 <= i < ss.len() implies chars_less_from(#[trigger] ss[i].path, t.path, 0) by {
        lemma_fits_width((i + 1) as nat, rs.len());
        lemma_slide_before_template_w((i + 1) as nat, decimal(rs.len()).len());
    }
    assert forall|i: int, j: int| 0 <= i < j < ss.len() implies !chars_less_from(
        #[trigger] ss[j].path,
        #[trigger] ss[i].path,
        0,
    ) by {
        lemma_fits_width((i + 1) as nat, rs.len());
        lemma_fits_width((j + 1) as nat, rs.len());
        lemma_slide_paths_ordered_w((j + 1) as nat, (i + 1) as nat, decimal(rs.len()).len());
    }
    lemma_sort_moves_first_last(t, ss);
    assert forall|i: int| 0 <= i < ss.len() implies !(#[trigger] ss[i]).is_template by {
        lemma_fits_width((i + 1) as nat, rs.len());
        lemma_slide_path_shape((i + 1) as nat, decimal(rs.len()).len());
    }
    lemma_real_slides_of(ss, t);
}

/// Each written plain slide archive reads back with its title and text.
#[verifier::spinoff_prover]
#[verifier::rlimit(100)]
proof fn lemma_written_slide(p: PresentationView, k: int)
    requires
        zip_fits(member_bytes(keynote_members(p))),
        spec_zip(member_bytes(keynote_members(p))).len() <= usize::MAX,
        end_record_unambiguous(spec_zip(member_bytes(keynote_members(p)))),
        0 <= k < real_slides(p.slides).len(),
        plain_slide(real_slides(p.slides)[k]),
    ensures
        written_slide(real_slides(p.slides), k).title == real_slides(p.slides)[k].title,
        written_slide(real_slides(p.slides), k).text_fragments == real_slides(p.slides)[k].text_fragments,
{
    let ws = keynote_members(p);
    let rs = real_slides(p.slides);
    assert(spec_slide_iwa(rs[k]).len() <= usize::MAX) by {
        lemma_template_member(p);
        lemma_slide_member(p, k + 10);
        lemma_member_paths(p, k + 10);
        lemma_member_read(ws, k + 10);
    }
    lemma_slide_archive_round_trip(rs[k], slide_path((k + 1) as nat, decimal(rs.len()).len()));
}

/// Law: the bytes [`Presentation::to_keynote_bytes`](crate::keynote::presentation::Presentation)
/// writes for a presentation read back (through
/// `Package::from_bytes` and `Presentation::from_package`) with the same
/// slides, in order, each with its title and its text fragments, whenever
/// every slide is plain and the bytes form a plain ZIP archive that fits in
/// memory and whose end record holds no second end-record signature.
pub proof fn lemma_keynote_slides_round_trip(p: PresentationView)
    requires
        zip_fits(member_bytes(keynote_members(p))),
        spec_zip(member_bytes(keynote_members(p))).len() <= usize::MAX,
        end_record_unambiguous(spec_zip(member_bytes(keynote_members(p)))),
        forall|k: int| 0 <= k < real_slides(p.slides).len() ==> plain_slide(#[trigger] real_slides(p.slides)[k]),
    ensures
        ({
            let z = spec_zip(member_bytes(keynote_members(p)));
            let rs = real_slides(p.slides);
            spec_package_entries(z) matches Ok(es) && spec_presentation(PackageView { bytes: z, entries: es }) matches Ok(
                q,
            ) && real_slides(q.slides).len() == rs.len() && forall|k: int|
                0 <= k < rs.len() ==> (#[trigger] real_slides(q.slides)[k]).title == rs[k].title
                    && real_slides(q.slides)[k].text_fragments == rs[k].text_fragments
        }),
{
    let rs = real_slides(p.slides);
    lemma_read_slides(p);
    assert forall|k: int| 0 <= k < rs.len() implies written_slide(rs, k).title == rs[k].title
        && written_slide(rs, k).text_fragments == rs[k].text_fragments by {
        lemma_written_slide(p, k);
    }
}

/// Text fragments without repeats, each non-empty, trimmed, free of control
/// characters and of the object-replacement character.
pub open spec fn clean_fragments(fs: Seq<Seq<char>>) -> bool {
    &&& fs.no_duplicates()
    &&& forall|k: int| 0 <= k < fs.len() ==> clean_piece(#[trigger] fs[k]) && !fs[k].contains(object_replacement())
}

proof fn lemma_add_clean(acc: Seq<Seq<char>>, fs: Seq<Seq<char>>)
    requires
        clean_fragments(acc),
        forall|k: int| 0 <= k < fs.len() ==> clean_piece(#[trigger] fs[k]),
    ensures
        clean_fragments(add_fragments(acc, fs)),
    decreases fs.len(),
{
    if fs.len() > 0 {
        let f = fs[0];
        let acc2 = if f.contains(object_replacement()) || acc.contains(f) {
            acc
        } else {
            acc.push(f)
        };
        if !(f.contains(object_replacement()) || acc.contains(f)) {
            assert forall|a: int, b: int| 0 <= a < b < acc2.len() implies acc2[a] != acc2[b] by {
                if b == acc.len() {
                    assert(acc2[a] == acc[a]);
                }
            }
            assert forall|k: int| 0 <= k < acc2.len() implies clean_piece(#[trigger] acc2[k]) && !acc2[k].contains(
                object_replacement(),
            ) by {
                if k < acc.len() {
                    assert(acc2[k] == acc[k]);
                }
            }
        }
        assert forall|k: int| 0 <= k < fs.drop_first().len() implies clean_piece(#[trigger] fs.drop_first()[k]) by {
            assert(fs.drop_first()[k] == fs[k + 1]);
        }
        lemma_add_clean(acc2, fs.drop_first());
    }
}

proof fn lemma_tswp_clean(objs: Seq<ObjectView>)
    ensures
        clean_fragments(spec_tswp_text(objs)),
    decreases objs.len(),
{
    if objs.len() > 0 {
        lemma_tswp_clean(objs.drop_last());
        let o = objs.last();
        if o.message_type == Some(TSWP_TEXT_TYPE) && tswp_raw_text(o) is Some {
            crate::text::lemma_control_fragments_clean(tswp_raw_text(o)->Some_0);
            lemma_add_clean(spec_tswp_text(objs.drop_last()), control_fragments(tswp_raw_text(o)->Some_0));
        }
    }
}

/// A decoded slide's shape: no layout name, a layout master exactly when
/// its path starts with `Index/TemplateSlide-`, and clean text fragments.
pub open spec fn read_slide_shape(s: SlideView) -> bool {
    &&& s.layout_name is None
    &&& s.is_template == has_prefix(s.path, template_prefix())
    &&& clean_fragments(s.text_fragments)
}

proof fn lemma_slides_from_shape(p: PackageView, es: Seq<EntryView>)
    ensures
        spec_slides_from(p, es) matches Ok(ss) ==> forall|i: int| 0 <= i < ss.len() ==> read_slide_shape(#[trigger] ss[i]),
    decreases es.len(),
{
    reveal(spec_slides_from);
    if es.len() > 0 {
        lemma_slides_from_shape(p, es.drop_first());
        if let Ok(ss) = spec_slides_from(p, es) {
            if is_slide_path(es[0].path) {
                match spec_read_archive(p, es[0].path) {
                    Ok(a) => match spec_slides_from(p, es.drop_first()) {
                        Ok(rest) => {
                            lemma_tswp_clean(spec_objects(a));
                            assert(ss == seq![spec_slide(es[0].path, spec_objects(a))] + rest);
                            assert forall|i: int| 0 <= i < ss.len() implies read_slide_shape(#[trigger] ss[i]) by {
                                if i > 0 {
                                    assert(ss[i] == rest[i - 1]);
                                }
                            }
                        },
                        Err(_) => {},
                    },
                    Err(_) => {},
                }
            }
        }
    }
}

proof fn lemma_insert_shape(xs: Seq<SlideView>, x: SlideView, j: int)
    requires
        forall|i: int| 0 <= i < xs.len() ==> read_slide_shape(#[trigger] xs[i]),
        read_slide_shape(x),
    ensures
        forall|i: int| 0 <= i < insert_by_path(xs, x, j).len() ==> read_slide_shape(#[trigger] insert_by_path(xs, x, j)[i]),
    decreases xs.len() - j,
{
    if j < 0 || j >= xs.len() {
        assert(insert_by_path(xs, x, j) == xs.push(x));
        assert forall|i: int| 0 <= i < xs.push(x).len() implies read_slide_shape(#[trigger] xs.push(x)[i]) by {
            if i < xs.len() {
                assert(xs.push(x)[i] == xs[i]);
            }
        }
    } else if chars_less_from(x.path, xs[j].path, 0) {
        assert(insert_by_path(xs, x, j) == xs.insert(j, x));
        assert forall|i: int| 0 <= i < xs.insert(j, x).len() implies read_slide_shape(#[trigger] xs.insert(j, x)[i]) by {
            if i < j {
                assert(xs.insert(j, x)[i] == xs[i]);
            } else if i > j {
                assert(xs.insert(j, x)[i] == xs[i - 1]);
            }
        }
    } else {
        assert(insert_by_path(xs, x, j) == insert_by_path(xs, x, j + 1));
        lemma_insert_shape(xs, x, j + 1);
    }
}

proof fn lemma_sort_shape(xs: Seq<SlideView>)
    requires
        forall|i: int| 0 <= i < xs.len() ==> read_slide_shape(#[trigger] xs[i]),
    ensures
        forall|i: int| 0 <= i < sort_by_path(xs).len() ==> read_slide_shape(#[trigger] sort_by_path(xs)[i]),
    decreases xs.len(),
{
    if xs.len() > 0 {
        assert forall|i: int| 0 <= i < xs.drop_last().len() implies read_slide_shape(#[trigger] xs.drop_last()[i]) by {
            assert(xs.drop_last()[i] == xs[i]);
        }
        lemma_sort_shape(xs.drop_last());
        lemma_insert_shape(sort_by_path(xs.drop_last()), xs.last(), 0);
    }
}

/// Law: every slide of a decoded presentation has no layout name (where the
/// format keeps one is not known), it is a layout master exactly when its
/// path starts with `Index/TemplateSlide-`, and its text fragments repeat
/// none and are each non-empty, trimmed, and free of control characters and
/// of the object-replacement character.
pub proof fn lemma_presentation_slides_shape(p: PackageView)
    ensures
        spec_presentation(p) matches Ok(d) ==> forall|i: int| 0 <= i < d.slides.len() ==> read_slide_shape(
            #[trigger] d.slides[i],
        ),
{
    lemma_slides_from_shape(p, p.entries);
    if let Ok(ss) = spec_slides_from(p, p.entries) {
        lemma_sort_shape(ss);
    }
}

proof fn lemma_less_trans(a: Seq<char>, b: Seq<char>, c: Seq<char>, i: int)
    requires
        0 <= i,
        chars_less_from(a, b, i),
        chars_less_from(b, c, i),
    ensures
        chars_less_from(a, c, i),
    decreases a.len() - i,
{
    if i < a.len() && i < b.len() && i < c.len() && a[i] == b[i] && b[i] == c[i] {
        lemma_less_trans(a, b, c, i + 1);
    }
}

/// Slides in order of their paths: no slide's path sorts before an earlier one's.
pub open spec fn paths_ordered(xs: Seq<SlideView>) -> bool {
    forall|a: int, b: int| 0 <= a < b < xs.len() ==> !chars_less_from(xs[b].path, xs[a].path, 0)
}

proof fn lemma_insert_ordered(xs: Seq<SlideView>, x: SlideView, j: int)
    requires
        0 <= j <= xs.len(),
        paths_ordered(xs),
        forall|k: int| 0 <= k < j ==> !chars_less_from(x.path, #[trigger] xs[k].path, 0),
    ensures
        paths_ordered(insert_by_path(xs, x, j)),
    decreases xs.len() - j,
{
    if j >= xs.len() {
        let r = xs.push(x);
        assert(insert_by_path(xs, x, j) == r);
        assert forall|a: int, b: int| 0 <= a < b < r.len() implies !chars_less_from(r[b].path, r[a].path, 0) by {
            assert(r[a] == xs[a]);
            if b < xs.len() {
                assert(r[b] == xs[b]);
            }
        }
    } else if chars_less_from(x.path, xs[j].path, 0) {
        let r = xs.insert(j, x);
        assert(insert_by_path(xs, x, j) == r);
        assert forall|a: int, b: int| 0 <= a < b < r.len() implies !chars_less_from(r[b].path, r[a].path, 0) by {
            let ra = if a < j { xs[a] } else if a == j { x } else { xs[a - 1] };
            let rb = if b < j { xs[b] } else if b == j { x } else { xs[b - 1] };
            assert(r[a] == ra);
            assert(r[b] == rb);
            if a == j && b > j {
                if chars_less_from(xs[b - 1].path, x.path, 0) {
                    lemma_less_trans(xs[b - 1].path, x.path, xs[j].path, 0);
                    if b - 1 > j {
                        assert(!chars_less_from(xs[b - 1].path, xs[j].path, 0));
                    } else {
                        lemma_less_irreflexive(xs[j].path, 0);
                    }
                }
            }
        }
    } else {
        assert(insert_by_path(xs, x, j) == insert_by_path(xs, x, j + 1));
        lemma_insert_ordered(xs, x, j + 1);
    }
}

proof fn lemma_sort_ordered(xs: Seq<SlideView>)
    ensures
        paths_ordered(sort_by_path(xs)),
    decreases xs.len(),
{
    if xs.len() > 0 {
        lemma_sort_ordered(xs.drop_last());
        lemma_insert_ordered(sort_by_path(xs.drop_last()), xs.last(), 0);
    }
}

/// Law: the slides of a decoded presentation come in order of their paths.
pub proof fn lemma_presentation_slides_ordered(p: PackageView)
    ensures
        spec_presentation(p) matches Ok(d) ==> paths_ordered(d.slides),
{
    if let Ok(ss) = spec_slides_from(p, p.entries) {
        lemma_sort_ordered(ss);
    }
}

} // verus!
