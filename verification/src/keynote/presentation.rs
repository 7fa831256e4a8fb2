//! Structured fields decoded from Keynote slide archives.
use crate::error::Error;
use crate::iwa::{
    decode_payload, field_bytes, field_varint, nested_message_of, nested_fields, payload_fields, spec_objects,
    IwaArchive, IwaObject, ObjectView,
};
use crate::package::{load_error_matches, spec_read_archive, EntryView, LoadError, Package, PackageView};
use crate::protobuf::{bytes_value, first_field, varint_value};
use crate::text::{
    chars_equal, chars_of, chars_end_with, chars_start_with, control_fragments, has_prefix, has_suffix, join,
    join_chars, opt_utf8_chars, opt_utf8_string, split_control_fragments, string_from_chars,
};
use vstd::prelude::*;

verus! {

/// Message type of the Keynote theme descriptor object.
pub const THEME_TYPE: u64 = 10;

/// Message type of a Keynote drawable or placeholder object.
pub const DRAWABLE_TYPE: u64 = 7;

/// `field 2` of a drawable that marks the speaker-notes placeholder.
pub const PLACEHOLDER_NOTES: u64 = 1;

/// `field 2` of a drawable that marks the title placeholder.
pub const PLACEHOLDER_TITLE: u64 = 2;

/// Message type of a TSWP text storage object.
pub const TSWP_TEXT_TYPE: u64 = 2001;

/// Message type of a Keynote media (image) object.
pub const MEDIA_TYPE: u64 = 3005;

/// Message type of a slide root object.
pub const SLIDE_TYPE: u64 = 5;

/// A Keynote presentation: its theme name and its slide archives.
#[derive(Debug, Clone, Default, PartialEq, Eq)]
pub struct Presentation {
    theme_name: Option<String>,
    slides: Vec<Slide>,
}

/// Structured fields decoded from a Keynote slide archive.
#[derive(Debug, Clone, Default, PartialEq, Eq)]
pub struct Slide {
    path: String,
    is_template: bool,
    layout_name: Option<String>,
    title: Option<String>,
    speaker_notes: Option<String>,
    text_fragments: Vec<String>,
    media_descriptions: Vec<String>,
}

/// The mathematical content of a [`Slide`].
pub struct SlideView {
    pub path: Seq<char>,
    pub is_template: bool,
    pub layout_name: Option<Seq<char>>,
    pub title: Option<Seq<char>>,
    pub speaker_notes: Option<Seq<char>>,
    pub text_fragments: Seq<Seq<char>>,
    pub media_descriptions: Seq<Seq<char>>,
}

/// The view of an optional string.
pub open spec fn opt_view(s: Option<String>) -> Option<Seq<char>> {
    match s {
        Some(x) => Some(x@),
        None => None,
    }
}

impl View for Slide {
    type V = SlideView;

    closed spec fn view(&self) -> SlideView {
        SlideView {
            path: self.path@,
            is_template: self.is_template,
            layout_name: opt_view(self.layout_name),
            title: opt_view(self.title),
            speaker_notes: opt_view(self.speaker_notes),
            text_fragments: self.text_fragments@.map_values(|s: String| s@),
            media_descriptions: self.media_descriptions@.map_values(|s: String| s@),
        }
    }
}

/// The mathematical content of a [`Presentation`].
pub struct PresentationView {
    pub theme_name: Option<Seq<char>>,
    pub slides: Seq<SlideView>,
}

impl View for Presentation {
    type V = PresentationView;

    closed spec fn view(&self) -> PresentationView {
        PresentationView {
            theme_name: opt_view(self.theme_name),
            slides: self.slides@.map_values(|s: Slide| s@),
        }
    }
}

// ───────────────────────────── decoding specifications ─────────────────────────────

/// The text of field 3 of a TSWP object's payload, when it is UTF-8.
pub open spec fn tswp_raw_text(o: ObjectView) -> Option<Seq<char>> {
    match payload_fields(o) {
        Some(fs) => opt_utf8_chars(bytes_value(first_field(fs, 3))),
        None => None,
    }
}

/// The text a TSWP object gives a placeholder: its control-separated pieces,
/// trimmed, non-empty, joined with `sep`; `None` when that is empty.
pub open spec fn tswp_placeholder_text(o: ObjectView, sep: Seq<char>) -> Option<Seq<char>> {
    match tswp_raw_text(o) {
        Some(raw) => {
            let text = join(control_fragments(raw), sep);
            if text.len() > 0 {
                Some(text)
            } else {
                None
            }
        },
        None => None,
    }
}

/// The placeholder text of the TSWP object with identifier `id`; when
/// several have it, the last one with text.
pub open spec fn text_for_id(objs: Seq<ObjectView>, id: u64, sep: Seq<char>) -> Option<Seq<char>>
    decreases objs.len(),
{
    if objs.len() == 0 {
        None
    } else {
        let o = objs.last();
        if o.message_type == Some(TSWP_TEXT_TYPE) && o.identifier == Some(id) && tswp_placeholder_text(o, sep) is Some {
            tswp_placeholder_text(o, sep)
        } else {
            text_for_id(objs.drop_last(), id, sep)
        }
    }
}

/// The text object a drawable of placeholder kind `kind` points at through
/// its field `1.4.1`.
pub open spec fn drawable_reference(o: ObjectView, kind: u64) -> Option<u64> {
    if o.message_type != Some(DRAWABLE_TYPE) {
        None
    } else {
        match payload_fields(o) {
            None => None,
            Some(fs) => {
                if varint_value(first_field(fs, 2)) != Some(kind) {
                    None
                } else {
                    match nested_fields(fs, 1) {
                        None => None,
                        Some(f1) => match nested_fields(f1, 4) {
                            None => None,
                            Some(f4) => varint_value(first_field(f4, 1)),
                        },
                    }
                }
            },
        }
    }
}

/// The first drawable of kind `kind`, from the `i`-th object on, whose text
/// object has text: that text.
pub open spec fn placeholder_from(objs: Seq<ObjectView>, kind: u64, sep: Seq<char>, i: int) -> Option<Seq<char>>
    decreases objs.len() - i,
{
    if i < 0 || i >= objs.len() {
        None
    } else {
        match drawable_reference(objs[i], kind) {
            Some(id) => match text_for_id(objs, id, sep) {
                Some(t) => Some(t),
                None => placeholder_from(objs, kind, sep, i + 1),
            },
            None => placeholder_from(objs, kind, sep, i + 1),
        }
    }
}

/// The text of the placeholder of kind `kind`, fragments joined with `sep`.
pub open spec fn spec_placeholder_text(objs: Seq<ObjectView>, kind: u64, sep: Seq<char>) -> Option<Seq<char>> {
    placeholder_from(objs, kind, sep, 0)
}

/// The index of the first object of message type `t`, from `i` on.
pub open spec fn first_of_type(objs: Seq<ObjectView>, t: u64, i: int) -> Option<int>
    decreases objs.len() - i,
{
    if i < 0 || i >= objs.len() {
        None
    } else if objs[i].message_type == Some(t) {
        Some(i)
    } else {
        first_of_type(objs, t, i + 1)
    }
}

/// The alt-text of a media object: field `1.8`, as UTF-8.
pub open spec fn media_description(o: ObjectView) -> Option<Seq<char>> {
    match payload_fields(o) {
        Some(fs) => match nested_fields(fs, 1) {
            Some(f1) => opt_utf8_chars(bytes_value(first_field(f1, 8))),
            None => None,
        },
        None => None,
    }
}

/// The alt-texts of the media objects, in order.
pub open spec fn spec_media_descriptions(objs: Seq<ObjectView>) -> Seq<Seq<char>>
    decreases objs.len(),
{
    if objs.len() == 0 {
        seq![]
    } else {
        let rest = spec_media_descriptions(objs.drop_last());
        let o = objs.last();
        if o.message_type == Some(MEDIA_TYPE) && media_description(o) is Some {
            rest.push(media_description(o)->Some_0)
        } else {
            rest
        }
    }
}

/// The object-replacement character U+FFFC.
pub open spec fn object_replacement() -> char {
    '\u{fffc}'
}

/// `fs` appended to `acc`, skipping fragments that contain U+FFFC or that
/// were already collected.
pub open spec fn add_fragments(acc: Seq<Seq<char>>, fs: Seq<Seq<char>>) -> Seq<Seq<char>>
    decreases fs.len(),
{
    if fs.len() == 0 {
        acc
    } else {
        let f = fs[0];
        let acc2 = if f.contains(object_replacement()) || acc.contains(f) {
            acc
        } else {
            acc.push(f)
        };
        add_fragments(acc2, fs.drop_first())
    }
}

/// The distinct text fragments of every TSWP object, in archive order.
pub open spec fn spec_tswp_text(objs: Seq<ObjectView>) -> Seq<Seq<char>>
    decreases objs.len(),
{
    if objs.len() == 0 {
        seq![]
    } else {
        let acc = spec_tswp_text(objs.drop_last());
        let o = objs.last();
        if o.message_type == Some(TSWP_TEXT_TYPE) && tswp_raw_text(o) is Some {
            add_fragments(acc, control_fragments(tswp_raw_text(o)->Some_0))
        } else {
            acc
        }
    }
}

/// The title placeholder's text, fragments joined with a space.
pub open spec fn spec_slide_title(objs: Seq<ObjectView>) -> Option<Seq<char>> {
    spec_placeholder_text(objs, PLACEHOLDER_TITLE, seq![' '])
}

/// The speaker-notes placeholder's text, fragments joined with a newline.
pub open spec fn spec_speaker_notes(objs: Seq<ObjectView>) -> Option<Seq<char>> {
    spec_placeholder_text(objs, PLACEHOLDER_NOTES, seq!['\n'])
}

/// The archive-path prefix of layout masters.
pub open spec fn template_prefix() -> Seq<char> {
    "Index/TemplateSlide-"@
}

/// The archive-path prefix of real slides.
pub open spec fn slide_prefix() -> Seq<char> {
    "Index/Slide-"@
}

/// The fields of a slide decoded from its archive's objects.
pub open spec fn spec_slide(path: Seq<char>, objs: Seq<ObjectView>) -> SlideView {
    SlideView {
        path,
        is_template: has_prefix(path, template_prefix()),
        layout_name: None,
        title: spec_slide_title(objs),
        speaker_notes: spec_speaker_notes(objs),
        text_fragments: spec_tswp_text(objs),
        media_descriptions: spec_media_descriptions(objs),
    }
}

// ───────────────────────────── decoding ─────────────────────────────

fn tswp_raw_text_of(o: &IwaObject) -> (r: Option<Vec<char>>)
    ensures
        match tswp_raw_text(o@) {
            Some(cs) => r matches Some(v) && v@ == cs,
            None => r is None,
        },
{
    match decode_payload(o) {
        Some(m) => match opt_utf8_string(field_bytes(&m, 3)) {
            Some(s) => Some(chars_of(s.as_str())),
            None => None,
        },
        None => None,
    }
}

fn placeholder_text_of(o: &IwaObject, sep: &[char]) -> (r: Option<Vec<char>>)
    ensures
        match tswp_placeholder_text(o@, sep@) {
            Some(cs) => r matches Some(v) && v@ == cs,
            None => r is None,
        },
{
    match tswp_raw_text_of(o) {
        Some(raw) => {
            let frags = split_control_fragments(raw.as_slice());
            let text = join_chars(&frags, sep);
            if text.len() > 0 {
                Some(text)
            } else {
                None
            }
        },
        None => None,
    }
}

fn lookup_text(objs: &Vec<IwaObject>, id: u64, sep: &[char]) -> (r: Option<Vec<char>>)
    ensures
        match text_for_id(objs@.map_values(|o: IwaObject| o@), id, sep@) {
            Some(cs) => r matches Some(v) && v@ == cs,
            None => r is None,
        },
{
    let ghost all = objs@.map_values(|o: IwaObject| o@);
    let mut i = objs.len();
    assert(all.take(i as int) =~= all);
    while i > 0
        invariant
            i <= objs@.len(),
            all == objs@.map_values(|o: IwaObject| o@),
            text_for_id(all, id, sep@) == text_for_id(all.take(i as int), id, sep@),
        decreases i,
    {
        let ghost t = all.take(i as int);
        assert(t.last() == objs@[i - 1]@);
        assert(t.drop_last() =~= all.take(i - 1));
        let o = &objs[i - 1];
        if o.message_type == Some(TSWP_TEXT_TYPE) && o.identifier == Some(id) {
            if let Some(text) = placeholder_text_of(o, sep) {
                return Some(text);
            }
        }
        i = i - 1;
    }
    None
}

fn drawable_reference_of(o: &IwaObject, kind: u64) -> (r: Option<u64>)
    ensures
        r == drawable_reference(o@, kind),
{
    if o.message_type != Some(DRAWABLE_TYPE) {
        return None;
    }
    let m = match decode_payload(o) {
        Some(m) => m,
        None => return None,
    };
    if field_varint(&m, 2) != Some(kind) {
        return None;
    }
    let f1 = match nested_message_of(&m, 1) {
        Some(x) => x,
        None => return None,
    };
    let f4 = match nested_message_of(&f1, 4) {
        Some(x) => x,
        None => return None,
    };
    field_varint(&f4, 1)
}

fn decode_placeholder_text(objs: &Vec<IwaObject>, kind: u64, sep: &[char]) -> (r: Option<String>)
    ensures
        opt_view(r) == spec_placeholder_text(objs@.map_values(|o: IwaObject| o@), kind, sep@),
{
    let ghost all = objs@.map_values(|o: IwaObject| o@);
    let mut i: usize = 0;
    while i < objs.len()
        invariant
            i <= objs@.len(),
            all == objs@.map_values(|o: IwaObject| o@),
            spec_placeholder_text(all, kind, sep@) == placeholder_from(all, kind, sep@, i as int),
        decreases objs.len() - i,
    {
        assert(all[i as int] == objs@[i as int]@);
        if let Some(id) = drawable_reference_of(&objs[i], kind) {
            if let Some(text) = lookup_text(objs, id, sep) {
                return Some(string_from_chars(text.as_slice()));
            }
        }
        i = i + 1;
    }
    None
}

fn media_description_of(o: &IwaObject) -> (r: Option<String>)
    ensures
        opt_view(r) == media_description(o@),
{
    match decode_payload(o) {
        Some(m) => match nested_message_of(&m, 1) {
            Some(f1) => opt_utf8_string(field_bytes(&f1, 8)),
            None => None,
        },
        None => None,
    }
}

fn decode_media_descriptions(objs: &Vec<IwaObject>) -> (r: Vec<String>)
    ensures
        r@.map_values(|s: String| s@) == spec_media_descriptions(objs@.map_values(|o: IwaObject| o@)),
{
    let ghost all = objs@.map_values(|o: IwaObject| o@);
    let mut out: Vec<String> = Vec::new();
    let mut i: usize = 0;
    assert(out@.map_values(|s: String| s@) =~= spec_media_descriptions(all.take(0)));
    while i < objs.len()
        invariant
            i <= objs@.len(),
            all == objs@.map_values(|o: IwaObject| o@),
            out@.map_values(|s: String| s@) == spec_media_descriptions(all.take(i as int)),
        decreases objs.len() - i,
    {
        let ghost t = all.take(i + 1);
        assert(t.last() == objs@[i as int]@);
        assert(t.drop_last() =~= all.take(i as int));
        if objs[i].message_type == Some(MEDIA_TYPE) {
            if let Some(d) = media_description_of(&objs[i]) {
                let ghost before = out@.map_values(|s: String| s@);
                out.push(d);
                assert(out@.map_values(|s: String| s@) =~= before.push(d@));
            }
        }
        i = i + 1;
    }
    assert(all.take(i as int) =~= all);
    out
}

fn contains_char(s: &[char], c: char) -> (r: bool)
    ensures
        r == s@.contains(c),
{
    let mut i: usize = 0;
    while i < s.len()
        invariant
            i <= s@.len(),
            forall|j: int| 0 <= j < i ==> s@[j] != c,
        decreases s.len() - i,
    {
        if s[i] == c {
            assert(s@[i as int] == c);
            return true;
        }
        i = i + 1;
    }
    false
}

fn contains_fragment(acc: &Vec<Vec<char>>, f: &[char]) -> (r: bool)
    ensures
        r == acc@.map_values(|v: Vec<char>| v@).contains(f@),
{
    let ghost all = acc@.map_values(|v: Vec<char>| v@);
    let mut i: usize = 0;
    while i < acc.len()
        invariant
            i <= acc@.len(),
            all == acc@.map_values(|v: Vec<char>| v@),
            forall|j: int| 0 <= j < i ==> all[j] != f@,
        decreases acc.len() - i,
    {
        if chars_equal(acc[i].as_slice(), f) {
            assert(all[i as int] == f@);
            return true;
        }
        i = i + 1;
    }
    false
}

fn add_fragments_into(acc: &mut Vec<Vec<char>>, fs: Vec<Vec<char>>)
    ensures
        final(acc)@.map_values(|v: Vec<char>| v@) == add_fragments(
            old(acc)@.map_values(|v: Vec<char>| v@),
            fs@.map_values(|v: Vec<char>| v@),
        ),
{
    let ghost all = fs@.map_values(|v: Vec<char>| v@);
    let mut i: usize = 0;
    assert(all.skip(0) =~= all);
    while i < fs.len()
        invariant
            i <= fs@.len(),
            all == fs@.map_values(|v: Vec<char>| v@),
            add_fragments(old(acc)@.map_values(|v: Vec<char>| v@), all) == add_fragments(
                acc@.map_values(|v: Vec<char>| v@),
                all.skip(i as int),
            ),
        decreases fs.len() - i,
    {
        let f = &fs[i];
        assert(all.skip(i as int)[0] == f@);
        assert(all.skip(i as int).drop_first() =~= all.skip(i + 1));
        if !contains_char(f.as_slice(), '\u{fffc}') && !contains_fragment(acc, f.as_slice()) {
            let ghost before = acc@.map_values(|v: Vec<char>| v@);
            acc.push(crate::text::copy_chars(f.as_slice(), 0, f.len()));
            assert(f@.subrange(0, f@.len() as int) =~= f@);
            assert(acc@.map_values(|v: Vec<char>| v@) =~= before.push(f@));
        }
        i = i + 1;
    }
    assert(all.skip(i as int) =~= seq![]);
}

fn decode_tswp_text(objs: &Vec<IwaObject>) -> (r: Vec<String>)
    ensures
        r@.map_values(|s: String| s@) == spec_tswp_text(objs@.map_values(|o: IwaObject| o@)),
{
    let ghost all = objs@.map_values(|o: IwaObject| o@);
    let mut acc: Vec<Vec<char>> = Vec::new();
    let mut i: usize = 0;
    assert(acc@.map_values(|v: Vec<char>| v@) =~= spec_tswp_text(all.take(0)));
    while i < objs.len()
        invariant
            i <= objs@.len(),
            all == objs@.map_values(|o: IwaObject| o@),
            acc@.map_values(|v: Vec<char>| v@) == spec_tswp_text(all.take(i as int)),
        decreases objs.len() - i,
    {
        let ghost t = all.take(i + 1);
        assert(t.last() == objs@[i as int]@);
        assert(t.drop_last() =~= all.take(i as int));
        if objs[i].message_type == Some(TSWP_TEXT_TYPE) {
            if let Some(raw) = tswp_raw_text_of(&objs[i]) {
                let frags = split_control_fragments(raw.as_slice());
                add_fragments_into(&mut acc, frags);
            }
        }
        i = i + 1;
    }
    assert(all.take(i as int) =~= all);
    let mut out: Vec<String> = Vec::new();
    let mut k: usize = 0;
    while k < acc.len()
        invariant
            k <= acc@.len(),
            out@.map_values(|s: String| s@) == acc@.map_values(|v: Vec<char>| v@).take(k as int),
        decreases acc.len() - k,
    {
        let ghost before = out@.map_values(|s: String| s@);
        out.push(string_from_chars(acc[k].as_slice()));
        assert(acc@.map_values(|v: Vec<char>| v@)[k as int] == acc@[k as int]@);
        assert(acc@.map_values(|v: Vec<char>| v@).take(k + 1) =~= acc@.map_values(|v: Vec<char>| v@).take(
            k as int,
        ).push(acc@[k as int]@));
        k = k + 1;
        assert(out@.map_values(|s: String| s@) =~= acc@.map_values(|v: Vec<char>| v@).take(k as int));
    }
    assert(acc@.map_values(|v: Vec<char>| v@).take(k as int) =~= acc@.map_values(|v: Vec<char>| v@));
    out
}

impl Slide {
    /// Creates a non-template slide for encoding: `title` (none when empty)
    /// and its text fragments, with an empty path.
    pub fn new_real(title: &str, text_fragments: Vec<String>) -> (r: Slide)
        ensures
            r@.path == Seq::<char>::empty(),
            !r@.is_template,
            r@.layout_name is None,
            r@.title == (if title@.len() == 0 {
                None
            } else {
                Some(title@)
            }),
            r@.speaker_notes is None,
            r@.text_fragments == text_fragments@.map_values(|s: String| s@),
            r@.media_descriptions == Seq::<Seq<char>>::empty(),
    {
        let t = if title.is_empty() { None } else { Some(title.to_owned()) };
        let s = Slide {
            path: String::new(),
            is_template: false,
            layout_name: None,
            title: t,
            speaker_notes: None,
            text_fragments,
            media_descriptions: Vec::new(),
        };
        assert(s@.media_descriptions =~= Seq::<Seq<char>>::empty());
        s
    }

    /// Decodes the slide fields from the archive at `path`.
    pub fn from_archive(path: String, archive: &IwaArchive) -> (r: Slide)
        ensures
            r@ == spec_slide(path@, spec_objects(archive@)),
    {
        let objs = archive.objects();
        let title = decode_placeholder_text(&objs, PLACEHOLDER_TITLE, &[' ']);
        let speaker_notes = decode_placeholder_text(&objs, PLACEHOLDER_NOTES, &['\n']);
        let text_fragments = decode_tswp_text(&objs);
        let media_descriptions = decode_media_descriptions(&objs);
        let layout_name: Option<String> = None;
        let prefix = chars_of("Index/TemplateSlide-");
        let is_template = chars_start_with(chars_of(path.as_str()).as_slice(), prefix.as_slice());
        assert([' ']@ =~= seq![' ']);
        assert(['\n']@ =~= seq!['\n']);
        Slide { path, is_template, layout_name, title, speaker_notes, text_fragments, media_descriptions }
    }

    /// The archive path of this slide, e.g. `"Index/Slide-1.iwa"`.
    pub fn path(&self) -> (r: &str)
        ensures
            r@ == self@.path,
    {
        self.path.as_str()
    }

    /// `true` for a layout master (path starts with `Index/TemplateSlide-`).
    pub fn is_template(&self) -> (r: bool)
        ensures
            r == self@.is_template,
    {
        self.is_template
    }

    /// The layout name; `None` until the layout-name field is located in the
    /// format.
    pub fn layout_name(&self) -> (r: Option<&str>)
        ensures
            match r {
                Some(s) => self@.layout_name == Some(s@),
                None => self@.layout_name is None,
            },
    {
        match &self.layout_name {
            Some(s) => Some(s.as_str()),
            None => None,
        }
    }

    /// The title placeholder's text.
    pub fn title(&self) -> (r: Option<&str>)
        ensures
            match r {
                Some(s) => self@.title == Some(s@),
                None => self@.title is None,
            },
    {
        match &self.title {
            Some(s) => Some(s.as_str()),
            None => None,
        }
    }

    /// The speaker notes, paragraphs joined with newlines.
    pub fn speaker_notes(&self) -> (r: Option<&str>)
        ensures
            match r {
                Some(s) => self@.speaker_notes == Some(s@),
                None => self@.speaker_notes is None,
            },
    {
        match &self.speaker_notes {
            Some(s) => Some(s.as_str()),
            None => None,
        }
    }

    /// All distinct text fragments of the slide, in archive order.
    pub fn text_fragments(&self) -> (r: &[String])
        ensures
            r@.map_values(|s: String| s@) == self@.text_fragments,
    {
        self.text_fragments.as_slice()
    }

    /// Alt-texts of the slide's images, in archive order.
    pub fn media_descriptions(&self) -> (r: &[String])
        ensures
            r@.map_values(|s: String| s@) == self@.media_descriptions,
    {
        self.media_descriptions.as_slice()
    }
}

// ───────────────────────────── presentations ─────────────────────────────

/// The theme name: field `1.3` of the first theme object, as UTF-8.
pub open spec fn spec_theme_name(objs: Seq<ObjectView>) -> Option<Seq<char>> {
    match first_of_type(objs, THEME_TYPE, 0) {
        Some(i) => match payload_fields(objs[i]) {
            Some(fs) => match nested_fields(fs, 1) {
                Some(inner) => opt_utf8_chars(bytes_value(first_field(inner, 3))),
                None => None,
            },
            None => None,
        },
        None => None,
    }
}

/// A slide archive: `Index/Slide-…` or `Index/TemplateSlide-…`, ending in `.iwa`.
pub open spec fn is_slide_path(p: Seq<char>) -> bool {
    (has_prefix(p, slide_prefix()) || has_prefix(p, template_prefix())) && has_suffix(p, ".iwa"@)
}

/// Decoding the slide archives among `es`, in order; the first failure fails all.
#[verifier::opaque]
pub open spec fn spec_slides_from(p: PackageView, es: Seq<EntryView>) -> Result<Seq<SlideView>, LoadError>
    decreases es.len(),
{
    if es.len() == 0 {
        Ok(seq![])
    } else {
        let e = es[0];
        if !is_slide_path(e.path) {
            spec_slides_from(p, es.drop_first())
        } else {
            match spec_read_archive(p, e.path) {
                Err(x) => Err(x),
                Ok(a) => match spec_slides_from(p, es.drop_first()) {
                    Err(x) => Err(x),
                    Ok(rest) => Ok(seq![spec_slide(e.path, spec_objects(a))] + rest),
                },
            }
        }
    }
}

/// Inserting `x` into slides sorted by path, after every slide whose path
/// does not sort after its own (a stable sort).
pub open spec fn insert_by_path(xs: Seq<SlideView>, x: SlideView, j: int) -> Seq<SlideView>
    decreases xs.len() - j,
{
    if j < 0 || j >= xs.len() {
        xs.push(x)
    } else if crate::inspect::chars_less_from(x.path, xs[j].path, 0) {
        xs.insert(j, x)
    } else {
        insert_by_path(xs, x, j + 1)
    }
}

/// Slides stably sorted by path.
pub open spec fn sort_by_path(xs: Seq<SlideView>) -> Seq<SlideView>
    decreases xs.len(),
{
    if xs.len() == 0 {
        seq![]
    } else {
        insert_by_path(sort_by_path(xs.drop_last()), xs.last(), 0)
    }
}

/// Decoding a presentation: the theme from `Index/Document.iwa`, then every
/// slide archive, sorted by path.
pub open spec fn spec_presentation(p: PackageView) -> Result<PresentationView, LoadError> {
    match spec_read_archive(p, "Index/Document.iwa"@) {
        Err(x) => Err(x),
        Ok(doc) => match spec_slides_from(p, p.entries) {
            Err(x) => Err(x),
            Ok(slides) => Ok(
                PresentationView { theme_name: spec_theme_name(spec_objects(doc)), slides: sort_by_path(slides) },
            ),
        },
    }
}

fn decode_theme_name(objs: &Vec<IwaObject>) -> (r: Option<String>)
    ensures
        opt_view(r) == spec_theme_name(objs@.map_values(|o: IwaObject| o@)),
{
    let ghost all = objs@.map_values(|o: IwaObject| o@);
    let mut i: usize = 0;
    while i < objs.len()
        invariant
            i <= objs@.len(),
            all == objs@.map_values(|o: IwaObject| o@),
            first_of_type(all, THEME_TYPE, 0) == first_of_type(all, THEME_TYPE, i as int),
        decreases objs.len() - i,
    {
        assert(all[i as int] == objs@[i as int]@);
        if objs[i].message_type == Some(THEME_TYPE) {
            return match decode_payload(&objs[i]) {
                Some(m) => match nested_message_of(&m, 1) {
                    Some(inner) => opt_utf8_string(field_bytes(&inner, 3)),
                    None => None,
                },
                None => None,
            };
        }
        i = i + 1;
    }
    None
}

fn insert_slide(slides: &mut Vec<Slide>, slide: Slide)
    ensures
        final(slides)@.map_values(|s: Slide| s@) == insert_by_path(old(slides)@.map_values(|s: Slide| s@), slide@, 0),
{
    let ghost xs = slides@.map_values(|s: Slide| s@);
    let key = chars_of(slide.path.as_str());
    let mut j: usize = 0;
    while j < slides.len()
        invariant
            j <= slides@.len(),
            xs == slides@.map_values(|s: Slide| s@),
            xs == old(slides)@.map_values(|s: Slide| s@),
            key@ == slide@.path,
            insert_by_path(xs, slide@, 0) == insert_by_path(xs, slide@, j as int),
        decreases slides.len() - j,
    {
        assert(xs[j as int] == slides@[j as int]@);
        let other = chars_of(slides[j].path.as_str());
        if crate::inspect::chars_less(key.as_slice(), other.as_slice()) {
            slides.insert(j, slide);
            assert(slides@.map_values(|s: Slide| s@) =~= xs.insert(j as int, slide@));
            return;
        }
        j = j + 1;
    }
    slides.push(slide);
    assert(slides@.map_values(|s: Slide| s@) =~= xs.push(slide@));
}

fn decode_slide_entry(
    package: &Package,
    entry: &crate::package::Entry,
    slide_start: &[char],
    template_start: &[char],
    suffix: &[char],
) -> (r: Result<Option<Slide>, Error>)
    requires
        slide_start@ == slide_prefix(),
        template_start@ == template_prefix(),
        suffix@ == ".iwa"@,
    ensures
        !is_slide_path(entry@.path) ==> r matches Ok(None),
        is_slide_path(entry@.path) ==> match spec_read_archive(package@, entry@.path) {
            Ok(a) => r matches Ok(Some(s)) && s@ == spec_slide(entry@.path, spec_objects(a)),
            Err(e) => load_error_matches(r, e),
        },
{
    let path = chars_of(entry.path_str());
    let is_slide = (chars_start_with(path.as_slice(), slide_start) || chars_start_with(path.as_slice(), template_start))
        && chars_end_with(path.as_slice(), suffix);
    if !is_slide {
        return Ok(None);
    }
    let archive = package.read_archive(entry.path_str())?;
    Ok(Some(Slide::from_archive(entry.path_string(), &archive)))
}

pub(crate) proof fn lemma_slides_from_step(p: PackageView, es: Seq<EntryView>)
    requires
        es.len() > 0,
    ensures
        spec_slides_from(p, es) == (if !is_slide_path(es[0].path) {
            spec_slides_from(p, es.drop_first())
        } else {
            match spec_read_archive(p, es[0].path) {
                Err(x) => Err(x),
                Ok(a) => match spec_slides_from(p, es.drop_first()) {
                    Err(x) => Err(x),
                    Ok(rest) => Ok(seq![spec_slide(es[0].path, spec_objects(a))] + rest),
                },
            }
        }),
{
    reveal(spec_slides_from);
}

/// Decoding no entries gives no slides.
pub(crate) proof fn lemma_slides_from_empty(p: PackageView, es: Seq<EntryView>)
    requires
        es.len() == 0,
    ensures
        spec_slides_from(p, es) == Ok::<Seq<SlideView>, LoadError>(seq![]),
{
    reveal(spec_slides_from);
}

#[verifier::spinoff_prover]
#[verifier::rlimit(40)]
fn decode_slides(package: &Package) -> (r: Result<Vec<Slide>, Error>)
    ensures
        match spec_slides_from(package@, package@.entries) {
            Ok(slides) => r matches Ok(v) && v@.map_values(|s: Slide| s@) == slides,
            Err(e) => load_error_matches(r, e),
        },
{
    let entries = package.entries();
    let ghost es = package@.entries;
    let slide_start = chars_of("Index/Slide-");
    let template_start = chars_of("Index/TemplateSlide-");
    let suffix = chars_of(".iwa");
    let mut decoded: Vec<Slide> = Vec::new();
    let mut i: usize = 0;
    assert(es.skip(0) =~= es);
    while i < entries.len()
        invariant
            i <= entries@.len(),
            es == package@.entries,
            es == entries@.map_values(|e: crate::package::Entry| e@),
            slide_start@ == slide_prefix(),
            template_start@ == template_prefix(),
            suffix@ == ".iwa"@,
            match spec_slides_from(package@, es.skip(i as int)) {
                Ok(rest) => spec_slides_from(package@, es) == Ok::<Seq<SlideView>, LoadError>(
                    decoded@.map_values(|s: Slide| s@) + rest,
                ),
                Err(x) => spec_slides_from(package@, es) == Err::<Seq<SlideView>, LoadError>(x),
            },
        decreases entries.len() - i,
    {
        let entry = &entries[i];
        assert(es.skip(i as int)[0] == entry@);
        assert(es.skip(i as int).drop_first() =~= es.skip(i + 1));
        let maybe = match decode_slide_entry(
            package,
            entry,
            slide_start.as_slice(),
            template_start.as_slice(),
            suffix.as_slice(),
        ) {
            Ok(m) => m,
            Err(e) => {
                proof {
                    lemma_slides_from_step(package@, es.skip(i as int));
                }
                return Err(e);
            },
        };
        proof {
            lemma_slides_from_step(package@, es.skip(i as int));
        }
        if let Some(slide) = maybe {
            let ghost before = decoded@.map_values(|s: Slide| s@);
            decoded.push(slide);
            proof {
                assert(decoded@.map_values(|s: Slide| s@) =~= before.push(slide@));
                match spec_slides_from(package@, es.skip(i + 1)) {
                    Ok(rest) => {
                        assert(before + (seq![slide@] + rest) =~= before.push(slide@) + rest);
                    },
                    Err(_) => {},
                }
            }
        }
        i = i + 1;
    }
    assert(es.skip(i as int) =~= seq![]);
    proof {
        lemma_slides_from_empty(package@, es.skip(i as int));
    }
    assert(decoded@.map_values(|s: Slide| s@) + seq![] =~= decoded@.map_values(|s: Slide| s@));
    Ok(decoded)
}

impl Presentation {
    /// Sets the theme name for encoding.
    pub fn set_theme_name(&mut self, name: Option<String>)
        ensures
            final(self)@.theme_name == opt_view(name),
            final(self)@.slides == old(self)@.slides,
    {
        self.theme_name = name;
    }

    /// Appends a slide (real or template) for encoding.
    pub fn add_slide(&mut self, slide: Slide)
        ensures
            final(self)@.theme_name == old(self)@.theme_name,
            final(self)@.slides == old(self)@.slides.push(slide@),
    {
        let ghost before = self@.slides;
        self.slides.push(slide);
        assert(self@.slides =~= before.push(slide@));
    }

    /// Decodes the theme name from `Index/Document.iwa` and every slide
    /// archive, sorted by archive path.
    pub fn from_package(package: &Package) -> (r: Result<Presentation, Error>)
        ensures
            match spec_presentation(package@) {
                Ok(p) => r matches Ok(x) && x@ == p,
                Err(e) => load_error_matches(r, e),
            },
    {
        let document = package.read_archive("Index/Document.iwa")?;
        let objects = document.objects();
        let theme_name = decode_theme_name(&objects);
        let decoded = decode_slides(package)?;
        let mut slides: Vec<Slide> = Vec::new();
        let mut k: usize = 0;
        let ghost all = decoded@.map_values(|s: Slide| s@);
        assert(slides@.map_values(|s: Slide| s@) =~= sort_by_path(all.take(0)));
        assert(all.skip(0) =~= all);
        let n = decoded.len();
        let mut rest = decoded;
        while k < n
            invariant
                k <= n,
                n == all.len(),
                rest@.map_values(|s: Slide| s@) == all.skip(k as int),
                rest@.len() == n - k,
                slides@.map_values(|s: Slide| s@) == sort_by_path(all.take(k as int)),
            decreases n - k,
        {
            assert(rest@.map_values(|s: Slide| s@)[0] == rest@[0]@);
            let ghost old_rest = rest@;
            let slide = rest.remove(0);
            assert(slide@ == all[k as int]);
            assert(rest@ =~= old_rest.subrange(1, old_rest.len() as int));
            let ghost mapped = rest@.map_values(|s: Slide| s@);
            let ghost old_mapped = old_rest.map_values(|s: Slide| s@);
            assert forall|t: int| 0 <= t < mapped.len() implies #[trigger] mapped[t] == all.skip(k + 1)[t] by {
                assert(rest@[t] == old_rest[t + 1]);
                assert(old_mapped[t + 1] == all.skip(k as int)[t + 1]);
            }
            assert(rest@.map_values(|s: Slide| s@) =~= all.skip(k + 1));
            let ghost t = all.take(k + 1);
            assert(t.drop_last() =~= all.take(k as int));
            insert_slide(&mut slides, slide);
            k = k + 1;
        }
        assert(all.take(n as int) =~= all);
        Ok(Presentation { theme_name, slides })
    }

    /// The theme name (field `1.3` of the theme object in `Index/Document.iwa`).
    pub fn theme_name(&self) -> (r: Option<&str>)
        ensures
            match r {
                Some(s) => self@.theme_name == Some(s@),
                None => self@.theme_name is None,
            },
    {
        match &self.theme_name {
            Some(s) => Some(s.as_str()),
            None => None,
        }
    }

    /// All slide archives (real and template), sorted by archive path.
    pub fn slides(&self) -> (r: &[Slide])
        ensures
            r@.map_values(|s: Slide| s@) == self@.slides,
    {
        self.slides.as_slice()
    }
}

} // verus!
