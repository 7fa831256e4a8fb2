//! The body of a Pages document: paragraphs with their styles and
//! character runs, the title, headings, text fragments and media
//! descriptions.
use crate::error::Error;
use crate::iwa::{
    decode_payload, field_bytes, nested_fields, nested_message_of, payload_fields, spec_objects, IwaObject,
    ObjectView,
};
use crate::keynote::presentation::{first_of_type, opt_view};
use crate::numbers::header_storage::fixed32_value;
use crate::numbers::table_model::{reference_id, text_of};
use crate::protobuf::{
    bytes_value, first_field, nested_message, spec_decode_message, varint_value, ProtoField, ProtoFieldView,
    ProtoMessage, ProtoValue,
};
use crate::numbers::types::opt_str_view;
use crate::package::{load_error_matches, spec_read_archive, LoadError, Package, PackageView};
use crate::pages::paragraphs::{body_paragraphs, decode_paragraphs, StyleMaps, StyleMapsView};
use crate::text::{has_infix, opt_utf8_chars, opt_utf8_string, trim};
use vstd::prelude::*;

verus! {

/// Message type of the word-processor body.
pub const WP_BODY_TYPE: u64 = 10001;

/// Message type of the stylesheet root.
pub const STYLESHEET_TYPE: u64 = 401;

/// Message type of a text storage.
pub const TSWP_TEXT_TYPE: u64 = 2001;

/// Message type of a named character style.
pub const NAMED_CHAR_STYLE_TYPE: u64 = 2021;

/// Message type of a character style.
pub const CHAR_STYLE_TYPE: u64 = 2022;

/// Message type of a list style.
pub const LIST_STYLE_TYPE: u64 = 2023;

/// Message type of a media object.
pub const MEDIA_TYPE: u64 = 3005;

/// Character-level formatting of a text run; `None` inherits the paragraph
/// style. The font size is kept as the bits of its 32-bit float.
#[derive(Debug, Clone, Default, PartialEq, Eq)]
pub struct TextFormatting {
    pub bold: Option<bool>,
    pub italic: Option<bool>,
    pub underline: Option<bool>,
    pub strikethrough: Option<bool>,
    pub font_name: Option<String>,
    pub font_size_bits: Option<u32>,
}

/// The mathematical content of a [`TextFormatting`].
pub struct FormattingView {
    pub bold: Option<bool>,
    pub italic: Option<bool>,
    pub underline: Option<bool>,
    pub strikethrough: Option<bool>,
    pub font_name: Option<Seq<char>>,
    pub font_size_bits: Option<u32>,
}

impl View for TextFormatting {
    type V = FormattingView;

    open spec fn view(&self) -> FormattingView {
        FormattingView {
            bold: self.bold,
            italic: self.italic,
            underline: self.underline,
            strikethrough: self.strikethrough,
            font_name: opt_view(self.font_name),
            font_size_bits: self.font_size_bits,
        }
    }
}

/// No attribute set.
pub open spec fn default_formatting() -> FormattingView {
    FormattingView {
        bold: None,
        italic: None,
        underline: None,
        strikethrough: None,
        font_name: None,
        font_size_bits: None,
    }
}

/// The bits of a 32-bit float that is positive and finite.
pub open spec fn positive_finite(bits: u32) -> bool {
    0 < bits < 0x7F80_0000
}

/// A flag field: a varint, true unless zero.
pub open spec fn flag_of(fs: Seq<ProtoFieldView>, n: u32) -> Option<bool> {
    match varint_value(first_field(fs, n)) {
        Some(v) => Some(v != 0),
        None => None,
    }
}

/// The formatting a style payload holds in its field 11.
pub open spec fn formatting_of(payload: Seq<u8>) -> FormattingView {
    match spec_decode_message(payload) {
        Err(_) => default_formatting(),
        Ok(fs) => match nested_fields(fs, 11) {
            None => default_formatting(),
            Some(a) => FormattingView {
                bold: flag_of(a, 1),
                italic: flag_of(a, 2),
                underline: flag_of(a, 13),
                strikethrough: None,
                font_name: text_of(a, 5),
                font_size_bits: match fixed32_value(first_field(a, 3)) {
                    Some(b) => if positive_finite(b) {
                        Some(b)
                    } else {
                        None
                    },
                    None => None,
                },
            },
        },
    }
}

/// `overlay`'s attributes, falling back to `base`'s.
pub open spec fn merged(base: FormattingView, overlay: FormattingView) -> FormattingView {
    FormattingView {
        bold: if overlay.bold is Some { overlay.bold } else { base.bold },
        italic: if overlay.italic is Some { overlay.italic } else { base.italic },
        underline: if overlay.underline is Some { overlay.underline } else { base.underline },
        strikethrough: if overlay.strikethrough is Some { overlay.strikethrough } else { base.strikethrough },
        font_name: if overlay.font_name is Some { overlay.font_name } else { base.font_name },
        font_size_bits: if overlay.font_size_bits is Some { overlay.font_size_bits } else { base.font_size_bits },
    }
}

/// The formatting of a named character style.
pub open spec fn named_formatting(name: Seq<char>) -> FormattingView {
    if name == "Emphasis"@ || name == "Italic"@ {
        FormattingView { italic: Some(true), ..default_formatting() }
    } else if name == "Link"@ {
        FormattingView { underline: Some(true), ..default_formatting() }
    } else if name == "Strikethrough"@ {
        FormattingView { strikethrough: Some(true), ..default_formatting() }
    } else {
        default_formatting()
    }
}

fn copy_opt_string(s: &Option<String>) -> (r: Option<String>)
    ensures
        opt_view(r) == opt_view(*s),
{
    match s {
        Some(x) => Some(x.clone()),
        None => None,
    }
}

impl TextFormatting {
    /// No attribute set.
    pub fn plain() -> (r: TextFormatting)
        ensures
            r@ == default_formatting(),
    {
        TextFormatting {
            bold: None,
            italic: None,
            underline: None,
            strikethrough: None,
            font_name: None,
            font_size_bits: None,
        }
    }

    /// A copy of this formatting.
    pub fn duplicate(&self) -> (r: TextFormatting)
        ensures
            r@ == self@,
    {
        TextFormatting {
            bold: self.bold,
            italic: self.italic,
            underline: self.underline,
            strikethrough: self.strikethrough,
            font_name: copy_opt_string(&self.font_name),
            font_size_bits: self.font_size_bits,
        }
    }

    /// Whether no attribute is set.
    pub fn is_default(&self) -> (r: bool)
        ensures
            r == (self@ == default_formatting()),
    {
        self.bold.is_none() && self.italic.is_none() && self.underline.is_none() && self.strikethrough.is_none()
            && self.font_name.is_none() && self.font_size_bits.is_none()
    }
}

fn flag_field(m: &ProtoMessage, n: u32) -> (r: Option<bool>)
    ensures
        r == flag_of(m@, n),
{
    match m.field(n) {
        Some(f) => match f.value.as_varint() {
            Some(v) => Some(v != 0),
            None => None,
        },
        None => None,
    }
}

/// Decodes the formatting a style payload holds (see [`formatting_of`]).
pub fn decode_text_formatting(payload: &[u8]) -> (r: TextFormatting)
    ensures
        r@ == formatting_of(payload@),
{
    let msg = match ProtoMessage::decode(payload) {
        Ok(m) => m,
        Err(_) => return TextFormatting::plain(),
    };
    let attrs = match nested_message_of(&msg, 11) {
        Some(a) => a,
        None => return TextFormatting::plain(),
    };
    let font_size_bits = match attrs.field(3) {
        Some(f) => match &f.value {
            ProtoValue::Fixed32(bits) => if 0 < *bits && *bits < 0x7F80_0000 {
                Some(*bits)
            } else {
                None
            },
            _ => None,
        },
        None => None,
    };
    TextFormatting {
        bold: flag_field(&attrs, 1),
        italic: flag_field(&attrs, 2),
        underline: flag_field(&attrs, 13),
        strikethrough: None,
        font_name: opt_utf8_string(field_bytes(&attrs, 5)),
        font_size_bits,
    }
}

fn or_flag(overlay: Option<bool>, base: Option<bool>) -> (r: Option<bool>)
    ensures
        r == if overlay is Some { overlay } else { base },
{
    match overlay {
        Some(v) => Some(v),
        None => base,
    }
}

/// Merges two formattings: `overlay`'s attributes win over `base`'s.
pub fn merge_formatting(base: TextFormatting, overlay: TextFormatting) -> (r: TextFormatting)
    ensures
        r@ == merged(base@, overlay@),
{
    TextFormatting {
        bold: or_flag(overlay.bold, base.bold),
        italic: or_flag(overlay.italic, base.italic),
        underline: or_flag(overlay.underline, base.underline),
        strikethrough: or_flag(overlay.strikethrough, base.strikethrough),
        font_name: match overlay.font_name {
            Some(n) => Some(n),
            None => base.font_name,
        },
        font_size_bits: match overlay.font_size_bits {
            Some(b) => Some(b),
            None => base.font_size_bits,
        },
    }
}

/// The formatting of a named character style (see [`named_formatting`]).
pub fn named_char_style_formatting(name: &str) -> (r: TextFormatting)
    ensures
        r@ == named_formatting(name@),
{
    let cs = crate::text::chars_of(name);
    let mut f = TextFormatting::plain();
    if crate::text::chars_equal(cs.as_slice(), crate::text::chars_of("Emphasis").as_slice())
        || crate::text::chars_equal(cs.as_slice(), crate::text::chars_of("Italic").as_slice()) {
        f.italic = Some(true);
    } else if crate::text::chars_equal(cs.as_slice(), crate::text::chars_of("Link").as_slice()) {
        f.underline = Some(true);
    } else if crate::text::chars_equal(cs.as_slice(), crate::text::chars_of("Strikethrough").as_slice()) {
        f.strikethrough = Some(true);
    }
    f
}

/// A contiguous run of text sharing one formatting.
#[derive(Debug, Clone, Default, PartialEq, Eq)]
pub struct TextRun {
    pub text: String,
    pub formatting: TextFormatting,
}

/// The mathematical content of a [`TextRun`].
pub struct TextRunView {
    pub text: Seq<char>,
    pub formatting: FormattingView,
}

impl View for TextRun {
    type V = TextRunView;

    open spec fn view(&self) -> TextRunView {
        TextRunView { text: self.text@, formatting: self.formatting@ }
    }
}

/// A paragraph of the body: its paragraph style name, its list style (none
/// outside lists and for the list style "None") and its text runs.
#[derive(Debug, Clone, Default, PartialEq, Eq)]
pub struct Paragraph {
    pub style_name: String,
    pub list_style: Option<String>,
    pub runs: Vec<TextRun>,
}

/// The mathematical content of a [`Paragraph`].
pub struct ParagraphView {
    pub style_name: Seq<char>,
    pub list_style: Option<Seq<char>>,
    pub runs: Seq<TextRunView>,
}

impl View for Paragraph {
    type V = ParagraphView;

    open spec fn view(&self) -> ParagraphView {
        ParagraphView { style_name: self.style_name@, list_style: opt_view(self.list_style), runs: runs_view(self.runs@) }
    }
}

/// The views of a list of runs.
pub open spec fn runs_view(v: Seq<TextRun>) -> Seq<TextRunView> {
    v.map_values(|r: TextRun| r@)
}

/// The views of a list of paragraphs.
pub open spec fn paragraphs_view(v: Seq<Paragraph>) -> Seq<ParagraphView> {
    v.map_values(|p: Paragraph| p@)
}

/// The texts of `rs`, concatenated.
pub open spec fn runs_text(rs: Seq<TextRunView>) -> Seq<char>
    decreases rs.len(),
{
    if rs.len() == 0 {
        seq![]
    } else {
        runs_text(rs.drop_last()) + rs.last().text
    }
}

impl Paragraph {
    /// The paragraph's full text: its runs' texts concatenated.
    pub fn text(&self) -> (r: String)
        ensures
            r@ == runs_text(self@.runs),
    {
        let ghost rv = self@.runs;
        let mut cs: Vec<char> = Vec::new();
        let mut i: usize = 0;
        assert(rv.take(0) =~= seq![]);
        while i < self.runs.len()
            invariant
                i <= self.runs@.len(),
                rv == runs_view(self.runs@),
                cs@ == runs_text(rv.take(i as int)),
            decreases self.runs.len() - i,
        {
            assert(rv.take(i + 1).drop_last() =~= rv.take(i as int));
            assert(rv.take(i + 1).last() == self.runs@[i as int]@);
            let t = crate::text::chars_of(self.runs[i].text.as_str());
            crate::text::extend_chars(&mut cs, t.as_slice());
            i = i + 1;
        }
        assert(rv.take(self.runs@.len() as int) =~= rv);
        crate::text::string_from_chars(cs.as_slice())
    }
}

// ───────────────────────────── style maps ─────────────────────────────

/// The value of the last pair keyed `k`.
pub open spec fn lookup_last<V>(pairs: Seq<(u64, V)>, k: u64) -> Option<V>
    decreases pairs.len(),
{
    if pairs.len() == 0 {
        None
    } else if pairs.last().0 == k {
        Some(pairs.last().1)
    } else {
        lookup_last(pairs.drop_last(), k)
    }
}

/// The second piece of `s` split at `sep`: what follows the first `sep` up
/// to the next one, or to the end.
pub open spec fn second_piece(s: Seq<char>, sep: Seq<char>) -> Option<Seq<char>> {
    match crate::plist::find_from(s, sep, 0) {
        None => None,
        Some(p) => {
            let rest = s.subrange(p + sep.len(), s.len() as int);
            match crate::plist::find_from(rest, sep, 0) {
                Some(q) => Some(rest.subrange(0, q)),
                None => Some(rest),
            }
        },
    }
}

/// The separator of paragraph style keys.
pub open spec fn para_style_sep() -> Seq<char> {
    "-paragraphstyle-"@
}

/// The paragraph style a registry entry names: its key's piece after
/// `-paragraphstyle-` and the object its field 2 references.
pub open spec fn para_entry(f: ProtoFieldView) -> Option<(u64, Seq<char>)> {
    match nested_message(f.value) {
        Some(m) => match (text_of(m, 1), reference_id(nested_fields(m, 2))) {
            (Some(key), Some(id)) => match second_piece(key, para_style_sep()) {
                Some(name) => Some((id, name)),
                None => None,
            },
            _ => None,
        },
        None => None,
    }
}

/// The paragraph style entries among the fields numbered 2 of `fs`.
pub open spec fn para_entries(fs: Seq<ProtoFieldView>) -> Seq<(u64, Seq<char>)>
    decreases fs.len(),
{
    if fs.len() == 0 {
        seq![]
    } else {
        let r = para_entries(fs.drop_last());
        if fs.last().number == 2 {
            match para_entry(fs.last()) {
                Some(e) => r.push(e),
                None => r,
            }
        } else {
            r
        }
    }
}

/// The paragraph styles of a stylesheet: the registry of its first type-401
/// object.
pub open spec fn para_styles(objs: Seq<ObjectView>) -> Seq<(u64, Seq<char>)> {
    match first_of_type(objs, STYLESHEET_TYPE, 0) {
        Some(i) => match payload_fields(objs[i]) {
            Some(fs) => para_entries(fs),
            None => seq![],
        },
        None => seq![],
    }
}

/// The name a style object holds at field 1.1.
pub open spec fn name_at_1_1(fs: Seq<ProtoFieldView>) -> Option<Seq<char>> {
    match nested_fields(fs, 1) {
        Some(inner) => opt_utf8_chars(bytes_value(first_field(inner, 1))),
        None => None,
    }
}

/// The character styles among `objs`: type-2022 objects with an identifier.
pub open spec fn char_styles(objs: Seq<ObjectView>) -> Seq<(u64, FormattingView)>
    decreases objs.len(),
{
    if objs.len() == 0 {
        seq![]
    } else {
        let r = char_styles(objs.drop_last());
        let o = objs.last();
        if o.message_type == Some(CHAR_STYLE_TYPE) && o.identifier is Some {
            r.push((o.identifier->0, formatting_of(o.payload)))
        } else {
            r
        }
    }
}

/// The named pair an object of type `t` contributes: its identifier and its
/// name at field 1.1.
pub open spec fn named_object(o: ObjectView, t: u64) -> Option<(u64, Seq<char>)> {
    if o.message_type != Some(t) {
        None
    } else {
        match (o.identifier, payload_fields(o)) {
            (Some(id), Some(fs)) => match name_at_1_1(fs) {
                Some(n) => Some((id, n)),
                None => None,
            },
            _ => None,
        }
    }
}

/// The list styles among `objs`: type-2023 objects and their names.
pub open spec fn list_styles(objs: Seq<ObjectView>) -> Seq<(u64, Seq<char>)>
    decreases objs.len(),
{
    if objs.len() == 0 {
        seq![]
    } else {
        let r = list_styles(objs.drop_last());
        match named_object(objs.last(), LIST_STYLE_TYPE) {
            Some(p) => r.push(p),
            None => r,
        }
    }
}

/// The named character styles among `objs`: type-2021 objects and the
/// formatting their names stand for.
pub open spec fn named_styles(objs: Seq<ObjectView>) -> Seq<(u64, FormattingView)>
    decreases objs.len(),
{
    if objs.len() == 0 {
        seq![]
    } else {
        let r = named_styles(objs.drop_last());
        match named_object(objs.last(), NAMED_CHAR_STYLE_TYPE) {
            Some(p) => r.push((p.0, named_formatting(p.1))),
            None => r,
        }
    }
}

/// The view of a list of string pairs.
pub open spec fn string_pairs_view(v: Seq<(u64, String)>) -> Seq<(u64, Seq<char>)> {
    v.map_values(|p: (u64, String)| (p.0, p.1@))
}

/// The view of a list of formatting pairs.
pub open spec fn format_pairs_view(v: Seq<(u64, TextFormatting)>) -> Seq<(u64, FormattingView)> {
    v.map_values(|p: (u64, TextFormatting)| (p.0, p.1@))
}

/// The value of the last pair keyed `k` in a string registry.
pub(crate) fn lookup_string<'a>(pairs: &'a Vec<(u64, String)>, k: u64) -> (r: Option<&'a String>)
    ensures
        match lookup_last(string_pairs_view(pairs@), k) {
            Some(v) => r matches Some(x) && x@ == v,
            None => r is None,
        },
{
    let ghost pv = string_pairs_view(pairs@);
    let mut i: usize = pairs.len();
    assert(pv.take(pairs@.len() as int) =~= pv);
    while i > 0
        invariant
            i <= pairs@.len(),
            pv == string_pairs_view(pairs@),
            lookup_last(pv, k) == lookup_last(pv.take(i as int), k),
        decreases i,
    {
        assert(pv.take(i as int).drop_last() =~= pv.take(i - 1));
        assert(pv.take(i as int).last() == (pairs@[i - 1].0, pairs@[i - 1].1@));
        if pairs[i - 1].0 == k {
            return Some(&pairs[i - 1].1);
        }
        i = i - 1;
    }
    None
}

/// The value of the last pair keyed `k` in a formatting registry.
pub(crate) fn lookup_format<'a>(pairs: &'a Vec<(u64, TextFormatting)>, k: u64) -> (r: Option<&'a TextFormatting>)
    ensures
        match lookup_last(format_pairs_view(pairs@), k) {
            Some(v) => r matches Some(x) && x@ == v,
            None => r is None,
        },
{
    let ghost pv = format_pairs_view(pairs@);
    let mut i: usize = pairs.len();
    assert(pv.take(pairs@.len() as int) =~= pv);
    while i > 0
        invariant
            i <= pairs@.len(),
            pv == format_pairs_view(pairs@),
            lookup_last(pv, k) == lookup_last(pv.take(i as int), k),
        decreases i,
    {
        assert(pv.take(i as int).drop_last() =~= pv.take(i - 1));
        assert(pv.take(i as int).last() == (pairs@[i - 1].0, pairs@[i - 1].1@));
        if pairs[i - 1].0 == k {
            return Some(&pairs[i - 1].1);
        }
        i = i - 1;
    }
    None
}

fn second_piece_of(s: &[char], sep: &[char]) -> (r: Option<Vec<char>>)
    ensures
        match second_piece(s@, sep@) {
            Some(v) => r matches Some(x) && x@ == v,
            None => r is None,
        },
{
    assert(s@.subrange(0, s@.len() as int) =~= s@);
    let p = match crate::plist::find_chars(s, 0, s.len(), sep) {
        Some(p) => p,
        None => return None,
    };
    proof {
        crate::plist::lemma_find_from_bounds(s@, sep@, 0);
    }
    let start = p + sep.len();
    let rest = crate::text::copy_chars(s, start, s.len());
    assert(rest@.subrange(0, rest@.len() as int) =~= rest@);
    match crate::plist::find_chars(rest.as_slice(), 0, rest.len(), sep) {
        Some(q) => {
            proof {
                crate::plist::lemma_find_from_bounds(rest@, sep@, 0);
            }
            Some(crate::text::copy_chars(rest.as_slice(), 0, q))
        },
        None => Some(rest),
    }
}

fn para_entry_of(f: &ProtoField) -> (r: Option<(u64, String)>)
    ensures
        match para_entry(f@) {
            Some(e) => r matches Some(x) && x.0 == e.0 && x.1@ == e.1,
            None => r is None,
        },
{
    let m = match &f.value {
        ProtoValue::LengthDelimited(b) => match ProtoMessage::decode(b.as_slice()) {
            Ok(m) => m,
            Err(_) => return None,
        },
        _ => return None,
    };
    let key = match opt_utf8_string(field_bytes(&m, 1)) {
        Some(k) => k,
        None => return None,
    };
    let id = match nested_message_of(&m, 2) {
        Some(r) => match r.field(1) {
            Some(x) => match x.value.as_varint() {
                Some(v) => v,
                None => return None,
            },
            None => return None,
        },
        None => return None,
    };
    let kc = crate::text::chars_of(key.as_str());
    let sep = crate::text::chars_of("-paragraphstyle-");
    match second_piece_of(kc.as_slice(), sep.as_slice()) {
        Some(name) => Some((id, crate::text::string_from_chars(name.as_slice()))),
        None => None,
    }
}

/// The paragraph styles of a stylesheet's objects (see [`para_styles`]).
pub fn decode_paragraph_styles(objs: &Vec<IwaObject>) -> (r: Vec<(u64, String)>)
    ensures
        string_pairs_view(r@) == para_styles(objs@.map_values(|o: IwaObject| o@)),
{
    let ghost all = objs@.map_values(|o: IwaObject| o@);
    let mut out: Vec<(u64, String)> = Vec::new();
    let mut i: usize = 0;
    while i < objs.len()
        invariant
            i <= objs@.len(),
            all == objs@.map_values(|o: IwaObject| o@),
            out@.len() == 0,
            first_of_type(all, STYLESHEET_TYPE, 0) == first_of_type(all, STYLESHEET_TYPE, i as int),
        decreases objs.len() - i,
    {
        assert(all[i as int] == objs@[i as int]@);
        if objs[i].message_type == Some(STYLESHEET_TYPE) {
            let m = match decode_payload(&objs[i]) {
                Some(m) => m,
                None => {
                    assert(string_pairs_view(out@) =~= Seq::<(u64, Seq<char>)>::empty());
                    return out;
                },
            };
            let fields = m.fields();
            let ghost fs = m@;
            let mut j: usize = 0;
            assert(string_pairs_view(out@) =~= Seq::<(u64, Seq<char>)>::empty());
            while j < fields.len()
                invariant
                    j <= fields@.len(),
                    fs == m@,
                    fields@.map_values(|f: ProtoField| f@) == fs,
                    string_pairs_view(out@) == para_entries(fs.take(j as int)),
                decreases fields.len() - j,
            {
                assert(fs.take(j + 1).drop_last() =~= fs.take(j as int));
                assert(fs.take(j + 1).last() == fields@[j as int]@);
                if fields[j].number == 2 {
                    if let Some(e) = para_entry_of(&fields[j]) {
                        let ghost before = string_pairs_view(out@);
                        let ghost ev = (e.0, e.1@);
                        out.push(e);
                        assert(string_pairs_view(out@) =~= before.push(ev));
                    }
                }
                j = j + 1;
            }
            assert(fs.take(fields@.len() as int) =~= fs);
            return out;
        }
        i = i + 1;
    }
    assert(string_pairs_view(out@) =~= Seq::<(u64, Seq<char>)>::empty());
    out
}

fn name_at_1_1_of(m: &ProtoMessage) -> (r: Option<String>)
    ensures
        match name_at_1_1(m@) {
            Some(n) => r matches Some(x) && x@ == n,
            None => r is None,
        },
{
    match nested_message_of(m, 1) {
        Some(inner) => opt_utf8_string(field_bytes(&inner, 1)),
        None => None,
    }
}

fn named_object_of(o: &IwaObject, t: u64) -> (r: Option<(u64, String)>)
    ensures
        match named_object(o@, t) {
            Some(p) => r matches Some(x) && x.0 == p.0 && x.1@ == p.1,
            None => r is None,
        },
{
    if o.message_type != Some(t) {
        return None;
    }
    let id = match o.identifier {
        Some(id) => id,
        None => return None,
    };
    let m = match decode_payload(o) {
        Some(m) => m,
        None => return None,
    };
    match name_at_1_1_of(&m) {
        Some(n) => Some((id, n)),
        None => None,
    }
}

/// The character styles of a stylesheet's objects (see [`char_styles`]).
pub fn decode_char_styles(objs: &Vec<IwaObject>) -> (r: Vec<(u64, TextFormatting)>)
    ensures
        format_pairs_view(r@) == char_styles(objs@.map_values(|o: IwaObject| o@)),
{
    let ghost all = objs@.map_values(|o: IwaObject| o@);
    let mut out: Vec<(u64, TextFormatting)> = Vec::new();
    let mut i: usize = 0;
    assert(format_pairs_view(out@) =~= Seq::<(u64, FormattingView)>::empty());
    while i < objs.len()
        invariant
            i <= objs@.len(),
            all == objs@.map_values(|o: IwaObject| o@),
            format_pairs_view(out@) == char_styles(all.take(i as int)),
        decreases objs.len() - i,
    {
        assert(all.take(i + 1).drop_last() =~= all.take(i as int));
        assert(all.take(i + 1).last() == objs@[i as int]@);
        if objs[i].message_type == Some(CHAR_STYLE_TYPE) {
            if let Some(id) = objs[i].identifier {
                let f = decode_text_formatting(objs[i].payload.as_slice());
                let ghost before = format_pairs_view(out@);
                let ghost pv = (id, f@);
                out.push((id, f));
                assert(format_pairs_view(out@) =~= before.push(pv));
            }
        }
        i = i + 1;
    }
    assert(all.take(objs@.len() as int) =~= all);
    out
}

/// The list styles of a stylesheet's objects (see [`list_styles`]).
pub fn decode_list_styles(objs: &Vec<IwaObject>) -> (r: Vec<(u64, String)>)
    ensures
        string_pairs_view(r@) == list_styles(objs@.map_values(|o: IwaObject| o@)),
{
    let ghost all = objs@.map_values(|o: IwaObject| o@);
    let mut out: Vec<(u64, String)> = Vec::new();
    let mut i: usize = 0;
    assert(string_pairs_view(out@) =~= Seq::<(u64, Seq<char>)>::empty());
    while i < objs.len()
        invariant
            i <= objs@.len(),
            all == objs@.map_values(|o: IwaObject| o@),
            string_pairs_view(out@) == list_styles(all.take(i as int)),
        decreases objs.len() - i,
    {
        assert(all.take(i + 1).drop_last() =~= all.take(i as int));
        assert(all.take(i + 1).last() == objs@[i as int]@);
        if let Some(p) = named_object_of(&objs[i], LIST_STYLE_TYPE) {
            let ghost before = string_pairs_view(out@);
            let ghost pv = (p.0, p.1@);
            out.push(p);
            assert(string_pairs_view(out@) =~= before.push(pv));
        }
        i = i + 1;
    }
    assert(all.take(objs@.len() as int) =~= all);
    out
}

/// The named character styles of a stylesheet's objects (see
/// [`named_styles`]).
pub fn decode_named_char_styles(objs: &Vec<IwaObject>) -> (r: Vec<(u64, TextFormatting)>)
    ensures
        format_pairs_view(r@) == named_styles(objs@.map_values(|o: IwaObject| o@)),
{
    let ghost all = objs@.map_values(|o: IwaObject| o@);
    let mut out: Vec<(u64, TextFormatting)> = Vec::new();
    let mut i: usize = 0;
    assert(format_pairs_view(out@) =~= Seq::<(u64, FormattingView)>::empty());
    while i < objs.len()
        invariant
            i <= objs@.len(),
            all == objs@.map_values(|o: IwaObject| o@),
            format_pairs_view(out@) == named_styles(all.take(i as int)),
        decreases objs.len() - i,
    {
        assert(all.take(i + 1).drop_last() =~= all.take(i as int));
        assert(all.take(i + 1).last() == objs@[i as int]@);
        if let Some(p) = named_object_of(&objs[i], NAMED_CHAR_STYLE_TYPE) {
            let f = named_char_style_formatting(p.1.as_str());
            let ghost before = format_pairs_view(out@);
            let ghost pv = (p.0, f@);
            out.push((p.0, f));
            assert(format_pairs_view(out@) =~= before.push(pv));
        }
        i = i + 1;
    }
    assert(all.take(objs@.len() as int) =~= all);
    out
}

// ───────────────────────────── style runs ─────────────────────────────

/// Inserting `x` after every run whose offset is not greater than its own.
pub open spec fn insert_by_offset<V>(xs: Seq<(usize, V)>, x: (usize, V), j: int) -> Seq<(usize, V)>
    decreases xs.len() - j,
{
    if j < 0 || j >= xs.len() {
        xs.push(x)
    } else if x.0 < xs[j].0 {
        xs.insert(j, x)
    } else {
        insert_by_offset(xs, x, j + 1)
    }
}

/// Runs stably sorted by offset.
pub open spec fn sort_by_offset<V>(xs: Seq<(usize, V)>) -> Seq<(usize, V)>
    decreases xs.len(),
{
    if xs.len() == 0 {
        seq![]
    } else {
        insert_by_offset(sort_by_offset(xs.drop_last()), xs.last(), 0)
    }
}

/// The value of the last run starting at or before `off`.
pub open spec fn value_at<V>(runs: Seq<(usize, V)>, off: int) -> Option<V>
    decreases runs.len(),
{
    if runs.len() == 0 {
        None
    } else if runs.last().0 <= off {
        Some(runs.last().1)
    } else {
        value_at(runs.drop_last(), off)
    }
}

/// The offset a run record holds in field 1, when it fits in `usize`.
pub open spec fn run_offset(run: Seq<ProtoFieldView>) -> Option<usize> {
    match varint_value(first_field(run, 1)) {
        Some(v) => if v <= usize::MAX {
            Some(v as usize)
        } else {
            None
        },
        None => None,
    }
}

/// The style run an entry field holds: its offset and the name of the
/// paragraph style it references ("" when unknown).
pub open spec fn style_run(f: ProtoFieldView, para: Seq<(u64, Seq<char>)>) -> Option<(usize, Seq<char>)> {
    match nested_message(f.value) {
        Some(run) => match run_offset(run) {
            Some(off) => Some(
                (
                    off,
                    match reference_id(nested_fields(run, 2)) {
                        Some(id) => match lookup_last(para, id) {
                            Some(n) => n,
                            None => seq![],
                        },
                        None => seq![],
                    },
                ),
            ),
            None => None,
        },
        None => None,
    }
}

/// The id run an entry field holds: its offset and the style it references.
pub open spec fn id_run(f: ProtoFieldView) -> Option<(usize, u64)> {
    match nested_message(f.value) {
        Some(run) => match (run_offset(run), reference_id(nested_fields(run, 2))) {
            (Some(off), Some(id)) => Some((off, id)),
            _ => None,
        },
        None => None,
    }
}

/// The style runs among the fields numbered 1 of a run list.
pub open spec fn style_runs_in(fs: Seq<ProtoFieldView>, para: Seq<(u64, Seq<char>)>) -> Seq<(usize, Seq<char>)>
    decreases fs.len(),
{
    if fs.len() == 0 {
        seq![]
    } else {
        let r = style_runs_in(fs.drop_last(), para);
        if fs.last().number == 1 {
            match style_run(fs.last(), para) {
                Some(x) => r.push(x),
                None => r,
            }
        } else {
            r
        }
    }
}

/// The id runs among the fields numbered 1 of a run list.
pub open spec fn id_runs_in(fs: Seq<ProtoFieldView>) -> Seq<(usize, u64)>
    decreases fs.len(),
{
    if fs.len() == 0 {
        seq![]
    } else {
        let r = id_runs_in(fs.drop_last());
        if fs.last().number == 1 {
            match id_run(fs.last()) {
                Some(x) => r.push(x),
                None => r,
            }
        } else {
            r
        }
    }
}

/// The style runs of every run list in the fields numbered 5, in order.
pub open spec fn style_run_blocks(fs: Seq<ProtoFieldView>, para: Seq<(u64, Seq<char>)>) -> Seq<(usize, Seq<char>)>
    decreases fs.len(),
{
    if fs.len() == 0 {
        seq![]
    } else {
        let r = style_run_blocks(fs.drop_last(), para);
        if fs.last().number == 5 {
            match nested_message(fs.last().value) {
                Some(b) => r + style_runs_in(b, para),
                None => r,
            }
        } else {
            r
        }
    }
}

/// The id runs of every run list in the fields numbered `n`, in order.
pub open spec fn id_run_blocks(fs: Seq<ProtoFieldView>, n: u32) -> Seq<(usize, u64)>
    decreases fs.len(),
{
    if fs.len() == 0 {
        seq![]
    } else {
        let r = id_run_blocks(fs.drop_last(), n);
        if fs.last().number == n {
            match nested_message(fs.last().value) {
                Some(b) => r + id_runs_in(b),
                None => r,
            }
        } else {
            r
        }
    }
}

/// The paragraph style runs of a text payload, sorted by offset.
pub open spec fn spec_style_runs(payload: Seq<u8>, para: Seq<(u64, Seq<char>)>) -> Seq<(usize, Seq<char>)> {
    match spec_decode_message(payload) {
        Ok(fs) => sort_by_offset(style_run_blocks(fs, para)),
        Err(_) => seq![],
    }
}

/// The style id runs of a text payload's fields numbered `n`, sorted by offset.
pub open spec fn spec_id_runs(payload: Seq<u8>, n: u32) -> Seq<(usize, u64)> {
    match spec_decode_message(payload) {
        Ok(fs) => sort_by_offset(id_run_blocks(fs, n)),
        Err(_) => seq![],
    }
}

/// The view of a list of named runs.
pub open spec fn named_runs_view(v: Seq<(usize, String)>) -> Seq<(usize, Seq<char>)> {
    v.map_values(|p: (usize, String)| (p.0, p.1@))
}

fn insert_named_run(xs: &mut Vec<(usize, String)>, x: (usize, String))
    ensures
        named_runs_view(final(xs)@) == insert_by_offset(named_runs_view(old(xs)@), (x.0, x.1@), 0),
{
    let ghost s = named_runs_view(xs@);
    let ghost xv = (x.0, x.1@);
    let mut j: usize = 0;
    while j < xs.len()
        invariant
            j <= xs@.len(),
            s == named_runs_view(xs@),
            s == named_runs_view(old(xs)@),
            xv == (x.0, x.1@),
            insert_by_offset(s, xv, 0) == insert_by_offset(s, xv, j as int),
        decreases xs.len() - j,
    {
        assert(s[j as int].0 == xs@[j as int].0);
        if x.0 < xs[j].0 {
            xs.insert(j, x);
            assert(named_runs_view(xs@) =~= s.insert(j as int, xv));
            return;
        }
        j = j + 1;
    }
    xs.push(x);
    assert(named_runs_view(xs@) =~= s.push(xv));
}

fn insert_id_run(xs: &mut Vec<(usize, u64)>, x: (usize, u64))
    ensures
        final(xs)@ == insert_by_offset(old(xs)@, x, 0),
{
    let ghost s = xs@;
    let mut j: usize = 0;
    while j < xs.len()
        invariant
            j <= xs@.len(),
            s == xs@,
            s == old(xs)@,
            insert_by_offset(s, x, 0) == insert_by_offset(s, x, j as int),
        decreases xs.len() - j,
    {
        if x.0 < xs[j].0 {
            xs.insert(j, x);
            return;
        }
        j = j + 1;
    }
    xs.push(x);
}

fn run_offset_of(run: &ProtoMessage) -> (r: Option<usize>)
    ensures
        r == run_offset(run@),
{
    match run.field(1) {
        Some(f) => match f.value.as_varint() {
            Some(v) => if v <= usize::MAX as u64 {
                Some(v as usize)
            } else {
                None
            },
            None => None,
        },
        None => None,
    }
}

fn reference_in(m: &ProtoMessage, n: u32) -> (r: Option<u64>)
    ensures
        r == reference_id(nested_fields(m@, n)),
{
    match nested_message_of(m, n) {
        Some(x) => match x.field(1) {
            Some(f) => f.value.as_varint(),
            None => None,
        },
        None => None,
    }
}

fn decode_nested(v: &ProtoValue) -> (r: Option<ProtoMessage>)
    ensures
        match nested_message(v@) {
            Some(fs) => r matches Some(m) && m@ == fs,
            None => r is None,
        },
{
    match v {
        ProtoValue::LengthDelimited(b) => match ProtoMessage::decode(b.as_slice()) {
            Ok(m) => Some(m),
            Err(_) => None,
        },
        _ => None,
    }
}

/// Decodes the paragraph style runs of a text payload (see
/// [`spec_style_runs`]).
pub fn decode_style_runs(payload: &[u8], para: &Vec<(u64, String)>) -> (r: Vec<(usize, String)>)
    ensures
        named_runs_view(r@) == spec_style_runs(payload@, string_pairs_view(para@)),
{
    let ghost pv = string_pairs_view(para@);
    let mut sorted: Vec<(usize, String)> = Vec::new();
    assert(named_runs_view(sorted@) =~= Seq::<(usize, Seq<char>)>::empty());
    let msg = match ProtoMessage::decode(payload) {
        Ok(m) => m,
        Err(_) => return sorted,
    };
    let fields = msg.fields();
    let ghost fs = msg@;
    let ghost mut got: Seq<(usize, Seq<char>)> = seq![];
    let mut i: usize = 0;
    while i < fields.len()
        invariant
            i <= fields@.len(),
            fs == msg@,
            pv == string_pairs_view(para@),
            fields@.map_values(|f: ProtoField| f@) == fs,
            got == style_run_blocks(fs.take(i as int), pv),
            named_runs_view(sorted@) == sort_by_offset(got),
        decreases fields.len() - i,
    {
        assert(fs.take(i + 1).drop_last() =~= fs.take(i as int));
        assert(fs.take(i + 1).last() == fields@[i as int]@);
        if fields[i].number == 5 {
            if let Some(block) = decode_nested(&fields[i].value) {
                let inner = block.fields();
                let ghost bf = block@;
                let ghost base = got;
                let mut j: usize = 0;
                while j < inner.len()
                    invariant
                        j <= inner@.len(),
                        bf == block@,
                        pv == string_pairs_view(para@),
                        inner@.map_values(|f: ProtoField| f@) == bf,
                        got == base + style_runs_in(bf.take(j as int), pv),
                        named_runs_view(sorted@) == sort_by_offset(got),
                    decreases inner.len() - j,
                {
                    assert(bf.take(j + 1).drop_last() =~= bf.take(j as int));
                    assert(bf.take(j + 1).last() == inner@[j as int]@);
                    if inner[j].number == 1 {
                        if let Some(run) = decode_nested(&inner[j].value) {
                            if let Some(off) = run_offset_of(&run) {
                                let name = match reference_in(&run, 2) {
                                    Some(id) => match lookup_string(para, id) {
                                        Some(n) => n.clone(),
                                        None => String::new(),
                                    },
                                    None => String::new(),
                                };
                                proof {
                                    reveal_strlit("");
                                }
                                let ghost x = (off, name@);
                                proof {
                                    let prev = got;
                                    got = got.push(x);
                                    assert(got.drop_last() =~= prev);
                                    assert(base + style_runs_in(bf.take(j + 1), pv) =~= got);
                                }
                                insert_named_run(&mut sorted, (off, name));
                            }
                        }
                    }
                    proof {
                        assert(base + style_runs_in(bf.take(j + 1), pv) =~= got) by {
                            if !(inner@[j as int]@.number == 1 && style_run(bf[j as int], pv) is Some) {
                                assert(style_runs_in(bf.take(j + 1), pv) == style_runs_in(bf.take(j as int), pv));
                            }
                        }
                    }
                    j = j + 1;
                }
                assert(bf.take(inner@.len() as int) =~= bf);
            }
        }
        i = i + 1;
    }
    assert(fs.take(fields@.len() as int) =~= fs);
    sorted
}

/// Decodes the style id runs of a text payload's fields numbered `n` (see
/// [`spec_id_runs`]).
pub fn decode_id_runs(payload: &[u8], n: u32) -> (r: Vec<(usize, u64)>)
    ensures
        r@ == spec_id_runs(payload@, n),
{
    let mut sorted: Vec<(usize, u64)> = Vec::new();
    let msg = match ProtoMessage::decode(payload) {
        Ok(m) => m,
        Err(_) => return sorted,
    };
    let fields = msg.fields();
    let ghost fs = msg@;
    let ghost mut got: Seq<(usize, u64)> = seq![];
    let mut i: usize = 0;
    while i < fields.len()
        invariant
            i <= fields@.len(),
            fs == msg@,
            fields@.map_values(|f: ProtoField| f@) == fs,
            got == id_run_blocks(fs.take(i as int), n),
            sorted@ == sort_by_offset(got),
        decreases fields.len() - i,
    {
        assert(fs.take(i + 1).drop_last() =~= fs.take(i as int));
        assert(fs.take(i + 1).last() == fields@[i as int]@);
        if fields[i].number == n {
            if let Some(block) = decode_nested(&fields[i].value) {
                let inner = block.fields();
                let ghost bf = block@;
                let ghost base = got;
                let mut j: usize = 0;
                while j < inner.len()
                    invariant
                        j <= inner@.len(),
                        bf == block@,
                        inner@.map_values(|f: ProtoField| f@) == bf,
                        got == base + id_runs_in(bf.take(j as int)),
                        sorted@ == sort_by_offset(got),
                    decreases inner.len() - j,
                {
                    assert(bf.take(j + 1).drop_last() =~= bf.take(j as int));
                    assert(bf.take(j + 1).last() == inner@[j as int]@);
                    if inner[j].number == 1 {
                        if let Some(run) = decode_nested(&inner[j].value) {
                            if let Some(off) = run_offset_of(&run) {
                                if let Some(id) = reference_in(&run, 2) {
                                    proof {
                                        let prev = got;
                                        got = got.push((off, id));
                                        assert(got.drop_last() =~= prev);
                                    }
                                    insert_id_run(&mut sorted, (off, id));
                                }
                            }
                        }
                    }
                    proof {
                        assert(base + id_runs_in(bf.take(j + 1)) =~= got) by {
                            if !(inner@[j as int]@.number == 1 && id_run(bf[j as int]) is Some) {
                                assert(id_runs_in(bf.take(j + 1)) == id_runs_in(bf.take(j as int)));
                            }
                        }
                    }
                    j = j + 1;
                }
                assert(bf.take(inner@.len() as int) =~= bf);
            }
        }
        i = i + 1;
    }
    assert(fs.take(fields@.len() as int) =~= fs);
    sorted
}

// ───────────────────────────── the body ─────────────────────────────

/// The template name of a body: field 1.3 of the first word-processor body
/// object, as UTF-8.
pub open spec fn spec_template_name(objs: Seq<ObjectView>) -> Option<Seq<char>> {
    match first_of_type(objs, WP_BODY_TYPE, 0) {
        Some(i) => match payload_fields(objs[i]) {
            Some(fs) => match nested_fields(fs, 1) {
                Some(inner) => text_of(inner, 3),
                None => None,
            },
            None => None,
        },
        None => None,
    }
}

/// The description a media object holds at field 1.8, as UTF-8.
pub open spec fn media_description(o: ObjectView) -> Option<Seq<char>> {
    if o.message_type != Some(MEDIA_TYPE) {
        None
    } else {
        match payload_fields(o) {
            Some(fs) => match nested_fields(fs, 1) {
                Some(inner) => text_of(inner, 8),
                None => None,
            },
            None => None,
        }
    }
}

/// The descriptions of the media objects among `objs`, in order.
pub open spec fn media_descriptions_of(objs: Seq<ObjectView>) -> Seq<Seq<char>>
    decreases objs.len(),
{
    if objs.len() == 0 {
        seq![]
    } else {
        let r = media_descriptions_of(objs.drop_last());
        match media_description(objs.last()) {
            Some(d) => r.push(d),
            None => r,
        }
    }
}

/// The code of `c` with ASCII upper case letters lowered.
pub open spec fn ascii_lower_code(c: char) -> u32 {
    let v = c as u32;
    if 65 <= v && v <= 90 {
        (v + 32) as u32
    } else {
        v
    }
}

/// A title style name: "title" in any ASCII case.
pub open spec fn is_title_style(name: Seq<char>) -> bool {
    name.len() == 5 && forall|i: int| 0 <= i < 5 ==> ascii_lower_code(#[trigger] name[i]) == ("title"@[i] as u32)
}

/// A heading style name: its lower case form holds "heading", "chapter" or
/// "subheading" (so the empty name is none).
pub open spec fn is_heading_style(name: Seq<char>) -> bool {
    let lower = crate::text::lowercase_chars(name);
    name.len() > 0 && (has_infix(lower, "heading"@) || has_infix(lower, "chapter"@) || has_infix(lower, "subheading"@))
}

/// The title, headings and other text fragments of a paragraph list, with
/// every text placed so far.
pub struct ClassifiedView {
    pub title: Option<Seq<char>>,
    pub headings: Seq<Seq<char>>,
    pub fragments: Seq<Seq<char>>,
    pub seen: Seq<Seq<char>>,
}

/// Classifies paragraphs by style, in order: each trimmed, non-empty text
/// that has not come before goes to the title (the first title-styled one),
/// the headings, or the text fragments.
pub open spec fn classify(ps: Seq<ParagraphView>) -> ClassifiedView
    decreases ps.len(),
{
    if ps.len() == 0 {
        ClassifiedView { title: None, headings: seq![], fragments: seq![], seen: seq![] }
    } else {
        let c = classify(ps.drop_last());
        let p = ps.last();
        let t = trim(runs_text(p.runs));
        if t.len() == 0 || c.seen.contains(t) {
            c
        } else if is_title_style(p.style_name) && c.title is None {
            ClassifiedView { title: Some(t), seen: c.seen.push(t), ..c }
        } else if is_heading_style(p.style_name) {
            ClassifiedView { headings: c.headings.push(t), seen: c.seen.push(t), ..c }
        } else {
            ClassifiedView { fragments: c.fragments.push(t), seen: c.seen.push(t), ..c }
        }
    }
}

proof fn lemma_push_distinct(s: Seq<Seq<char>>, t: Seq<char>)
    requires
        s.no_duplicates(),
        !s.contains(t),
    ensures
        s.push(t).no_duplicates(),
{
    let r = s.push(t);
    assert forall|i: int, j: int| 0 <= i < r.len() && 0 <= j < r.len() && i != j implies r[i] != r[j] by {
        if i < s.len() && j < s.len() {
            assert(r[i] == s[i] && r[j] == s[j]);
        } else if i < s.len() {
            assert(r[i] == s[i]);
            assert(r[j] == t);
        } else {
            assert(r[j] == s[j]);
            assert(r[i] == t);
        }
    }
}

/// Classification places each text at most once: the headings and the text
/// fragments hold no text twice, no text is both a heading and a text
/// fragment, the title is neither, and every placed text is non-empty.
pub proof fn lemma_classify_distinct(ps: Seq<ParagraphView>)
    ensures
        classify(ps).headings.no_duplicates(),
        classify(ps).fragments.no_duplicates(),
        forall|t: Seq<char>| classify(ps).headings.contains(t) ==> !classify(ps).fragments.contains(t),
        classify(ps).title matches Some(x) ==> !classify(ps).headings.contains(x) && !classify(ps).fragments.contains(
            x,
        ),
        classify(ps).title matches Some(x) ==> x.len() > 0,
        forall|t: Seq<char>| classify(ps).headings.contains(t) ==> t.len() > 0,
        forall|t: Seq<char>| classify(ps).fragments.contains(t) ==> t.len() > 0,
        forall|t: Seq<char>| #[trigger]
            classify(ps).seen.contains(t) <==> (classify(ps).title == Some(t) || classify(ps).headings.contains(t)
                || classify(ps).fragments.contains(t)),
    decreases ps.len(),
{
    if ps.len() == 0 {
        let c = classify(ps);
        assert(c.headings =~= seq![]);
        assert(c.fragments =~= seq![]);
        assert(c.seen =~= seq![]);
    } else {
        lemma_classify_distinct(ps.drop_last());
        let c = classify(ps.drop_last());
        let p = ps.last();
        let t = trim(runs_text(p.runs));
        let n = classify(ps);
        if t.len() == 0 || c.seen.contains(t) {
        } else if is_title_style(p.style_name) && c.title is None {
            assert forall|u: Seq<char>| #[trigger] n.seen.contains(u) <==> (n.title == Some(u) || n.headings.contains(u)
                || n.fragments.contains(u)) by {
                if u == t {
                    assert(n.seen[c.seen.len() as int] == u);
                }
                if n.seen.contains(u) && u != t {
                    let k = choose|k: int| 0 <= k < n.seen.len() && n.seen[k] == u;
                    assert(c.seen[k] == u);
                }
                if c.seen.contains(u) {
                    let k = choose|k: int| 0 <= k < c.seen.len() && c.seen[k] == u;
                    assert(n.seen[k] == u);
                }
            }
        } else if is_heading_style(p.style_name) {
            lemma_push_distinct(c.headings, t);
            assert forall|u: Seq<char>| n.headings.contains(u) implies c.headings.contains(u) || u == t by {
                let k = choose|k: int| 0 <= k < n.headings.len() && n.headings[k] == u;
                if k < c.headings.len() {
                    assert(c.headings[k] == u);
                }
            }
            assert(n.headings[c.headings.len() as int] == t);
            assert forall|u: Seq<char>| #[trigger] n.seen.contains(u) <==> (n.title == Some(u) || n.headings.contains(u)
                || n.fragments.contains(u)) by {
                if u == t {
                    assert(n.seen[c.seen.len() as int] == u);
                }
                if n.seen.contains(u) && u != t {
                    let k = choose|k: int| 0 <= k < n.seen.len() && n.seen[k] == u;
                    assert(c.seen[k] == u);
                }
                if c.headings.contains(u) {
                    let k = choose|k: int| 0 <= k < c.headings.len() && c.headings[k] == u;
                    assert(n.headings[k] == u);
                }
                if c.seen.contains(u) {
                    let k = choose|k: int| 0 <= k < c.seen.len() && c.seen[k] == u;
                    assert(n.seen[k] == u);
                }
            }
        } else {
            lemma_push_distinct(c.fragments, t);
            assert forall|u: Seq<char>| n.fragments.contains(u) implies c.fragments.contains(u) || u == t by {
                let k = choose|k: int| 0 <= k < n.fragments.len() && n.fragments[k] == u;
                if k < c.fragments.len() {
                    assert(c.fragments[k] == u);
                }
            }
            assert(n.fragments[c.fragments.len() as int] == t);
            assert forall|u: Seq<char>| #[trigger] n.seen.contains(u) <==> (n.title == Some(u) || n.headings.contains(u)
                || n.fragments.contains(u)) by {
                if u == t {
                    assert(n.seen[c.seen.len() as int] == u);
                }
                if n.seen.contains(u) && u != t {
                    let k = choose|k: int| 0 <= k < n.seen.len() && n.seen[k] == u;
                    assert(c.seen[k] == u);
                }
                if c.fragments.contains(u) {
                    let k = choose|k: int| 0 <= k < c.fragments.len() && c.fragments[k] == u;
                    assert(n.fragments[k] == u);
                }
                if c.seen.contains(u) {
                    let k = choose|k: int| 0 <= k < c.seen.len() && c.seen[k] == u;
                    assert(n.seen[k] == u);
                }
            }
        }
    }
}

/// The views of a list of strings.
pub open spec fn strings_view(v: Seq<String>) -> Seq<Seq<char>> {
    v.map_values(|s: String| s@)
}

fn title_style(name: &str) -> (r: bool)
    ensures
        r == is_title_style(name@),
{
    let cs = crate::text::chars_of(name);
    let t = crate::text::chars_of("title");
    proof {
        reveal_strlit("title");
    }
    if cs.len() != 5 {
        return false;
    }
    let mut i: usize = 0;
    while i < 5
        invariant
            i <= 5,
            cs@ == name@,
            t@ == "title"@,
            t@.len() == 5,
            cs@.len() == 5,
            forall|j: int| 0 <= j < i ==> ascii_lower_code(#[trigger] cs@[j]) == (t@[j] as u32),
        decreases 5 - i,
    {
        let v = cs[i] as u32;
        let lower = if 65 <= v && v <= 90 {
            v + 32
        } else {
            v
        };
        if lower != t[i] as u32 {
            return false;
        }
        i = i + 1;
    }
    true
}

fn heading_style(name: &str) -> (r: bool)
    ensures
        r == is_heading_style(name@),
{
    let lower = crate::text::to_lowercase(name);
    let cs = crate::text::chars_of(lower.as_str());
    proof {
        reveal_strlit("heading");
        reveal_strlit("chapter");
        reveal_strlit("subheading");
    }
    crate::text::chars_contain(cs.as_slice(), crate::text::chars_of("heading").as_slice())
        || crate::text::chars_contain(cs.as_slice(), crate::text::chars_of("chapter").as_slice())
        || crate::text::chars_contain(cs.as_slice(), crate::text::chars_of("subheading").as_slice())
}

fn seen_contains(seen: &Vec<Vec<char>>, t: &[char]) -> (r: bool)
    ensures
        r == seen@.map_values(|v: Vec<char>| v@).contains(t@),
{
    let ghost sv = seen@.map_values(|v: Vec<char>| v@);
    let mut i: usize = 0;
    while i < seen.len()
        invariant
            i <= seen@.len(),
            sv == seen@.map_values(|v: Vec<char>| v@),
            forall|j: int| 0 <= j < i ==> sv[j] != t@,
        decreases seen.len() - i,
    {
        if crate::text::chars_equal(seen[i].as_slice(), t) {
            assert(sv[i as int] == t@);
            return true;
        }
        i = i + 1;
    }
    false
}

/// Classifies paragraphs into the title, the headings and the other text
/// fragments (see [`classify`]).
pub fn derive_classified_text(paragraphs: &Vec<Paragraph>) -> (r: (Option<String>, Vec<String>, Vec<String>))
    ensures
        opt_view(r.0) == classify(paragraphs_view(paragraphs@)).title,
        strings_view(r.1@) == classify(paragraphs_view(paragraphs@)).headings,
        strings_view(r.2@) == classify(paragraphs_view(paragraphs@)).fragments,
{
    let ghost pv = paragraphs_view(paragraphs@);
    let mut title: Option<String> = None;
    let mut headings: Vec<String> = Vec::new();
    let mut fragments: Vec<String> = Vec::new();
    let mut seen: Vec<Vec<char>> = Vec::new();
    let mut i: usize = 0;
    assert(strings_view(headings@) =~= seq![]);
    assert(strings_view(fragments@) =~= seq![]);
    assert(seen@.map_values(|v: Vec<char>| v@) =~= seq![]);
    while i < paragraphs.len()
        invariant
            i <= paragraphs@.len(),
            pv == paragraphs_view(paragraphs@),
            opt_view(title) == classify(pv.take(i as int)).title,
            strings_view(headings@) == classify(pv.take(i as int)).headings,
            strings_view(fragments@) == classify(pv.take(i as int)).fragments,
            seen@.map_values(|v: Vec<char>| v@) == classify(pv.take(i as int)).seen,
        decreases paragraphs.len() - i,
    {
        assert(pv.take(i + 1).drop_last() =~= pv.take(i as int));
        assert(pv.take(i + 1).last() == paragraphs@[i as int]@);
        let p = &paragraphs[i];
        let text = p.text();
        let cs = crate::text::chars_of(text.as_str());
        let (a, z) = crate::text::trim_range(cs.as_slice(), 0, cs.len());
        assert(cs@.subrange(0, cs@.len() as int) =~= cs@);
        let t = crate::text::copy_chars(cs.as_slice(), a, z);
        if a < z && !seen_contains(&seen, t.as_slice()) {
            let ghost before_seen = seen@.map_values(|v: Vec<char>| v@);
            let ghost tv = t@;
            let s = crate::text::string_from_chars(t.as_slice());
            if title.is_none() && title_style(p.style_name.as_str()) {
                title = Some(s);
            } else if heading_style(p.style_name.as_str()) {
                let ghost hb = strings_view(headings@);
                headings.push(s);
                assert(strings_view(headings@) =~= hb.push(tv));
            } else {
                let ghost fb = strings_view(fragments@);
                fragments.push(s);
                assert(strings_view(fragments@) =~= fb.push(tv));
            }
            seen.push(t);
            assert(seen@.map_values(|v: Vec<char>| v@) =~= before_seen.push(tv));
        }
        i = i + 1;
    }
    assert(pv.take(paragraphs@.len() as int) =~= pv);
    (title, headings, fragments)
}

/// The body of a Pages document.
#[derive(Debug, Clone, PartialEq, Eq)]
pub struct Body {
    template_name: Option<String>,
    paragraphs: Vec<Paragraph>,
    title: Option<String>,
    headings: Vec<String>,
    text_fragments: Vec<String>,
    media_descriptions: Vec<String>,
}

/// The mathematical content of a [`Body`].
pub struct BodyView {
    pub template_name: Option<Seq<char>>,
    pub paragraphs: Seq<ParagraphView>,
    pub title: Option<Seq<char>>,
    pub headings: Seq<Seq<char>>,
    pub text_fragments: Seq<Seq<char>>,
    pub media_descriptions: Seq<Seq<char>>,
}

impl View for Body {
    type V = BodyView;

    closed spec fn view(&self) -> BodyView {
        BodyView {
            template_name: opt_view(self.template_name),
            paragraphs: paragraphs_view(self.paragraphs@),
            title: opt_view(self.title),
            headings: strings_view(self.headings@),
            text_fragments: strings_view(self.text_fragments@),
            media_descriptions: strings_view(self.media_descriptions@),
        }
    }
}

/// The style registries of a stylesheet's objects.
pub open spec fn style_maps_of(sobjs: Seq<ObjectView>) -> StyleMapsView {
    StyleMapsView {
        para: para_styles(sobjs),
        char_fmt: char_styles(sobjs),
        named_char_fmt: named_styles(sobjs),
        list: list_styles(sobjs),
    }
}

/// The body that the objects of `Index/Document.iwa` and of
/// `Index/DocumentStylesheet.iwa` describe.
pub open spec fn body_of(objs: Seq<ObjectView>, sobjs: Seq<ObjectView>) -> BodyView {
    let paras = body_paragraphs(objs, style_maps_of(sobjs));
    let c = classify(paras);
    BodyView {
        template_name: spec_template_name(objs),
        paragraphs: paras,
        title: c.title,
        headings: c.headings,
        text_fragments: c.fragments,
        media_descriptions: media_descriptions_of(objs),
    }
}

/// The body of a Pages package: `Index/Document.iwa` read with the styles
/// of `Index/DocumentStylesheet.iwa`; the first of the two that cannot be
/// read or decoded gives the error.
pub open spec fn spec_body(p: PackageView) -> Result<BodyView, LoadError> {
    match spec_read_archive(p, "Index/Document.iwa"@) {
        Err(e) => Err(e),
        Ok(doc) => match spec_read_archive(p, "Index/DocumentStylesheet.iwa"@) {
            Err(e) => Err(e),
            Ok(ss) => Ok(body_of(spec_objects(doc), spec_objects(ss))),
        },
    }
}

/// The body that [`Body::set_text_fragments`] makes of `old` and
/// `fragments`.
pub open spec fn body_with_fragments(old: BodyView, fragments: Seq<Seq<char>>) -> BodyView {
    BodyView {
        paragraphs: fragments.map_values(
            |t: Seq<char>|
                ParagraphView {
                    style_name: "Body"@,
                    list_style: None,
                    runs: seq![TextRunView { text: t, formatting: default_formatting() }],
                },
        ),
        title: None,
        headings: seq![],
        text_fragments: fragments,
        ..old
    }
}

fn decode_template_name(objs: &Vec<IwaObject>) -> (r: Option<String>)
    ensures
        opt_view(r) == spec_template_name(objs@.map_values(|o: IwaObject| o@)),
{
    let ghost all = objs@.map_values(|o: IwaObject| o@);
    let mut i: usize = 0;
    while i < objs.len()
        invariant
            i <= objs@.len(),
            all == objs@.map_values(|o: IwaObject| o@),
            first_of_type(all, WP_BODY_TYPE, 0) == first_of_type(all, WP_BODY_TYPE, i as int),
        decreases objs.len() - i,
    {
        assert(all[i as int] == objs@[i as int]@);
        if objs[i].message_type == Some(WP_BODY_TYPE) {
            return match decode_payload(&objs[i]) {
                Some(m) => match nested_message_of(&m, 1) {
                    Some(inner) => opt_utf8_string(field_bytes(&inner, 3)),
                    None => None,
                },
                None => None,
            };
        }
        i = i + 1;
    }
    None
}

fn media_description_of(o: &IwaObject) -> (r: Option<String>)
    ensures
        opt_view(r) == media_description(o@),
{
    if o.message_type != Some(MEDIA_TYPE) {
        return None;
    }
    match decode_payload(o) {
        Some(m) => match nested_message_of(&m, 1) {
            Some(inner) => opt_utf8_string(field_bytes(&inner, 8)),
            None => None,
        },
        None => None,
    }
}

fn decode_media_descriptions(objs: &Vec<IwaObject>) -> (r: Vec<String>)
    ensures
        strings_view(r@) == media_descriptions_of(objs@.map_values(|o: IwaObject| o@)),
{
    let ghost all = objs@.map_values(|o: IwaObject| o@);
    let mut out: Vec<String> = Vec::new();
    let mut i: usize = 0;
    assert(strings_view(out@) =~= seq![]);
    while i < objs.len()
        invariant
            i <= objs@.len(),
            all == objs@.map_values(|o: IwaObject| o@),
            strings_view(out@) == media_descriptions_of(all.take(i as int)),
        decreases objs.len() - i,
    {
        assert(all.take(i + 1).drop_last() =~= all.take(i as int));
        assert(all.take(i + 1).last() == objs@[i as int]@);
        if let Some(d) = media_description_of(&objs[i]) {
            let ghost before = strings_view(out@);
            let ghost dv = d@;
            out.push(d);
            assert(strings_view(out@) =~= before.push(dv));
        }
        i = i + 1;
    }
    assert(all.take(objs@.len() as int) =~= all);
    out
}

impl Default for Body {
    fn default() -> (r: Body)
        ensures
            r@.template_name is None,
            r@.paragraphs == Seq::<ParagraphView>::empty(),
            r@.title is None,
            r@.headings == Seq::<Seq<char>>::empty(),
            r@.text_fragments == Seq::<Seq<char>>::empty(),
            r@.media_descriptions == Seq::<Seq<char>>::empty(),
    {
        let r = Body {
            template_name: None,
            paragraphs: Vec::new(),
            title: None,
            headings: Vec::new(),
            text_fragments: Vec::new(),
            media_descriptions: Vec::new(),
        };
        assert(r@.paragraphs =~= seq![]);
        assert(r@.headings =~= seq![]);
        assert(r@.text_fragments =~= seq![]);
        assert(r@.media_descriptions =~= seq![]);
        r
    }
}

impl Body {
    /// Decodes the body of a Pages package (see [`spec_body`]).
    pub fn from_package(package: &Package) -> (r: Result<Body, Error>)
        ensures
            match spec_body(package@) {
                Ok(b) => r matches Ok(x) && x@ == b,
                Err(e) => load_error_matches(r, e),
            },
    {
        let archive = package.read_archive("Index/Document.iwa")?;
        let objs = archive.objects();
        let template_name = decode_template_name(&objs);
        let stylesheet = package.read_archive("Index/DocumentStylesheet.iwa")?;
        let sobjs = stylesheet.objects();
        let maps = StyleMaps {
            para: decode_paragraph_styles(&sobjs),
            char_fmt: decode_char_styles(&sobjs),
            named_char_fmt: decode_named_char_styles(&sobjs),
            list: decode_list_styles(&sobjs),
        };
        let paragraphs = decode_paragraphs(&objs, &maps);
        let media_descriptions = decode_media_descriptions(&objs);
        let (title, headings, text_fragments) = derive_classified_text(&paragraphs);
        Ok(Body { template_name, paragraphs, title, headings, text_fragments, media_descriptions })
    }

    /// The template the document was made from, if recorded.
    pub fn template_name(&self) -> (r: Option<&str>)
        ensures
            opt_str_view(r) == self@.template_name,
    {
        match &self.template_name {
            Some(s) => Some(s.as_str()),
            None => None,
        }
    }

    /// The text of the first paragraph styled as a title, if any.
    pub fn title(&self) -> (r: Option<&str>)
        ensures
            opt_str_view(r) == self@.title,
    {
        match &self.title {
            Some(s) => Some(s.as_str()),
            None => None,
        }
    }

    /// The texts of the heading paragraphs, in order, each once.
    pub fn headings(&self) -> (r: &[String])
        ensures
            strings_view(r@) == self@.headings,
    {
        self.headings.as_slice()
    }

    /// The texts of the other paragraphs, in order, each once.
    pub fn text_fragments(&self) -> (r: &[String])
        ensures
            strings_view(r@) == self@.text_fragments,
    {
        self.text_fragments.as_slice()
    }

    /// The descriptions of the document's media, in order.
    pub fn media_descriptions(&self) -> (r: &[String])
        ensures
            strings_view(r@) == self@.media_descriptions,
    {
        self.media_descriptions.as_slice()
    }

    /// All paragraphs, in order, with their styles and runs.
    pub fn paragraphs(&self) -> (r: &[Paragraph])
        ensures
            paragraphs_view(r@) == self@.paragraphs,
    {
        self.paragraphs.as_slice()
    }

    /// Sets the template name.
    pub fn set_template_name(&mut self, name: Option<String>)
        ensures
            final(self)@ == (BodyView { template_name: opt_view(name), ..old(self)@ }),
    {
        self.template_name = name;
    }

    /// Replaces the paragraphs; the title, headings and text fragments are
    /// classified anew from them.
    pub fn set_paragraphs(&mut self, paragraphs: Vec<Paragraph>)
        ensures
            final(self)@ == (BodyView {
                paragraphs: paragraphs_view(paragraphs@),
                title: classify(paragraphs_view(paragraphs@)).title,
                headings: classify(paragraphs_view(paragraphs@)).headings,
                text_fragments: classify(paragraphs_view(paragraphs@)).fragments,
                ..old(self)@
            }),
    {
        let (title, headings, text_fragments) = derive_classified_text(&paragraphs);
        self.title = title;
        self.headings = headings;
        self.text_fragments = text_fragments;
        self.paragraphs = paragraphs;
    }

    /// Replaces the content with plain paragraphs: each fragment becomes a
    /// "Body" paragraph of one unformatted run; the title and headings are
    /// cleared.
    pub fn set_text_fragments(&mut self, fragments: Vec<String>)
        ensures
            final(self)@ == body_with_fragments(old(self)@, strings_view(fragments@)),
    {
        let ghost fv = strings_view(fragments@);
        let mut paragraphs: Vec<Paragraph> = Vec::new();
        let mut copies: Vec<String> = Vec::new();
        let mut i: usize = 0;
        assert(paragraphs_view(paragraphs@) =~= seq![]);
        assert(strings_view(copies@) =~= seq![]);
        while i < fragments.len()
            invariant
                i <= fragments@.len(),
                fv == strings_view(fragments@),
                strings_view(copies@) == fv.take(i as int),
                paragraphs_view(paragraphs@) == body_with_fragments(self@, fv.take(i as int)).paragraphs,
            decreases fragments.len() - i,
        {
            let ghost pb = paragraphs_view(paragraphs@);
            let ghost cb = strings_view(copies@);
            let text = fragments[i].clone();
            copies.push(fragments[i].clone());
            let runs = vec![TextRun { text, formatting: TextFormatting::plain() }];
            let style_name = "Body".to_owned();
            paragraphs.push(Paragraph { style_name, list_style: None, runs });
            proof {
                assert(fv[i as int] == fragments@[i as int]@);
                assert(paragraphs@.last()@.style_name == "Body"@);
                assert(paragraphs@.last()@.list_style is None);
                assert(fv.take(i + 1) =~= fv.take(i as int).push(fv[i as int]));
                assert(runs_view(paragraphs@.last().runs@) =~= seq![
                    TextRunView { text: fv[i as int], formatting: default_formatting() },
                ]);
                assert(paragraphs@.last()@ == ParagraphView {
                    style_name: "Body"@,
                    list_style: None,
                    runs: seq![TextRunView { text: fv[i as int], formatting: default_formatting() }],
                });
                assert(paragraphs_view(paragraphs@) =~= pb.push(paragraphs@.last()@));
                assert(paragraphs_view(paragraphs@) =~= body_with_fragments(self@, fv.take(i + 1)).paragraphs);
                assert(strings_view(copies@) =~= fv.take(i + 1));
            }
            i = i + 1;
        }
        assert(fv.take(fragments@.len() as int) =~= fv);
        self.title = None;
        self.headings = Vec::new();
        self.text_fragments = copies;
        self.paragraphs = paragraphs;
        assert(self@.headings =~= seq![]);
    }
}

/// The trimmed text of a paragraph.
pub open spec fn paragraph_text(p: ParagraphView) -> Seq<char> {
    trim(runs_text(p.runs))
}

proof fn lemma_classify_seen(ps: Seq<ParagraphView>)
    ensures
        forall|x: Seq<char>|
            #[trigger] classify(ps).seen.contains(x) <==> (x.len() > 0 && exists|j: int|
                0 <= j < ps.len() && paragraph_text(#[trigger] ps[j]) == x),
        forall|x: Seq<char>| #[trigger] classify(ps).headings.contains(x) ==> classify(ps).seen.contains(x),
        forall|x: Seq<char>| #[trigger] classify(ps).fragments.contains(x) ==> classify(ps).seen.contains(x),
    decreases ps.len(),
{
    if ps.len() > 0 {
        let init = ps.drop_last();
        lemma_classify_seen(init);
        let c = classify(init);
        let r = classify(ps);
        let t = paragraph_text(ps.last());
        assert forall|x: Seq<char>|
            #[trigger] r.seen.contains(x) <==> (x.len() > 0 && exists|j: int|
                0 <= j < ps.len() && paragraph_text(#[trigger] ps[j]) == x) by {
            if x.len() > 0 && exists|j: int| 0 <= j < ps.len() && paragraph_text(#[trigger] ps[j]) == x {
                let j = choose|j: int| 0 <= j < ps.len() && paragraph_text(#[trigger] ps[j]) == x;
                if j < init.len() {
                    assert(init[j] == ps[j]);
                    assert(c.seen.contains(x));
                    if r.seen != c.seen {
                        assert(r.seen == c.seen.push(t));
                        let w = choose|w: int| 0 <= w < c.seen.len() && c.seen[w] == x;
                        assert(r.seen[w] == x);
                    }
                } else {
                    assert(ps[j] == ps.last());
                    if r.seen != c.seen {
                        assert(r.seen == c.seen.push(t));
                        assert(r.seen[c.seen.len() as int] == x);
                    }
                }
            }
            if r.seen.contains(x) {
                let w = choose|w: int| 0 <= w < r.seen.len() && r.seen[w] == x;
                if r.seen != c.seen && w == c.seen.len() {
                    assert(paragraph_text(ps[ps.len() - 1]) == x);
                } else {
                    assert(c.seen[w] == x);
                    assert(c.seen.contains(x));
                    let j = choose|j: int| 0 <= j < init.len() && paragraph_text(#[trigger] init[j]) == x;
                    assert(ps[j] == init[j]);
                }
            }
        }
        assert forall|x: Seq<char>| #[trigger] r.headings.contains(x) implies r.seen.contains(x) by {
            let w = choose|w: int| 0 <= w < r.headings.len() && r.headings[w] == x;
            if r.headings != c.headings && w == c.headings.len() {
                assert(r.seen == c.seen.push(t));
                assert(r.seen[c.seen.len() as int] == x);
            } else {
                assert(c.headings[w] == x);
                assert(c.headings.contains(x));
                let v = choose|v: int| 0 <= v < c.seen.len() && c.seen[v] == x;
                assert(r.seen[v] == x);
            }
        }
        assert forall|x: Seq<char>| #[trigger] r.fragments.contains(x) implies r.seen.contains(x) by {
            let w = choose|w: int| 0 <= w < r.fragments.len() && r.fragments[w] == x;
            if r.fragments != c.fragments && w == c.fragments.len() {
                assert(r.seen == c.seen.push(t));
                assert(r.seen[c.seen.len() as int] == x);
            } else {
                assert(c.fragments[w] == x);
                assert(c.fragments.contains(x));
                let v = choose|v: int| 0 <= v < c.seen.len() && c.seen[v] == x;
                assert(r.seen[v] == x);
            }
        }
    }
}

proof fn lemma_heading_stays(ps: Seq<ParagraphView>, n: int, t: Seq<char>)
    requires
        1 <= n <= ps.len(),
        classify(ps.take(n)).headings.contains(t),
        !classify(ps.take(n)).fragments.contains(t),
    ensures
        classify(ps).headings.contains(t),
        !classify(ps).fragments.contains(t),
    decreases ps.len() - n,
{
    if n < ps.len() {
        let q = ps.take(n + 1);
        assert(q.drop_last() =~= ps.take(n));
        let c = classify(ps.take(n));
        let r = classify(q);
        lemma_classify_seen(ps.take(n));
        let w = choose|w: int| 0 <= w < c.headings.len() && c.headings[w] == t;
        if r.headings != c.headings {
            assert(r.headings[w] == t);
        }
        if r.fragments.contains(t) {
            let v = choose|v: int| 0 <= v < r.fragments.len() && r.fragments[v] == t;
            if r.fragments != c.fragments && v == c.fragments.len() {
                assert(c.seen.contains(t));
                assert(paragraph_text(q.last()) == t);
                assert(false);
            } else {
                assert(c.fragments[v] == t);
            }
        }
        lemma_heading_stays(ps, n + 1, t);
    } else {
        assert(ps.take(n) =~= ps);
    }
}

/// Law: a paragraph whose style name, in lower case, holds "chapter" or
/// "heading" is a heading: its text (trimmed, when non-empty and not the text
/// of an earlier paragraph) is among the headings and not among the text
/// fragments, unless the style is the title style.
pub proof fn lemma_chapter_paragraph_is_heading(ps: Seq<ParagraphView>, i: int)
    requires
        0 <= i < ps.len(),
        ps[i].style_name.len() > 0,
        has_infix(crate::text::lowercase_chars(ps[i].style_name), "chapter"@) || has_infix(
            crate::text::lowercase_chars(ps[i].style_name),
            "heading"@,
        ),
        !is_title_style(ps[i].style_name),
        paragraph_text(ps[i]).len() > 0,
        forall|j: int| 0 <= j < i ==> paragraph_text(#[trigger] ps[j]) != paragraph_text(ps[i]),
    ensures
        classify(ps).headings.contains(paragraph_text(ps[i])),
        !classify(ps).fragments.contains(paragraph_text(ps[i])),
{
    let t = paragraph_text(ps[i]);
    let q = ps.take(i + 1);
    let init = ps.take(i);
    assert(q.drop_last() =~= init);
    assert(q.last() == ps[i]);
    lemma_classify_seen(init);
    let c = classify(init);
    if c.seen.contains(t) {
        let j = choose|j: int| 0 <= j < init.len() && paragraph_text(#[trigger] init[j]) == t;
        assert(init[j] == ps[j]);
        assert(false);
    }
    assert(is_heading_style(ps[i].style_name));
    let r = classify(q);
    assert(r.headings == c.headings.push(t));
    assert(r.headings[c.headings.len() as int] == t);
    assert(r.fragments == c.fragments);
    lemma_heading_stays(ps, i + 1, t);
}

proof fn lemma_fragment_stays(ps: Seq<ParagraphView>, n: int, t: Seq<char>)
    requires
        1 <= n <= ps.len(),
        classify(ps.take(n)).fragments.contains(t),
        !classify(ps.take(n)).headings.contains(t),
    ensures
        classify(ps).fragments.contains(t),
        !classify(ps).headings.contains(t),
    decreases ps.len() - n,
{
    if n < ps.len() {
        let q = ps.take(n + 1);
        assert(q.drop_last() =~= ps.take(n));
        let c = classify(ps.take(n));
        let r = classify(q);
        lemma_classify_seen(ps.take(n));
        let w = choose|w: int| 0 <= w < c.fragments.len() && c.fragments[w] == t;
        if r.fragments != c.fragments {
            assert(r.fragments[w] == t);
        }
        if r.headings.contains(t) {
            let v = choose|v: int| 0 <= v < r.headings.len() && r.headings[v] == t;
            if r.headings != c.headings && v == c.headings.len() {
                assert(c.seen.contains(t));
                assert(paragraph_text(q.last()) == t);
                assert(false);
            } else {
                assert(c.headings[v] == t);
            }
        }
        lemma_fragment_stays(ps, n + 1, t);
    } else {
        assert(ps.take(n) =~= ps);
    }
}

/// Law: a paragraph whose style name, in lower case, holds neither "heading"
/// nor "chapter", and is not the title style, is body text: its text
/// (trimmed, when non-empty and not the text of an earlier paragraph) is
/// among the text fragments and not among the headings.
pub proof fn lemma_plain_paragraph_is_fragment(ps: Seq<ParagraphView>, i: int)
    requires
        0 <= i < ps.len(),
        !has_infix(crate::text::lowercase_chars(ps[i].style_name), "chapter"@),
        !has_infix(crate::text::lowercase_chars(ps[i].style_name), "heading"@),
        !is_title_style(ps[i].style_name),
        paragraph_text(ps[i]).len() > 0,
        forall|j: int| 0 <= j < i ==> paragraph_text(#[trigger] ps[j]) != paragraph_text(ps[i]),
    ensures
        classify(ps).fragments.contains(paragraph_text(ps[i])),
        !classify(ps).headings.contains(paragraph_text(ps[i])),
{
    let t = paragraph_text(ps[i]);
    let q = ps.take(i + 1);
    let init = ps.take(i);
    assert(q.drop_last() =~= init);
    assert(q.last() == ps[i]);
    lemma_classify_seen(init);
    let c = classify(init);
    if c.seen.contains(t) {
        let j = choose|j: int| 0 <= j < init.len() && paragraph_text(#[trigger] init[j]) == t;
        assert(init[j] == ps[j]);
        assert(false);
    }
    let lower = crate::text::lowercase_chars(ps[i].style_name);
    if has_infix(lower, "subheading"@) {
        let k = choose|k: int| 0 <= k && k + "subheading"@.len() <= lower.len() && #[trigger] lower.subrange(k, k + "subheading"@.len()) == "subheading"@;
        reveal_strlit("subheading");
        reveal_strlit("heading");
        let sub = lower.subrange(k, k + 10);
        assert forall|m: int| 0 <= m < 7 implies #[trigger] lower.subrange(k + 3, k + 10)[m] == "heading"@[m] by {
            assert(lower.subrange(k + 3, k + 10)[m] == lower[k + 3 + m]);
            assert(sub[3 + m] == lower[k + 3 + m]);
            assert("subheading"@[3 + m] == "heading"@[m]);
        }
        assert(lower.subrange(k + 3, k + 10) =~= "heading"@);
        assert(lower.subrange(k + 3, k + 3 + "heading"@.len()) == "heading"@);
        assert(false);
    }
    assert(!is_heading_style(ps[i].style_name));
    let r = classify(q);
    assert(r.fragments == c.fragments.push(t));
    assert(r.fragments[c.fragments.len() as int] == t);
    assert(r.headings == c.headings);
    if c.headings.contains(t) {
        assert(c.seen.contains(t));
    }
    lemma_fragment_stays(ps, i + 1, t);
}

} // verus!
