//! Style records of a `DocumentStylesheet`: the registry of named styles and
//! the text attributes each style object carries. Font sizes and colour
//! channels are kept as the bits of their 32-bit floats.
use crate::iwa::{
    decode_payload, field_bytes, field_varint, nested_fields, nested_message_of, payload_fields, IwaObject,
    ObjectView,
};
use crate::keynote::presentation::{first_of_type, opt_view};
use crate::kind::{ascii_lowercase, to_ascii_lowercase};
use crate::numbers::header_storage::fixed32_value;
use crate::numbers::table_model::{reference_id, text_of};
use crate::pages::body::{flag_of, positive_finite};
use crate::protobuf::{
    first_field, spec_decode_message, varint_value, ProtoField, ProtoFieldView, ProtoMessage, ProtoValue,
    ProtoValueView,
};
use crate::text::{chars_contain, chars_of, has_infix, is_white_space, is_whitespace, opt_utf8_string};
use vstd::prelude::*;

verus! {

/// Message type of the `DocumentStylesheet` root object.
pub const TYPE_DOCUMENT_STYLESHEET: u64 = 401;

/// Horizontal text alignment.
#[derive(Debug, Clone, Copy, PartialEq, Eq, PartialOrd, Ord)]
pub enum TextAlignment {
    Auto,
    Left,
    Center,
    Right,
}

/// A text colour: the bits of its sRGB channels and alpha, each a 32-bit
/// float.
#[derive(Debug, Clone, Copy, PartialEq, Eq)]
pub struct Color {
    pub r: u32,
    pub g: u32,
    pub b: u32,
    pub a: u32,
}

/// The bits of the 32-bit float `1.0`, the alpha of a colour that gives
/// none.
pub const OPAQUE_ALPHA_BITS: u32 = 0x3F80_0000;

/// The text attributes of a style; `None` where the style does not set the
/// attribute. The font size is kept as the bits of its 32-bit float.
#[derive(Debug, Clone, Default, PartialEq, Eq)]
pub struct StyleAttributes {
    pub font_name: Option<String>,
    pub font_size_bits: Option<u32>,
    pub bold: Option<bool>,
    pub italic: Option<bool>,
    pub underline: Option<bool>,
    pub strikethrough: Option<bool>,
    pub color: Option<Color>,
    pub alignment: Option<TextAlignment>,
}

/// The mathematical content of [`StyleAttributes`].
pub struct AttributesView {
    pub font_name: Option<Seq<char>>,
    pub font_size_bits: Option<u32>,
    pub bold: Option<bool>,
    pub italic: Option<bool>,
    pub underline: Option<bool>,
    pub strikethrough: Option<bool>,
    pub color: Option<Color>,
    pub alignment: Option<TextAlignment>,
}

impl View for StyleAttributes {
    type V = AttributesView;

    open spec fn view(&self) -> AttributesView {
        AttributesView {
            font_name: opt_view(self.font_name),
            font_size_bits: self.font_size_bits,
            bold: self.bold,
            italic: self.italic,
            underline: self.underline,
            strikethrough: self.strikethrough,
            color: self.color,
            alignment: self.alignment,
        }
    }
}

/// No attribute set.
pub open spec fn no_attributes() -> AttributesView {
    AttributesView {
        font_name: None,
        font_size_bits: None,
        bold: None,
        italic: None,
        underline: None,
        strikethrough: None,
        color: None,
        alignment: None,
    }
}

/// The colour a colour message holds: fixed32 channels red (3), green (4)
/// and blue (5), all needed, and alpha (6), opaque when absent.
pub open spec fn color_of(fs: Seq<ProtoFieldView>) -> Option<Color> {
    match (fixed32_value(first_field(fs, 3)), fixed32_value(first_field(fs, 4)), fixed32_value(first_field(fs, 5))) {
        (Some(r), Some(g), Some(b)) => Some(
            Color {
                r,
                g,
                b,
                a: match fixed32_value(first_field(fs, 6)) {
                    Some(a) => a,
                    None => OPAQUE_ALPHA_BITS,
                },
            },
        ),
        _ => None,
    }
}

/// The alignment a cell-attribute code names: 0 auto, 1 left, 2 centre,
/// 4 right.
pub open spec fn alignment_of(code: Option<u64>) -> Option<TextAlignment> {
    match code {
        Some(0) => Some(TextAlignment::Auto),
        Some(1) => Some(TextAlignment::Left),
        Some(2) => Some(TextAlignment::Center),
        Some(4) => Some(TextAlignment::Right),
        _ => None,
    }
}

/// The text attributes a style object holds: those of its text-attribute
/// message (field 11: bold 1, italic 2, font size 3 when positive and
/// finite, font name 5, colour 7, underline 13) and the alignment of its
/// cell attributes (field 12.1); none at all without a text-attribute
/// message.
pub open spec fn attributes_of(o: ObjectView) -> AttributesView {
    match payload_fields(o) {
        None => no_attributes(),
        Some(m) => match nested_fields(m, 11) {
            None => no_attributes(),
            Some(t) => AttributesView {
                font_name: text_of(t, 5),
                font_size_bits: match fixed32_value(first_field(t, 3)) {
                    Some(b) => if positive_finite(b) {
                        Some(b)
                    } else {
                        None
                    },
                    None => None,
                },
                bold: flag_of(t, 1),
                italic: flag_of(t, 2),
                underline: flag_of(t, 13),
                strikethrough: None,
                color: match nested_fields(t, 7) {
                    Some(c) => color_of(c),
                    None => None,
                },
                alignment: match nested_fields(m, 12) {
                    Some(cell) => alignment_of(varint_value(first_field(cell, 1))),
                    None => None,
                },
            },
        },
    }
}

fn fixed32_of(m: &ProtoMessage, n: u32) -> (r: Option<u32>)
    ensures
        r == fixed32_value(first_field(m@, n)),
{
    match m.field(n) {
        Some(f) => match &f.value {
            ProtoValue::Fixed32(bits) => Some(*bits),
            _ => None,
        },
        None => None,
    }
}

fn flag_in(m: &ProtoMessage, n: u32) -> (r: Option<bool>)
    ensures
        r == flag_of(m@, n),
{
    match m.field(n) {
        Some(f) => match f.value.as_varint() {
            Some(v) => Some(v != 0),
            None => None,
        },
        None => None,
    }
}

fn decode_color_message(msg: &ProtoMessage) -> (r: Option<Color>)
    ensures
        r == color_of(msg@),
{
    let r = match fixed32_of(msg, 3) {
        Some(x) => x,
        None => return None,
    };
    let g = match fixed32_of(msg, 4) {
        Some(x) => x,
        None => return None,
    };
    let b = match fixed32_of(msg, 5) {
        Some(x) => x,
        None => return None,
    };
    let a = match fixed32_of(msg, 6) {
        Some(x) => x,
        None => OPAQUE_ALPHA_BITS,
    };
    Some(Color { r, g, b, a })
}

/// Decodes the text attributes of a style object (see [`attributes_of`]).
pub fn decode_text_attributes(obj: &IwaObject) -> (r: StyleAttributes)
    ensures
        r@ == attributes_of(obj@),
{
    let message = match decode_payload(obj) {
        Some(m) => m,
        None => return StyleAttributes::none(),
    };
    let text_attrs = match nested_message_of(&message, 11) {
        Some(t) => t,
        None => return StyleAttributes::none(),
    };
    let font_size_bits = match fixed32_of(&text_attrs, 3) {
        Some(b) => if 0 < b && b < 0x7F80_0000 {
            Some(b)
        } else {
            None
        },
        None => None,
    };
    let color = match nested_message_of(&text_attrs, 7) {
        Some(c) => decode_color_message(&c),
        None => None,
    };
    let alignment = match nested_message_of(&message, 12) {
        Some(cell) => match cell.field(1) {
            Some(f) => match f.value.as_varint() {
                Some(0) => Some(TextAlignment::Auto),
                Some(1) => Some(TextAlignment::Left),
                Some(2) => Some(TextAlignment::Center),
                Some(4) => Some(TextAlignment::Right),
                _ => None,
            },
            None => None,
        },
        None => None,
    };
    StyleAttributes {
        font_name: opt_utf8_string(field_bytes(&text_attrs, 5)),
        font_size_bits,
        bold: flag_in(&text_attrs, 1),
        italic: flag_in(&text_attrs, 2),
        underline: flag_in(&text_attrs, 13),
        strikethrough: None,
        color,
        alignment,
    }
}

impl StyleAttributes {
    /// No attribute set.
    pub fn none() -> (r: StyleAttributes)
        ensures
            r@ == no_attributes(),
    {
        StyleAttributes {
            font_name: None,
            font_size_bits: None,
            bold: None,
            italic: None,
            underline: None,
            strikethrough: None,
            color: None,
            alignment: None,
        }
    }

    /// Whether no attribute is set.
    pub fn is_empty(&self) -> (r: bool)
        ensures
            r == (self@ == no_attributes()),
    {
        self.font_name.is_none() && self.font_size_bits.is_none() && self.bold.is_none() && self.italic.is_none()
            && self.underline.is_none() && self.strikethrough.is_none() && self.color.is_none()
            && self.alignment.is_none()
    }
}


// ───────────────────────────── the style registry ─────────────────────────────

/// The index of the last object whose identifier is `id`: the object an
/// identifier names when several carry it.
pub open spec fn last_with_id(objs: Seq<ObjectView>, id: u64) -> Option<int>
    decreases objs.len(),
{
    if objs.len() == 0 {
        None
    } else if objs.last().identifier == Some(id) {
        Some(objs.len() - 1)
    } else {
        last_with_id(objs.drop_last(), id)
    }
}

/// A registry entry `{1: name, 2: {1: object id}}`: its name, when valid
/// UTF-8, and the index of the object its identifier names; `None` where any
/// part is missing.
pub open spec fn registry_entry(objs: Seq<ObjectView>, f: ProtoFieldView) -> Option<(Seq<char>, int)> {
    match f.value {
        ProtoValueView::LengthDelimited(b) => match spec_decode_message(b) {
            Ok(e) => match text_of(e, 1) {
                Some(name) => match reference_id(nested_fields(e, 2)) {
                    Some(id) => match last_with_id(objs, id) {
                        Some(i) => Some((name, i)),
                        None => None,
                    },
                    None => None,
                },
                None => None,
            },
            Err(_) => None,
        },
        _ => None,
    }
}

/// The entries of the registry fields (number 2) among `fs`, in order,
/// leaving out those [`registry_entry`] refuses.
pub open spec fn registry_from(objs: Seq<ObjectView>, fs: Seq<ProtoFieldView>) -> Seq<(Seq<char>, int)>
    decreases fs.len(),
{
    if fs.len() == 0 {
        seq![]
    } else {
        let rest = registry_from(objs, fs.drop_last());
        if fs.last().number == 2 {
            match registry_entry(objs, fs.last()) {
                Some(e) => rest.push(e),
                None => rest,
            }
        } else {
            rest
        }
    }
}

/// The style registry of a stylesheet's objects: the entries of the first
/// `DocumentStylesheet` object, empty where there is none or its payload
/// does not decode.
pub open spec fn spec_style_registry(objs: Seq<ObjectView>) -> Seq<(Seq<char>, int)> {
    match first_of_type(objs, TYPE_DOCUMENT_STYLESHEET, 0) {
        Some(i) => match payload_fields(objs[i]) {
            Some(m) => registry_from(objs, m),
            None => seq![],
        },
        None => seq![],
    }
}

pub(crate) fn last_with_id_in(objs: &Vec<IwaObject>, id: u64) -> (r: Option<usize>)
    ensures
        match r {
            Some(k) => last_with_id(objs@.map_values(|o: IwaObject| o@), id) == Some(k as int),
            None => last_with_id(objs@.map_values(|o: IwaObject| o@), id) is None,
        },
{
    let ghost all = objs@.map_values(|o: IwaObject| o@);
    let mut i: usize = objs.len();
    assert(all.take(i as int) =~= all);
    while i > 0
        invariant
            i <= objs@.len(),
            all == objs@.map_values(|o: IwaObject| o@),
            last_with_id(all, id) == last_with_id(all.take(i as int), id),
        decreases i,
    {
        let ghost t = all.take(i as int);
        assert(t.last() == objs@[i - 1]@);
        assert(t.drop_last() =~= all.take(i - 1));
        if objs[i - 1].identifier == Some(id) {
            return Some(i - 1);
        }
        i = i - 1;
    }
    assert(all.take(0) =~= seq![]);
    None
}

fn decode_registry_entry(objs: &Vec<IwaObject>, f: &ProtoField) -> (r: Option<(String, usize)>)
    ensures
        match registry_entry(objs@.map_values(|o: IwaObject| o@), f@) {
            Some((name, i)) => r matches Some((s, k)) && s@ == name && k as int == i,
            None => r is None,
        },
{
    let bytes = match f.value.as_bytes() {
        Some(b) => b,
        None => return None,
    };
    let entry = match ProtoMessage::decode(bytes) {
        Ok(e) => e,
        Err(_) => return None,
    };
    let name = match opt_utf8_string(field_bytes(&entry, 1)) {
        Some(s) => s,
        None => return None,
    };
    let id = match nested_message_of(&entry, 2) {
        Some(reference) => match field_varint(&reference, 1) {
            Some(v) => v,
            None => return None,
        },
        None => return None,
    };
    match last_with_id_in(objs, id) {
        Some(k) => Some((name, k)),
        None => None,
    }
}

/// The style registry of a stylesheet's objects (see
/// [`spec_style_registry`]): each entry's name and the index, in `objs`, of
/// the style object it names.
pub fn decode_style_registry(objs: &Vec<IwaObject>) -> (r: Vec<(String, usize)>)
    ensures
        r@.map_values(|e: (String, usize)| (e.0@, e.1 as int)) == spec_style_registry(
            objs@.map_values(|o: IwaObject| o@),
        ),
{
    let ghost all = objs@.map_values(|o: IwaObject| o@);
    let mut root: usize = 0;
    while root < objs.len()
        invariant
            root <= objs@.len(),
            all == objs@.map_values(|o: IwaObject| o@),
            first_of_type(all, TYPE_DOCUMENT_STYLESHEET, 0) == first_of_type(all, TYPE_DOCUMENT_STYLESHEET, root as int),
        ensures
            root <= objs@.len(),
            first_of_type(all, TYPE_DOCUMENT_STYLESHEET, 0) == first_of_type(all, TYPE_DOCUMENT_STYLESHEET, root as int),
            root < objs@.len() ==> all[root as int].message_type == Some(TYPE_DOCUMENT_STYLESHEET),
        decreases objs.len() - root,
    {
        assert(all[root as int] == objs@[root as int]@);
        if objs[root].message_type == Some(TYPE_DOCUMENT_STYLESHEET) {
            break;
        }
        root = root + 1;
    }
    let mut out: Vec<(String, usize)> = Vec::new();
    if root == objs.len() {
        return out;
    }
    assert(all[root as int] == objs@[root as int]@);
    let message = match decode_payload(&objs[root]) {
        Some(m) => m,
        None => return out,
    };
    let fields = message.fields();
    let ghost m = message@;
    let mut i: usize = 0;
    assert(out@.map_values(|e: (String, usize)| (e.0@, e.1 as int)) =~= registry_from(all, m.take(0)));
    while i < fields.len()
        invariant
            i <= fields@.len(),
            m == fields@.map_values(|f: ProtoField| f@),
            all == objs@.map_values(|o: IwaObject| o@),
            out@.map_values(|e: (String, usize)| (e.0@, e.1 as int)) == registry_from(all, m.take(i as int)),
        decreases fields.len() - i,
    {
        let ghost t = m.take(i + 1);
        assert(t.last() == fields@[i as int]@);
        assert(t.drop_last() =~= m.take(i as int));
        let ghost before = out@.map_values(|e: (String, usize)| (e.0@, e.1 as int));
        if fields[i].number == 2 {
            if let Some(entry) = decode_registry_entry(objs, &fields[i]) {
                out.push(entry);
                assert(out@.map_values(|e: (String, usize)| (e.0@, e.1 as int)) =~= before.push(
                    (entry.0@, entry.1 as int),
                ));
            }
        }
        i = i + 1;
    }
    assert(m.take(fields@.len() as int) =~= m);
    out
}

// ───────────────────────────── display names ─────────────────────────────

/// Every character is ASCII.
pub open spec fn is_ascii_text(s: Seq<char>) -> bool {
    forall|i: int| 0 <= i < s.len() ==> (s[i] as u32) < 0x80
}

/// The display name of a style object: field `1.1`, kept when it is ASCII
/// text of at least three characters (for ASCII text, three bytes).
pub open spec fn display_name_of(o: ObjectView) -> Option<Seq<char>> {
    match payload_fields(o) {
        Some(m) => match nested_fields(m, 1) {
            Some(base) => match text_of(base, 1) {
                Some(n) => if n.len() >= 3 && is_ascii_text(n) {
                    Some(n)
                } else {
                    None
                },
                None => None,
            },
            None => None,
        },
        None => None,
    }
}

fn all_ascii(cs: &[char]) -> (r: bool)
    ensures
        r == is_ascii_text(cs@),
{
    let mut i: usize = 0;
    while i < cs.len()
        invariant
            i <= cs@.len(),
            forall|j: int| 0 <= j < i ==> (cs@[j] as u32) < 0x80,
        decreases cs.len() - i,
    {
        if cs[i] as u32 >= 0x80 {
            return false;
        }
        i = i + 1;
    }
    true
}

/// Extracts the display name of a style object (see [`display_name_of`]).
pub fn decode_display_name(obj: &IwaObject) -> (r: Option<String>)
    ensures
        opt_view(r) == display_name_of(obj@),
{
    let message = match decode_payload(obj) {
        Some(m) => m,
        None => return None,
    };
    let base = match nested_message_of(&message, 1) {
        Some(b) => b,
        None => return None,
    };
    let name = match opt_utf8_string(field_bytes(&base, 1)) {
        Some(s) => s,
        None => return None,
    };
    let cs = chars_of(name.as_str());
    if cs.len() >= 3 && all_ascii(cs.as_slice()) {
        Some(name)
    } else {
        None
    }
}


// ───────────────────────────── attributes read from names ─────────────────────────────

/// The attributes of a style once its name (and its font's name) are read:
/// a flag the style leaves unset becomes set where the ASCII-lowered name
/// holds the flag's word (`bold` also where the lowered font name holds
/// it); every other attribute is kept.
pub open spec fn inferred_attributes(name: Seq<char>, a: AttributesView) -> AttributesView {
    let n = ascii_lowercase(name);
    let f = ascii_lowercase(
        match a.font_name {
            Some(x) => x,
            None => seq![],
        },
    );
    AttributesView {
        font_name: a.font_name,
        font_size_bits: a.font_size_bits,
        bold: if a.bold is None && (has_infix(n, "bold"@) || has_infix(f, "bold"@)) {
            Some(true)
        } else {
            a.bold
        },
        italic: if a.italic is None && has_infix(n, "italic"@) {
            Some(true)
        } else {
            a.italic
        },
        underline: if a.underline is None && has_infix(n, "underline"@) {
            Some(true)
        } else {
            a.underline
        },
        strikethrough: if a.strikethrough is None && has_infix(n, "strikethrough"@) {
            Some(true)
        } else {
            a.strikethrough
        },
        color: a.color,
        alignment: a.alignment,
    }
}

/// Sets the flags a style's name implies (see [`inferred_attributes`]).
pub fn infer_style_attributes(name: &str, attributes: StyleAttributes) -> (r: StyleAttributes)
    ensures
        r@ == inferred_attributes(name@, attributes@),
{
    let mut attributes = attributes;
    let lowercase_name = to_ascii_lowercase(chars_of(name).as_slice());
    let lowercase_font = match &attributes.font_name {
        Some(f) => to_ascii_lowercase(chars_of(f.as_str()).as_slice()),
        None => {
            let none: Vec<char> = Vec::new();
            to_ascii_lowercase(none.as_slice())
        },
    };
    let bold = chars_of("bold");
    let italic = chars_of("italic");
    let underline = chars_of("underline");
    let strikethrough = chars_of("strikethrough");
    if attributes.bold.is_none() && (chars_contain(lowercase_name.as_slice(), bold.as_slice()) || chars_contain(
        lowercase_font.as_slice(),
        bold.as_slice(),
    )) {
        attributes.bold = Some(true);
    }
    if attributes.italic.is_none() && chars_contain(lowercase_name.as_slice(), italic.as_slice()) {
        attributes.italic = Some(true);
    }
    if attributes.underline.is_none() && chars_contain(lowercase_name.as_slice(), underline.as_slice()) {
        attributes.underline = Some(true);
    }
    if attributes.strikethrough.is_none() && chars_contain(lowercase_name.as_slice(), strikethrough.as_slice()) {
        attributes.strikethrough = Some(true);
    }
    attributes
}

// ───────────────────────────── what a name looks like ─────────────────────────────

/// Whether `c` is lowercase in the Unicode sense of `char::is_lowercase`.
pub uninterp spec fn unicode_lowercase(c: char) -> bool;

/// Whether `c` is uppercase in the Unicode sense of `char::is_uppercase`.
pub uninterp spec fn unicode_uppercase(c: char) -> bool;

/// Calls `char::is_lowercase` (the Unicode `Lowercase` property); its result
/// is named [`unicode_lowercase`]. Of the ASCII letters, `a`–`z` are
/// lowercase and `A`–`Z` are not; the property is not written out for other
/// characters.
#[verifier::external_body]
fn char_is_lowercase(c: char) -> (r: bool)
    ensures
        r == unicode_lowercase(c),
        'a' <= c <= 'z' ==> r,
        'A' <= c <= 'Z' ==> !r,
{
    c.is_lowercase()
}

/// Calls `char::is_uppercase` (the Unicode `Uppercase` property); its result
/// is named [`unicode_uppercase`]. Of the ASCII letters, `A`–`Z` are
/// uppercase and `a`–`z` are not; the property is not written out for other
/// characters.
#[verifier::external_body]
fn char_is_uppercase(c: char) -> (r: bool)
    ensures
        r == unicode_uppercase(c),
        'A' <= c <= 'Z' ==> r,
        'a' <= c <= 'z' ==> !r,
{
    c.is_uppercase()
}

/// A name that holds `-` or `_`.
pub open spec fn spec_looks_like_identifier(v: Seq<char>) -> bool {
    v.contains('-') || v.contains('_')
}

/// A name of a font: it holds a lowercase and an uppercase character and
/// one of the family words `Neue`, `Helvetica`, `Times`, `Arial`, `Avenir`,
/// `Courier`.
pub open spec fn spec_looks_like_font_name(v: Seq<char>) -> bool {
    &&& exists|i: int| 0 <= i < v.len() && unicode_lowercase(#[trigger] v[i])
    &&& exists|i: int| 0 <= i < v.len() && unicode_uppercase(#[trigger] v[i])
    &&& has_infix(v, "Neue"@) || has_infix(v, "Helvetica"@) || has_infix(v, "Times"@) || has_infix(v, "Arial"@)
        || has_infix(v, "Avenir"@) || has_infix(v, "Courier"@)
}

/// The number of whitespace-separated words of `s`: the characters that
/// are not white space and open the text or follow white space.
pub open spec fn word_count(s: Seq<char>) -> nat
    decreases s.len(),
{
    if s.len() == 0 {
        0
    } else {
        word_count(s.drop_last()) + if !is_white_space(s.last()) && (s.len() == 1 || is_white_space(
            s[s.len() - 2],
        )) {
            1nat
        } else {
            0nat
        }
    }
}

/// A name of a style: at most four words, an ASCII capital first, and
/// neither a font name nor an identifier.
pub open spec fn spec_looks_like_style_name(v: Seq<char>) -> bool {
    &&& word_count(v) <= 4
    &&& v.len() > 0 && 'A' <= v[0] <= 'Z'
    &&& !spec_looks_like_font_name(v)
    &&& !spec_looks_like_identifier(v)
}

fn holds_char(cs: &[char], c: char) -> (r: bool)
    ensures
        r == cs@.contains(c),
{
    let mut i: usize = 0;
    while i < cs.len()
        invariant
            i <= cs@.len(),
            forall|j: int| 0 <= j < i ==> cs@[j] != c,
        decreases cs.len() - i,
    {
        if cs[i] == c {
            return true;
        }
        i = i + 1;
    }
    false
}

/// Whether a name looks like an identifier (see [`spec_looks_like_identifier`]).
pub fn looks_like_identifier(value: &str) -> (r: bool)
    ensures
        r == spec_looks_like_identifier(value@),
{
    let cs = chars_of(value);
    holds_char(cs.as_slice(), '-') || holds_char(cs.as_slice(), '_')
}

fn any_lowercase(cs: &[char]) -> (r: bool)
    ensures
        r == exists|i: int| 0 <= i < cs@.len() && unicode_lowercase(#[trigger] cs@[i]),
{
    let mut i: usize = 0;
    while i < cs.len()
        invariant
            i <= cs@.len(),
            forall|j: int| 0 <= j < i ==> !unicode_lowercase(#[trigger] cs@[j]),
        decreases cs.len() - i,
    {
        if char_is_lowercase(cs[i]) {
            return true;
        }
        i = i + 1;
    }
    false
}

fn any_uppercase(cs: &[char]) -> (r: bool)
    ensures
        r == exists|i: int| 0 <= i < cs@.len() && unicode_uppercase(#[trigger] cs@[i]),
{
    let mut i: usize = 0;
    while i < cs.len()
        invariant
            i <= cs@.len(),
            forall|j: int| 0 <= j < i ==> !unicode_uppercase(#[trigger] cs@[j]),
        decreases cs.len() - i,
    {
        if char_is_uppercase(cs[i]) {
            return true;
        }
        i = i + 1;
    }
    false
}

/// Whether a name looks like a font name (see [`spec_looks_like_font_name`]).
pub fn looks_like_font_name(value: &str) -> (r: bool)
    ensures
        r == spec_looks_like_font_name(value@),
{
    let cs = chars_of(value);
    let v = cs.as_slice();
    any_lowercase(v) && any_uppercase(v) && (chars_contain(v, chars_of("Neue").as_slice()) || chars_contain(
        v,
        chars_of("Helvetica").as_slice(),
    ) || chars_contain(v, chars_of("Times").as_slice()) || chars_contain(v, chars_of("Arial").as_slice())
        || chars_contain(v, chars_of("Avenir").as_slice()) || chars_contain(v, chars_of("Courier").as_slice()))
}

fn count_words(cs: &[char]) -> (r: usize)
    ensures
        r == word_count(cs@),
{
    let mut count: usize = 0;
    let mut i: usize = 0;
    assert(cs@.take(0) =~= seq![]);
    while i < cs.len()
        invariant
            i <= cs@.len(),
            count <= i,
            count == word_count(cs@.take(i as int)),
        decreases cs.len() - i,
    {
        let ghost t = cs@.take(i + 1);
        assert(t.drop_last() =~= cs@.take(i as int));
        assert(t.last() == cs@[i as int]);
        if i > 0 {
            assert(t[t.len() - 2] == cs@[i - 1]);
        }
        if !is_whitespace(cs[i]) && (i == 0 || is_whitespace(cs[i - 1])) {
            count = count + 1;
        }
        i = i + 1;
    }
    assert(cs@.take(cs@.len() as int) =~= cs@);
    count
}

/// Whether a name looks like a style name (see [`spec_looks_like_style_name`]).
pub fn looks_like_style_name(value: &str) -> (r: bool)
    ensures
        r == spec_looks_like_style_name(value@),
{
    let cs = chars_of(value);
    count_words(cs.as_slice()) <= 4 && cs.len() > 0 && 'A' <= cs[0] && cs[0] <= 'Z' && !looks_like_font_name(value)
        && !looks_like_identifier(value)
}

} // verus!
