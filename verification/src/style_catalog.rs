//! The stylesheet catalog: the named style records of a `DocumentStylesheet`
//! archive with their attributes, and the identifiers, font names, style
//! names and distinct attribute sets found among them, each list sorted and
//! free of repeats. Floating-point attributes are ordered as `f32::total_cmp`
//! orders them, through an integer key of their bits.
use crate::inspect::{chars_less, chars_less_from};
use crate::iwa::{leading_refs, spec_objects, ArchiveView, IwaArchive, IwaObject, ObjectView};
use crate::keynote::presentation::{first_of_type, opt_view};
use crate::iwa::payload_fields;
use crate::stylesheet::{
    attributes_of, decode_display_name, decode_style_registry, decode_text_attributes, display_name_of,
    infer_style_attributes, inferred_attributes, last_with_id, last_with_id_in, looks_like_font_name, registry_entry,
    registry_from, TYPE_DOCUMENT_STYLESHEET, looks_like_identifier,
    looks_like_style_name, no_attributes, spec_looks_like_font_name, spec_looks_like_identifier,
    spec_looks_like_style_name, spec_style_registry, AttributesView, Color, StyleAttributes, TextAlignment,
};
use crate::text::{chars_equal, chars_of};
use vstd::prelude::*;

verus! {

// ───────────────────────────── the order ─────────────────────────────

/// The key by which `f32::total_cmp` orders the 32-bit float with these
/// bits: negative numbers by their flipped bits, the others above them.
pub open spec fn float_key(bits: u32) -> u32 {
    if bits >= 0x8000_0000 {
        (0xFFFF_FFFF - bits) as u32
    } else {
        (bits + 0x8000_0000) as u32
    }
}

/// `None` first, then texts in character order.
pub open spec fn opt_text_less(a: Option<Seq<char>>, b: Option<Seq<char>>) -> bool {
    match (a, b) {
        (None, Some(_)) => true,
        (Some(x), Some(y)) => chars_less_from(x, y, 0),
        _ => false,
    }
}

/// `None` first, then floats by [`float_key`].
pub open spec fn opt_float_less(a: Option<u32>, b: Option<u32>) -> bool {
    match (a, b) {
        (None, Some(_)) => true,
        (Some(x), Some(y)) => float_key(x) < float_key(y),
        _ => false,
    }
}

/// `None` first, then `false` before `true`.
pub open spec fn opt_bool_less(a: Option<bool>, b: Option<bool>) -> bool {
    match (a, b) {
        (None, Some(_)) => true,
        (Some(x), Some(y)) => !x && y,
        _ => false,
    }
}

/// Colours channel by channel (red, green, blue, alpha), each by
/// [`float_key`].
pub open spec fn color_less(a: Color, b: Color) -> bool {
    if a.r != b.r {
        float_key(a.r) < float_key(b.r)
    } else if a.g != b.g {
        float_key(a.g) < float_key(b.g)
    } else if a.b != b.b {
        float_key(a.b) < float_key(b.b)
    } else {
        float_key(a.a) < float_key(b.a)
    }
}

/// The rank of an alignment in declaration order.
pub open spec fn alignment_rank(a: TextAlignment) -> int {
    match a {
        TextAlignment::Auto => 0,
        TextAlignment::Left => 1,
        TextAlignment::Center => 2,
        TextAlignment::Right => 3,
    }
}

/// Attribute sets field by field, in declaration order.
pub open spec fn attrs_less(a: AttributesView, b: AttributesView) -> bool {
    if a.font_name != b.font_name {
        opt_text_less(a.font_name, b.font_name)
    } else if a.font_size_bits != b.font_size_bits {
        opt_float_less(a.font_size_bits, b.font_size_bits)
    } else if a.bold != b.bold {
        opt_bool_less(a.bold, b.bold)
    } else if a.italic != b.italic {
        opt_bool_less(a.italic, b.italic)
    } else if a.underline != b.underline {
        opt_bool_less(a.underline, b.underline)
    } else if a.strikethrough != b.strikethrough {
        opt_bool_less(a.strikethrough, b.strikethrough)
    } else if a.color != b.color {
        match (a.color, b.color) {
            (None, Some(_)) => true,
            (Some(x), Some(y)) => color_less(x, y),
            _ => false,
        }
    } else {
        match (a.alignment, b.alignment) {
            (None, Some(_)) => true,
            (Some(x), Some(y)) => alignment_rank(x) < alignment_rank(y),
            _ => false,
        }
    }
}

/// A style record: its registry name, the identifier of its style object
/// and the attributes read from it and its name.
#[derive(Debug, Clone, PartialEq, Eq)]
pub struct StyleRecord {
    pub name: String,
    pub object_id: Option<u64>,
    pub attributes: StyleAttributes,
}

/// The mathematical content of a [`StyleRecord`].
pub struct RecordView {
    pub name: Seq<char>,
    pub object_id: Option<u64>,
    pub attributes: AttributesView,
}

impl View for StyleRecord {
    type V = RecordView;

    open spec fn view(&self) -> RecordView {
        RecordView { name: self.name@, object_id: self.object_id, attributes: self.attributes@ }
    }
}

/// Records by name, then object id (`None` first), then attributes.
pub open spec fn record_less(a: RecordView, b: RecordView) -> bool {
    if a.name != b.name {
        chars_less_from(a.name, b.name, 0)
    } else if a.object_id != b.object_id {
        match (a.object_id, b.object_id) {
            (None, Some(_)) => true,
            (Some(x), Some(y)) => x < y,
            _ => false,
        }
    } else {
        attrs_less(a.attributes, b.attributes)
    }
}

// ───────────────────────────── sorted sets ─────────────────────────────

/// Inserting `x` into a sorted list of records, from position `j` on,
/// unless it is there already.
pub open spec fn insert_record(xs: Seq<RecordView>, x: RecordView, j: int) -> Seq<RecordView>
    decreases xs.len() - j,
{
    if j < 0 || j >= xs.len() {
        xs.push(x)
    } else if xs[j] == x {
        xs
    } else if record_less(x, xs[j]) {
        xs.insert(j, x)
    } else {
        insert_record(xs, x, j + 1)
    }
}

/// Inserting `x` into a sorted list of attribute sets, unless it is there.
pub open spec fn insert_attrs(xs: Seq<AttributesView>, x: AttributesView, j: int) -> Seq<AttributesView>
    decreases xs.len() - j,
{
    if j < 0 || j >= xs.len() {
        xs.push(x)
    } else if xs[j] == x {
        xs
    } else if attrs_less(x, xs[j]) {
        xs.insert(j, x)
    } else {
        insert_attrs(xs, x, j + 1)
    }
}

/// Inserting `x` into a sorted list of texts, unless it is there.
pub open spec fn insert_text(xs: Seq<Seq<char>>, x: Seq<char>, j: int) -> Seq<Seq<char>>
    decreases xs.len() - j,
{
    if j < 0 || j >= xs.len() {
        xs.push(x)
    } else if xs[j] == x {
        xs
    } else if chars_less_from(x, xs[j], 0) {
        xs.insert(j, x)
    } else {
        insert_text(xs, x, j + 1)
    }
}

// ───────────────────────────── the catalog ─────────────────────────────

/// The record a registry entry gives.
pub open spec fn entry_record(objs: Seq<ObjectView>, e: (Seq<char>, int)) -> RecordView {
    RecordView {
        name: e.0,
        object_id: objs[e.1].identifier,
        attributes: inferred_attributes(e.0, attributes_of(objs[e.1])),
    }
}

/// The records of registry entries, as a sorted set.
pub open spec fn records_of(objs: Seq<ObjectView>, reg: Seq<(Seq<char>, int)>) -> Seq<RecordView>
    decreases reg.len(),
{
    if reg.len() == 0 {
        seq![]
    } else {
        insert_record(records_of(objs, reg.drop_last()), entry_record(objs, reg.last()), 0)
    }
}

/// The names of records that look like identifiers, as a sorted set.
pub open spec fn identifiers_of(rs: Seq<RecordView>) -> Seq<Seq<char>>
    decreases rs.len(),
{
    if rs.len() == 0 {
        seq![]
    } else {
        let acc = identifiers_of(rs.drop_last());
        if spec_looks_like_identifier(rs.last().name) {
            insert_text(acc, rs.last().name, 0)
        } else {
            acc
        }
    }
}

/// The font names of records that look like font names, as a sorted set.
pub open spec fn font_names_of(rs: Seq<RecordView>) -> Seq<Seq<char>>
    decreases rs.len(),
{
    if rs.len() == 0 {
        seq![]
    } else {
        let acc = font_names_of(rs.drop_last());
        match rs.last().attributes.font_name {
            Some(f) => if spec_looks_like_font_name(f) {
                insert_text(acc, f, 0)
            } else {
                acc
            },
            None => acc,
        }
    }
}

/// The names of records that look like style names, as a sorted set.
pub open spec fn style_names_of(rs: Seq<RecordView>) -> Seq<Seq<char>>
    decreases rs.len(),
{
    if rs.len() == 0 {
        seq![]
    } else {
        let acc = style_names_of(rs.drop_last());
        if spec_looks_like_style_name(rs.last().name) {
            insert_text(acc, rs.last().name, 0)
        } else {
            acc
        }
    }
}

/// `acc` with the display names that look like style names added, of the
/// objects among the first `n` that carry an identifier and are the last to
/// carry it.
pub open spec fn display_names_into(objs: Seq<ObjectView>, n: int, acc: Seq<Seq<char>>) -> Seq<Seq<char>>
    decreases n,
{
    if n <= 0 || n > objs.len() {
        acc
    } else {
        let prev = display_names_into(objs, n - 1, acc);
        let o = objs[n - 1];
        match o.identifier {
            Some(id) => if last_with_id(objs, id) == Some(n - 1) {
                match display_name_of(o) {
                    Some(d) => if spec_looks_like_style_name(d) {
                        insert_text(prev, d, 0)
                    } else {
                        prev
                    },
                    None => prev,
                }
            } else {
                prev
            },
            None => prev,
        }
    }
}

/// The attribute sets of records that set something, as a sorted set.
pub open spec fn hints_of(rs: Seq<RecordView>) -> Seq<AttributesView>
    decreases rs.len(),
{
    if rs.len() == 0 {
        seq![]
    } else {
        let acc = hints_of(rs.drop_last());
        if rs.last().attributes != no_attributes() {
            insert_attrs(acc, rs.last().attributes, 0)
        } else {
            acc
        }
    }
}

/// The stylesheet catalog of an archive.
#[derive(Debug, Clone, Default, PartialEq, Eq)]
pub struct StylesheetCatalog {
    pub referenced_object_ids: Vec<u64>,
    pub identifiers: Vec<String>,
    pub font_names: Vec<String>,
    pub style_names: Vec<String>,
    pub records: Vec<StyleRecord>,
    pub attribute_hints: Vec<StyleAttributes>,
}

/// The mathematical content of a [`StylesheetCatalog`].
pub struct CatalogView {
    pub referenced_object_ids: Seq<u64>,
    pub identifiers: Seq<Seq<char>>,
    pub font_names: Seq<Seq<char>>,
    pub style_names: Seq<Seq<char>>,
    pub records: Seq<RecordView>,
    pub attribute_hints: Seq<AttributesView>,
}

impl View for StylesheetCatalog {
    type V = CatalogView;

    open spec fn view(&self) -> CatalogView {
        CatalogView {
            referenced_object_ids: self.referenced_object_ids@,
            identifiers: self.identifiers@.map_values(|s: String| s@),
            font_names: self.font_names@.map_values(|s: String| s@),
            style_names: self.style_names@.map_values(|s: String| s@),
            records: self.records@.map_values(|r: StyleRecord| r@),
            attribute_hints: self.attribute_hints@.map_values(|a: StyleAttributes| a@),
        }
    }
}

/// The catalog of a stylesheet archive: the leading object references of
/// its body; the records of its style registry; the identifiers, font names
/// and style names among them (style names also from the display names of
/// the archive's objects); and the attribute sets that set something.
pub open spec fn spec_catalog(a: ArchiveView) -> CatalogView {
    let objs = spec_objects(a);
    let rs = records_of(objs, spec_style_registry(objs));
    CatalogView {
        referenced_object_ids: leading_refs(a.body, 0),
        identifiers: identifiers_of(rs),
        font_names: font_names_of(rs),
        style_names: display_names_into(objs, objs.len() as int, style_names_of(rs)),
        records: rs,
        attribute_hints: hints_of(rs),
    }
}

// ───────────────────────────── comparing ─────────────────────────────

fn text_less(a: &str, b: &str) -> (r: bool)
    ensures
        r == chars_less_from(a@, b@, 0),
{
    chars_less(chars_of(a).as_slice(), chars_of(b).as_slice())
}

pub(crate) fn text_eq(a: &str, b: &str) -> (r: bool)
    ensures
        r == (a@ == b@),
{
    chars_equal(chars_of(a).as_slice(), chars_of(b).as_slice())
}

fn float_key_of(bits: u32) -> (r: u32)
    ensures
        r == float_key(bits),
{
    if bits >= 0x8000_0000 {
        0xFFFF_FFFF - bits
    } else {
        bits + 0x8000_0000
    }
}

fn opt_text_eq(a: &Option<String>, b: &Option<String>) -> (r: bool)
    ensures
        r == (opt_view(*a) == opt_view(*b)),
{
    match (a, b) {
        (None, None) => true,
        (Some(x), Some(y)) => text_eq(x.as_str(), y.as_str()),
        _ => false,
    }
}

fn opt_text_less_of(a: &Option<String>, b: &Option<String>) -> (r: bool)
    ensures
        r == opt_text_less(opt_view(*a), opt_view(*b)),
{
    match (a, b) {
        (None, Some(_)) => true,
        (Some(x), Some(y)) => text_less(x.as_str(), y.as_str()),
        _ => false,
    }
}

fn opt_float_less_of(a: Option<u32>, b: Option<u32>) -> (r: bool)
    ensures
        r == opt_float_less(a, b),
{
    match (a, b) {
        (None, Some(_)) => true,
        (Some(x), Some(y)) => float_key_of(x) < float_key_of(y),
        _ => false,
    }
}

fn opt_bool_less_of(a: Option<bool>, b: Option<bool>) -> (r: bool)
    ensures
        r == opt_bool_less(a, b),
{
    match (a, b) {
        (None, Some(_)) => true,
        (Some(x), Some(y)) => !x && y,
        _ => false,
    }
}

fn opt_bool_eq(a: Option<bool>, b: Option<bool>) -> (r: bool)
    ensures
        r == (a == b),
{
    match (a, b) {
        (None, None) => true,
        (Some(x), Some(y)) => x == y,
        _ => false,
    }
}

fn opt_u32_eq(a: Option<u32>, b: Option<u32>) -> (r: bool)
    ensures
        r == (a == b),
{
    match (a, b) {
        (None, None) => true,
        (Some(x), Some(y)) => x == y,
        _ => false,
    }
}

fn opt_color_eq(a: Option<Color>, b: Option<Color>) -> (r: bool)
    ensures
        r == (a == b),
{
    match (a, b) {
        (None, None) => true,
        (Some(x), Some(y)) => x.r == y.r && x.g == y.g && x.b == y.b && x.a == y.a,
        _ => false,
    }
}

fn opt_color_less(a: Option<Color>, b: Option<Color>) -> (r: bool)
    ensures
        r == (match (a, b) {
            (None, Some(_)) => true,
            (Some(x), Some(y)) => color_less(x, y),
            _ => false,
        }),
{
    match (a, b) {
        (None, Some(_)) => true,
        (Some(x), Some(y)) => {
            if x.r != y.r {
                float_key_of(x.r) < float_key_of(y.r)
            } else if x.g != y.g {
                float_key_of(x.g) < float_key_of(y.g)
            } else if x.b != y.b {
                float_key_of(x.b) < float_key_of(y.b)
            } else {
                float_key_of(x.a) < float_key_of(y.a)
            }
        },
        _ => false,
    }
}

fn rank_of(a: TextAlignment) -> (r: u8)
    ensures
        r as int == alignment_rank(a),
{
    match a {
        TextAlignment::Auto => 0,
        TextAlignment::Left => 1,
        TextAlignment::Center => 2,
        TextAlignment::Right => 3,
    }
}

fn opt_alignment_eq(a: Option<TextAlignment>, b: Option<TextAlignment>) -> (r: bool)
    ensures
        r == (a == b),
{
    match (a, b) {
        (None, None) => true,
        (Some(x), Some(y)) => rank_of(x) == rank_of(y),
        _ => false,
    }
}

fn attrs_eq(a: &StyleAttributes, b: &StyleAttributes) -> (r: bool)
    ensures
        r == (a@ == b@),
{
    opt_text_eq(&a.font_name, &b.font_name) && opt_u32_eq(a.font_size_bits, b.font_size_bits) && opt_bool_eq(
        a.bold,
        b.bold,
    ) && opt_bool_eq(a.italic, b.italic) && opt_bool_eq(a.underline, b.underline) && opt_bool_eq(
        a.strikethrough,
        b.strikethrough,
    ) && opt_color_eq(a.color, b.color) && opt_alignment_eq(a.alignment, b.alignment)
}

fn attrs_less_of(a: &StyleAttributes, b: &StyleAttributes) -> (r: bool)
    ensures
        r == attrs_less(a@, b@),
{
    if !opt_text_eq(&a.font_name, &b.font_name) {
        opt_text_less_of(&a.font_name, &b.font_name)
    } else if !opt_u32_eq(a.font_size_bits, b.font_size_bits) {
        opt_float_less_of(a.font_size_bits, b.font_size_bits)
    } else if !opt_bool_eq(a.bold, b.bold) {
        opt_bool_less_of(a.bold, b.bold)
    } else if !opt_bool_eq(a.italic, b.italic) {
        opt_bool_less_of(a.italic, b.italic)
    } else if !opt_bool_eq(a.underline, b.underline) {
        opt_bool_less_of(a.underline, b.underline)
    } else if !opt_bool_eq(a.strikethrough, b.strikethrough) {
        opt_bool_less_of(a.strikethrough, b.strikethrough)
    } else if !opt_color_eq(a.color, b.color) {
        opt_color_less(a.color, b.color)
    } else {
        match (a.alignment, b.alignment) {
            (None, Some(_)) => true,
            (Some(x), Some(y)) => rank_of(x) < rank_of(y),
            _ => false,
        }
    }
}

fn record_eq(a: &StyleRecord, b: &StyleRecord) -> (r: bool)
    ensures
        r == (a@ == b@),
{
    text_eq(a.name.as_str(), b.name.as_str()) && a.object_id == b.object_id && attrs_eq(&a.attributes, &b.attributes)
}

fn record_less_of(a: &StyleRecord, b: &StyleRecord) -> (r: bool)
    ensures
        r == record_less(a@, b@),
{
    if !text_eq(a.name.as_str(), b.name.as_str()) {
        text_less(a.name.as_str(), b.name.as_str())
    } else if a.object_id != b.object_id {
        match (a.object_id, b.object_id) {
            (None, Some(_)) => true,
            (Some(x), Some(y)) => x < y,
            _ => false,
        }
    } else {
        attrs_less_of(&a.attributes, &b.attributes)
    }
}

fn copy_text(s: &String) -> (r: String)
    ensures
        r@ == s@,
{
    crate::text::string_from_chars(chars_of(s.as_str()).as_slice())
}

fn copy_attrs(a: &StyleAttributes) -> (r: StyleAttributes)
    ensures
        r@ == a@,
{
    StyleAttributes {
        font_name: match &a.font_name {
            Some(f) => Some(copy_text(f)),
            None => None,
        },
        font_size_bits: a.font_size_bits,
        bold: a.bold,
        italic: a.italic,
        underline: a.underline,
        strikethrough: a.strikethrough,
        color: a.color,
        alignment: a.alignment,
    }
}

// ───────────────────────────── sorted sets, in code ─────────────────────────────

fn insert_record_vec(xs: &mut Vec<StyleRecord>, x: StyleRecord)
    ensures
        final(xs)@.map_values(|r: StyleRecord| r@) == insert_record(old(xs)@.map_values(|r: StyleRecord| r@), x@, 0),
{
    let ghost s = xs@.map_values(|r: StyleRecord| r@);
    let mut j: usize = 0;
    while j < xs.len()
        invariant
            j <= xs@.len(),
            s == xs@.map_values(|r: StyleRecord| r@),
            s == old(xs)@.map_values(|r: StyleRecord| r@),
            insert_record(s, x@, 0) == insert_record(s, x@, j as int),
        decreases xs.len() - j,
    {
        assert(s[j as int] == xs@[j as int]@);
        if record_eq(&xs[j], &x) {
            return;
        }
        if record_less_of(&x, &xs[j]) {
            xs.insert(j, x);
            assert(xs@.map_values(|r: StyleRecord| r@) =~= s.insert(j as int, x@));
            return;
        }
        j = j + 1;
    }
    xs.push(x);
    assert(xs@.map_values(|r: StyleRecord| r@) =~= s.push(x@));
}

fn insert_attrs_vec(xs: &mut Vec<StyleAttributes>, x: StyleAttributes)
    ensures
        final(xs)@.map_values(|a: StyleAttributes| a@) == insert_attrs(
            old(xs)@.map_values(|a: StyleAttributes| a@),
            x@,
            0,
        ),
{
    let ghost s = xs@.map_values(|a: StyleAttributes| a@);
    let mut j: usize = 0;
    while j < xs.len()
        invariant
            j <= xs@.len(),
            s == xs@.map_values(|a: StyleAttributes| a@),
            s == old(xs)@.map_values(|a: StyleAttributes| a@),
            insert_attrs(s, x@, 0) == insert_attrs(s, x@, j as int),
        decreases xs.len() - j,
    {
        assert(s[j as int] == xs@[j as int]@);
        if attrs_eq(&xs[j], &x) {
            return;
        }
        if attrs_less_of(&x, &xs[j]) {
            xs.insert(j, x);
            assert(xs@.map_values(|a: StyleAttributes| a@) =~= s.insert(j as int, x@));
            return;
        }
        j = j + 1;
    }
    xs.push(x);
    assert(xs@.map_values(|a: StyleAttributes| a@) =~= s.push(x@));
}

pub(crate) fn insert_text_vec(xs: &mut Vec<String>, x: String)
    ensures
        final(xs)@.map_values(|t: String| t@) == insert_text(old(xs)@.map_values(|t: String| t@), x@, 0),
{
    let ghost s = xs@.map_values(|t: String| t@);
    let mut j: usize = 0;
    while j < xs.len()
        invariant
            j <= xs@.len(),
            s == xs@.map_values(|t: String| t@),
            s == old(xs)@.map_values(|t: String| t@),
            insert_text(s, x@, 0) == insert_text(s, x@, j as int),
        decreases xs.len() - j,
    {
        assert(s[j as int] == xs@[j as int]@);
        if text_eq(xs[j].as_str(), x.as_str()) {
            return;
        }
        if text_less(x.as_str(), xs[j].as_str()) {
            xs.insert(j, x);
            assert(xs@.map_values(|t: String| t@) =~= s.insert(j as int, x@));
            return;
        }
        j = j + 1;
    }
    xs.push(x);
    assert(xs@.map_values(|t: String| t@) =~= s.push(x@));
}

// ───────────────────────────── building the catalog ─────────────────────────────

proof fn lemma_last_with_id_in_range(objs: Seq<ObjectView>, id: u64)
    ensures
        last_with_id(objs, id) matches Some(i) ==> 0 <= i < objs.len(),
    decreases objs.len(),
{
    if objs.len() > 0 {
        lemma_last_with_id_in_range(objs.drop_last(), id);
    }
}

proof fn lemma_registry_from_in_range(objs: Seq<ObjectView>, fs: Seq<crate::protobuf::ProtoFieldView>)
    ensures
        forall|k: int| 0 <= k < registry_from(objs, fs).len() ==> 0 <= (#[trigger] registry_from(objs, fs)[k]).1
            < objs.len(),
    decreases fs.len(),
{
    if fs.len() > 0 {
        lemma_registry_from_in_range(objs, fs.drop_last());
        let rest = registry_from(objs, fs.drop_last());
        let r = registry_from(objs, fs);
        if fs.last().number == 2 {
            match registry_entry(objs, fs.last()) {
                Some(e) => {
                    let f = fs.last();
                    if let crate::protobuf::ProtoValueView::LengthDelimited(b) = f.value {
                        if let Ok(en) = crate::protobuf::spec_decode_message(b) {
                            if let Some(id) = crate::numbers::table_model::reference_id(
                                crate::iwa::nested_fields(en, 2),
                            ) {
                                lemma_last_with_id_in_range(objs, id);
                            }
                        }
                    }
                    assert(0 <= e.1 < objs.len());
                    assert(r == rest.push(e));
                    assert forall|k: int| 0 <= k < r.len() implies 0 <= (#[trigger] r[k]).1 < objs.len() by {
                        if k < rest.len() {
                            assert(r[k] == rest[k]);
                        }
                    }
                },
                None => {
                    assert(r == rest);
                },
            }
        } else {
            assert(r == rest);
        }
    }
}

/// Every entry of the style registry names an object of the archive.
proof fn lemma_registry_in_range(objs: Seq<ObjectView>)
    ensures
        forall|k: int| 0 <= k < spec_style_registry(objs).len() ==> 0 <= (#[trigger] spec_style_registry(objs)[k]).1
            < objs.len(),
{
    match first_of_type(objs, TYPE_DOCUMENT_STYLESHEET, 0) {
        Some(i) => match payload_fields(objs[i]) {
            Some(m) => lemma_registry_from_in_range(objs, m),
            None => {},
        },
        None => {},
    }
}

impl StylesheetCatalog {
    /// The catalog of a stylesheet archive (see [`spec_catalog`]).
    pub fn from_archive(archive: &IwaArchive) -> (r: StylesheetCatalog)
        ensures
            r@ == spec_catalog(archive@),
    {
        let referenced_object_ids = archive.leading_object_references();
        let objs = archive.objects();
        let ghost all = objs@.map_values(|o: IwaObject| o@);
        assert(all == spec_objects(archive@));
        let registry = decode_style_registry(&objs);
        let ghost reg = registry@.map_values(|e: (String, usize)| (e.0@, e.1 as int));
        proof {
            lemma_registry_in_range(all);
        }
        let mut records: Vec<StyleRecord> = Vec::new();
        let mut k: usize = 0;
        assert(reg.take(0) =~= Seq::<(Seq<char>, int)>::empty());
        while k < registry.len()
            invariant
                k <= registry@.len(),
                all == objs@.map_values(|o: IwaObject| o@),
                reg == registry@.map_values(|e: (String, usize)| (e.0@, e.1 as int)),
                reg == spec_style_registry(all),
                forall|j: int| 0 <= j < reg.len() ==> 0 <= (#[trigger] reg[j]).1 < all.len(),
                records@.map_values(|r: StyleRecord| r@) == records_of(all, reg.take(k as int)),
            decreases registry.len() - k,
        {
            assert(reg.take(k + 1).drop_last() =~= reg.take(k as int));
            assert(reg.take(k + 1).last() == reg[k as int]);
            let idx = registry[k].1;
            assert(0 <= reg[k as int].1 < all.len());
            assert(all[idx as int] == objs@[idx as int]@);
            let attrs = decode_text_attributes(&objs[idx]);
            let inferred = infer_style_attributes(registry[k].0.as_str(), attrs);
            let rec = StyleRecord {
                name: copy_text(&registry[k].0),
                object_id: objs[idx].identifier,
                attributes: inferred,
            };
            assert(rec@ == entry_record(all, reg[k as int]));
            insert_record_vec(&mut records, rec);
            k = k + 1;
        }
        assert(reg.take(k as int) =~= reg);
        let ghost rs = records@.map_values(|r: StyleRecord| r@);
        let mut identifiers: Vec<String> = Vec::new();
        let mut font_names: Vec<String> = Vec::new();
        let mut style_names: Vec<String> = Vec::new();
        let mut hints: Vec<StyleAttributes> = Vec::new();
        let mut i: usize = 0;
        assert(rs.take(0) =~= Seq::<RecordView>::empty());
        while i < records.len()
            invariant
                i <= records@.len(),
                rs == records@.map_values(|r: StyleRecord| r@),
                identifiers@.map_values(|t: String| t@) == identifiers_of(rs.take(i as int)),
                font_names@.map_values(|t: String| t@) == font_names_of(rs.take(i as int)),
                style_names@.map_values(|t: String| t@) == style_names_of(rs.take(i as int)),
                hints@.map_values(|a: StyleAttributes| a@) == hints_of(rs.take(i as int)),
            decreases records.len() - i,
        {
            assert(rs.take(i + 1).drop_last() =~= rs.take(i as int));
            assert(rs.take(i + 1).last() == records@[i as int]@);
            let rec = &records[i];
            if looks_like_identifier(rec.name.as_str()) {
                insert_text_vec(&mut identifiers, copy_text(&rec.name));
            }
            if looks_like_style_name(rec.name.as_str()) {
                insert_text_vec(&mut style_names, copy_text(&rec.name));
            }
            match &rec.attributes.font_name {
                Some(f) => {
                    if looks_like_font_name(f.as_str()) {
                        insert_text_vec(&mut font_names, copy_text(f));
                    }
                },
                None => {},
            }
            if !rec.attributes.is_empty() {
                insert_attrs_vec(&mut hints, copy_attrs(&rec.attributes));
            }
            i = i + 1;
        }
        assert(rs.take(i as int) =~= rs);
        let ghost base = style_names@.map_values(|t: String| t@);
        let mut n: usize = 0;
        while n < objs.len()
            invariant
                n <= objs@.len(),
                all == objs@.map_values(|o: IwaObject| o@),
                style_names@.map_values(|t: String| t@) == display_names_into(all, n as int, base),
            decreases objs.len() - n,
        {
            assert(all[n as int] == objs@[n as int]@);
            if let Some(id) = objs[n].identifier {
                if last_with_id_in(&objs, id) == Some(n) {
                    if let Some(d) = decode_display_name(&objs[n]) {
                        if looks_like_style_name(d.as_str()) {
                            insert_text_vec(&mut style_names, d);
                        }
                    }
                }
            }
            n = n + 1;
        }
        StylesheetCatalog {
            referenced_object_ids,
            identifiers,
            font_names,
            style_names,
            records,
            attribute_hints: hints,
        }
    }
}

} // verus!
