//! Narrow parser for `Metadata/Properties.plist`, in XML or binary form.
//!
//! Only the keys `documentUUID`, `fileFormatVersion`, `isMultiPage`,
//! `revision`, `stableDocumentUUID` and `versionUUID` are surfaced. The XML
//! parser accepts `<string>`, `<true/>` and `<false/>` values in a top-level
//! dictionary; the binary parser accepts strings, booleans and dictionaries.
use crate::error::Error;
use crate::text::{chars_of, string_from_chars, string_from_utf16, string_from_utf8, utf16_chars};
use vstd::prelude::*;
use vstd::utf8::{decode_utf8, valid_utf8};

verus! {

/// The metadata keys read from `Metadata/Properties.plist`.
#[derive(Debug, Clone, Default, PartialEq, Eq)]
pub struct PropertiesPlist {
    pub document_uuid: Option<String>,
    pub file_format_version: Option<String>,
    pub is_multi_page: Option<bool>,
    pub revision: Option<String>,
    pub stable_document_uuid: Option<String>,
    pub version_uuid: Option<String>,
}

/// The mathematical content of a [`PropertiesPlist`].
pub struct PlistView {
    pub document_uuid: Option<Seq<char>>,
    pub file_format_version: Option<Seq<char>>,
    pub is_multi_page: Option<bool>,
    pub revision: Option<Seq<char>>,
    pub stable_document_uuid: Option<Seq<char>>,
    pub version_uuid: Option<Seq<char>>,
}

/// The view of an optional string.
pub open spec fn opt_string_view(s: Option<String>) -> Option<Seq<char>> {
    match s {
        Some(x) => Some(x@),
        None => None,
    }
}

impl View for PropertiesPlist {
    type V = PlistView;

    open spec fn view(&self) -> PlistView {
        PlistView {
            document_uuid: opt_string_view(self.document_uuid),
            file_format_version: opt_string_view(self.file_format_version),
            is_multi_page: self.is_multi_page,
            revision: opt_string_view(self.revision),
            stable_document_uuid: opt_string_view(self.stable_document_uuid),
            version_uuid: opt_string_view(self.version_uuid),
        }
    }
}

/// A value read for a key: a string or a boolean.
pub enum PlistValue {
    Str(Seq<char>),
    Bool(bool),
}

/// The string most recently stored under `key` in `entries`.
pub open spec fn last_string(entries: Seq<(Seq<char>, PlistValue)>, key: Seq<char>) -> Option<Seq<char>>
    decreases entries.len(),
{
    if entries.len() == 0 {
        None
    } else {
        let e = entries.last();
        if e.0 == key && e.1 is Str {
            Some(e.1->Str_0)
        } else {
            last_string(entries.drop_last(), key)
        }
    }
}

/// The boolean most recently stored under `key` in `entries`.
pub open spec fn last_bool(entries: Seq<(Seq<char>, PlistValue)>, key: Seq<char>) -> Option<bool>
    decreases entries.len(),
{
    if entries.len() == 0 {
        None
    } else {
        let e = entries.last();
        if e.0 == key && e.1 is Bool {
            Some(e.1->Bool_0)
        } else {
            last_bool(entries.drop_last(), key)
        }
    }
}

/// The metadata a list of key/value entries gives: for each known key, the
/// value of its kind stored last.
pub open spec fn plist_from_entries(entries: Seq<(Seq<char>, PlistValue)>) -> PlistView {
    PlistView {
        document_uuid: last_string(entries, "documentUUID"@),
        file_format_version: last_string(entries, "fileFormatVersion"@),
        is_multi_page: last_bool(entries, "isMultiPage"@),
        revision: last_string(entries, "revision"@),
        stable_document_uuid: last_string(entries, "stableDocumentUUID"@),
        version_uuid: last_string(entries, "versionUUID"@),
    }
}

/// An entry list in exec form.
struct Entries {
    items: Vec<(String, EntryValue)>,
}

enum EntryValue {
    Str(String),
    Bool(bool),
}

impl EntryValue {
    spec fn value_view(&self) -> PlistValue {
        match self {
            EntryValue::Str(s) => PlistValue::Str(s@),
            EntryValue::Bool(b) => PlistValue::Bool(*b),
        }
    }
}

impl Entries {
    spec fn entries_view(&self) -> Seq<(Seq<char>, PlistValue)> {
        self.items@.map_values(|e: (String, EntryValue)| (e.0@, e.1.value_view()))
    }

    fn push(&mut self, key: String, value: EntryValue)
        ensures
            final(self).entries_view() == old(self).entries_view().push((key@, value.value_view())),
    {
        self.items.push((key, value));
        assert(self.entries_view() =~= old(self).entries_view().push((key@, value.value_view())));
    }

    fn last_string(&self, key: &[char]) -> (r: Option<String>)
        ensures
            opt_string_view(r) == last_string(self.entries_view(), key@),
    {
        let mut i = self.items.len();
        let ghost es = self.entries_view();
        assert(es.take(i as int) =~= es);
        while i > 0
            invariant
                i <= self.items@.len(),
                es == self.entries_view(),
                last_string(es, key@) == last_string(es.take(i as int), key@),
            decreases i,
        {
            let ghost t = es.take(i as int);
            assert(t.last() == es[i - 1]);
            assert(t.drop_last() =~= es.take(i - 1));
            let (k, v) = &self.items[i - 1];
            let kc = chars_of(k.as_str());
            if crate::text::chars_equal(kc.as_slice(), key) {
                if let EntryValue::Str(s) = v {
                    return Some(s.clone());
                }
            }
            i = i - 1;
        }
        None
    }

    fn last_bool(&self, key: &[char]) -> (r: Option<bool>)
        ensures
            r == last_bool(self.entries_view(), key@),
    {
        let mut i = self.items.len();
        let ghost es = self.entries_view();
        assert(es.take(i as int) =~= es);
        while i > 0
            invariant
                i <= self.items@.len(),
                es == self.entries_view(),
                last_bool(es, key@) == last_bool(es.take(i as int), key@),
            decreases i,
        {
            let ghost t = es.take(i as int);
            assert(t.last() == es[i - 1]);
            assert(t.drop_last() =~= es.take(i - 1));
            let (k, v) = &self.items[i - 1];
            let kc = chars_of(k.as_str());
            if crate::text::chars_equal(kc.as_slice(), key) {
                if let EntryValue::Bool(b) = v {
                    return Some(*b);
                }
            }
            i = i - 1;
        }
        None
    }

    fn to_plist(&self) -> (r: PropertiesPlist)
        ensures
            r@ == plist_from_entries(self.entries_view()),
    {
        let document_uuid = self.last_string(chars_of("documentUUID").as_slice());
        let file_format_version = self.last_string(chars_of("fileFormatVersion").as_slice());
        let is_multi_page = self.last_bool(chars_of("isMultiPage").as_slice());
        let revision = self.last_string(chars_of("revision").as_slice());
        let stable_document_uuid = self.last_string(chars_of("stableDocumentUUID").as_slice());
        let version_uuid = self.last_string(chars_of("versionUUID").as_slice());
        PropertiesPlist {
            document_uuid,
            file_format_version,
            is_multi_page,
            revision,
            stable_document_uuid,
            version_uuid,
        }
    }
}

// ───────────────────────────── XML ─────────────────────────────

/// `pat` occurs in `s` at `i`.
pub open spec fn occurs_at(s: Seq<char>, pat: Seq<char>, i: int) -> bool {
    0 <= i && i + pat.len() <= s.len() && s.subrange(i, i + pat.len()) == pat
}

/// The first occurrence of `pat` in `s` at or after `i`.
pub open spec fn find_from(s: Seq<char>, pat: Seq<char>, i: int) -> Option<int>
    decreases s.len() - i,
{
    if i < 0 || i + pat.len() > s.len() {
        None
    } else if occurs_at(s, pat, i) {
        Some(i)
    } else if i >= s.len() {
        None
    } else {
        find_from(s, pat, i + 1)
    }
}

/// The last occurrence of `pat` in `s` that starts at or before `i`.
pub open spec fn rfind_from(s: Seq<char>, pat: Seq<char>, i: int) -> Option<int>
    decreases i + 1,
{
    if i < 0 {
        None
    } else if occurs_at(s, pat, i) {
        Some(i)
    } else {
        rfind_from(s, pat, i - 1)
    }
}

/// A character with the Unicode `White_Space` property.
pub open spec fn is_unicode_whitespace(c: char) -> bool {
    ||| c == ' '
    ||| ('\t' <= c && c <= '\r')
    ||| c == '\u{85}'
    ||| c == '\u{a0}'
    ||| c == '\u{1680}'
    ||| ('\u{2000}' <= c && c <= '\u{200a}')
    ||| c == '\u{2028}'
    ||| c == '\u{2029}'
    ||| c == '\u{202f}'
    ||| c == '\u{205f}'
    ||| c == '\u{3000}'
}

/// The position of the first character at or after `i` that is not whitespace.
pub open spec fn skip_whitespace(s: Seq<char>, i: int) -> int
    decreases s.len() - i,
{
    if i < 0 || i >= s.len() {
        i
    } else if is_unicode_whitespace(s[i]) {
        skip_whitespace(s, i + 1)
    } else {
        i
    }
}

/// The key/value entries of the dictionary body `rest`, read after `acc`:
/// each `<key>` is followed, after whitespace, by `<string>…</string>`,
/// `<true/>` or `<false/>`.
pub open spec fn xml_entries(rest: Seq<char>, acc: Seq<(Seq<char>, PlistValue)>) -> Result<
    Seq<(Seq<char>, PlistValue)>,
    Error,
>
    decreases rest.len(),
{
    match find_from(rest, "<key>"@, 0) {
        None => Ok(acc),
        Some(k) => {
            let after_key = rest.subrange(k + "<key>"@.len(), rest.len() as int);
            match find_from(after_key, "</key>"@, 0) {
                None => Err(Error::InvalidPlist("unterminated <key>")),
                Some(ke) => {
                    let key = after_key.subrange(0, ke);
                    let tail = after_key.subrange(ke + "</key>"@.len(), after_key.len() as int);
                    let v = skip_whitespace(tail, 0);
                    let value = tail.subrange(v, tail.len() as int);
                    proof {
                        reveal_strlit("<key>");
                        reveal_strlit("</key>");
                        reveal_strlit("<string>");
                        reveal_strlit("</string>");
                        reveal_strlit("<true/>");
                        reveal_strlit("<false/>");
                        lemma_skip_whitespace_bounds(tail, 0);
                        lemma_find_from_bounds(rest, "<key>"@, 0);
                        lemma_find_from_bounds(after_key, "</key>"@, 0);
                    }
                    if occurs_at(value, "<string>"@, 0) {
                        let stripped = value.subrange("<string>"@.len() as int, value.len() as int);
                        match find_from(stripped, "</string>"@, 0) {
                            None => Err(Error::InvalidPlist("unterminated <string>")),
                            Some(ve) => {
                                proof {
                                    lemma_find_from_bounds(stripped, "</string>"@, 0);
                                }
                                xml_entries(
                                    stripped.subrange(ve + "</string>"@.len(), stripped.len() as int),
                                    acc.push((key, PlistValue::Str(stripped.subrange(0, ve)))),
                                )
                            },
                        }
                    } else if occurs_at(value, "<true/>"@, 0) {
                        xml_entries(
                            value.subrange("<true/>"@.len() as int, value.len() as int),
                            acc.push((key, PlistValue::Bool(true))),
                        )
                    } else if occurs_at(value, "<false/>"@, 0) {
                        xml_entries(
                            value.subrange("<false/>"@.len() as int, value.len() as int),
                            acc.push((key, PlistValue::Bool(false))),
                        )
                    } else {
                        Err(Error::InvalidPlist("unsupported value type"))
                    }
                },
            }
        },
    }
}

/// Parsing an XML property list.
pub open spec fn spec_parse_xml(xml: Seq<char>) -> Result<PlistView, Error> {
    match find_from(xml, "<dict>"@, 0) {
        None => Err(Error::InvalidPlist("missing <dict>")),
        Some(ds) => match rfind_from(xml, "</dict>"@, xml.len() as int) {
            None => Err(Error::InvalidPlist("missing </dict>")),
            Some(de) => if ds + "<dict>"@.len() > de {
                Err(Error::InvalidPlist("</dict> precedes the end of <dict>"))
            } else {
                match xml_entries(xml.subrange(ds + "<dict>"@.len(), de), seq![]) {
                    Err(e) => Err(e),
                    Ok(entries) => Ok(plist_from_entries(entries)),
                }
            },
        },
    }
}

/// A found occurrence lies inside the searched range.
pub proof fn lemma_find_from_bounds(s: Seq<char>, pat: Seq<char>, i: int)
    ensures
        find_from(s, pat, i) matches Some(k) ==> i <= k && occurs_at(s, pat, k),
    decreases s.len() - i,
{
    if !(i < 0 || i + pat.len() > s.len()) && !occurs_at(s, pat, i) && i < s.len() {
        lemma_find_from_bounds(s, pat, i + 1);
    }
}

/// A found occurrence lies inside the searched range.
pub proof fn lemma_rfind_from_bounds(s: Seq<char>, pat: Seq<char>, i: int)
    ensures
        rfind_from(s, pat, i) matches Some(k) ==> 0 <= k <= i && occurs_at(s, pat, k),
    decreases i + 1,
{
    if i >= 0 && !occurs_at(s, pat, i) {
        lemma_rfind_from_bounds(s, pat, i - 1);
    }
}

/// Skipping whitespace stays inside the sequence.
pub proof fn lemma_skip_whitespace_bounds(s: Seq<char>, i: int)
    requires
        0 <= i <= s.len(),
    ensures
        i <= skip_whitespace(s, i) <= s.len(),
    decreases s.len() - i,
{
    if i < s.len() && is_unicode_whitespace(s[i]) {
        lemma_skip_whitespace_bounds(s, i + 1);
    }
}

/// The first position at which `pat` occurs within `s[lo..hi]`.
pub(crate) fn find_chars(s: &[char], lo: usize, hi: usize, pat: &[char]) -> (r: Option<usize>)
    requires
        lo <= hi <= s@.len(),
    ensures
        match find_from(s@.subrange(lo as int, hi as int), pat@, 0) {
            Some(k) => r == Some((lo + k) as usize),
            None => r is None,
        },
{
    let ghost sub = s@.subrange(lo as int, hi as int);
    let mut i = lo;
    while i <= hi && hi - i >= pat.len()
        invariant
            lo <= i,
            hi <= s@.len(),
            sub == s@.subrange(lo as int, hi as int),
            find_from(sub, pat@, 0) == find_from(sub, pat@, i - lo),
        decreases hi - i,
    {
        let mut j: usize = 0;
        let mut same = true;
        while j < pat.len()
            invariant
                j <= pat@.len(),
                i + pat@.len() <= hi,
                hi <= s@.len(),
                same == (forall|t: int| 0 <= t < j ==> s@[i + t] == pat@[t]),
            decreases pat.len() - j,
        {
            if s[i + j] != pat[j] {
                same = false;
            }
            j = j + 1;
        }
        proof {
            let k = i - lo;
            assert(sub.subrange(k, k + pat@.len()) =~= s@.subrange(i as int, i + pat@.len()));
            if same {
                assert(s@.subrange(i as int, i + pat@.len()) =~= pat@);
            } else {
                let t = choose|t: int| 0 <= t < pat@.len() && s@[i + t] != pat@[t];
                assert(s@.subrange(i as int, i + pat@.len())[t] != pat@[t]);
            }
        }
        if same {
            return Some(i);
        }
        i = i + 1;
    }
    None
}

fn rfind_chars(s: &[char], pat: &[char]) -> (r: Option<usize>)
    ensures
        match rfind_from(s@, pat@, s@.len() as int) {
            Some(k) => r == Some(k as usize),
            None => r is None,
        },
{
    proof {
        lemma_rfind_from_bounds(s@, pat@, s@.len() as int);
    }
    let n = s.len();
    let mut i = s.len();
    loop
        invariant
            i <= n,
            n == s@.len(),
            rfind_from(s@, pat@, s@.len() as int) == rfind_from(s@, pat@, i as int),
        decreases i,
    {
        if pat.len() <= s.len() - i {
            let mut j: usize = 0;
            let mut same = true;
            while j < pat.len()
                invariant
                    j <= pat@.len(),
                    i + pat@.len() <= n,
                    n == s@.len(),
                    same == (forall|t: int| 0 <= t < j ==> s@[i + t] == pat@[t]),
                decreases pat.len() - j,
            {
                if s[i + j] != pat[j] {
                    same = false;
                }
                j = j + 1;
            }
            proof {
                if same {
                    assert(s@.subrange(i as int, i + pat@.len()) =~= pat@);
                } else {
                    let t = choose|t: int| 0 <= t < pat@.len() && s@[i + t] != pat@[t];
                    assert(s@.subrange(i as int, i + pat@.len())[t] != pat@[t]);
                }
            }
            if same {
                return Some(i);
            }
        }
        if i == 0 {
            assert(rfind_from(s@, pat@, -1) is None);
            return None;
        }
        i = i - 1;
    }
}

fn is_whitespace_char(c: char) -> (r: bool)
    ensures
        r == is_unicode_whitespace(c),
{
    c == ' ' || ('\t' <= c && c <= '\r') || c == '\u{85}' || c == '\u{a0}' || c == '\u{1680}' || ('\u{2000}' <= c
        && c <= '\u{200a}') || c == '\u{2028}' || c == '\u{2029}' || c == '\u{202f}' || c == '\u{205f}' || c
        == '\u{3000}'
}

fn starts_at(s: &[char], lo: usize, hi: usize, pat: &[char]) -> (r: bool)
    requires
        lo <= hi <= s@.len(),
    ensures
        r == occurs_at(s@.subrange(lo as int, hi as int), pat@, 0),
{
    if pat.len() > hi - lo {
        return false;
    }
    let mut j: usize = 0;
    while j < pat.len()
        invariant
            j <= pat@.len(),
            lo + pat@.len() <= hi,
            hi <= s@.len(),
            forall|t: int| 0 <= t < j ==> s@[lo + t] == pat@[t],
        decreases pat.len() - j,
    {
        if s[lo + j] != pat[j] {
            assert(s@.subrange(lo as int, hi as int).subrange(0, pat@.len() as int)[j as int] != pat@[j as int]);
            return false;
        }
        j = j + 1;
    }
    assert(s@.subrange(lo as int, hi as int).subrange(0, pat@.len() as int) =~= pat@);
    true
}

fn parse_xml_properties_plist(xml: &[char]) -> (r: Result<PropertiesPlist, Error>)
    ensures
        match spec_parse_xml(xml@) {
            Ok(p) => r matches Ok(x) && x@ == p,
            Err(e) => r matches Err(x) && x == e,
        },
{
    let dict_open = chars_of("<dict>");
    let dict_close = chars_of("</dict>");
    let key_open = chars_of("<key>");
    let key_close = chars_of("</key>");
    let string_open = chars_of("<string>");
    let string_close = chars_of("</string>");
    let true_tag = chars_of("<true/>");
    let false_tag = chars_of("<false/>");
    proof {
        reveal_strlit("<dict>");
        reveal_strlit("</dict>");
        reveal_strlit("<key>");
        reveal_strlit("</key>");
        reveal_strlit("<string>");
        reveal_strlit("</string>");
        reveal_strlit("<true/>");
        reveal_strlit("<false/>");
        assert(xml@.subrange(0, xml@.len() as int) =~= xml@);
        lemma_find_from_bounds(xml@, dict_open@, 0);
        lemma_rfind_from_bounds(xml@, dict_close@, xml@.len() as int);
    }
    let dict_start = match find_chars(xml, 0, xml.len(), dict_open.as_slice()) {
        Some(d) => d,
        None => return Err(Error::InvalidPlist("missing <dict>")),
    };
    let dict_end = match rfind_chars(xml, dict_close.as_slice()) {
        Some(d) => d,
        None => return Err(Error::InvalidPlist("missing </dict>")),
    };
    if dict_start + dict_open.len() > dict_end {
        return Err(Error::InvalidPlist("</dict> precedes the end of <dict>"));
    }
    let mut lo = dict_start + dict_open.len();
    let hi = dict_end;
    let mut entries = Entries { items: Vec::new() };
    assert(entries.entries_view() =~= seq![]);
    loop
        invariant_except_break
            lo <= hi <= xml@.len(),
            spec_parse_xml(xml@) == match xml_entries(xml@.subrange(lo as int, hi as int), entries.entries_view()) {
                Err(e) => Err(e),
                Ok(es) => Ok(plist_from_entries(es)),
            },
        invariant
            hi <= xml@.len(),
            dict_open@ == "<dict>"@,
            key_open@ == "<key>"@,
            key_close@ == "</key>"@,
            string_open@ == "<string>"@,
            string_close@ == "</string>"@,
            true_tag@ == "<true/>"@,
            false_tag@ == "<false/>"@,
            key_open@.len() == 5,
            key_close@.len() == 6,
            string_open@.len() == 8,
            string_close@.len() == 9,
            true_tag@.len() == 7,
            false_tag@.len() == 8,
        ensures
            spec_parse_xml(xml@) == Ok::<PlistView, Error>(plist_from_entries(entries.entries_view())),
        decreases hi - lo,
    {
        let ghost rest = xml@.subrange(lo as int, hi as int);
        proof {
            lemma_find_from_bounds(rest, key_open@, 0);
        }
        let key_start = match find_chars(xml, lo, hi, key_open.as_slice()) {
            Some(k) => k,
            None => break,
        };
        let after_key = key_start + 5;
        let ghost ak = xml@.subrange(after_key as int, hi as int);
        assert(ak =~= rest.subrange((key_start - lo) + 5, rest.len() as int));
        proof {
            lemma_find_from_bounds(ak, key_close@, 0);
        }
        let key_end = match find_chars(xml, after_key, hi, key_close.as_slice()) {
            Some(k) => k,
            None => return Err(Error::InvalidPlist("unterminated <key>")),
        };
        assert(xml@.subrange(after_key as int, key_end as int) =~= ak.subrange(0, key_end - after_key));
        let key = string_from_chars(&xml[after_key..key_end]);
        let tail_start = key_end + 6;
        let ghost tail = xml@.subrange(tail_start as int, hi as int);
        assert(tail =~= ak.subrange((key_end - after_key) + 6, ak.len() as int));
        let mut v = tail_start;
        while v < hi && is_whitespace_char(xml[v])
            invariant
                tail_start <= v <= hi,
                hi <= xml@.len(),
                tail == xml@.subrange(tail_start as int, hi as int),
                skip_whitespace(tail, 0) == skip_whitespace(tail, v - tail_start),
            decreases hi - v,
        {
            v = v + 1;
        }
        let ghost value = xml@.subrange(v as int, hi as int);
        assert(value =~= tail.subrange(v - tail_start, tail.len() as int));
        if starts_at(xml, v, hi, string_open.as_slice()) {
            let s_start = v + 8;
            let ghost stripped = xml@.subrange(s_start as int, hi as int);
            assert(stripped =~= value.subrange(8, value.len() as int));
            proof {
                lemma_find_from_bounds(stripped, string_close@, 0);
            }
            let value_end = match find_chars(xml, s_start, hi, string_close.as_slice()) {
                Some(e) => e,
                None => return Err(Error::InvalidPlist("unterminated <string>")),
            };
            assert(xml@.subrange(s_start as int, value_end as int) =~= stripped.subrange(0, value_end - s_start));
            let text = string_from_chars(&xml[s_start..value_end]);
            entries.push(key, EntryValue::Str(text));
            lo = value_end + 9;
            assert(xml@.subrange(lo as int, hi as int) =~= stripped.subrange(
                (value_end - s_start) + 9,
                stripped.len() as int,
            ));
        } else if starts_at(xml, v, hi, true_tag.as_slice()) {
            entries.push(key, EntryValue::Bool(true));
            lo = v + 7;
            assert(xml@.subrange(lo as int, hi as int) =~= value.subrange(7, value.len() as int));
        } else if starts_at(xml, v, hi, false_tag.as_slice()) {
            entries.push(key, EntryValue::Bool(false));
            lo = v + 8;
            assert(xml@.subrange(lo as int, hi as int) =~= value.subrange(8, value.len() as int));
        } else {
            return Err(Error::InvalidPlist("unsupported value type"));
        }
    }
    Ok(entries.to_plist())
}


// ───────────────────────────── binary ─────────────────────────────

/// The big-endian integer in `bytes[off..off + k]`, keeping the low bits that
/// fit in `usize` (each byte is shifted in from the right).
pub open spec fn be_usize(bytes: Seq<u8>, off: int, k: nat) -> usize
    decreases k,
{
    if k == 0 {
        0
    } else {
        (be_usize(bytes, off, (k - 1) as nat) << 8usize) | (bytes[off + k - 1] as usize)
    }
}

/// The big-endian `u64` in `bytes[off..off + k]` (`k <= 8`).
pub open spec fn be_u64(bytes: Seq<u8>, off: int, k: nat) -> u64
    decreases k,
{
    if k == 0 {
        0
    } else {
        (be_u64(bytes, off, (k - 1) as nat) << 8u64) | (bytes[off + k - 1] as u64)
    }
}

/// Reading a big-endian integer of `width` bytes at `off`.
pub open spec fn spec_read_be(bytes: Seq<u8>, off: int, width: nat) -> Result<usize, Error> {
    if off < 0 || off + width > bytes.len() {
        Err(Error::InvalidPlist("integer out of bounds"))
    } else {
        Ok(be_usize(bytes, off, width))
    }
}

fn read_be_usize(bytes: &[u8], offset: usize, width: usize) -> (r: Result<usize, Error>)
    ensures
        r == spec_read_be(bytes@, offset as int, width as nat),
{
    let len = bytes.len();
    if offset > len || width > len - offset {
        return Err(Error::InvalidPlist("integer out of bounds"));
    }
    let mut value: usize = 0;
    let mut k: usize = 0;
    while k < width
        invariant
            k <= width,
            offset + width <= len,
            len == bytes@.len(),
            value == be_usize(bytes@, offset as int, k as nat),
        decreases width - k,
    {
        value = (value << 8) | (bytes[offset + k] as usize);
        k = k + 1;
    }
    Ok(value)
}

fn read_be_u64(bytes: &[u8], offset: usize) -> (r: u64)
    requires
        offset + 8 <= bytes@.len(),
    ensures
        r == be_u64(bytes@, offset as int, 8),
{
    let mut value: u64 = 0;
    let mut k: usize = 0;
    let n = bytes.len();
    while k < 8
        invariant
            k <= 8,
            offset + 8 <= n,
            n == bytes@.len(),
            value == be_u64(bytes@, offset as int, k as nat),
        decreases 8 - k,
    {
        value = (value << 8) | (bytes[offset + k] as u64);
        k = k + 1;
    }
    value
}

/// A value stored in a binary dictionary; nested dictionaries are kept as a marker.
pub enum BinLeaf {
    Str(Seq<char>),
    Bool(bool),
    Dict,
}

/// A parsed binary plist object.
pub enum BinObject {
    Str(Seq<char>),
    Bool(bool),
    Dict(Seq<(Seq<char>, BinLeaf)>),
}

/// What a dictionary keeps of a parsed object.
pub open spec fn leaf_of(o: BinObject) -> BinLeaf {
    match o {
        BinObject::Str(s) => BinLeaf::Str(s),
        BinObject::Bool(b) => BinLeaf::Bool(b),
        BinObject::Dict(_) => BinLeaf::Dict,
    }
}

/// The length of an object's payload and where the payload starts: the low
/// marker bits, or (when they are all set) the int object that follows.
pub open spec fn spec_plist_length(bytes: Seq<u8>, offset: int, info: nat) -> Result<(usize, int), Error> {
    if info < 15 {
        Ok((info as usize, offset + 1))
    } else if offset + 1 >= bytes.len() {
        Err(Error::InvalidPlist("missing length integer"))
    } else if bytes[offset + 1] >> 4u8 != 1 {
        Err(Error::InvalidPlist("length integer is not an int object"))
    } else {
        let int_len = pow2_byte_len((bytes[offset + 1] & 0x0f) as nat);
        match spec_read_be(bytes, offset + 2, int_len) {
            Err(e) => Err(e),
            Ok(len) => Ok((len, offset + 2 + int_len)),
        }
    }
}

/// `2` to the power `p`.
pub open spec fn pow2_byte_len(p: nat) -> nat
    decreases p,
{
    if p == 0 {
        1
    } else {
        2 * pow2_byte_len((p - 1) as nat)
    }
}

/// The big-endian UTF-16 code units in `bytes[start..start + 2 * n]`.
pub open spec fn be_units(bytes: Seq<u8>, start: int, n: nat) -> Seq<u16> {
    Seq::new(n, |i: int| ((bytes[start + 2 * i] as int) * 256 + (bytes[start + 2 * i + 1] as int)) as u16)
}

/// Parsing the object at `index` of the offset table, with `fuel` levels of
/// dictionary nesting left.
pub open spec fn spec_bin_object(bytes: Seq<u8>, offsets: Seq<usize>, ref_size: nat, index: int, fuel: nat) -> Result<
    BinObject,
    Error,
>
    decreases fuel, 1int, 0int,
{
    if index < 0 || index >= offsets.len() {
        Err(Error::InvalidPlist("object index out of bounds"))
    } else {
        let offset = offsets[index] as int;
        if offset >= bytes.len() {
            Err(Error::InvalidPlist("object offset out of bounds"))
        } else {
            let marker = bytes[offset];
            let object_type = marker >> 4u8;
            let info = (marker & 0x0f) as nat;
            if object_type == 0 && info == 8 {
                Ok(BinObject::Bool(false))
            } else if object_type == 0 && info == 9 {
                Ok(BinObject::Bool(true))
            } else if object_type == 5 {
                match spec_plist_length(bytes, offset, info) {
                    Err(e) => Err(e),
                    Ok((len, start)) => {
                        if start + len > usize::MAX {
                            Err(Error::InvalidPlist("string length overflow"))
                        } else if start + len > bytes.len() {
                            Err(Error::InvalidPlist("ascii string out of bounds"))
                        } else if !valid_utf8(bytes.subrange(start, start + len)) {
                            Err(Error::InvalidUtf8)
                        } else {
                            Ok(BinObject::Str(decode_utf8(bytes.subrange(start, start + len))))
                        }
                    },
                }
            } else if object_type == 6 {
                match spec_plist_length(bytes, offset, info) {
                    Err(e) => Err(e),
                    Ok((len, start)) => {
                        if 2 * len > usize::MAX || start + 2 * len > usize::MAX {
                            Err(Error::InvalidPlist("utf16 string length overflow"))
                        } else if start + 2 * len > bytes.len() {
                            Err(Error::InvalidPlist("utf16 string out of bounds"))
                        } else {
                            match utf16_chars(be_units(bytes, start, len as nat)) {
                                None => Err(Error::InvalidPlist("invalid utf16 string")),
                                Some(cs) => Ok(BinObject::Str(cs)),
                            }
                        }
                    },
                }
            } else if object_type == 13 {
                match spec_plist_length(bytes, offset, info) {
                    Err(e) => Err(e),
                    Ok((len, start)) => {
                        if len * ref_size > usize::MAX || start + len * ref_size > usize::MAX {
                            Err(Error::InvalidPlist("dictionary reference overflow"))
                        } else if fuel == 0 {
                            Err(Error::InvalidPlist("dictionary nesting too deep"))
                        } else {
                            match spec_bin_dict(
                                bytes,
                                offsets,
                                ref_size,
                                start,
                                start + len * ref_size,
                                len as nat,
                                0,
                                fuel,
                                seq![],
                            ) {
                                Err(e) => Err(e),
                                Ok(entries) => Ok(BinObject::Dict(entries)),
                            }
                        }
                    },
                }
            } else {
                Err(Error::InvalidPlist("unsupported binary plist object"))
            }
        }
    }
}

/// Parsing the dictionary entries from the `i`-th on, after `acc`.
pub open spec fn spec_bin_dict(
    bytes: Seq<u8>,
    offsets: Seq<usize>,
    ref_size: nat,
    keys_start: int,
    values_start: int,
    len: nat,
    i: nat,
    fuel: nat,
    acc: Seq<(Seq<char>, BinLeaf)>,
) -> Result<Seq<(Seq<char>, BinLeaf)>, Error>
    decreases fuel, 0int, len - i,
{
    if i >= len || fuel == 0 {
        Ok(acc)
    } else {
        match spec_read_be(bytes, keys_start + i * ref_size, ref_size) {
            Err(e) => Err(e),
            Ok(key_ref) => match spec_read_be(bytes, values_start + i * ref_size, ref_size) {
                Err(e) => Err(e),
                Ok(value_ref) => match spec_bin_object(bytes, offsets, ref_size, key_ref as int, (fuel - 1) as nat) {
                    Err(e) => Err(e),
                    Ok(key_object) => match key_object {
                        BinObject::Str(key) => match spec_bin_object(
                            bytes,
                            offsets,
                            ref_size,
                            value_ref as int,
                            (fuel - 1) as nat,
                        ) {
                            Err(e) => Err(e),
                            Ok(value) => spec_bin_dict(
                                bytes,
                                offsets,
                                ref_size,
                                keys_start,
                                values_start,
                                len,
                                i + 1,
                                fuel,
                                acc.push((key, leaf_of(value))),
                            ),
                        },
                        _ => Err(Error::InvalidPlist("dictionary key is not a string")),
                    },
                },
            },
        }
    }
}

/// The value stored last under `key`, whatever its type.
pub open spec fn last_leaf(entries: Seq<(Seq<char>, BinLeaf)>, key: Seq<char>) -> Option<BinLeaf>
    decreases entries.len(),
{
    if entries.len() == 0 {
        None
    } else if entries.last().0 == key {
        Some(entries.last().1)
    } else {
        last_leaf(entries.drop_last(), key)
    }
}

/// The string stored under `key`, if the value stored last there is a string.
pub open spec fn dict_string(entries: Seq<(Seq<char>, BinLeaf)>, key: Seq<char>) -> Option<Seq<char>> {
    match last_leaf(entries, key) {
        Some(BinLeaf::Str(s)) => Some(s),
        _ => None,
    }
}

/// The boolean stored under `key`, if the value stored last there is a boolean.
pub open spec fn dict_bool(entries: Seq<(Seq<char>, BinLeaf)>, key: Seq<char>) -> Option<bool> {
    match last_leaf(entries, key) {
        Some(BinLeaf::Bool(b)) => Some(b),
        _ => None,
    }
}

/// The metadata of a top-level binary dictionary.
pub open spec fn plist_from_dict(entries: Seq<(Seq<char>, BinLeaf)>) -> PlistView {
    PlistView {
        document_uuid: dict_string(entries, "documentUUID"@),
        file_format_version: dict_string(entries, "fileFormatVersion"@),
        is_multi_page: dict_bool(entries, "isMultiPage"@),
        revision: dict_string(entries, "revision"@),
        stable_document_uuid: dict_string(entries, "stableDocumentUUID"@),
        version_uuid: dict_string(entries, "versionUUID"@),
    }
}

/// The offset table: `n` big-endian integers of `size` bytes from `start`.
pub open spec fn offset_table(bytes: Seq<u8>, start: int, size: nat, n: nat) -> Seq<usize> {
    Seq::new(n, |i: int| be_usize(bytes, start + i * size, size))
}

/// Parsing a binary property list (`bplist00`): the 32-byte trailer, the
/// offset table, then the top object, which must be a dictionary.
pub open spec fn spec_parse_binary(bytes: Seq<u8>) -> Result<PlistView, Error> {
    if bytes.len() < 40 {
        Err(Error::InvalidPlist("binary plist is too short"))
    } else {
        let t = bytes.len() - 32;
        let offset_size = bytes[t + 6] as nat;
        let ref_size = bytes[t + 7] as nat;
        let num = be_u64(bytes, t + 8, 8);
        let top = be_u64(bytes, t + 16, 8);
        let table = be_u64(bytes, t + 24, 8);
        if num > usize::MAX {
            Err(Error::InvalidPlist("number of objects"))
        } else if top > usize::MAX {
            Err(Error::InvalidPlist("top object index"))
        } else if table > usize::MAX {
            Err(Error::InvalidPlist("offset table start"))
        } else if offset_size == 0 || ref_size == 0 {
            Err(Error::InvalidPlist("invalid trailer sizes"))
        } else if num * offset_size > usize::MAX || table + num * offset_size > usize::MAX {
            Err(Error::InvalidPlist("offset table overflow"))
        } else if table + num * offset_size > t {
            Err(Error::InvalidPlist("offset table out of bounds"))
        } else {
            let offsets = offset_table(bytes, table as int, offset_size, num as nat);
            match spec_bin_object(bytes, offsets, ref_size, top as int, num as nat) {
                Err(e) => Err(e),
                Ok(BinObject::Dict(entries)) => Ok(plist_from_dict(entries)),
                Ok(_) => Err(Error::InvalidPlist("top object is not a dictionary")),
            }
        }
    }
}

enum LeafValue {
    Str(String),
    Bool(bool),
    Dict,
}

enum ObjectValue {
    Str(String),
    Bool(bool),
    Dict(Vec<(String, LeafValue)>),
}

impl LeafValue {
    spec fn leaf_view(&self) -> BinLeaf {
        match self {
            LeafValue::Str(s) => BinLeaf::Str(s@),
            LeafValue::Bool(b) => BinLeaf::Bool(*b),
            LeafValue::Dict => BinLeaf::Dict,
        }
    }
}

spec fn dict_view(d: Seq<(String, LeafValue)>) -> Seq<(Seq<char>, BinLeaf)> {
    d.map_values(|e: (String, LeafValue)| (e.0@, e.1.leaf_view()))
}

impl ObjectValue {
    spec fn object_view(&self) -> BinObject {
        match self {
            ObjectValue::Str(s) => BinObject::Str(s@),
            ObjectValue::Bool(b) => BinObject::Bool(*b),
            ObjectValue::Dict(d) => BinObject::Dict(dict_view(d@)),
        }
    }

    fn into_leaf(self) -> (r: LeafValue)
        ensures
            r.leaf_view() == leaf_of(self.object_view()),
    {
        match self {
            ObjectValue::Str(s) => LeafValue::Str(s),
            ObjectValue::Bool(b) => LeafValue::Bool(b),
            ObjectValue::Dict(_) => LeafValue::Dict,
        }
    }
}

fn parse_plist_length(bytes: &[u8], offset: usize, info: usize) -> (r: Result<(usize, usize), Error>)
    requires
        offset < bytes@.len(),
        info < 16,
    ensures
        match spec_plist_length(bytes@, offset as int, info as nat) {
            Ok((len, start)) => r == Ok::<(usize, usize), Error>((len, start as usize)),
            Err(e) => r == Err::<(usize, usize), Error>(e),
        },
{
    let n = bytes.len();
    assert(offset < n);
    if info < 15 {
        return Ok((info, offset + 1));
    }
    if offset + 1 >= bytes.len() {
        return Err(Error::InvalidPlist("missing length integer"));
    }
    let int_marker = bytes[offset + 1];
    if int_marker >> 4 != 1 {
        return Err(Error::InvalidPlist("length integer is not an int object"));
    }
    assert(int_marker & 0x0f < 16) by (bit_vector);
    let power = (int_marker & 0x0f) as usize;
    let mut int_len: usize = 1;
    let mut k: usize = 0;
    while k < power
        invariant
            k <= power,
            power < 16,
            int_len == pow2_byte_len(k as nat),
            int_len <= 0x8000,
        decreases power - k,
    {
        proof {
            lemma_pow2_small(k as nat);
        }
        int_len = int_len * 2;
        k = k + 1;
    }
    let len = read_be_usize(bytes, offset + 2, int_len)?;
    Ok((len, offset + 2 + int_len))
}

proof fn lemma_pow2_small(k: nat)
    requires
        k < 16,
    ensures
        pow2_byte_len(k) <= 0x4000 || k == 15,
        pow2_byte_len(k) <= 0x8000,
{
    reveal_with_fuel(pow2_byte_len, 17);
}

fn read_be_units(bytes: &[u8], start: usize, n: usize) -> (r: Vec<u16>)
    requires
        start + 2 * n <= bytes@.len(),
    ensures
        r@ == be_units(bytes@, start as int, n as nat),
{
    let mut units: Vec<u16> = Vec::new();
    let mut i: usize = 0;
    let total = bytes.len();
    while i < n
        invariant
            i <= n,
            start + 2 * n <= total,
            total == bytes@.len(),
            units@ == be_units(bytes@, start as int, i as nat),
        decreases n - i,
    {
        let hi = bytes[start + 2 * i] as u16;
        let lo = bytes[start + 2 * i + 1] as u16;
        units.push(hi * 256 + lo);
        i = i + 1;
        assert(units@ =~= be_units(bytes@, start as int, i as nat));
    }
    units
}

fn parse_binary_plist_object(bytes: &[u8], offsets: &[usize], ref_size: usize, object_index: usize, fuel: usize) -> (r:
    Result<ObjectValue, Error>)
    ensures
        match spec_bin_object(bytes@, offsets@, ref_size as nat, object_index as int, fuel as nat) {
            Ok(o) => r matches Ok(x) && x.object_view() == o,
            Err(e) => r matches Err(x) && x == e,
        },
    decreases fuel, 1int, 0int,
{
    if object_index >= offsets.len() {
        return Err(Error::InvalidPlist("object index out of bounds"));
    }
    let offset = offsets[object_index];
    if offset >= bytes.len() {
        return Err(Error::InvalidPlist("object offset out of bounds"));
    }
    let marker = bytes[offset];
    let object_type = marker >> 4;
    let object_info = (marker & 0x0f) as usize;
    assert(marker & 0x0f < 16) by (bit_vector);
    if object_type == 0 && object_info == 8 {
        return Ok(ObjectValue::Bool(false));
    }
    if object_type == 0 && object_info == 9 {
        return Ok(ObjectValue::Bool(true));
    }
    if object_type == 5 {
        let (len, data_start) = parse_plist_length(bytes, offset, object_info)?;
        let data_end = match data_start.checked_add(len) {
            Some(e) => e,
            None => return Err(Error::InvalidPlist("string length overflow")),
        };
        if data_end > bytes.len() {
            return Err(Error::InvalidPlist("ascii string out of bounds"));
        }
        return match string_from_utf8(crate::protobuf::copy_bytes(&bytes[data_start..data_end])) {
            Some(s) => Ok(ObjectValue::Str(s)),
            None => Err(Error::InvalidUtf8),
        };
    }
    if object_type == 6 {
        let (len, data_start) = parse_plist_length(bytes, offset, object_info)?;
        let byte_len = match len.checked_mul(2) {
            Some(b) => b,
            None => return Err(Error::InvalidPlist("utf16 string length overflow")),
        };
        let data_end = match data_start.checked_add(byte_len) {
            Some(e) => e,
            None => return Err(Error::InvalidPlist("utf16 string length overflow")),
        };
        if data_end > bytes.len() {
            return Err(Error::InvalidPlist("utf16 string out of bounds"));
        }
        let units = read_be_units(bytes, data_start, len);
        return match string_from_utf16(units.as_slice()) {
            Some(s) => Ok(ObjectValue::Str(s)),
            None => Err(Error::InvalidPlist("invalid utf16 string")),
        };
    }
    if object_type == 13 {
        let (len, refs_start) = parse_plist_length(bytes, offset, object_info)?;
        let span = match len.checked_mul(ref_size) {
            Some(v) => v,
            None => return Err(Error::InvalidPlist("dictionary reference overflow")),
        };
        let values_start = match refs_start.checked_add(span) {
            Some(v) => v,
            None => return Err(Error::InvalidPlist("dictionary reference overflow")),
        };
        if fuel == 0 {
            return Err(Error::InvalidPlist("dictionary nesting too deep"));
        }
        let entries = parse_binary_dict(bytes, offsets, ref_size, refs_start, values_start, len, fuel)?;
        return Ok(ObjectValue::Dict(entries));
    }
    Err(Error::InvalidPlist("unsupported binary plist object"))
}

fn parse_binary_dict(
    bytes: &[u8],
    offsets: &[usize],
    ref_size: usize,
    keys_start: usize,
    values_start: usize,
    len: usize,
    fuel: usize,
) -> (r: Result<Vec<(String, LeafValue)>, Error>)
    requires
        fuel > 0,
        keys_start + len * ref_size == values_start,
    ensures
        match spec_bin_dict(
            bytes@,
            offsets@,
            ref_size as nat,
            keys_start as int,
            values_start as int,
            len as nat,
            0,
            fuel as nat,
            seq![],
        ) {
            Ok(d) => r matches Ok(x) && dict_view(x@) == d,
            Err(e) => r matches Err(x) && x == e,
        },
    decreases fuel, 0int, len,
{
    let mut dict: Vec<(String, LeafValue)> = Vec::new();
    let mut i: usize = 0;
    let blen = bytes.len();
    assert(dict_view(dict@) =~= seq![]);
    while i < len
        invariant
            i <= len,
            blen == bytes@.len(),
            fuel > 0,
            keys_start + len * ref_size == values_start,
            spec_bin_dict(
                bytes@,
                offsets@,
                ref_size as nat,
                keys_start as int,
                values_start as int,
                len as nat,
                0,
                fuel as nat,
                seq![],
            ) == spec_bin_dict(
                bytes@,
                offsets@,
                ref_size as nat,
                keys_start as int,
                values_start as int,
                len as nat,
                i as nat,
                fuel as nat,
                dict_view(dict@),
            ),
        decreases len - i,
    {
        assert(i * ref_size <= len * ref_size) by (nonlinear_arith)
            requires
                i <= len,
        ;
        let key_pos = keys_start + i * ref_size;
        let key_ref = read_be_usize(bytes, key_pos, ref_size)?;
        let value_pos = match values_start.checked_add(i * ref_size) {
            Some(p) => p,
            None => return Err(Error::InvalidPlist("integer out of bounds")),
        };
        let value_ref = read_be_usize(bytes, value_pos, ref_size)?;
        let key_object = parse_binary_plist_object(bytes, offsets, ref_size, key_ref, fuel - 1)?;
        let key = match key_object {
            ObjectValue::Str(k) => k,
            _ => return Err(Error::InvalidPlist("dictionary key is not a string")),
        };
        let value = parse_binary_plist_object(bytes, offsets, ref_size, value_ref, fuel - 1)?;
        let ghost vv = value.object_view();
        let leaf = value.into_leaf();
        let ghost before = dict_view(dict@);
        dict.push((key, leaf));
        assert(dict_view(dict@) =~= before.push((key@, leaf_of(vv))));
        i = i + 1;
    }
    Ok(dict)
}


fn dict_last_leaf<'a>(d: &'a Vec<(String, LeafValue)>, key: &[char]) -> (r: Option<&'a LeafValue>)
    ensures
        match last_leaf(dict_view(d@), key@) {
            Some(l) => r matches Some(x) && x.leaf_view() == l,
            None => r is None,
        },
{
    let ghost es = dict_view(d@);
    let mut i = d.len();
    assert(es.take(i as int) =~= es);
    while i > 0
        invariant
            i <= d@.len(),
            es == dict_view(d@),
            last_leaf(es, key@) == last_leaf(es.take(i as int), key@),
        decreases i,
    {
        let ghost t = es.take(i as int);
        assert(t.last() == es[i - 1]);
        assert(t.drop_last() =~= es.take(i - 1));
        let (k, v) = &d[i - 1];
        let kc = chars_of(k.as_str());
        if crate::text::chars_equal(kc.as_slice(), key) {
            return Some(v);
        }
        i = i - 1;
    }
    None
}

fn lookup_string(d: &Vec<(String, LeafValue)>, key: &[char]) -> (r: Option<String>)
    ensures
        opt_string_view(r) == dict_string(dict_view(d@), key@),
{
    match dict_last_leaf(d, key) {
        Some(LeafValue::Str(s)) => Some(s.clone()),
        _ => None,
    }
}

fn lookup_bool(d: &Vec<(String, LeafValue)>, key: &[char]) -> (r: Option<bool>)
    ensures
        r == dict_bool(dict_view(d@), key@),
{
    match dict_last_leaf(d, key) {
        Some(LeafValue::Bool(b)) => Some(*b),
        _ => None,
    }
}

fn parse_binary_properties_plist(bytes: &[u8]) -> (r: Result<PropertiesPlist, Error>)
    ensures
        match spec_parse_binary(bytes@) {
            Ok(p) => r matches Ok(x) && x@ == p,
            Err(e) => r matches Err(x) && x == e,
        },
{
    if bytes.len() < 40 {
        return Err(Error::InvalidPlist("binary plist is too short"));
    }
    let t = bytes.len() - 32;
    let offset_int_size = bytes[t + 6] as usize;
    let object_ref_size = bytes[t + 7] as usize;
    let num64 = read_be_u64(bytes, t + 8);
    let top64 = read_be_u64(bytes, t + 16);
    let table64 = read_be_u64(bytes, t + 24);
    if num64 > usize::MAX as u64 {
        return Err(Error::InvalidPlist("number of objects"));
    }
    if top64 > usize::MAX as u64 {
        return Err(Error::InvalidPlist("top object index"));
    }
    if table64 > usize::MAX as u64 {
        return Err(Error::InvalidPlist("offset table start"));
    }
    let num_objects = num64 as usize;
    let top_object = top64 as usize;
    let table_offset = table64 as usize;
    if offset_int_size == 0 || object_ref_size == 0 {
        return Err(Error::InvalidPlist("invalid trailer sizes"));
    }
    let table_size = match num_objects.checked_mul(offset_int_size) {
        Some(v) => v,
        None => return Err(Error::InvalidPlist("offset table overflow")),
    };
    let table_end = match table_offset.checked_add(table_size) {
        Some(v) => v,
        None => return Err(Error::InvalidPlist("offset table overflow")),
    };
    if table_end > t {
        return Err(Error::InvalidPlist("offset table out of bounds"));
    }
    let mut offsets: Vec<usize> = Vec::new();
    let mut index: usize = 0;
    while index < num_objects
        invariant
            index <= num_objects,
            table_offset + num_objects * offset_int_size <= t,
            t + 32 == bytes@.len(),
            offset_int_size > 0,
            offsets@ == offset_table(bytes@, table_offset as int, offset_int_size as nat, index as nat),
        decreases num_objects - index,
    {
        assert(index * offset_int_size + offset_int_size <= num_objects * offset_int_size) by (nonlinear_arith)
            requires
                index < num_objects,
        ;
        let start = table_offset + index * offset_int_size;
        let value = match read_be_usize(bytes, start, offset_int_size) {
            Ok(v) => v,
            Err(e) => return Err(e),
        };
        offsets.push(value);
        index = index + 1;
        assert(offsets@ =~= offset_table(bytes@, table_offset as int, offset_int_size as nat, index as nat));
    }
    let object = parse_binary_plist_object(bytes, offsets.as_slice(), object_ref_size, top_object, num_objects)?;
    match object {
        ObjectValue::Dict(d) => {
            let document_uuid = lookup_string(&d, chars_of("documentUUID").as_slice());
            let file_format_version = lookup_string(&d, chars_of("fileFormatVersion").as_slice());
            let is_multi_page = lookup_bool(&d, chars_of("isMultiPage").as_slice());
            let revision = lookup_string(&d, chars_of("revision").as_slice());
            let stable_document_uuid = lookup_string(&d, chars_of("stableDocumentUUID").as_slice());
            let version_uuid = lookup_string(&d, chars_of("versionUUID").as_slice());
            Ok(
                PropertiesPlist {
                    document_uuid,
                    file_format_version,
                    is_multi_page,
                    revision,
                    stable_document_uuid,
                    version_uuid,
                },
            )
        },
        _ => Err(Error::InvalidPlist("top object is not a dictionary")),
    }
}

// ───────────────────────────── dispatch ─────────────────────────────

/// The bytes start with the binary property list magic `bplist00`.
pub open spec fn has_bplist_magic(bytes: Seq<u8>) -> bool {
    bytes.len() >= 8 && bytes.subrange(0, 8) == seq![0x62u8, 0x70u8, 0x6cu8, 0x69u8, 0x73u8, 0x74u8, 0x30u8, 0x30u8]
}

/// Parsing `Metadata/Properties.plist`: binary when it starts with the
/// `bplist00` magic, XML (which must be UTF-8) otherwise.
pub open spec fn spec_parse_properties(bytes: Seq<u8>) -> Result<PlistView, Error> {
    if has_bplist_magic(bytes) {
        spec_parse_binary(bytes)
    } else if !valid_utf8(bytes) {
        Err(Error::InvalidPlist("expected UTF-8"))
    } else {
        spec_parse_xml(decode_utf8(bytes))
    }
}

/// Parses the `Metadata/Properties.plist` payload from an iWork package.
pub fn parse_properties_plist(bytes: &[u8]) -> (r: Result<PropertiesPlist, Error>)
    ensures
        match spec_parse_properties(bytes@) {
            Ok(p) => r matches Ok(x) && x@ == p,
            Err(e) => r matches Err(x) && x == e,
        },
{
    let magic: [u8; 8] = [0x62, 0x70, 0x6c, 0x69, 0x73, 0x74, 0x30, 0x30];
    let mut is_binary = bytes.len() >= 8;
    let mut k: usize = 0;
    while k < 8 && is_binary
        invariant
            k <= 8,
            is_binary ==> bytes@.len() >= 8,
            is_binary == (bytes@.len() >= 8 && forall|j: int| 0 <= j < k ==> bytes@[j] == magic@[j]),
        decreases 8 - k,
    {
        if bytes[k] != magic[k] {
            is_binary = false;
        }
        k = k + 1;
    }
    proof {
        assert(magic@ =~= seq![0x62u8, 0x70u8, 0x6cu8, 0x69u8, 0x73u8, 0x74u8, 0x30u8, 0x30u8]);
        if is_binary {
            assert(bytes@.subrange(0, 8) =~= magic@);
        } else if bytes@.len() >= 8 {
            let j = choose|j: int| 0 <= j < 8 && bytes@[j] != magic@[j];
            assert(bytes@.subrange(0, 8)[j] != magic@[j]);
        }
    }
    if is_binary {
        return parse_binary_properties_plist(bytes);
    }
    let text = match string_from_utf8(crate::protobuf::copy_bytes(bytes)) {
        Some(s) => s,
        None => return Err(Error::InvalidPlist("expected UTF-8")),
    };
    let xml = chars_of(text.as_str());
    parse_xml_properties_plist(xml.as_slice())
}

/// Law: a string object (marker type 5) whose length does not fit in the
/// marker's low bits (all four set) is followed by an int object (marker
/// `0x1k`) holding its length in `2^k` big-endian bytes, and the string's
/// bytes start right after that int: `2 + 2^k` bytes past the marker.
pub proof fn lemma_long_string_object(
    bytes: Seq<u8>,
    offsets: Seq<usize>,
    ref_size: nat,
    index: int,
    fuel: nat,
    k: u8,
    payload: Seq<u8>,
)
    requires
        0 <= index < offsets.len(),
        k < 16,
        bytes.len() <= usize::MAX,
        offsets[index] as int + 2 + pow2_byte_len(k as nat) + payload.len() <= bytes.len(),
        bytes[offsets[index] as int] == 0x5f,
        bytes[offsets[index] as int + 1] == 0x10 + k,
        be_usize(bytes, offsets[index] as int + 2, pow2_byte_len(k as nat)) == payload.len(),
        bytes.subrange(
            offsets[index] as int + 2 + pow2_byte_len(k as nat),
            offsets[index] as int + 2 + pow2_byte_len(k as nat) + payload.len(),
        ) == payload,
        valid_utf8(payload),
    ensures
        spec_bin_object(bytes, offsets, ref_size, index, fuel) == Ok::<BinObject, Error>(BinObject::Str(decode_utf8(payload))),
{
    assert(0x5fu8 >> 4u8 == 5u8) by (bit_vector);
    assert(0x5fu8 & 0x0fu8 == 15u8) by (bit_vector);
    let im: u8 = (0x10 + k) as u8;
    assert(im >> 4u8 == 1u8 && im & 0x0fu8 == k) by (bit_vector)
        requires
            im == 0x10u8 + k,
            k < 16u8,
    ;
}

/// Law: a string of at most 255 bytes that the marker cannot count is
/// preceded by the one-byte int `0x10 n`, and its bytes start right after
/// that count: three bytes past the marker.
pub proof fn lemma_long_string_one_byte_length(
    bytes: Seq<u8>,
    offsets: Seq<usize>,
    ref_size: nat,
    index: int,
    fuel: nat,
    payload: Seq<u8>,
)
    requires
        0 <= index < offsets.len(),
        bytes.len() <= usize::MAX,
        payload.len() < 256,
        offsets[index] as int + 3 + payload.len() <= bytes.len(),
        bytes[offsets[index] as int] == 0x5f,
        bytes[offsets[index] as int + 1] == 0x10,
        bytes[offsets[index] as int + 2] == payload.len(),
        bytes.subrange(offsets[index] as int + 3, offsets[index] as int + 3 + payload.len()) == payload,
        valid_utf8(payload),
    ensures
        spec_bin_object(bytes, offsets, ref_size, index, fuel) == Ok::<BinObject, Error>(BinObject::Str(decode_utf8(payload))),
{
    let o = offsets[index] as int;
    assert(pow2_byte_len(0) == 1);
    let b = bytes[o + 2];
    assert(be_usize(bytes, o + 2, 0) == 0);
    assert(((0usize << 8usize) | (b as usize)) == b as usize) by (bit_vector);
    assert(be_usize(bytes, o + 2, 1) == payload.len());
    lemma_long_string_object(bytes, offsets, ref_size, index, fuel, 0, payload);
}

/// Law: a string object (marker type 5) of fewer than 15 bytes keeps its
/// length in the marker's low bits, and its bytes start right after the
/// marker.
pub proof fn lemma_short_string_object(
    bytes: Seq<u8>,
    offsets: Seq<usize>,
    ref_size: nat,
    index: int,
    fuel: nat,
    payload: Seq<u8>,
)
    requires
        0 <= index < offsets.len(),
        bytes.len() <= usize::MAX,
        payload.len() < 15,
        offsets[index] as int + 1 + payload.len() <= bytes.len(),
        bytes[offsets[index] as int] == 0x50 + payload.len(),
        bytes.subrange(offsets[index] as int + 1, offsets[index] as int + 1 + payload.len()) == payload,
        valid_utf8(payload),
    ensures
        spec_bin_object(bytes, offsets, ref_size, index, fuel) == Ok::<BinObject, Error>(BinObject::Str(decode_utf8(payload))),
{
    let m: u8 = bytes[offsets[index] as int];
    let n: u8 = payload.len() as u8;
    assert(m >> 4u8 == 5u8 && m & 0x0fu8 == n) by (bit_vector)
        requires
            m == 0x50u8 + n,
            n < 15u8,
    ;
}

/// Law: a UTF-16 string object (marker type 6) whose length does not fit in
/// the marker is followed by an int object (marker `0x1k`) holding its count
/// of code units in `2^k` big-endian bytes, and the units start right after
/// that int: `2 + 2^k` bytes past the marker.
pub proof fn lemma_long_utf16_object(
    bytes: Seq<u8>,
    offsets: Seq<usize>,
    ref_size: nat,
    index: int,
    fuel: nat,
    k: u8,
    n: nat,
)
    requires
        0 <= index < offsets.len(),
        k < 16,
        bytes.len() <= usize::MAX,
        offsets[index] as int + 2 + pow2_byte_len(k as nat) + 2 * n <= bytes.len(),
        bytes[offsets[index] as int] == 0x6f,
        bytes[offsets[index] as int + 1] == 0x10 + k,
        be_usize(bytes, offsets[index] as int + 2, pow2_byte_len(k as nat)) == n,
        utf16_chars(be_units(bytes, offsets[index] as int + 2 + pow2_byte_len(k as nat), n)) is Some,
    ensures
        spec_bin_object(bytes, offsets, ref_size, index, fuel) == Ok::<BinObject, Error>(
            BinObject::Str(utf16_chars(be_units(bytes, offsets[index] as int + 2 + pow2_byte_len(k as nat), n))->Some_0),
        ),
{
    assert(0x6fu8 >> 4u8 == 6u8) by (bit_vector);
    assert(0x6fu8 & 0x0fu8 == 15u8) by (bit_vector);
    let im: u8 = (0x10 + k) as u8;
    assert(im >> 4u8 == 1u8 && im & 0x0fu8 == k) by (bit_vector)
        requires
            im == 0x10u8 + k,
            k < 16u8,
    ;
}

} // verus!
