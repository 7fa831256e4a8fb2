//! Collecting the UTF-8 string fields of an archive's protobuf stream.
use crate::iwa::{leading_len, IwaArchive};
use crate::protobuf::{
    lemma_read_varint_advances, read_varint, spec_decode_message, spec_read_varint, ProtoField, ProtoFieldView,
    ProtoMessage, ProtoValue, ProtoValueView,
};
use crate::text::{
    chars_equal, chars_of, copy_chars, is_control, is_control_char, is_white_space, is_whitespace, join, join_chars,
    string_from_chars, string_from_utf8, trim, trim_range, utf8_chars,
};
use vstd::prelude::*;

verus! {

/// Nesting depth at which the walk stops.
pub const MAX_RECURSION_DEPTH: usize = 16;

/// The non-empty runs of `s` between white space, from the run that starts
/// at `start`, with `i` scanned so far.
pub open spec fn words_from(s: Seq<char>, start: int, i: int) -> Seq<Seq<char>>
    decreases s.len() - i,
{
    if i < start || start < 0 || i >= s.len() {
        crate::text::keep_nonempty(s.subrange(start, s.len() as int))
    } else if is_white_space(s[i]) {
        crate::text::keep_nonempty(s.subrange(start, i)) + words_from(s, i + 1, i + 1)
    } else {
        words_from(s, start, i + 1)
    }
}

/// The text a length-delimited field contributes: valid UTF-8 that, once
/// trimmed, is not empty and holds no control character other than white
/// space; its white-space runs collapse to single spaces.
pub open spec fn normalized_field(bytes: Seq<u8>) -> Option<Seq<char>> {
    match utf8_chars(bytes) {
        None => None,
        Some(cs) => {
            let text = trim(cs);
            if text.len() == 0 {
                None
            } else if exists|k: int| 0 <= k < text.len() && is_control_char(text[k]) && !is_white_space(text[k]) {
                None
            } else {
                let normalized = join(words_from(text, 0, 0), seq![' ']);
                if normalized.len() == 0 {
                    None
                } else {
                    Some(normalized)
                }
            }
        },
    }
}

/// `s` added to the collected strings unless already there.
pub open spec fn add_string(acc: Seq<Seq<char>>, s: Seq<char>) -> Seq<Seq<char>> {
    if acc.contains(s) {
        acc
    } else {
        acc.push(s)
    }
}

/// Collecting a length-delimited value at `depth`: its text if it is one,
/// else the strings of the message it decodes as.
pub open spec fn collect_value(acc: Seq<Seq<char>>, bytes: Seq<u8>, depth: nat) -> Seq<Seq<char>>
    decreases 17 - depth, 1int, 0int,
{
    match normalized_field(bytes) {
        Some(t) => add_string(acc, t),
        None => match spec_decode_message(bytes) {
            Ok(fs) => if depth <= 16 {
                collect_fields(acc, fs, depth, 0)
            } else {
                acc
            },
            Err(_) => acc,
        },
    }
}

/// Collecting the length-delimited fields of a message from the `i`-th on.
pub open spec fn collect_fields(acc: Seq<Seq<char>>, fs: Seq<ProtoFieldView>, depth: nat, i: int) -> Seq<Seq<char>>
    decreases 17 - depth, 0int, fs.len() - i,
{
    if depth >= 16 || i < 0 || i >= fs.len() {
        acc
    } else {
        let acc2 = match fs[i].value {
            ProtoValueView::LengthDelimited(b) => collect_value(acc, b, depth + 1),
            _ => acc,
        };
        collect_fields(acc2, fs, depth, i + 1)
    }
}

/// Walking a raw field stream from `c`: every length-delimited value is
/// collected; the walk stops at tag 0, a group wire type, or malformed bytes.
pub open spec fn collect_stream(acc: Seq<Seq<char>>, bytes: Seq<u8>, depth: nat, c: int) -> Seq<Seq<char>>
    decreases 17 - depth, 2int, bytes.len() - c,
{
    if depth >= 16 || c < 0 || c >= bytes.len() {
        acc
    } else {
        let (tr, c1) = spec_read_varint(bytes, c);
        match tr {
            Err(_) => acc,
            Ok(tag) => {
                proof {
                    lemma_read_varint_advances(bytes, c);
                    lemma_read_varint_advances(bytes, c1);
                }
                if tag == 0 {
                    acc
                } else {
                    let wt = tag & 7;
                    if wt == 0 {
                        let (vr, c2) = spec_read_varint(bytes, c1);
                        match vr {
                            Err(_) => acc,
                            Ok(_) => collect_stream(acc, bytes, depth, c2),
                        }
                    } else if wt == 1 {
                        if c1 + 8 > usize::MAX || c1 + 8 > bytes.len() {
                            acc
                        } else {
                            collect_stream(acc, bytes, depth, c1 + 8)
                        }
                    } else if wt == 2 {
                        let (lr, c2) = spec_read_varint(bytes, c1);
                        match lr {
                            Err(_) => acc,
                            Ok(len) => {
                                if len > usize::MAX || c2 + len > usize::MAX || c2 + len > bytes.len() {
                                    acc
                                } else {
                                    let acc2 = collect_value(acc, bytes.subrange(c2, c2 + len), depth + 1);
                                    collect_stream(acc2, bytes, depth, c2 + len)
                                }
                            },
                        }
                    } else if wt == 5 {
                        if c1 + 4 > usize::MAX || c1 + 4 > bytes.len() {
                            acc
                        } else {
                            collect_stream(acc, bytes, depth, c1 + 4)
                        }
                    } else {
                        acc
                    }
                }
            },
        }
    }
}

/// The strings of an archive: the field stream of its body after the
/// leading reference records.
pub open spec fn spec_utf8_fields(body: Seq<u8>) -> Seq<Seq<char>> {
    let start = leading_len(body, 0);
    if start > body.len() {
        seq![]
    } else {
        collect_stream(seq![], body.subrange(start, body.len() as int), 0, 0)
    }
}

/// Adding a string keeps the collected strings distinct.
proof fn lemma_add_distinct(acc: Seq<Seq<char>>, t: Seq<char>)
    requires
        acc.no_duplicates(),
    ensures
        add_string(acc, t).no_duplicates(),
{
    if !acc.contains(t) {
        let r = acc.push(t);
        assert forall|i: int, j: int| 0 <= i < r.len() && 0 <= j < r.len() && i != j implies r[i] != r[j] by {
            if j == acc.len() as int {
                assert(r[i] == acc[i]);
            } else if i == acc.len() as int {
                assert(r[j] == acc[j]);
            }
        }
    }
}

proof fn lemma_value_distinct(acc: Seq<Seq<char>>, bytes: Seq<u8>, depth: nat)
    requires
        acc.no_duplicates(),
    ensures
        collect_value(acc, bytes, depth).no_duplicates(),
    decreases 17 - depth, 1int, 0int,
{
    match normalized_field(bytes) {
        Some(t) => lemma_add_distinct(acc, t),
        None => match spec_decode_message(bytes) {
            Ok(fs) => if depth <= 16 {
                lemma_fields_distinct(acc, fs, depth, 0);
            },
            Err(_) => {},
        },
    }
}

proof fn lemma_fields_distinct(acc: Seq<Seq<char>>, fs: Seq<ProtoFieldView>, depth: nat, i: int)
    requires
        acc.no_duplicates(),
    ensures
        collect_fields(acc, fs, depth, i).no_duplicates(),
    decreases 17 - depth, 0int, fs.len() - i,
{
    if !(depth >= 16 || i < 0 || i >= fs.len()) {
        let acc2 = match fs[i].value {
            ProtoValueView::LengthDelimited(b) => collect_value(acc, b, depth + 1),
            _ => acc,
        };
        if let ProtoValueView::LengthDelimited(b) = fs[i].value {
            lemma_value_distinct(acc, b, depth + 1);
        }
        lemma_fields_distinct(acc2, fs, depth, i + 1);
    }
}

proof fn lemma_stream_distinct(acc: Seq<Seq<char>>, bytes: Seq<u8>, depth: nat, c: int)
    requires
        acc.no_duplicates(),
    ensures
        collect_stream(acc, bytes, depth, c).no_duplicates(),
    decreases 17 - depth, 2int, bytes.len() - c,
{
    if !(depth >= 16 || c < 0 || c >= bytes.len()) {
        let (tr, c1) = spec_read_varint(bytes, c);
        lemma_read_varint_advances(bytes, c);
        lemma_read_varint_advances(bytes, c1);
        if let Ok(tag) = tr {
            if tag != 0 {
                let wt = tag & 7;
                if wt == 0 {
                    let (vr, c2) = spec_read_varint(bytes, c1);
                    if vr is Ok {
                        lemma_stream_distinct(acc, bytes, depth, c2);
                    }
                } else if wt == 1 {
                    if !(c1 + 8 > usize::MAX || c1 + 8 > bytes.len()) {
                        lemma_stream_distinct(acc, bytes, depth, c1 + 8);
                    }
                } else if wt == 2 {
                    let (lr, c2) = spec_read_varint(bytes, c1);
                    if let Ok(len) = lr {
                        if !(len > usize::MAX || c2 + len > usize::MAX || c2 + len > bytes.len()) {
                            let acc2 = collect_value(acc, bytes.subrange(c2, c2 + len), depth + 1);
                            lemma_value_distinct(acc, bytes.subrange(c2, c2 + len), depth + 1);
                            lemma_stream_distinct(acc2, bytes, depth, c2 + len);
                        }
                    }
                } else if wt == 5 {
                    if !(c1 + 4 > usize::MAX || c1 + 4 > bytes.len()) {
                        lemma_stream_distinct(acc, bytes, depth, c1 + 4);
                    }
                }
            }
        }
    }
}

/// Law: the text fields found in an archive body are distinct: each string is
/// collected once, at its first occurrence.
pub proof fn lemma_utf8_fields_distinct(body: Seq<u8>)
    ensures
        spec_utf8_fields(body).no_duplicates(),
{
    let start = leading_len(body, 0);
    if start <= body.len() {
        lemma_stream_distinct(seq![], body.subrange(start, body.len() as int), 0, 0);
    }
}

/// Collects distinct normalized UTF-8 string fields, in the order found.
pub struct TextCollector {
    seen: Vec<Vec<char>>,
    strings: Vec<String>,
}

impl View for TextCollector {
    type V = Seq<Seq<char>>;

    closed spec fn view(&self) -> Seq<Seq<char>> {
        self.strings@.map_values(|s: String| s@)
    }
}

impl TextCollector {
    /// The remembered characters are those of the collected strings.
    #[verifier::type_invariant]
    closed spec fn wf(&self) -> bool {
        self.seen@.map_values(|v: Vec<char>| v@) == self.strings@.map_values(|s: String| s@)
    }

    /// A collector with nothing collected.
    pub fn new() -> (r: TextCollector)
        ensures
            r@ == Seq::<Seq<char>>::empty(),
    {
        let seen: Vec<Vec<char>> = Vec::new();
        let strings: Vec<String> = Vec::new();
        assert(seen@.map_values(|v: Vec<char>| v@) =~= strings@.map_values(|s: String| s@));
        let c = TextCollector { seen, strings };
        assert(c@ =~= Seq::<Seq<char>>::empty());
        c
    }

    /// The collected strings, in the order found.
    pub fn into_strings(self) -> (r: Vec<String>)
        ensures
            r@.map_values(|s: String| s@) == self@,
    {
        self.strings
    }

    fn contains(&self, text: &[char]) -> (r: bool)
        ensures
            r == self@.contains(text@),
    {
        proof {
            use_type_invariant(self);
        }
        let ghost all = self@;
        let mut i: usize = 0;
        while i < self.seen.len()
            invariant
                i <= self.seen@.len(),
                all == self@,
                self.wf(),
                self.seen@.len() == all.len(),
                forall|j: int| 0 <= j < i ==> all[j] != text@,
            decreases self.seen.len() - i,
        {
            assert(self.seen@.map_values(|v: Vec<char>| v@)[i as int] == self.seen@[i as int]@);
            if chars_equal(self.seen[i].as_slice(), text) {
                assert(all[i as int] == text@);
                return true;
            }
            i = i + 1;
        }
        false
    }

    /// Collects `bytes` when they are a text field; says whether they were.
    pub fn push_bytes(&mut self, bytes: &[u8]) -> (r: bool)
        ensures
            r == normalized_field(bytes@) is Some,
            final(self)@ == match normalized_field(bytes@) {
                Some(t) => add_string(old(self)@, t),
                None => old(self)@,
            },
    {
        let text = match normalize_utf8_field(bytes) {
            Some(t) => t,
            None => return false,
        };
        if !self.contains(text.as_slice()) {
            let ghost before = self@;
            let s = string_from_chars(text.as_slice());
            let mut taken = TextCollector::new();
            std::mem::swap(&mut taken, self);
            proof {
                use_type_invariant(&taken);
            }
            let ghost t = text@;
            assert(s@ == t);
            let TextCollector { mut seen, mut strings } = taken;
            let ghost a = seen@.map_values(|v: Vec<char>| v@);
            assert(a == strings@.map_values(|s: String| s@));
            assert(a == before);
            strings.push(s);
            seen.push(text);
            assert(seen@.map_values(|v: Vec<char>| v@) =~= a.push(t));
            assert(strings@.map_values(|s: String| s@) =~= a.push(t));
            *self = TextCollector { seen, strings };
            assert(self@ =~= before.push(text@));
        }
        true
    }

    /// Walks a raw protobuf field stream, collecting every text field found
    /// in length-delimited values and in the messages they hold.
    pub fn collect_field_stream(&mut self, bytes: &[u8], depth: usize)
        ensures
            final(self)@ == collect_stream(old(self)@, bytes@, depth as nat, 0),
        decreases 17 - depth, 2int, bytes@.len(),
    {
        if depth >= MAX_RECURSION_DEPTH {
            return;
        }
        let mut cursor: usize = 0;
        let ghost start = self@;
        while cursor < bytes.len()
            invariant_except_break
                cursor <= bytes@.len(),
                collect_stream(start, bytes@, depth as nat, 0) == collect_stream(self@, bytes@, depth as nat, cursor as int),
            invariant
                depth < 16,
                start == old(self)@,
            ensures
                collect_stream(start, bytes@, depth as nat, 0) == self@,
            decreases bytes@.len() - cursor,
        {
            let ghost c0 = cursor as int;
            proof {
                lemma_read_varint_advances(bytes@, c0);
            }
            let tag = match read_varint(bytes, &mut cursor) {
                Ok(t) => t,
                Err(_) => break,
            };
            proof {
                lemma_read_varint_advances(bytes@, cursor as int);
            }
            if tag == 0 {
                break;
            }
            let wire_type = tag & 0x07;
            if wire_type == 0 {
                if read_varint(bytes, &mut cursor).is_err() {
                    break;
                }
            } else if wire_type == 1 {
                let next = match cursor.checked_add(8) {
                    Some(n) => n,
                    None => break,
                };
                if next > bytes.len() {
                    break;
                }
                cursor = next;
            } else if wire_type == 2 {
                let len64 = match read_varint(bytes, &mut cursor) {
                    Ok(l) => l,
                    Err(_) => break,
                };
                if len64 > usize::MAX as u64 {
                    break;
                }
                let end = match cursor.checked_add(len64 as usize) {
                    Some(e) => e,
                    None => break,
                };
                if end > bytes.len() {
                    break;
                }
                self.collect_length_delimited(&bytes[cursor..end], depth + 1);
                cursor = end;
            } else if wire_type == 5 {
                let next = match cursor.checked_add(4) {
                    Some(n) => n,
                    None => break,
                };
                if next > bytes.len() {
                    break;
                }
                cursor = next;
            } else {
                break;
            }
        }
    }

    fn collect_length_delimited(&mut self, bytes: &[u8], depth: usize)
        requires
            depth <= 16,
        ensures
            final(self)@ == collect_value(old(self)@, bytes@, depth as nat),
        decreases 17 - depth, 1int, 0int,
    {
        if self.push_bytes(bytes) {
            return;
        }
        let message = match ProtoMessage::decode(bytes) {
            Ok(m) => m,
            Err(_) => return,
        };
        self.collect_message(&message, depth);
    }

    fn collect_message(&mut self, message: &ProtoMessage, depth: usize)
        requires
            depth <= 16,
        ensures
            final(self)@ == collect_fields(old(self)@, message@, depth as nat, 0),
        decreases 17 - depth, 0int, message@.len(),
    {
        if depth >= MAX_RECURSION_DEPTH {
            return;
        }
        let fields = message.fields();
        let ghost fs = message@;
        let mut i: usize = 0;
        let ghost start = self@;
        while i < fields.len()
            invariant
                i <= fields@.len(),
                fs == message@,
                fields@.map_values(|f: ProtoField| f@) == fs,
                depth < 16,
                start == old(self)@,
                collect_fields(start, fs, depth as nat, 0) == collect_fields(self@, fs, depth as nat, i as int),
            decreases fields.len() - i,
        {
            assert(fs[i as int] == fields@[i as int]@);
            if let ProtoValue::LengthDelimited(b) = &fields[i].value {
                self.collect_length_delimited(b.as_slice(), depth + 1);
            }
            i = i + 1;
        }
    }
}

fn words(s: &[char]) -> (r: Vec<Vec<char>>)
    ensures
        r@.map_values(|v: Vec<char>| v@) == words_from(s@, 0, 0),
{
    let mut out: Vec<Vec<char>> = Vec::new();
    let mut start: usize = 0;
    let mut i: usize = 0;
    let n = s.len();
    assert(out@.map_values(|v: Vec<char>| v@) =~= seq![]);
    while i < n
        invariant
            start <= i <= n,
            n == s@.len(),
            words_from(s@, 0, 0) == out@.map_values(|v: Vec<char>| v@) + words_from(s@, start as int, i as int),
        decreases n - i,
    {
        if is_whitespace(s[i]) {
            let ghost before = out@.map_values(|v: Vec<char>| v@);
            if i > start {
                out.push(copy_chars(s, start, i));
            }
            assert(out@.map_values(|v: Vec<char>| v@) =~= before + crate::text::keep_nonempty(
                s@.subrange(start as int, i as int),
            ));
            start = i + 1;
        }
        i = i + 1;
    }
    let ghost before = out@.map_values(|v: Vec<char>| v@);
    if n > start {
        out.push(copy_chars(s, start, n));
    }
    assert(out@.map_values(|v: Vec<char>| v@) =~= before + crate::text::keep_nonempty(s@.subrange(start as int, n as int)));
    out
}

/// Normalizes a length-delimited field into text (see [`normalized_field`]).
pub fn normalize_utf8_field(bytes: &[u8]) -> (r: Option<Vec<char>>)
    ensures
        match normalized_field(bytes@) {
            Some(t) => r matches Some(v) && v@ == t,
            None => r is None,
        },
{
    let s = match string_from_utf8(crate::protobuf::copy_bytes(bytes)) {
        Some(s) => s,
        None => return None,
    };
    let cs = chars_of(s.as_str());
    let (a, b) = trim_range(cs.as_slice(), 0, cs.len());
    assert(cs@.subrange(0, cs@.len() as int) =~= cs@);
    let text = copy_chars(cs.as_slice(), a, b);
    if text.len() == 0 {
        return None;
    }
    let ghost t = text@;
    assert(utf8_chars(bytes@) == Some(cs@));
    assert(t == trim(cs@));
    let mut k: usize = 0;
    while k < text.len()
        invariant
            k <= text@.len(),
            t == text@,
            utf8_chars(bytes@) == Some(cs@),
            t == trim(cs@),
            forall|j: int| 0 <= j < k ==> !(is_control_char(text@[j]) && !is_white_space(text@[j])),
        decreases text.len() - k,
    {
        if is_control(text[k]) && !is_whitespace(text[k]) {
            assert(is_control_char(text@[k as int]) && !is_white_space(text@[k as int]));
            return None;
        }
        k = k + 1;
    }
    let ws = words(text.as_slice());
    let normalized = join_chars(&ws, &[' ']);
    assert([' ']@ =~= seq![' ']);
    if normalized.len() == 0 {
        None
    } else {
        Some(normalized)
    }
}

/// The distinct text fields of an archive's body, after its leading
/// reference records, in the order found.
pub fn extract_utf8_fields(archive: &IwaArchive) -> (r: Vec<String>)
    ensures
        r@.map_values(|s: String| s@) == spec_utf8_fields(archive@.body),
        r@.map_values(|s: String| s@).no_duplicates(),
{
    proof {
        lemma_utf8_fields_distinct(archive@.body);
    }
    let mut collector = TextCollector::new();
    let body = archive.body();
    let start = archive.leading_object_references_len();
    if start > body.len() {
        assert(collector@ =~= seq![]);
        return collector.into_strings();
    }
    collector.collect_field_stream(&body[start..body.len()], 0);
    collector.into_strings()
}

} // verus!
