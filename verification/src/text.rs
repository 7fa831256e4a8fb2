//! Conversions between bytes, characters and strings.
use vstd::prelude::*;
use vstd::utf8::{char_is_scalar, decode_utf8, encode_utf8, valid_utf8};

verus! {

/// The characters that `String::from_utf8_lossy` produces for `bytes`: their
/// UTF-8 decoding, with each invalid sequence replaced by U+FFFD.
pub uninterp spec fn lossy_chars(bytes: Seq<u8>) -> Seq<char>;

/// Calls `String::from_utf8_lossy`: the result is named [`lossy_chars`] of
/// the bytes, and, as its documentation says, is the plain decoding when the
/// bytes are valid UTF-8. Which replacement characters appear for invalid
/// input is not stated here.
#[verifier::external_body]
pub fn string_from_utf8_lossy(bytes: &[u8]) -> (s: String)
    ensures
        s@ == lossy_chars(bytes@),
        valid_utf8(bytes@) ==> s@ == decode_utf8(bytes@),
{
    String::from_utf8_lossy(bytes).into_owned()
}

/// The text `String::from_utf8_lossy` gives for `bytes`: their plain UTF-8
/// decoding when they are valid UTF-8, else the lossy decoding.
pub open spec fn lossy_text(bytes: Seq<u8>) -> Seq<char> {
    if valid_utf8(bytes) {
        decode_utf8(bytes)
    } else {
        lossy_chars(bytes)
    }
}

/// Calls `String::from_utf8`: it succeeds exactly on valid UTF-8, and the
/// string then holds the decoded characters.
#[verifier::external_body]
pub fn string_from_utf8(bytes: Vec<u8>) -> (r: Option<String>)
    ensures
        r is Some <==> valid_utf8(bytes@),
        r matches Some(s) ==> s@ == decode_utf8(bytes@),
{
    String::from_utf8(bytes).ok()
}

/// Collects the characters of `s` (`str::chars`) into a vector, in order.
#[verifier::external_body]
pub fn chars_of(s: &str) -> (v: Vec<char>)
    ensures
        v@ == s@,
{
    s.chars().collect()
}

/// Collects characters into a `String` (`FromIterator<&char>`), in order.
#[verifier::external_body]
pub fn string_from_chars(cs: &[char]) -> (s: String)
    ensures
        s@ == cs@,
{
    cs.iter().collect()
}


/// The characters that `str::to_lowercase` produces for `s`: each character
/// mapped to its Unicode lowercase form, which may hold several characters.
pub uninterp spec fn lowercase_chars(s: Seq<char>) -> Seq<char>;

/// Calls `str::to_lowercase`; its result is named [`lowercase_chars`] of
/// the characters of `s`, and the lower case form of the empty string is
/// empty. The Unicode case mapping it applies is not written out here.
#[verifier::external_body]
pub fn to_lowercase(s: &str) -> (r: String)
    ensures
        r@ == lowercase_chars(s@),
        s@.len() == 0 ==> r@.len() == 0,
{
    s.to_lowercase()
}

/// `p` is a prefix of `s`.
pub open spec fn has_prefix(s: Seq<char>, p: Seq<char>) -> bool {
    p.len() <= s.len() && s.subrange(0, p.len() as int) == p
}

/// `p` is a suffix of `s`.
pub open spec fn has_suffix(s: Seq<char>, p: Seq<char>) -> bool {
    p.len() <= s.len() && s.subrange(s.len() - p.len(), s.len() as int) == p
}

/// Whether the characters `s` begin with `p`.
pub fn chars_start_with(s: &[char], p: &[char]) -> (r: bool)
    ensures
        r == has_prefix(s@, p@),
{
    if p.len() > s.len() {
        return false;
    }
    let mut i: usize = 0;
    while i < p.len()
        invariant
            i <= p@.len(),
            p@.len() <= s@.len(),
            forall|j: int| 0 <= j < i ==> s@[j] == p@[j],
        decreases p.len() - i,
    {
        if s[i] != p[i] {
            assert(s@.subrange(0, p@.len() as int)[i as int] != p@[i as int]);
            return false;
        }
        i = i + 1;
    }
    assert(s@.subrange(0, p@.len() as int) =~= p@);
    true
}

/// Whether the characters `s` end with `p`.
pub fn chars_end_with(s: &[char], p: &[char]) -> (r: bool)
    ensures
        r == has_suffix(s@, p@),
{
    if p.len() > s.len() {
        return false;
    }
    let base = s.len() - p.len();
    let mut i: usize = 0;
    while i < p.len()
        invariant
            i <= p@.len(),
            p@.len() <= s@.len(),
            base == s@.len() - p@.len(),
            s@.len() == s.len(),
            forall|j: int| 0 <= j < i ==> s@[base + j] == p@[j],
        decreases p.len() - i,
    {
        let k = base + i;
        if s[k] != p[i] {
            assert(s@.subrange(base as int, s@.len() as int)[i as int] != p@[i as int]);
            return false;
        }
        i = i + 1;
    }
    assert(s@.subrange(base as int, s@.len() as int) =~= p@);
    true
}

/// `p` occurs in `s` at some position.
pub open spec fn has_infix(s: Seq<char>, p: Seq<char>) -> bool {
    exists|i: int| 0 <= i && i + p.len() <= s.len() && #[trigger] s.subrange(i, i + p.len()) == p
}

/// Whether `p` occurs in the characters `s`.
pub fn chars_contain(s: &[char], p: &[char]) -> (r: bool)
    ensures
        r == has_infix(s@, p@),
{
    if p.len() > s.len() {
        return false;
    }
    if p.len() == 0 {
        assert(s@.subrange(0, 0 + p@.len() as int) =~= p@);
        return true;
    }
    let count = s.len() - p.len() + 1;
    let mut i: usize = 0;
    while i < count
        invariant
            count == s@.len() - p@.len() + 1,
            s@.len() == s.len(),
            p@.len() <= s@.len(),
            forall|j: int| 0 <= j < i ==> #[trigger] s@.subrange(j, j + p@.len()) != p@,
        decreases count - i,
    {
        let mut k: usize = 0;
        let mut same = true;
        while k < p.len()
            invariant
                k <= p@.len(),
                i < count,
                count == s@.len() - p@.len() + 1,
                s@.len() == s.len(),
                same <==> forall|t: int| 0 <= t < k ==> s@[i + t] == p@[t],
            decreases p.len() - k,
        {
            if s[i + k] != p[k] {
                same = false;
            }
            k = k + 1;
        }
        if same {
            assert(s@.subrange(i as int, i + p@.len()) =~= p@);
            return true;
        } else {
            proof {
                let t = choose|t: int| 0 <= t < p@.len() && s@[i + t] != p@[t];
                assert(s@.subrange(i as int, i + p@.len())[t] != p@[t]);
            }
        }
        i = i + 1;
    }
    false
}

/// Whether two character sequences are equal.
pub fn chars_equal(s: &[char], p: &[char]) -> (r: bool)
    ensures
        r == (s@ == p@),
{
    if s.len() != p.len() {
        return false;
    }
    let r = chars_start_with(s, p);
    assert(s@.subrange(0, p@.len() as int) =~= s@);
    r
}


/// The characters UTF-16 `units` decode to: a unit outside the surrogate
/// range is its own character, a high surrogate (U+D800–U+DBFF) followed by
/// a low one (U+DC00–U+DFFF) forms the character `0x10000` plus their ten-bit
/// halves; `None` when a surrogate is unpaired.
pub open spec fn utf16_chars(units: Seq<u16>) -> Option<Seq<char>>
    decreases units.len(),
{
    if units.len() == 0 {
        Some(seq![])
    } else {
        let u = units[0];
        if u < 0xD800 || u > 0xDFFF {
            match utf16_chars(units.drop_first()) {
                Some(rest) => Some(seq![u as char] + rest),
                None => None,
            }
        } else if u <= 0xDBFF && units.len() >= 2 && 0xDC00 <= units[1] && units[1] <= 0xDFFF {
            let c = (0x10000 + (u - 0xD800) * 0x400 + (units[1] - 0xDC00)) as char;
            match utf16_chars(units.subrange(2, units.len() as int)) {
                Some(rest) => Some(seq![c] + rest),
                None => None,
            }
        } else {
            None
        }
    }
}

/// Calls `String::from_utf16`, which decodes `units` as UTF-16 as
/// [`utf16_chars`] states, failing exactly on an unpaired surrogate.
#[verifier::external_body]
pub(crate) fn string_from_utf16(units: &[u16]) -> (r: Option<String>)
    ensures
        match r {
            Some(s) => utf16_chars(units@) == Some(s@),
            None => utf16_chars(units@) is None,
        },
{
    String::from_utf16(units).ok()
}


// ───────────────────────────── character classes ─────────────────────────────

/// A character of the Unicode general category `Cc` (`char::is_control`):
/// U+0000–U+001F and U+007F–U+009F.
pub open spec fn is_control_char(c: char) -> bool {
    (c as u32) <= 0x1f || (0x7f <= (c as u32) && (c as u32) <= 0x9f)
}

/// A character with the Unicode `White_Space` property (`char::is_whitespace`).
pub open spec fn is_white_space(c: char) -> bool {
    ||| c == ' '
    ||| ('\t' <= c && c <= '\r')
    ||| c == '\u{85}'
    ||| c == '\u{a0}'
    ||| c == '\u{1680}'
    ||| ('\u{2000}' <= c && c <= '\u{200a}')
    ||| c == '\u{2028}'
    ||| c == '\u{2029}'
    ||| c == '\u{202f}'
    ||| c == '\u{205f}'
    ||| c == '\u{3000}'
}

/// Whether `c` is a control character.
pub fn is_control(c: char) -> (r: bool)
    ensures
        r == is_control_char(c),
{
    let v = c as u32;
    v <= 0x1f || (0x7f <= v && v <= 0x9f)
}

/// Whether `c` is white space.
pub fn is_whitespace(c: char) -> (r: bool)
    ensures
        r == is_white_space(c),
{
    c == ' ' || ('\t' <= c && c <= '\r') || c == '\u{85}' || c == '\u{a0}' || c == '\u{1680}' || ('\u{2000}'
        <= c && c <= '\u{200a}') || c == '\u{2028}' || c == '\u{2029}' || c == '\u{202f}' || c == '\u{205f}'
        || c == '\u{3000}'
}

// ───────────────────────────── trimming and splitting ─────────────────────────────

/// The first position at or after `i` that does not hold white space.
pub open spec fn first_non_ws(p: Seq<char>, i: int) -> int
    decreases p.len() - i,
{
    if i < 0 || i >= p.len() {
        p.len() as int
    } else if is_white_space(p[i]) {
        first_non_ws(p, i + 1)
    } else {
        i
    }
}

/// The end of `p[..j]` once trailing white space is dropped.
pub open spec fn last_non_ws_end(p: Seq<char>, j: int) -> int
    decreases j,
{
    if j <= 0 || j > p.len() {
        0
    } else if is_white_space(p[j - 1]) {
        last_non_ws_end(p, j - 1)
    } else {
        j
    }
}

/// `p` without leading and trailing white space (`str::trim`).
pub open spec fn trim(p: Seq<char>) -> Seq<char> {
    let a = first_non_ws(p, 0);
    let b = last_non_ws_end(p, p.len() as int);
    if b <= a {
        seq![]
    } else {
        p.subrange(a, b)
    }
}

/// A one-element list holding `p`, or nothing when `p` is empty.
pub open spec fn keep_nonempty(p: Seq<char>) -> Seq<Seq<char>> {
    if p.len() > 0 {
        seq![p]
    } else {
        seq![]
    }
}

/// The pieces of `s` between control characters, from the piece that starts
/// at `start` and with `i` scanned so far, each trimmed, empty ones dropped.
pub open spec fn fragments_from(s: Seq<char>, start: int, i: int) -> Seq<Seq<char>>
    decreases s.len() - i,
{
    if i < start || start < 0 || i >= s.len() {
        keep_nonempty(trim(s.subrange(start, s.len() as int)))
    } else if is_control_char(s[i]) {
        keep_nonempty(trim(s.subrange(start, i))) + fragments_from(s, i + 1, i + 1)
    } else {
        fragments_from(s, start, i + 1)
    }
}

/// The trimmed, non-empty pieces of `s` between control characters.
pub open spec fn control_fragments(s: Seq<char>) -> Seq<Seq<char>> {
    fragments_from(s, 0, 0)
}

/// The pieces of `fs` joined with `sep` between consecutive pieces.
pub open spec fn join(fs: Seq<Seq<char>>, sep: Seq<char>) -> Seq<char>
    decreases fs.len(),
{
    if fs.len() == 0 {
        seq![]
    } else if fs.len() == 1 {
        fs[0]
    } else {
        join(fs.drop_last(), sep) + sep + fs.last()
    }
}

/// Past the last control character, the pieces of `s` are the one trimmed
/// piece from `start` to the end.
pub proof fn lemma_fragments_tail(s: Seq<char>, start: int, i: int)
    requires
        0 <= start <= i <= s.len(),
        forall|j: int| i <= j < s.len() ==> !is_control_char(#[trigger] s[j]),
    ensures
        fragments_from(s, start, i) == keep_nonempty(trim(s.subrange(start, s.len() as int))),
    decreases s.len() - i,
{
    if i < s.len() {
        lemma_fragments_tail(s, start, i + 1);
    }
}

/// Cutting `s` at a control character `s[k]`: the pieces found before `k`
/// are those of `s[..k]`, and the walk starts afresh after it.
pub proof fn lemma_fragments_split(s: Seq<char>, k: int, start: int, i: int)
    requires
        0 <= start <= i <= k < s.len(),
        is_control_char(s[k]),
    ensures
        fragments_from(s, start, i) == fragments_from(s.subrange(0, k), start, i) + fragments_from(s, k + 1, k + 1),
    decreases k - i,
{
    let a = s.subrange(0, k);
    assert(a.subrange(start, i) =~= s.subrange(start, i));
    if i == k {
        assert(a.subrange(start, a.len() as int) =~= s.subrange(start, k));
    } else {
        assert(a[i] == s[i]);
        if is_control_char(s[i]) {
            lemma_fragments_split(s, k, i + 1, i + 1);
            let x = keep_nonempty(trim(s.subrange(start, i)));
            assert(x + (fragments_from(a, i + 1, i + 1) + fragments_from(s, k + 1, k + 1)) =~= (x + fragments_from(
                a,
                i + 1,
                i + 1,
            )) + fragments_from(s, k + 1, k + 1));
        } else {
            lemma_fragments_split(s, k, start, i + 1);
        }
    }
}

/// A piece that is non-empty, trimmed and free of control characters.
pub open spec fn clean_piece(t: Seq<char>) -> bool {
    &&& t.len() > 0
    &&& trim(t) == t
    &&& forall|i: int| 0 <= i < t.len() ==> !is_control_char(#[trigger] t[i])
}

/// Clean pieces joined with newlines split back into the same pieces.
pub proof fn lemma_joined_lines_fragments(fs: Seq<Seq<char>>)
    requires
        forall|i: int| 0 <= i < fs.len() ==> clean_piece(#[trigger] fs[i]),
    ensures
        control_fragments(join(fs, seq!['\n'])) == fs,
    decreases fs.len(),
{
    let s = join(fs, seq!['\n']);
    if fs.len() == 0 {
        assert(trim(Seq::<char>::empty()) =~= Seq::<char>::empty());
        assert(s.subrange(0, 0) =~= Seq::<char>::empty());
        assert(control_fragments(s) =~= fs);
    } else if fs.len() == 1 {
        assert(clean_piece(fs[0]));
        lemma_fragments_tail(s, 0, 0);
        assert(s.subrange(0, s.len() as int) =~= s);
        assert(control_fragments(s) =~= fs);
    } else {
        let init = fs.drop_last();
        assert forall|i: int| 0 <= i < init.len() implies clean_piece(#[trigger] init[i]) by {
            assert(init[i] == fs[i]);
        }
        lemma_joined_lines_fragments(init);
        let a = join(init, seq!['\n']);
        let k = a.len() as int;
        let last = fs.last();
        assert(clean_piece(fs[fs.len() - 1]));
        assert(s == a + seq!['\n'] + last);
        assert(s[k] == '\n');
        assert(s.subrange(0, k) =~= a);
        lemma_fragments_split(s, k, 0, 0);
        assert forall|j: int| k + 1 <= j < s.len() implies !is_control_char(#[trigger] s[j]) by {
            assert(s[j] == last[j - k - 1]);
        }
        lemma_fragments_tail(s, k + 1, k + 1);
        assert(s.subrange(k + 1, s.len() as int) =~= last);
        assert(init + seq![last] =~= fs);
    }
}

proof fn lemma_first_non_ws(p: Seq<char>, i: int)
    requires
        0 <= i <= p.len(),
    ensures
        i <= first_non_ws(p, i) <= p.len(),
        first_non_ws(p, i) < p.len() ==> !is_white_space(p[first_non_ws(p, i)]),
        forall|k: int| i <= k < first_non_ws(p, i) ==> is_white_space(p[k]),
    decreases p.len() - i,
{
    if i < p.len() && is_white_space(p[i]) {
        lemma_first_non_ws(p, i + 1);
    }
}

proof fn lemma_last_non_ws_end(p: Seq<char>, j: int)
    requires
        0 <= j <= p.len(),
    ensures
        0 <= last_non_ws_end(p, j) <= j,
        last_non_ws_end(p, j) > 0 ==> !is_white_space(p[last_non_ws_end(p, j) - 1]),
        forall|k: int| last_non_ws_end(p, j) <= k < j ==> is_white_space(p[k]),
    decreases j,
{
    if j > 0 && is_white_space(p[j - 1]) {
        lemma_last_non_ws_end(p, j - 1);
    }
}

/// The range of `s[lo..hi]` left once white space is trimmed from both ends.
pub fn trim_range(s: &[char], lo: usize, hi: usize) -> (r: (usize, usize))
    requires
        lo <= hi <= s@.len(),
    ensures
        lo <= r.0 <= r.1 <= hi,
        s@.subrange(r.0 as int, r.1 as int) == trim(s@.subrange(lo as int, hi as int)),
{
    let ghost p = s@.subrange(lo as int, hi as int);
    let mut a = lo;
    while a < hi && is_whitespace(s[a])
        invariant
            lo <= a <= hi,
            hi <= s@.len(),
            p == s@.subrange(lo as int, hi as int),
            first_non_ws(p, 0) == first_non_ws(p, a - lo),
        decreases hi - a,
    {
        a = a + 1;
    }
    let mut b = hi;
    while b > a && is_whitespace(s[b - 1])
        invariant
            a <= b <= hi,
            hi <= s@.len(),
            p == s@.subrange(lo as int, hi as int),
            last_non_ws_end(p, p.len() as int) == last_non_ws_end(p, b - lo),
        decreases b,
    {
        b = b - 1;
    }
    proof {
        lemma_first_non_ws(p, 0);
        lemma_last_non_ws_end(p, p.len() as int);
        lemma_first_non_ws(p, a - lo);
        if b > a {
            lemma_last_non_ws_end(p, b - lo);
            assert(first_non_ws(p, 0) == a - lo);
            assert(last_non_ws_end(p, p.len() as int) == b - lo);
            assert(s@.subrange(a as int, b as int) =~= p.subrange(a - lo, b - lo));
        } else {
            if a < hi {
                lemma_last_non_ws_end(p, b - lo);
            }
            assert(last_non_ws_end(p, p.len() as int) <= first_non_ws(p, 0));
            assert(s@.subrange(a as int, a as int) =~= seq![]);
        }
    }
    if b < a {
        (a, a)
    } else {
        (a, b)
    }
}

/// The trimmed, non-empty pieces of `s` between control characters.
pub fn split_control_fragments(s: &[char]) -> (r: Vec<Vec<char>>)
    ensures
        r@.map_values(|v: Vec<char>| v@) == control_fragments(s@),
{
    let mut out: Vec<Vec<char>> = Vec::new();
    let mut start: usize = 0;
    let mut i: usize = 0;
    let n = s.len();
    assert(out@.map_values(|v: Vec<char>| v@) =~= seq![]);
    while i < n
        invariant
            start <= i <= n,
            n == s@.len(),
            control_fragments(s@) == out@.map_values(|v: Vec<char>| v@) + fragments_from(
                s@,
                start as int,
                i as int,
            ),
        decreases n - i,
    {
        if is_control(s[i]) {
            let (a, b) = trim_range(s, start, i);
            let ghost before = out@.map_values(|v: Vec<char>| v@);
            if b > a {
                out.push(copy_chars(s, a, b));
            }
            proof {
                assert(out@.map_values(|v: Vec<char>| v@) =~= before + keep_nonempty(
                    trim(s@.subrange(start as int, i as int)),
                ));
            }
            start = i + 1;
        }
        i = i + 1;
    }
    let (a, b) = trim_range(s, start, n);
    let ghost before = out@.map_values(|v: Vec<char>| v@);
    if b > a {
        out.push(copy_chars(s, a, b));
    }
    proof {
        assert(out@.map_values(|v: Vec<char>| v@) =~= before + keep_nonempty(
            trim(s@.subrange(start as int, n as int)),
        ));
    }
    out
}

/// A copy of `s[a..b]`.
pub fn copy_chars(s: &[char], a: usize, b: usize) -> (r: Vec<char>)
    requires
        a <= b <= s@.len(),
    ensures
        r@ == s@.subrange(a as int, b as int),
{
    let mut out: Vec<char> = Vec::new();
    let mut k = a;
    while k < b
        invariant
            a <= k <= b,
            b <= s@.len(),
            out@ == s@.subrange(a as int, k as int),
        decreases b - k,
    {
        out.push(s[k]);
        k = k + 1;
        assert(out@ =~= s@.subrange(a as int, k as int));
    }
    out
}

/// The pieces joined with `sep` between consecutive pieces.
pub fn join_chars(fs: &Vec<Vec<char>>, sep: &[char]) -> (r: Vec<char>)
    ensures
        r@ == join(fs@.map_values(|v: Vec<char>| v@), sep@),
{
    let ghost all = fs@.map_values(|v: Vec<char>| v@);
    let mut out: Vec<char> = Vec::new();
    let mut i: usize = 0;
    while i < fs.len()
        invariant
            i <= fs@.len(),
            all == fs@.map_values(|v: Vec<char>| v@),
            out@ == join(all.take(i as int), sep@),
        decreases fs.len() - i,
    {
        let ghost before = out@;
        if i > 0 {
            let mut k: usize = 0;
            while k < sep.len()
                invariant
                    k <= sep@.len(),
                    out@ == before + sep@.subrange(0, k as int),
                decreases sep.len() - k,
            {
                out.push(sep[k]);
                k = k + 1;
                assert(out@ =~= before + sep@.subrange(0, k as int));
            }
            assert(sep@.subrange(0, sep@.len() as int) =~= sep@);
        }
        let ghost mid = out@;
        let piece = &fs[i];
        let mut k: usize = 0;
        while k < piece.len()
            invariant
                k <= piece@.len(),
                out@ == mid + piece@.subrange(0, k as int),
            decreases piece.len() - k,
        {
            out.push(piece[k]);
            k = k + 1;
            assert(out@ =~= mid + piece@.subrange(0, k as int));
        }
        proof {
            assert(piece@.subrange(0, piece@.len() as int) =~= piece@);
            let t = all.take(i + 1);
            assert(t.drop_last() =~= all.take(i as int));
            assert(t.last() == piece@);
            if i == 0 {
                assert(out@ =~= piece@);
            } else {
                assert(out@ =~= join(all.take(i as int), sep@) + sep@ + piece@);
            }
        }
        i = i + 1;
    }
    assert(all.take(i as int) =~= all);
    out
}


/// The characters that `bytes` encode, when they are valid UTF-8.
pub open spec fn utf8_chars(bytes: Seq<u8>) -> Option<Seq<char>> {
    if valid_utf8(bytes) {
        Some(decode_utf8(bytes))
    } else {
        None
    }
}

/// The characters of optional bytes, when present and valid UTF-8.
pub open spec fn opt_utf8_chars(bytes: Option<Seq<u8>>) -> Option<Seq<char>> {
    match bytes {
        Some(b) => utf8_chars(b),
        None => None,
    }
}

/// Decodes optional bytes as UTF-8 text.
pub fn opt_utf8_string(bytes: Option<Vec<u8>>) -> (r: Option<String>)
    ensures
        match opt_utf8_chars(match bytes {
            Some(b) => Some(b@),
            None => None,
        }) {
            Some(cs) => r matches Some(s) && s@ == cs,
            None => r is None,
        },
{
    match bytes {
        Some(b) => string_from_utf8(b),
        None => None,
    }
}

// ───────────────────────────── UTF-8 widths ─────────────────────────────

/// The number of bytes of the UTF-8 encoding of `cs`.
pub open spec fn utf8_len(cs: Seq<char>) -> nat {
    encode_utf8(cs).len()
}

/// Encoding a concatenation encodes each part in turn.
pub proof fn lemma_encode_utf8_append(a: Seq<char>, b: Seq<char>)
    ensures
        encode_utf8(a + b) == encode_utf8(a) + encode_utf8(b),
    decreases a.len(),
{
    if a.len() == 0 {
        assert(a + b =~= b);
        assert(encode_utf8(a) =~= seq![]);
        assert(encode_utf8(a) + encode_utf8(b) =~= encode_utf8(b));
    } else {
        assert((a + b).drop_first() =~= a.drop_first() + b);
        assert((a + b)[0] == a[0]);
        lemma_encode_utf8_append(a.drop_first(), b);
        let head = vstd::utf8::encode_scalar(a[0] as u32);
        assert(head + (encode_utf8(a.drop_first()) + encode_utf8(b)) =~= (head + encode_utf8(a.drop_first()))
            + encode_utf8(b));
    }
}

/// The UTF-8 length of a prefix grows by the width of the next character,
/// and never passes the length of the whole.
pub proof fn lemma_utf8_len_prefix(cs: Seq<char>, k: int)
    requires
        0 <= k < cs.len(),
    ensures
        utf8_len(cs.take(k + 1)) == utf8_len(cs.take(k)) + utf8_len(seq![cs[k]]),
        utf8_len(cs.take(k + 1)) <= utf8_len(cs),
{
    assert(cs.take(k + 1) =~= cs.take(k) + seq![cs[k]]);
    lemma_encode_utf8_append(cs.take(k), seq![cs[k]]);
    assert(cs =~= cs.take(k + 1) + cs.skip(k + 1));
    lemma_encode_utf8_append(cs.take(k + 1), cs.skip(k + 1));
}

/// The UTF-8 length of a prefix is that of a shorter prefix plus that of
/// the characters between them, and never passes the length of the whole.
pub proof fn lemma_utf8_len_split(cs: Seq<char>, s: int, k: int)
    requires
        0 <= s <= k <= cs.len(),
    ensures
        utf8_len(cs.take(k)) == utf8_len(cs.take(s)) + utf8_len(cs.subrange(s, k)),
        utf8_len(cs.take(k)) <= utf8_len(cs),
{
    assert(cs.take(k) =~= cs.take(s) + cs.subrange(s, k));
    lemma_encode_utf8_append(cs.take(s), cs.subrange(s, k));
    assert(cs =~= cs.take(k) + cs.skip(k));
    lemma_encode_utf8_append(cs.take(k), cs.skip(k));
}

/// The number of bytes of the UTF-8 encoding of `c` (`char::len_utf8`).
pub fn utf8_width(c: char) -> (r: usize)
    ensures
        r == utf8_len(seq![c]),
        1 <= r <= 4,
{
    proof {
        char_is_scalar(c);
        assert(seq![c].drop_first() =~= seq![]);
        assert(seq![c][0] == c);
        assert(encode_utf8(seq![c].drop_first()) =~= seq![]);
        assert(encode_utf8(seq![c]) =~= vstd::utf8::encode_scalar(c as u32));
    }
    let v = c as u32;
    if v <= 0x7f {
        1
    } else if v <= 0x7ff {
        2
    } else if v <= 0xffff {
        3
    } else {
        4
    }
}

/// The byte offset at which each character of `cs` starts, followed by the
/// length of the whole.
pub fn byte_starts(cs: &[char]) -> (r: Vec<usize>)
    requires
        utf8_len(cs@) <= usize::MAX,
    ensures
        r@.len() == cs@.len() + 1,
        forall|k: int| 0 <= k <= cs@.len() ==> r@[k] == utf8_len(#[trigger] cs@.take(k)),
{
    let mut r: Vec<usize> = Vec::new();
    let mut pos: usize = 0;
    assert(cs@.take(0) =~= seq![]);
    r.push(0);
    let mut k: usize = 0;
    while k < cs.len()
        invariant
            k <= cs@.len(),
            utf8_len(cs@) <= usize::MAX,
            r@.len() == k + 1,
            pos == utf8_len(cs@.take(k as int)),
            forall|j: int| 0 <= j <= k ==> r@[j] == utf8_len(#[trigger] cs@.take(j)),
        decreases cs.len() - k,
    {
        proof {
            lemma_utf8_len_prefix(cs@, k as int);
        }
        pos = pos + utf8_width(cs[k]);
        r.push(pos);
        k = k + 1;
    }
    r
}

/// Appends the characters of `src` to `out`.
pub fn extend_chars(out: &mut Vec<char>, src: &[char])
    ensures
        final(out)@ == old(out)@ + src@,
{
    let ghost start = out@;
    let mut i: usize = 0;
    while i < src.len()
        invariant
            i <= src@.len(),
            out@ == start + src@.take(i as int),
        decreases src.len() - i,
    {
        out.push(src[i]);
        i = i + 1;
        assert(out@ =~= start + src@.take(i as int));
    }
    assert(src@.take(src@.len() as int) =~= src@);
}

// ───────────────────────────── hexadecimal ─────────────────────────────

/// The lower-case hexadecimal digit of `d` (below 16).
pub open spec fn hex_digit(d: u8) -> char {
    if d < 10 {
        ((d + 48) as u8) as char
    } else {
        ((d + 87) as u8) as char
    }
}

/// Each byte of `b` as two lower-case hexadecimal digits and a space.
pub open spec fn hex_text(b: Seq<u8>) -> Seq<char>
    decreases b.len(),
{
    if b.len() == 0 {
        seq![]
    } else {
        hex_text(b.drop_last()) + seq![hex_digit(b.last() / 16), hex_digit(b.last() % 16), ' ']
    }
}

fn hex_digit_char(d: u8) -> (r: char)
    requires
        d < 16,
    ensures
        r == hex_digit(d),
{
    if d < 10 {
        ((d + 48) as u8) as char
    } else {
        ((d + 87) as u8) as char
    }
}

/// Writes each byte as two lower-case hexadecimal digits followed by a space
/// (see [`hex_text`]).
pub fn hex(bytes: &[u8]) -> (r: String)
    ensures
        r@ == hex_text(bytes@),
{
    let mut out: Vec<char> = Vec::new();
    let mut i: usize = 0;
    while i < bytes.len()
        invariant
            i <= bytes@.len(),
            out@ == hex_text(bytes@.take(i as int)),
        decreases bytes.len() - i,
    {
        let b = bytes[i];
        assert(bytes@.take(i + 1).drop_last() =~= bytes@.take(i as int));
        assert(bytes@.take(i + 1).last() == b);
        out.push(hex_digit_char(b / 16));
        out.push(hex_digit_char(b % 16));
        out.push(' ');
        i = i + 1;
        assert(out@ =~= hex_text(bytes@.take(i as int)));
    }
    assert(bytes@.take(bytes@.len() as int) =~= bytes@);
    string_from_chars(out.as_slice())
}

/// Trimming keeps only characters of `p`, and a trimmed text trims to itself.
pub proof fn lemma_trim(p: Seq<char>)
    ensures
        trim(trim(p)) == trim(p),
        forall|k: int| 0 <= k < trim(p).len() ==> exists|m: int| 0 <= m < p.len() && #[trigger] trim(p)[k] == p[m],
{
    let t = trim(p);
    let a = first_non_ws(p, 0);
    let b = last_non_ws_end(p, p.len() as int);
    lemma_first_non_ws(p, 0);
    lemma_last_non_ws_end(p, p.len() as int);
    if b > a {
        assert(t[0] == p[a]);
        assert(t[t.len() - 1] == p[b - 1]);
        lemma_first_non_ws(t, 0);
        lemma_last_non_ws_end(t, t.len() as int);
        assert(first_non_ws(t, 0) == 0);
        assert(last_non_ws_end(t, t.len() as int) == t.len());
        assert(t.subrange(0, t.len() as int) =~= t);
        assert forall|k: int| 0 <= k < t.len() implies exists|m: int| 0 <= m < p.len() && #[trigger] t[k] == p[m] by {
            assert(t[k] == p[a + k]);
        }
    } else {
        assert(t =~= Seq::<char>::empty());
        assert(first_non_ws(t, 0) == 0);
        assert(trim(t) =~= Seq::<char>::empty());
    }
}

proof fn lemma_clean_trim(p: Seq<char>)
    requires
        forall|k: int| 0 <= k < p.len() ==> !is_control_char(#[trigger] p[k]),
        trim(p).len() > 0,
    ensures
        clean_piece(trim(p)),
{
    lemma_trim(p);
    let t = trim(p);
    assert forall|k: int| 0 <= k < t.len() implies !is_control_char(#[trigger] t[k]) by {
        let m = choose|m: int| 0 <= m < p.len() && #[trigger] t[k] == p[m];
        assert(!is_control_char(p[m]));
    }
}

/// Every piece of `s` between control characters is clean.
proof fn lemma_fragments_clean(s: Seq<char>, start: int, i: int)
    requires
        0 <= start <= i <= s.len(),
        forall|j: int| start <= j < i ==> !is_control_char(#[trigger] s[j]),
    ensures
        forall|k: int| 0 <= k < fragments_from(s, start, i).len() ==> clean_piece(#[trigger] fragments_from(s, start, i)[k]),
    decreases s.len() - i,
{
    if i >= s.len() {
        let p = s.subrange(start, s.len() as int);
        assert forall|k: int| 0 <= k < p.len() implies !is_control_char(#[trigger] p[k]) by {
            assert(p[k] == s[start + k]);
        }
        if trim(p).len() > 0 {
            lemma_clean_trim(p);
            assert(keep_nonempty(trim(p)) =~= seq![trim(p)]);
        } else {
            assert(keep_nonempty(trim(p)) =~= Seq::<Seq<char>>::empty());
        }
        assert(fragments_from(s, start, i) == keep_nonempty(trim(p)));
    } else if is_control_char(s[i]) {
        let p = s.subrange(start, i);
        assert forall|k: int| 0 <= k < p.len() implies !is_control_char(#[trigger] p[k]) by {
            assert(p[k] == s[start + k]);
        }
        if trim(p).len() > 0 {
            lemma_clean_trim(p);
        }
        lemma_fragments_clean(s, i + 1, i + 1);
        let head = keep_nonempty(trim(p));
        let rest = fragments_from(s, i + 1, i + 1);
        if trim(p).len() > 0 {
            assert(head =~= seq![trim(p)]);
        } else {
            assert(head =~= Seq::<Seq<char>>::empty());
        }
        assert(fragments_from(s, start, i) == head + rest);
        assert forall|k: int| 0 <= k < (head + rest).len() implies clean_piece(#[trigger] (head + rest)[k]) by {
            if k >= head.len() {
                assert((head + rest)[k] == rest[k - head.len()]);
            }
        }
    } else {
        lemma_fragments_clean(s, start, i + 1);
        assert(fragments_from(s, start, i) == fragments_from(s, start, i + 1));
    }
}

/// Law: the pieces of a text between control characters are clean: non-empty,
/// trimmed, and free of control characters.
pub proof fn lemma_control_fragments_clean(s: Seq<char>)
    ensures
        forall|k: int| 0 <= k < control_fragments(s).len() ==> clean_piece(#[trigger] control_fragments(s)[k]),
{
    lemma_fragments_clean(s, 0, 0);
}

} // verus!
