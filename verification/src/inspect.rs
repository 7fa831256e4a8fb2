//! Keyword counting and the inspection report.
use crate::kind::{ascii_lowercase, to_ascii_lowercase, DocumentKind};
use crate::package::PackageSupport;
use crate::plist::PropertiesPlist;
use crate::text::{chars_of, lossy_text, string_from_chars, string_from_utf8_lossy};
use vstd::prelude::*;

verus! {

/// A small report on a package: kind, layout, metadata, entry counts and
/// keyword hits in the stylesheet archive.
#[derive(Debug, Clone, Default, PartialEq, Eq)]
pub struct InspectionReport {
    pub path: String,
    pub kind: DocumentKind,
    pub support: PackageSupport,
    pub properties: PropertiesPlist,
    pub entry_count: usize,
    pub iwa_count: usize,
    /// One `(keyword, hits)` pair per distinct lower-cased keyword, ordered
    /// by keyword.
    pub style_keyword_hits: Vec<(String, usize)>,
}

/// Non-overlapping occurrences of `n` in `h` from `i` on, found left to
/// right; an empty needle matches at every character boundary.
pub open spec fn count_matches_from(h: Seq<char>, n: Seq<char>, i: int) -> nat
    decreases h.len() - i,
{
    if i < 0 || i > h.len() {
        0
    } else if n.len() == 0 {
        (h.len() - i + 1) as nat
    } else if i + n.len() > h.len() {
        0
    } else if h.subrange(i, i + n.len()) == n {
        1 + count_matches_from(h, n, i + n.len())
    } else {
        count_matches_from(h, n, i + 1)
    }
}

/// `x`, capped at `usize::MAX`.
pub open spec fn saturate(x: nat) -> usize {
    if x > usize::MAX {
        usize::MAX
    } else {
        x as usize
    }
}

/// `a` sorts before `b` (character by character from `i`, a proper prefix first).
pub open spec fn chars_less_from(a: Seq<char>, b: Seq<char>, i: int) -> bool
    decreases a.len() - i,
{
    if i < 0 || i >= a.len() {
        0 <= i < b.len()
    } else if i >= b.len() {
        false
    } else if a[i] != b[i] {
        (a[i] as u32) < (b[i] as u32)
    } else {
        chars_less_from(a, b, i + 1)
    }
}

/// Inserting `(k, v)` into a list sorted by key, from position `j` on:
/// an equal key has its value replaced, else the pair goes before the first
/// larger key.
pub open spec fn sorted_insert_from(m: Seq<(Seq<char>, usize)>, k: Seq<char>, v: usize, j: int) -> Seq<
    (Seq<char>, usize),
>
    decreases m.len() - j,
{
    if j < 0 || j >= m.len() {
        m.push((k, v))
    } else if m[j].0 == k {
        m.update(j, (k, v))
    } else if chars_less_from(k, m[j].0, 0) {
        m.insert(j, (k, v))
    } else {
        sorted_insert_from(m, k, v, j + 1)
    }
}

/// The keyword counts after the first `i` keywords.
pub open spec fn keyword_counts(h: Seq<char>, ks: Seq<Seq<char>>, i: nat) -> Seq<(Seq<char>, usize)>
    decreases i,
{
    if i == 0 || i > ks.len() {
        seq![]
    } else {
        let prev = keyword_counts(h, ks, (i - 1) as nat);
        let k = ascii_lowercase(ks[i - 1]);
        sorted_insert_from(prev, k, saturate(count_matches_from(h, k, 0)), 0)
    }
}

/// Whether `a` sorts before `b` by character codes.
pub fn chars_less(a: &[char], b: &[char]) -> (r: bool)
    ensures
        r == chars_less_from(a@, b@, 0),
{
    let mut i: usize = 0;
    while i < a.len() && i < b.len()
        invariant
            i <= a@.len(),
            i <= b@.len(),
            chars_less_from(a@, b@, 0) == chars_less_from(a@, b@, i as int),
        decreases a.len() - i,
    {
        if a[i] != b[i] {
            return (a[i] as u32) < (b[i] as u32);
        }
        i = i + 1;
    }
    i < b.len() && i >= a.len()
}

fn count_matches(h: &[char], n: &[char]) -> (r: usize)
    ensures
        r == saturate(count_matches_from(h@, n@, 0)),
{
    if n.len() == 0 {
        return if h.len() == usize::MAX { usize::MAX } else { h.len() + 1 };
    }
    let mut count: usize = 0;
    let mut i: usize = 0;
    let hl = h.len();
    while i <= hl && hl - i >= n.len()
        invariant
            i <= hl,
            hl == h@.len(),
            n@.len() > 0,
            count <= i,
            count_matches_from(h@, n@, 0) == count + count_matches_from(h@, n@, i as int),
        decreases hl - i,
    {
        let mut j: usize = 0;
        let mut same = true;
        while j < n.len()
            invariant
                j <= n@.len(),
                i + n@.len() <= hl,
                hl == h@.len(),
                same == (forall|t: int| 0 <= t < j ==> h@[i + t] == n@[t]),
            decreases n.len() - j,
        {
            if h[i + j] != n[j] {
                same = false;
            }
            j = j + 1;
        }
        proof {
            if same {
                assert(h@.subrange(i as int, i + n@.len()) =~= n@);
            } else {
                let t = choose|t: int| 0 <= t < n@.len() && h@[i + t] != n@[t];
                assert(h@.subrange(i as int, i + n@.len())[t] != n@[t]);
            }
        }
        if same {
            count = count + 1;
            i = i + n.len();
        } else {
            i = i + 1;
        }
    }
    count
}

/// Counts case-insensitive, non-overlapping occurrences of each keyword in
/// `bytes` (read as lossy UTF-8). Returns one `(lower-cased keyword, hits)`
/// pair per distinct keyword, ordered by keyword.
pub fn count_keywords(bytes: &[u8], keywords: &[&str]) -> (r: Vec<(String, usize)>)
    ensures
        r@.map_values(|e: (String, usize)| (e.0@, e.1)) == keyword_counts(
            ascii_lowercase(lossy_text(bytes@)),
            keywords@.map_values(|k: &str| k@),
            keywords@.len(),
        ),
{
    let text = string_from_utf8_lossy(bytes);
    let haystack = to_ascii_lowercase(chars_of(text.as_str()).as_slice());
    let ghost h = haystack@;
    let ghost ks = keywords@.map_values(|k: &str| k@);
    let mut out: Vec<(String, usize)> = Vec::new();
    let mut keys: Vec<Vec<char>> = Vec::new();
    let mut i: usize = 0;
    assert(out@.map_values(|e: (String, usize)| (e.0@, e.1)) =~= seq![]);
    while i < keywords.len()
        invariant
            i <= keywords@.len(),
            h == haystack@,
            h == ascii_lowercase(lossy_text(bytes@)),
            ks == keywords@.map_values(|k: &str| k@),
            keys@.len() == out@.len(),
            forall|j: int| 0 <= j < keys@.len() ==> (#[trigger] keys@[j])@ == out@[j].0@,
            out@.map_values(|e: (String, usize)| (e.0@, e.1)) == keyword_counts(h, ks, i as nat),
        decreases keywords.len() - i,
    {
        let needle = to_ascii_lowercase(chars_of(keywords[i]).as_slice());
        assert(ks[i as int] == keywords@[i as int]@);
        let hits = count_matches(haystack.as_slice(), needle.as_slice());
        let ghost m = out@.map_values(|e: (String, usize)| (e.0@, e.1));
        let mut j: usize = 0;
        loop
            invariant_except_break
                j <= out@.len(),
                m == out@.map_values(|e: (String, usize)| (e.0@, e.1)),
                sorted_insert_from(m, needle@, hits, 0) == sorted_insert_from(m, needle@, hits, j as int),
            invariant
                keys@.len() == out@.len(),
                forall|t: int| 0 <= t < keys@.len() ==> (#[trigger] keys@[t])@ == out@[t].0@,
            ensures
                out@.map_values(|e: (String, usize)| (e.0@, e.1)) == sorted_insert_from(m, needle@, hits, 0),
            decreases out@.len() - j,
        {
            if j == out.len() {
                out.push((string_from_chars(needle.as_slice()), hits));
                keys.push(needle);
                assert(out@.map_values(|e: (String, usize)| (e.0@, e.1)) =~= m.push((needle@, hits)));
                break;
            }
            assert(m[j as int] == (out@[j as int].0@, out@[j as int].1));
            if crate::text::chars_equal(keys[j].as_slice(), needle.as_slice()) {
                out.set(j, (string_from_chars(needle.as_slice()), hits));
                keys.set(j, needle);
                assert(out@.map_values(|e: (String, usize)| (e.0@, e.1)) =~= m.update(j as int, (needle@, hits)));
                break;
            }
            if chars_less(needle.as_slice(), keys[j].as_slice()) {
                let ghost keys0 = keys@;
                let ghost out0 = out@;
                out.insert(j, (string_from_chars(needle.as_slice()), hits));
                keys.insert(j, needle);
                assert(out@.map_values(|e: (String, usize)| (e.0@, e.1)) =~= m.insert(j as int, (needle@, hits)));
                assert forall|t: int| 0 <= t < keys@.len() implies (#[trigger] keys@[t])@ == out@[t].0@ by {
                    if t < j {
                        assert(keys@[t] == keys0[t]);
                        assert(out@[t] == out0[t]);
                    } else if t > j {
                        assert(keys@[t] == keys0[t - 1]);
                        assert(out@[t] == out0[t - 1]);
                    }
                }
                break;
            }
            j = j + 1;
        }
        assert(keyword_counts(h, ks, (i + 1) as nat) == sorted_insert_from(
            keyword_counts(h, ks, i as nat),
            ascii_lowercase(ks[i as int]),
            saturate(count_matches_from(h, ascii_lowercase(ks[i as int]), 0)),
            0,
        ));
        i = i + 1;
    }
    assert(ks.len() == keywords@.len());
    out
}

} // verus!
