//! Document kinds, told apart by file extension.
use crate::text::{chars_equal, chars_of};
use vstd::prelude::*;

verus! {

/// The iWork application a document belongs to.
#[derive(Debug, Clone, Copy, Default, PartialEq, Eq)]
pub enum DocumentKind {
    Numbers,
    Pages,
    Keynote,
    #[default]
    Unknown,
}

/// The index of the last `/` in `p`, or `-1`.
pub open spec fn last_slash(p: Seq<char>) -> int
    decreases p.len(),
{
    if p.len() == 0 {
        -1
    } else if p.last() == '/' {
        p.len() - 1
    } else {
        last_slash(p.drop_last())
    }
}

/// The index of the last `.` in `p`, or `-1`.
pub open spec fn last_dot(p: Seq<char>) -> int
    decreases p.len(),
{
    if p.len() == 0 {
        -1
    } else if p.last() == '.' {
        p.len() - 1
    } else {
        last_dot(p.drop_last())
    }
}

/// `last_slash` and `last_dot` lie inside the sequence.
pub proof fn lemma_last_index_bounds(p: Seq<char>)
    ensures
        -1 <= last_slash(p) < p.len(),
        last_slash(p) >= 0 ==> p[last_slash(p)] == '/',
        forall|j: int| last_slash(p) < j < p.len() ==> p[j] != '/',
        -1 <= last_dot(p) < p.len(),
        last_dot(p) >= 0 ==> p[last_dot(p)] == '.',
        forall|j: int| last_dot(p) < j < p.len() ==> p[j] != '.',
    decreases p.len(),
{
    if p.len() > 0 {
        let q = p.drop_last();
        lemma_last_index_bounds(q);
        assert forall|j: int| last_slash(p) < j < p.len() implies p[j] != '/' by {
            if j < p.len() - 1 {
                assert(q[j] == p[j]);
            }
        }
        assert forall|j: int| last_dot(p) < j < p.len() implies p[j] != '.' by {
            if j < p.len() - 1 {
                assert(q[j] == p[j]);
            }
        }
    }
}

/// The final component of a `/`-separated path, as `Path::file_name` gives
/// it: trailing `/` and `.` components are skipped, and a path that ends in
/// `..` (or has no normal component) has none.
pub open spec fn spec_file_name(p: Seq<char>) -> Option<Seq<char>>
    decreases p.len(),
{
    if p.len() == 0 {
        None
    } else if p.last() == '/' {
        spec_file_name(p.drop_last())
    } else {
        let s = last_slash(p);
        let comp = p.subrange(s + 1, p.len() as int);
        proof {
            lemma_last_index_bounds(p);
        }
        if comp == seq!['.'] {
            if s < 0 {
                None
            } else {
                spec_file_name(p.subrange(0, s))
            }
        } else if comp == seq!['.', '.'] {
            None
        } else {
            Some(comp)
        }
    }
}

/// The extension of a file name, as `Path::extension` gives it: the text
/// after the last `.`, unless there is none or it is the leading character.
pub open spec fn spec_name_extension(name: Seq<char>) -> Option<Seq<char>> {
    let d = last_dot(name);
    if d <= 0 {
        None
    } else {
        Some(name.subrange(d + 1, name.len() as int))
    }
}

/// The extension of a path's file name.
pub open spec fn spec_extension(p: Seq<char>) -> Option<Seq<char>> {
    match spec_file_name(p) {
        Some(name) => spec_name_extension(name),
        None => None,
    }
}

/// ASCII upper-case letters lowered; every other character kept.
pub open spec fn ascii_lower(c: char) -> char {
    if 'A' <= c && c <= 'Z' {
        ((c as u32) + 32) as char
    } else {
        c
    }
}

/// A character sequence with its ASCII letters lowered.
pub open spec fn ascii_lowercase(s: Seq<char>) -> Seq<char> {
    s.map_values(|c: char| ascii_lower(c))
}

/// The kind named by a path's extension, compared without ASCII case.
pub open spec fn spec_kind_of(p: Seq<char>) -> DocumentKind {
    match spec_extension(p) {
        Some(ext) => {
            let e = ascii_lowercase(ext);
            if e == "numbers"@ {
                DocumentKind::Numbers
            } else if e == "pages"@ {
                DocumentKind::Pages
            } else if e == "key"@ {
                DocumentKind::Keynote
            } else {
                DocumentKind::Unknown
            }
        },
        None => DocumentKind::Unknown,
    }
}

fn lower_char(c: char) -> (r: char)
    ensures
        r == ascii_lower(c),
{
    if 'A' <= c && c <= 'Z' {
        let v = (c as u32) + 32;
        assert(0x61 <= v <= 0x7a);
        char_from_ascii(v)
    } else {
        c
    }
}

fn char_from_ascii(v: u32) -> (r: char)
    requires
        v < 0x80,
    ensures
        r == v as char,
{
    (v as u8) as char
}

/// Lowers the ASCII letters of `s`.
pub fn to_ascii_lowercase(s: &[char]) -> (r: Vec<char>)
    ensures
        r@ == ascii_lowercase(s@),
{
    let mut out: Vec<char> = Vec::new();
    let mut i: usize = 0;
    while i < s.len()
        invariant
            i <= s@.len(),
            out@ == ascii_lowercase(s@.subrange(0, i as int)),
        decreases s.len() - i,
    {
        out.push(lower_char(s[i]));
        i = i + 1;
        assert(out@ =~= ascii_lowercase(s@.subrange(0, i as int)));
    }
    assert(s@.subrange(0, i as int) =~= s@);
    out
}

fn find_last(p: &[char], end: usize, c: char) -> (r: Option<usize>)
    requires
        end <= p@.len(),
    ensures
        match r {
            Some(i) => i < end && p@[i as int] == c && forall|j: int| i < j < end ==> p@[j] != c,
            None => forall|j: int| 0 <= j < end ==> p@[j] != c,
        },
{
    let mut i = end;
    while i > 0
        invariant
            i <= end <= p@.len(),
            forall|j: int| i <= j < end ==> p@[j] != c,
        decreases i,
    {
        if p[i - 1] == c {
            return Some(i - 1);
        }
        i = i - 1;
    }
    None
}

proof fn lemma_last_slash_is(p: Seq<char>, i: int)
    requires
        -1 <= i < p.len(),
        i >= 0 ==> p[i] == '/',
        forall|j: int| i < j < p.len() ==> p[j] != '/',
    ensures
        last_slash(p) == i,
    decreases p.len(),
{
    if p.len() > 0 && p.last() != '/' {
        lemma_last_slash_is(p.drop_last(), i);
    }
}

proof fn lemma_last_dot_is(p: Seq<char>, i: int)
    requires
        -1 <= i < p.len(),
        i >= 0 ==> p[i] == '.',
        forall|j: int| i < j < p.len() ==> p[j] != '.',
    ensures
        last_dot(p) == i,
    decreases p.len(),
{
    if p.len() > 0 && p.last() != '.' {
        lemma_last_dot_is(p.drop_last(), i);
    }
}

/// The extension of a path's file name, as characters.
pub fn extension_of(path: &[char]) -> (r: Option<Vec<char>>)
    ensures
        match spec_extension(path@) {
            Some(e) => r matches Some(v) && v@ == e,
            None => r is None,
        },
{
    let mut end = path.len();
    assert(path@.subrange(0, end as int) =~= path@);
    loop
        invariant
            end <= path@.len(),
            spec_file_name(path@) == spec_file_name(path@.subrange(0, end as int)),
        decreases end,
    {
        let ghost p = path@.subrange(0, end as int);
        if end == 0 {
            return None;
        }
        if path[end - 1] == '/' {
            assert(p.drop_last() =~= path@.subrange(0, end - 1));
            end = end - 1;
            continue;
        }
        let slash = find_last(path, end, '/');
        let start: usize = match slash {
            Some(s) => s + 1,
            None => 0,
        };
        proof {
            let s: int = match slash {
                Some(x) => x as int,
                None => -1,
            };
            lemma_last_slash_is(p, s);
            assert(p.subrange(s + 1, p.len() as int) =~= path@.subrange(start as int, end as int));
        }
        let comp_len = end - start;
        if comp_len == 1 && path[start] == '.' {
            assert(path@.subrange(start as int, end as int) =~= seq!['.']);
            match slash {
                None => return None,
                Some(s) => {
                    assert(p.subrange(0, s as int) =~= path@.subrange(0, s as int));
                    end = s;
                    continue;
                },
            }
        }
        if comp_len == 2 && path[start] == '.' && path[start + 1] == '.' {
            assert(path@.subrange(start as int, end as int) =~= seq!['.', '.']);
            return None;
        }
        proof {
            if comp_len == 1 {
                assert(path@.subrange(start as int, end as int)[0] == path@[start as int]);
                assert(path@.subrange(start as int, end as int) != seq!['.']);
            }
            if comp_len == 2 {
                assert(path@.subrange(start as int, end as int)[0] != '.' || path@.subrange(start as int, end as int)[1]
                    != '.');
                assert(path@.subrange(start as int, end as int) != seq!['.', '.']);
            }
        }
        let ghost name = path@.subrange(start as int, end as int);
        let dot = find_last(path, end, '.');
        return match dot {
            Some(d) => {
                if d > start {
                    proof {
                        lemma_last_dot_is(name, d - start);
                    }
                    let mut ext: Vec<char> = Vec::new();
                    let mut k = d + 1;
                    while k < end
                        invariant
                            d + 1 <= k <= end,
                            end <= path@.len(),
                            ext@ == path@.subrange(d + 1, k as int),
                        decreases end - k,
                    {
                        ext.push(path[k]);
                        k = k + 1;
                        assert(ext@ =~= path@.subrange(d + 1, k as int));
                    }
                    assert(name.subrange(d - start + 1, name.len() as int) =~= path@.subrange(d + 1, end as int));
                    Some(ext)
                } else {
                    proof {
                        if d == start {
                            lemma_last_dot_is(name, 0);
                        } else {
                            lemma_last_dot_is(name, -1);
                        }
                    }
                    None
                }
            },
            None => {
                proof {
                    lemma_last_dot_is(name, -1);
                }
                None
            },
        };
    }
}

impl DocumentKind {
    /// Classifies a document path by its extension (`.numbers`, `.pages`,
    /// `.key`, in any ASCII case).
    pub fn from_path(path: &str) -> (r: DocumentKind)
        ensures
            r == spec_kind_of(path@),
    {
        let chars = chars_of(path);
        match extension_of(chars.as_slice()) {
            Some(ext) => {
                let e = to_ascii_lowercase(ext.as_slice());
                if chars_equal(e.as_slice(), chars_of("numbers").as_slice()) {
                    DocumentKind::Numbers
                } else if chars_equal(e.as_slice(), chars_of("pages").as_slice()) {
                    DocumentKind::Pages
                } else if chars_equal(e.as_slice(), chars_of("key").as_slice()) {
                    DocumentKind::Keynote
                } else {
                    DocumentKind::Unknown
                }
            },
            None => DocumentKind::Unknown,
        }
    }

    /// The kind's lower-case name.
    pub fn as_str(self) -> (r: &'static str)
        ensures
            r@ == match self {
                DocumentKind::Numbers => "numbers"@,
                DocumentKind::Pages => "pages"@,
                DocumentKind::Keynote => "keynote"@,
                DocumentKind::Unknown => "unknown"@,
            },
    {
        match self {
            DocumentKind::Numbers => "numbers",
            DocumentKind::Pages => "pages",
            DocumentKind::Keynote => "keynote",
            DocumentKind::Unknown => "unknown",
        }
    }
}

} // verus!
