//! Splitting the text storages of a Pages body into paragraphs and
//! character runs. Style runs address the text by UTF-8 byte offsets.
use crate::iwa::{decode_payload, field_bytes, payload_fields, IwaObject, ObjectView};
use crate::numbers::table_model::text_of;
use crate::pages::body::{
    decode_id_runs, decode_style_runs, default_formatting, format_pairs_view, lookup_format, lookup_last,
    lookup_string, merge_formatting, merged, named_runs_view, paragraphs_view, runs_view, spec_id_runs,
    spec_style_runs, string_pairs_view, value_at, FormattingView, Paragraph, ParagraphView, TextFormatting, TextRun,
    TextRunView, TSWP_TEXT_TYPE,
};
use crate::text::{
    byte_starts, chars_equal, chars_of, copy_chars, is_control, is_control_char, lemma_utf8_len_prefix,
    lemma_utf8_len_split, opt_utf8_string, string_from_chars, trim, trim_range, utf8_len, utf8_width,
};
use vstd::prelude::*;

verus! {

/// The style registries of a stylesheet: paragraph style names, character
/// style formattings, named character style formattings and list style
/// names, each keyed by object identifier.
pub struct StyleMaps {
    pub para: Vec<(u64, String)>,
    pub char_fmt: Vec<(u64, TextFormatting)>,
    pub named_char_fmt: Vec<(u64, TextFormatting)>,
    pub list: Vec<(u64, String)>,
}

/// The mathematical content of [`StyleMaps`].
pub struct StyleMapsView {
    pub para: Seq<(u64, Seq<char>)>,
    pub char_fmt: Seq<(u64, FormattingView)>,
    pub named_char_fmt: Seq<(u64, FormattingView)>,
    pub list: Seq<(u64, Seq<char>)>,
}

impl View for StyleMaps {
    type V = StyleMapsView;

    open spec fn view(&self) -> StyleMapsView {
        StyleMapsView {
            para: string_pairs_view(self.para@),
            char_fmt: format_pairs_view(self.char_fmt@),
            named_char_fmt: format_pairs_view(self.named_char_fmt@),
            list: string_pairs_view(self.list@),
        }
    }
}

// ───────────────────────────── run boundaries ─────────────────────────────

/// `x` inserted before the first element not below it, unless that element
/// is `x` itself.
pub open spec fn insert_unique(b: Seq<usize>, x: usize) -> Seq<usize>
    decreases b.len(),
{
    if b.len() == 0 {
        seq![x]
    } else if x < b[0] {
        seq![x] + b
    } else if x == b[0] {
        b
    } else {
        seq![b[0]] + insert_unique(b.drop_first(), x)
    }
}

/// The run boundaries of a paragraph spanning bytes `ps..pe`: `ps` and each
/// offset strictly inside, in increasing order, each once.
pub open spec fn boundaries(offs: Seq<usize>, ps: usize, pe: int) -> Seq<usize>
    decreases offs.len(),
{
    if offs.len() == 0 {
        seq![ps]
    } else {
        let b = boundaries(offs.drop_last(), ps, pe);
        let o = offs.last();
        if ps < o && o < pe {
            insert_unique(b, o)
        } else {
            b
        }
    }
}

/// The offsets of a run list.
pub open spec fn offsets<V>(runs: Seq<(usize, V)>) -> Seq<usize> {
    runs.map_values(|p: (usize, V)| p.0)
}

/// A strictly increasing list.
pub open spec fn strictly_increasing(b: Seq<usize>) -> bool {
    forall|i: int, j: int| 0 <= i < j < b.len() ==> b[i] < b[j]
}

proof fn lemma_insert_unique(b: Seq<usize>, x: usize)
    requires
        strictly_increasing(b),
    ensures
        strictly_increasing(insert_unique(b, x)),
        forall|y: usize| #[trigger] insert_unique(b, x).contains(y) <==> (b.contains(y) || y == x),
    decreases b.len(),
{
    if b.len() == 0 {
        assert forall|y: usize| seq![x].contains(y) <==> y == x by {
            if y == x {
                assert(seq![x][0] == y);
            }
        }
    } else if x < b[0] {
        let r = seq![x] + b;
        assert forall|y: usize| r.contains(y) <==> (b.contains(y) || y == x) by {
            if r.contains(y) {
                let k = choose|k: int| 0 <= k < r.len() && r[k] == y;
                if k > 0 {
                    assert(b[k - 1] == y);
                }
            }
            if b.contains(y) {
                let k = choose|k: int| 0 <= k < b.len() && b[k] == y;
                assert(r[k + 1] == y);
            }
            if y == x {
                assert(r[0] == y);
            }
        }
    } else if x == b[0] {
    } else {
        let t = b.drop_first();
        lemma_insert_unique(t, x);
        let it = insert_unique(t, x);
        let r = seq![b[0]] + it;
        assert forall|i: int| 0 < i < r.len() implies b[0] < r[i] by {
            assert(it.contains(r[i]));
            if t.contains(r[i]) {
                let k = choose|k: int| 0 <= k < t.len() && t[k] == r[i];
                assert(b[k + 1] == r[i]);
            }
        }
        assert forall|y: usize| r.contains(y) <==> (b.contains(y) || y == x) by {
            if r.contains(y) {
                let k = choose|k: int| 0 <= k < r.len() && r[k] == y;
                if k > 0 {
                    assert(it.contains(y)) by {
                        assert(0 <= k - 1 < it.len());
                        assert(it[k - 1] == y);
                    }
                    if t.contains(y) {
                        let m = choose|m: int| 0 <= m < t.len() && t[m] == y;
                        assert(b[m + 1] == y);
                    }
                } else {
                    assert(b[0] == y);
                }
            }
            if b.contains(y) {
                let k = choose|k: int| 0 <= k < b.len() && b[k] == y;
                if k == 0 {
                    assert(r[0] == y);
                } else {
                    assert(t[k - 1] == y);
                    assert(it.contains(y));
                    let m = choose|m: int| 0 <= m < it.len() && it[m] == y;
                    assert(r[m + 1] == y);
                }
            }
            if y == x {
                assert(insert_unique(t, x).contains(y));
                let m = choose|m: int| 0 <= m < it.len() && it[m] == y;
                assert(r[m + 1] == y);
            }
        }
    }
}

/// The boundaries are strictly increasing and hold exactly `ps` and the
/// offsets strictly between `ps` and `pe`.
pub proof fn lemma_boundaries(offs: Seq<usize>, ps: usize, pe: int)
    ensures
        strictly_increasing(boundaries(offs, ps, pe)),
        forall|y: usize| #[trigger]
            boundaries(offs, ps, pe).contains(y) <==> (y == ps || (offs.contains(y) && ps < y && y < pe)),
    decreases offs.len(),
{
    let b = boundaries(offs, ps, pe);
    if offs.len() == 0 {
        assert forall|y: usize| b.contains(y) <==> (y == ps || (offs.contains(y) && ps < y && y < pe)) by {
            if b.contains(y) {
                assert(b[0] == ps);
            }
            if y == ps {
                assert(b[0] == y);
            }
        }
    } else {
        let init = offs.drop_last();
        let o = offs.last();
        lemma_boundaries(init, ps, pe);
        let b0 = boundaries(init, ps, pe);
        if ps < o && o < pe {
            lemma_insert_unique(b0, o);
        }
        assert forall|y: usize| b.contains(y) <==> (y == ps || (offs.contains(y) && ps < y && y < pe)) by {
            if init.contains(y) {
                let k = choose|k: int| 0 <= k < init.len() && init[k] == y;
                assert(offs[k] == y);
            }
            if offs.contains(y) && y != o {
                let k = choose|k: int| 0 <= k < offs.len() && offs[k] == y;
                assert(init[k] == y);
            }
            if y == o {
                assert(offs[offs.len() - 1] == y);
            }
        }
    }
}

fn insert_boundary(b: &mut Vec<usize>, x: usize)
    ensures
        final(b)@ == insert_unique(old(b)@, x),
{
    let ghost s = b@;
    let mut j: usize = 0;
    assert(s.skip(0) =~= s);
    while j < b.len()
        invariant
            j <= s.len(),
            b@ == s,
            s == old(b)@,
            insert_unique(s, x) == s.take(j as int) + insert_unique(s.skip(j as int), x),
        decreases b.len() - j,
    {
        let ghost t = s.skip(j as int);
        assert(t[0] == s[j as int]);
        if x < b[j] {
            b.insert(j, x);
            assert(b@ =~= s.take(j as int) + (seq![x] + t));
            return;
        }
        if x == b[j] {
            assert(s.take(j as int) + t =~= s);
            return;
        }
        assert(t.drop_first() =~= s.skip(j + 1));
        assert(s.take(j as int) + (seq![s[j as int]] + insert_unique(s.skip(j + 1), x)) =~= s.take(j + 1)
            + insert_unique(s.skip(j + 1), x));
        j = j + 1;
    }
    assert(s.skip(j as int) =~= seq![]);
    b.push(x);
    assert(b@ =~= s.take(j as int) + seq![x]);
}

fn all_offsets(cr: &Vec<(usize, u64)>, nr: &Vec<(usize, u64)>) -> (r: Vec<usize>)
    ensures
        r@ == offsets(cr@) + offsets(nr@),
{
    let mut out: Vec<usize> = Vec::new();
    let mut i: usize = 0;
    while i < cr.len()
        invariant
            i <= cr@.len(),
            out@ == offsets(cr@.take(i as int)),
        decreases cr.len() - i,
    {
        out.push(cr[i].0);
        i = i + 1;
        assert(out@ =~= offsets(cr@.take(i as int)));
    }
    assert(cr@.take(cr@.len() as int) =~= cr@);
    let ghost first = out@;
    let mut k: usize = 0;
    while k < nr.len()
        invariant
            k <= nr@.len(),
            first == offsets(cr@),
            out@ == first + offsets(nr@.take(k as int)),
        decreases nr.len() - k,
    {
        out.push(nr[k].0);
        k = k + 1;
        assert(out@ =~= first + offsets(nr@.take(k as int)));
    }
    assert(nr@.take(nr@.len() as int) =~= nr@);
    out
}

fn run_boundaries(offs: &Vec<usize>, ps: usize, pe: usize) -> (r: Vec<usize>)
    ensures
        r@ == boundaries(offs@, ps, pe as int),
{
    let mut b: Vec<usize> = vec![ps];
    assert(b@ =~= boundaries(offs@.take(0), ps, pe as int));
    let mut i: usize = 0;
    while i < offs.len()
        invariant
            i <= offs@.len(),
            b@ == boundaries(offs@.take(i as int), ps, pe as int),
        decreases offs.len() - i,
    {
        assert(offs@.take(i + 1).drop_last() =~= offs@.take(i as int));
        let o = offs[i];
        if ps < o && o < pe {
            insert_boundary(&mut b, o);
        }
        i = i + 1;
    }
    assert(offs@.take(offs@.len() as int) =~= offs@);
    b
}

// ───────────────────────────── text runs ─────────────────────────────

/// The first character index, from `k` on, at which the UTF-8 encoding of
/// `cs` has consumed exactly `x` bytes.
pub open spec fn char_at_byte(cs: Seq<char>, x: int, k: int) -> Option<int>
    decreases cs.len() + 1 - k,
{
    if k < 0 || k > cs.len() {
        None
    } else if utf8_len(cs.take(k)) == x {
        Some(k)
    } else {
        char_at_byte(cs, x, k + 1)
    }
}

proof fn lemma_char_at_negative(cs: Seq<char>, x: int, k: int)
    requires
        x < 0,
    ensures
        char_at_byte(cs, x, k) is None,
    decreases cs.len() + 1 - k,
{
    if 0 <= k <= cs.len() {
        lemma_char_at_negative(cs, x, k + 1);
    }
}

proof fn lemma_char_at_range(cs: Seq<char>, x: int, k: int)
    ensures
        char_at_byte(cs, x, k) matches Some(j) ==> k <= j <= cs.len() && 0 <= j,
    decreases cs.len() + 1 - k,
{
    if 0 <= k <= cs.len() {
        lemma_char_at_range(cs, x, k + 1);
    }
}

/// The formatting that a style run list and its registry give at byte
/// `off`: that of the style covering it, or none.
pub open spec fn formatting_at(runs: Seq<(usize, u64)>, styles: Seq<(u64, FormattingView)>, off: int) -> FormattingView {
    match value_at(runs, off) {
        Some(id) => match lookup_last(styles, id) {
            Some(f) => f,
            None => default_formatting(),
        },
        None => default_formatting(),
    }
}

/// The run of `raw` (starting at byte `ps`) from boundary `i` to the next
/// boundary or the paragraph's end, when both fall between characters and
/// enclose text. Its formatting is the character style's, overlaid by the
/// named character style's.
pub open spec fn run_at(
    raw: Seq<char>,
    ps: usize,
    b: Seq<usize>,
    i: int,
    cr: Seq<(usize, u64)>,
    nr: Seq<(usize, u64)>,
    m: StyleMapsView,
) -> Option<TextRunView> {
    let start = b[i];
    let end: int = if i + 1 < b.len() {
        b[i + 1] as int
    } else {
        ps + utf8_len(raw)
    };
    let fmt = merged(formatting_at(cr, m.char_fmt, start as int), formatting_at(nr, m.named_char_fmt, start as int));
    match (char_at_byte(raw, start - ps, 0), char_at_byte(raw, end - ps, 0)) {
        (Some(ks), Some(ke)) => if ks < ke {
            Some(TextRunView { text: raw.subrange(ks, ke), formatting: fmt })
        } else {
            None
        },
        _ => None,
    }
}

/// The runs of the first `i` boundaries.
pub open spec fn runs_upto(
    raw: Seq<char>,
    ps: usize,
    b: Seq<usize>,
    cr: Seq<(usize, u64)>,
    nr: Seq<(usize, u64)>,
    m: StyleMapsView,
    i: int,
) -> Seq<TextRunView>
    decreases i,
{
    if i <= 0 {
        seq![]
    } else {
        let r = runs_upto(raw, ps, b, cr, nr, m, i - 1);
        match run_at(raw, ps, b, i - 1, cr, nr, m) {
            Some(x) => r.push(x),
            None => r,
        }
    }
}

/// The text runs of a paragraph's text `raw` that starts at byte `ps`: it is
/// cut at every character or named character style run that starts inside
/// it. When no run comes out, the trimmed text is one unformatted run, if
/// it is not empty.
pub open spec fn text_runs(
    raw: Seq<char>,
    ps: usize,
    cr: Seq<(usize, u64)>,
    nr: Seq<(usize, u64)>,
    m: StyleMapsView,
) -> Seq<TextRunView> {
    let b = boundaries(offsets(cr) + offsets(nr), ps, ps + utf8_len(raw));
    let rs = runs_upto(raw, ps, b, cr, nr, m, b.len() as int);
    if rs.len() > 0 {
        rs
    } else {
        let t = trim(raw);
        if t.len() > 0 {
            seq![TextRunView { text: t, formatting: default_formatting() }]
        } else {
            seq![]
        }
    }
}

fn char_index(starts: &Vec<usize>, Ghost(cs): Ghost<Seq<char>>, x: usize) -> (r: Option<usize>)
    requires
        starts@.len() == cs.len() + 1,
        forall|k: int| 0 <= k <= cs.len() ==> starts@[k] == utf8_len(#[trigger] cs.take(k)),
    ensures
        match char_at_byte(cs, x as int, 0) {
            Some(k) => r matches Some(j) && j == k,
            None => r is None,
        },
        r matches Some(k) ==> k <= cs.len(),
{
    let mut k: usize = 0;
    while k < starts.len()
        invariant
            k <= starts@.len(),
            starts@.len() == cs.len() + 1,
            forall|j: int| 0 <= j <= cs.len() ==> starts@[j] == utf8_len(#[trigger] cs.take(j)),
            char_at_byte(cs, x as int, 0) == char_at_byte(cs, x as int, k as int),
        decreases starts.len() - k,
    {
        assert(starts@[k as int] == utf8_len(cs.take(k as int)));
        if starts[k] == x {
            return Some(k);
        }
        k = k + 1;
    }
    None
}

fn formatting_from(runs: &Vec<(usize, u64)>, styles: &Vec<(u64, TextFormatting)>, off: usize) -> (r: TextFormatting)
    ensures
        r@ == formatting_at(runs@, format_pairs_view(styles@), off as int),
{
    match id_at(runs, off) {
        Some(id) => match lookup_format(styles, id) {
            Some(f) => f.duplicate(),
            None => TextFormatting::plain(),
        },
        None => TextFormatting::plain(),
    }
}

/// The value of the last run starting at or before `off`.
pub fn id_at(runs: &Vec<(usize, u64)>, off: usize) -> (r: Option<u64>)
    ensures
        r == value_at(runs@, off as int),
{
    let mut i: usize = runs.len();
    assert(runs@.take(runs@.len() as int) =~= runs@);
    while i > 0
        invariant
            i <= runs@.len(),
            value_at(runs@, off as int) == value_at(runs@.take(i as int), off as int),
        decreases i,
    {
        assert(runs@.take(i as int).drop_last() =~= runs@.take(i - 1));
        if runs[i - 1].0 <= off {
            return Some(runs[i - 1].1);
        }
        i = i - 1;
    }
    None
}

/// Cuts a paragraph's text (starting at byte `ps`) into text runs (see
/// [`text_runs`]).
pub fn build_text_runs(
    raw: &[char],
    ps: usize,
    cr: &Vec<(usize, u64)>,
    nr: &Vec<(usize, u64)>,
    maps: &StyleMaps,
) -> (r: Vec<TextRun>)
    requires
        ps + utf8_len(raw@) <= usize::MAX,
    ensures
        runs_view(r@) == text_runs(raw@, ps, cr@, nr@, maps@),
{
    assert(raw@.take(raw@.len() as int) =~= raw@);
    let starts = byte_starts(raw);
    let pe = ps + starts[raw.len()];
    let offs = all_offsets(cr, nr);
    let b = run_boundaries(&offs, ps, pe);
    let ghost m = maps@;
    let mut runs: Vec<TextRun> = Vec::new();
    let mut i: usize = 0;
    assert(runs_view(runs@) =~= seq![]);
    while i < b.len()
        invariant
            i <= b@.len(),
            pe == ps + utf8_len(raw@),
            m == maps@,
            starts@.len() == raw@.len() + 1,
            forall|k: int| 0 <= k <= raw@.len() ==> starts@[k] == utf8_len(#[trigger] raw@.take(k)),
            runs_view(runs@) == runs_upto(raw@, ps, b@, cr@, nr@, m, i as int),
        decreases b.len() - i,
    {
        let start = b[i];
        let end = if i + 1 < b.len() {
            b[i + 1]
        } else {
            pe
        };
        let base = formatting_from(cr, &maps.char_fmt, start);
        let named = formatting_from(nr, &maps.named_char_fmt, start);
        let fmt = merge_formatting(base, named);
        let ks = if start >= ps {
            char_index(&starts, Ghost(raw@), start - ps)
        } else {
            proof {
                lemma_char_at_negative(raw@, start - ps, 0);
            }
            None
        };
        let ke = if end >= ps {
            char_index(&starts, Ghost(raw@), end - ps)
        } else {
            proof {
                lemma_char_at_negative(raw@, end - ps, 0);
            }
            None
        };
        let ghost before = runs_view(runs@);
        let ghost want = run_at(raw@, ps, b@, i as int, cr@, nr@, m);
        let ghost sk = char_at_byte(raw@, start - ps, 0);
        let ghost ek = char_at_byte(raw@, end - ps, 0);
        proof {
            lemma_char_at_range(raw@, start - ps, 0);
            lemma_char_at_range(raw@, end - ps, 0);
            assert(b@[i as int] == start);
            assert(want == match (sk, ek) {
                (Some(x), Some(y)) => if x < y {
                    Some(TextRunView { text: raw@.subrange(x, y), formatting: fmt@ })
                } else {
                    None
                },
                _ => None,
            });
        }
        match (ks, ke) {
            (Some(a), Some(z)) => {
                if a < z {
                    let text = string_from_chars(copy_chars(raw, a, z).as_slice());
                    runs.push(TextRun { text, formatting: fmt });
                    assert(want == Some(runs@.last()@));
                    assert(runs_view(runs@) =~= before.push(runs@.last()@));
                } else {
                    assert(want is None);
                }
            },
            _ => {
                assert(want is None);
            },
        }
        i = i + 1;
    }
    if runs.len() == 0 {
        let (a, z) = trim_range(raw, 0, raw.len());
        assert(raw@.subrange(0, raw@.len() as int) =~= raw@);
        if a < z {
            let text = string_from_chars(copy_chars(raw, a, z).as_slice());
            runs.push(TextRun { text, formatting: TextFormatting::plain() });
            assert(runs_view(runs@) =~= seq![runs@[0]@]);
        }
    }
    runs
}

// ───────────────────────────── paragraphs ─────────────────────────────

/// The object replacement character, which stands for an inline object.
pub open spec fn placeholder() -> char {
    '\u{FFFC}'
}

/// The list style of a paragraph starting at byte `ps`: the name of the list
/// style whose run covers it, unless that name is "None".
pub open spec fn list_style_at(cr: Seq<(usize, u64)>, list: Seq<(u64, Seq<char>)>, ps: usize) -> Option<Seq<char>> {
    match value_at(cr, ps as int) {
        Some(id) => match lookup_last(list, id) {
            Some(n) => if n != "None"@ {
                Some(n)
            } else {
                None
            },
            None => None,
        },
        None => None,
    }
}

/// The paragraph that the text `raw` starting at byte `ps` makes: none when
/// its trimmed text is empty or holds an inline object placeholder, or when
/// it has no runs; else its paragraph style name ("" when unknown), its list
/// style and its runs.
pub open spec fn paragraph_of(
    raw: Seq<char>,
    ps: usize,
    pr: Seq<(usize, Seq<char>)>,
    cr: Seq<(usize, u64)>,
    nr: Seq<(usize, u64)>,
    m: StyleMapsView,
) -> Seq<ParagraphView> {
    let t = trim(raw);
    if t.len() == 0 || t.contains(placeholder()) {
        seq![]
    } else {
        let runs = text_runs(raw, ps, cr, nr, m);
        if runs.len() == 0 {
            seq![]
        } else {
            seq![
                ParagraphView {
                    style_name: match value_at(pr, ps as int) {
                        Some(n) => n,
                        None => seq![],
                    },
                    list_style: list_style_at(cr, m.list, ps),
                    runs,
                },
            ]
        }
    }
}

/// Where the piece of `raw` that the `k`-th character belongs to starts:
/// just after the last control character before it, or at 0.
pub open spec fn piece_start(raw: Seq<char>, k: int) -> int
    decreases k,
{
    if k <= 0 {
        0
    } else if is_control_char(raw[k - 1]) {
        k
    } else {
        piece_start(raw, k - 1)
    }
}

/// The paragraph that the piece `raw[s..e]` makes.
pub open spec fn piece_paragraph(
    raw: Seq<char>,
    s: int,
    e: int,
    pr: Seq<(usize, Seq<char>)>,
    cr: Seq<(usize, u64)>,
    nr: Seq<(usize, u64)>,
    m: StyleMapsView,
) -> Seq<ParagraphView> {
    paragraph_of(raw.subrange(s, e), utf8_len(raw.take(s)) as usize, pr, cr, nr, m)
}

/// The paragraphs of the pieces that end at a control character among the
/// first `k` characters of `raw`.
pub open spec fn paragraphs_upto(
    raw: Seq<char>,
    pr: Seq<(usize, Seq<char>)>,
    cr: Seq<(usize, u64)>,
    nr: Seq<(usize, u64)>,
    m: StyleMapsView,
    k: int,
) -> Seq<ParagraphView>
    decreases k,
{
    if k <= 0 {
        seq![]
    } else {
        let r = paragraphs_upto(raw, pr, cr, nr, m, k - 1);
        if is_control_char(raw[k - 1]) {
            r + piece_paragraph(raw, piece_start(raw, k - 1), k - 1, pr, cr, nr, m)
        } else {
            r
        }
    }
}

/// The paragraphs of a text storage's text: it is cut at every control
/// character (line breaks among them), and each piece makes at most one
/// paragraph.
pub open spec fn text_paragraphs(
    raw: Seq<char>,
    pr: Seq<(usize, Seq<char>)>,
    cr: Seq<(usize, u64)>,
    nr: Seq<(usize, u64)>,
    m: StyleMapsView,
) -> Seq<ParagraphView> {
    let n = raw.len() as int;
    paragraphs_upto(raw, pr, cr, nr, m, n) + piece_paragraph(raw, piece_start(raw, n), n, pr, cr, nr, m)
}

/// The paragraphs of one object: those of its text (field 3) when it is a
/// text storage whose text is UTF-8, with the style runs of its fields 5, 7
/// and 8.
pub open spec fn object_paragraphs(o: ObjectView, m: StyleMapsView) -> Seq<ParagraphView> {
    if o.message_type != Some(TSWP_TEXT_TYPE) {
        seq![]
    } else {
        match payload_fields(o) {
            None => seq![],
            Some(fs) => match text_of(fs, 3) {
                None => seq![],
                Some(raw) => text_paragraphs(
                    raw,
                    spec_style_runs(o.payload, m.para),
                    spec_id_runs(o.payload, 7),
                    spec_id_runs(o.payload, 8),
                    m,
                ),
            },
        }
    }
}

/// The paragraphs of all text storages among `objs`, in order.
pub open spec fn body_paragraphs(objs: Seq<ObjectView>, m: StyleMapsView) -> Seq<ParagraphView>
    decreases objs.len(),
{
    if objs.len() == 0 {
        seq![]
    } else {
        body_paragraphs(objs.drop_last(), m) + object_paragraphs(objs.last(), m)
    }
}

fn holds_char(s: &[char], c: char) -> (r: bool)
    ensures
        r == s@.contains(c),
{
    let mut i: usize = 0;
    while i < s.len()
        invariant
            i <= s@.len(),
            forall|j: int| 0 <= j < i ==> s@[j] != c,
        decreases s.len() - i,
    {
        if s[i] == c {
            assert(s@[i as int] == c);
            return true;
        }
        i = i + 1;
    }
    false
}

fn name_at<'a>(runs: &'a Vec<(usize, String)>, off: usize) -> (r: Option<&'a String>)
    ensures
        match value_at(named_runs_view(runs@), off as int) {
            Some(n) => r matches Some(x) && x@ == n,
            None => r is None,
        },
{
    let ghost rv = named_runs_view(runs@);
    let mut i: usize = runs.len();
    assert(rv.take(runs@.len() as int) =~= rv);
    while i > 0
        invariant
            i <= runs@.len(),
            rv == named_runs_view(runs@),
            value_at(rv, off as int) == value_at(rv.take(i as int), off as int),
        decreases i,
    {
        assert(rv.take(i as int).drop_last() =~= rv.take(i - 1));
        assert(rv.take(i as int).last() == (runs@[i - 1].0, runs@[i - 1].1@));
        if runs[i - 1].0 <= off {
            return Some(&runs[i - 1].1);
        }
        i = i - 1;
    }
    None
}

fn list_style_of(cr: &Vec<(usize, u64)>, list: &Vec<(u64, String)>, ps: usize) -> (r: Option<String>)
    ensures
        match list_style_at(cr@, string_pairs_view(list@), ps) {
            Some(n) => r matches Some(x) && x@ == n,
            None => r is None,
        },
{
    match id_at(cr, ps) {
        Some(id) => match lookup_string(list, id) {
            Some(n) => {
                let none = chars_of("None");
                if chars_equal(chars_of(n.as_str()).as_slice(), none.as_slice()) {
                    None
                } else {
                    Some(n.clone())
                }
            },
            None => None,
        },
        None => None,
    }
}

/// Appends the paragraph that the text `raw` starting at byte `ps` makes
/// (see [`paragraph_of`]).
pub fn push_paragraph(
    raw: &[char],
    ps: usize,
    pr: &Vec<(usize, String)>,
    cr: &Vec<(usize, u64)>,
    nr: &Vec<(usize, u64)>,
    maps: &StyleMaps,
    out: &mut Vec<Paragraph>,
)
    requires
        ps + utf8_len(raw@) <= usize::MAX,
    ensures
        paragraphs_view(final(out)@) == paragraphs_view(old(out)@) + paragraph_of(
            raw@,
            ps,
            named_runs_view(pr@),
            cr@,
            nr@,
            maps@,
        ),
{
    let ghost before = paragraphs_view(out@);
    let (a, z) = trim_range(raw, 0, raw.len());
    assert(raw@.subrange(0, raw@.len() as int) =~= raw@);
    let trimmed = copy_chars(raw, a, z);
    if a >= z || holds_char(trimmed.as_slice(), '\u{FFFC}') {
        assert(paragraphs_view(out@) =~= before + seq![]);
        return;
    }
    let style_name = match name_at(pr, ps) {
        Some(n) => n.clone(),
        None => String::new(),
    };
    proof {
        reveal_strlit("");
    }
    let list_style = list_style_of(cr, &maps.list, ps);
    let runs = build_text_runs(raw, ps, cr, nr, maps);
    if runs.len() > 0 {
        out.push(Paragraph { style_name, list_style, runs });
        assert(paragraphs_view(out@) =~= before + seq![out@.last()@]);
    } else {
        assert(paragraphs_view(out@) =~= before + seq![]);
    }
}

/// Appends the paragraphs of a text storage's text (see
/// [`text_paragraphs`]).
pub fn push_text_paragraphs(
    raw: &[char],
    pr: &Vec<(usize, String)>,
    cr: &Vec<(usize, u64)>,
    nr: &Vec<(usize, u64)>,
    maps: &StyleMaps,
    out: &mut Vec<Paragraph>,
)
    requires
        utf8_len(raw@) <= usize::MAX,
    ensures
        paragraphs_view(final(out)@) == paragraphs_view(old(out)@) + text_paragraphs(
            raw@,
            named_runs_view(pr@),
            cr@,
            nr@,
            maps@,
        ),
{
    let ghost start_out = paragraphs_view(out@);
    let ghost prv = named_runs_view(pr@);
    let mut para_start: usize = 0;
    let mut start: usize = 0;
    let mut i: usize = 0;
    let mut k: usize = 0;
    assert(raw@.take(0) =~= seq![]);
    while k < raw.len()
        invariant
            k <= raw@.len(),
            start <= k,
            utf8_len(raw@) <= usize::MAX,
            prv == named_runs_view(pr@),
            start == piece_start(raw@, k as int),
            para_start == utf8_len(raw@.take(start as int)),
            i == utf8_len(raw@.take(k as int)),
            paragraphs_view(out@) == start_out + paragraphs_upto(raw@, prv, cr@, nr@, maps@, k as int),
        decreases raw.len() - k,
    {
        let ch = raw[k];
        proof {
            lemma_utf8_len_prefix(raw@, k as int);
            lemma_utf8_len_split(raw@, start as int, k as int);
        }
        let w = utf8_width(ch);
        if is_control(ch) || ch == '\n' {
            let piece = copy_chars(raw, start, k);
            let ghost mid = paragraphs_view(out@);
            push_paragraph(piece.as_slice(), para_start, pr, cr, nr, maps, out);
            assert(paragraphs_view(out@) =~= start_out + paragraphs_upto(raw@, prv, cr@, nr@, maps@, k + 1));
            i = i + w;
            para_start = i;
            start = k + 1;
        } else {
            i = i + w;
        }
        k = k + 1;
    }
    proof {
        lemma_utf8_len_split(raw@, start as int, k as int);
    }
    let ghost done = paragraphs_view(out@);
    if start < raw.len() {
        let piece = copy_chars(raw, start, raw.len());
        push_paragraph(piece.as_slice(), para_start, pr, cr, nr, maps, out);
    } else {
        assert(raw@.subrange(start as int, k as int) =~= seq![]);
        assert(trim(raw@.subrange(start as int, k as int)).len() == 0);
        assert(paragraphs_view(out@) =~= done + seq![]);
    }
}

/// The paragraphs of all text storages among `objs` (see
/// [`body_paragraphs`]).
pub fn decode_paragraphs(objs: &Vec<IwaObject>, maps: &StyleMaps) -> (r: Vec<Paragraph>)
    ensures
        paragraphs_view(r@) == body_paragraphs(objs@.map_values(|o: IwaObject| o@), maps@),
{
    let ghost all = objs@.map_values(|o: IwaObject| o@);
    let mut out: Vec<Paragraph> = Vec::new();
    let mut i: usize = 0;
    assert(paragraphs_view(out@) =~= seq![]);
    while i < objs.len()
        invariant
            i <= objs@.len(),
            all == objs@.map_values(|o: IwaObject| o@),
            paragraphs_view(out@) == body_paragraphs(all.take(i as int), maps@),
        decreases objs.len() - i,
    {
        assert(all.take(i + 1).drop_last() =~= all.take(i as int));
        assert(all.take(i + 1).last() == objs@[i as int]@);
        let ghost before = paragraphs_view(out@);
        let o = &objs[i];
        if o.message_type == Some(TSWP_TEXT_TYPE) {
            if let Some(m) = decode_payload(o) {
                let fb = field_bytes(&m, 3);
                let ghost blen: int = if fb is Some {
                    fb->0.len() as int
                } else {
                    0
                };
                assert(fb is Some ==> blen == fb->0@.len());
                if let Some(text) = opt_utf8_string(fb) {
                    proof {
                        broadcast use vstd::utf8::decode_utf8_encode_utf8;
                    }
                    let raw = chars_of(text.as_str());
                    let pr = decode_style_runs(o.payload.as_slice(), &maps.para);
                    let cr = decode_id_runs(o.payload.as_slice(), 7);
                    let nr = decode_id_runs(o.payload.as_slice(), 8);
                    push_text_paragraphs(raw.as_slice(), &pr, &cr, &nr, maps, &mut out);
                } else {
                    assert(paragraphs_view(out@) =~= before + seq![]);
                }
            } else {
                assert(paragraphs_view(out@) =~= before + seq![]);
            }
        } else {
            assert(paragraphs_view(out@) =~= before + seq![]);
        }
        i = i + 1;
    }
    assert(all.take(objs@.len() as int) =~= all);
    out
}

} // verus!
