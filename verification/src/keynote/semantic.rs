//! The UTF-8 text fields of a presentation's slide archives.
use crate::error::Error;
use crate::inspect::{chars_less, chars_less_from};
use crate::iwa::{ArchiveView, IwaArchive};
use crate::iwa_text::{extract_utf8_fields, spec_utf8_fields};
use crate::keynote::presentation::opt_view;
use crate::kind::{ascii_lowercase, extension_of, spec_extension, to_ascii_lowercase};
use crate::numbers::types::opt_str_view;
use crate::package::{load_error_matches, spec_read_archive, EntryView, LoadError, Package, PackageView};
use crate::text::{chars_contain, chars_equal, chars_of, chars_start_with, has_infix, has_prefix};
use vstd::prelude::*;

verus! {

/// A slide archive's path and text fields.
#[derive(Debug, Clone, Default, PartialEq, Eq)]
pub struct SemanticSlide {
    path: String,
    is_template: bool,
    layout_name: Option<String>,
    title: Option<String>,
    text_fragments: Vec<String>,
    media_descriptions: Vec<String>,
}

/// The mathematical content of a [`SemanticSlide`].
pub struct SemanticSlideView {
    pub path: Seq<char>,
    pub is_template: bool,
    pub layout_name: Option<Seq<char>>,
    pub title: Option<Seq<char>>,
    pub text_fragments: Seq<Seq<char>>,
    pub media_descriptions: Seq<Seq<char>>,
}

impl View for SemanticSlide {
    type V = SemanticSlideView;

    closed spec fn view(&self) -> SemanticSlideView {
        SemanticSlideView {
            path: self.path@,
            is_template: self.is_template,
            layout_name: opt_view(self.layout_name),
            title: opt_view(self.title),
            text_fragments: self.text_fragments@.map_values(|s: String| s@),
            media_descriptions: self.media_descriptions@.map_values(|s: String| s@),
        }
    }
}

/// The slides of a presentation that carry some text.
#[derive(Debug, Clone, Default, PartialEq, Eq)]
pub struct SemanticPresentation {
    slides: Vec<SemanticSlide>,
}

impl View for SemanticPresentation {
    type V = Seq<SemanticSlideView>;

    closed spec fn view(&self) -> Seq<SemanticSlideView> {
        self.slides@.map_values(|s: SemanticSlide| s@)
    }
}

/// A slide archive path: under `Index/`, holding `Slide`, with the
/// extension `iwa` in any case.
pub open spec fn is_semantic_slide_path(p: Seq<char>) -> bool {
    &&& has_prefix(p, "Index/"@)
    &&& has_infix(p, "Slide"@)
    &&& match spec_extension(p) {
        Some(e) => ascii_lowercase(e) == "iwa"@,
        None => false,
    }
}

/// The slide an archive at `path` decodes to: its text fields; it is a
/// template when the path holds `TemplateSlide`.
pub open spec fn spec_semantic_slide(path: Seq<char>, a: ArchiveView) -> SemanticSlideView {
    SemanticSlideView {
        path,
        is_template: has_infix(path, "TemplateSlide"@),
        layout_name: None,
        title: None,
        text_fragments: spec_utf8_fields(a.body),
        media_descriptions: seq![],
    }
}

/// Decoding the slide archives among `es`, in order; the first failure
/// fails all.
pub open spec fn semantic_slides_from(p: PackageView, es: Seq<EntryView>) -> Result<Seq<SemanticSlideView>, LoadError>
    decreases es.len(),
{
    if es.len() == 0 {
        Ok(seq![])
    } else {
        let e = es[0];
        if !is_semantic_slide_path(e.path) {
            semantic_slides_from(p, es.drop_first())
        } else {
            match spec_read_archive(p, e.path) {
                Err(x) => Err(x),
                Ok(a) => match semantic_slides_from(p, es.drop_first()) {
                    Err(x) => Err(x),
                    Ok(rest) => Ok(seq![spec_semantic_slide(e.path, a)] + rest),
                },
            }
        }
    }
}

/// Inserting `x` after every slide whose path does not sort after its own.
pub open spec fn insert_semantic(xs: Seq<SemanticSlideView>, x: SemanticSlideView, j: int) -> Seq<SemanticSlideView>
    decreases xs.len() - j,
{
    if j < 0 || j >= xs.len() {
        xs.push(x)
    } else if chars_less_from(x.path, xs[j].path, 0) {
        xs.insert(j, x)
    } else {
        insert_semantic(xs, x, j + 1)
    }
}

/// Slides stably sorted by path.
pub open spec fn sort_semantic(xs: Seq<SemanticSlideView>) -> Seq<SemanticSlideView>
    decreases xs.len(),
{
    if xs.len() == 0 {
        seq![]
    } else {
        insert_semantic(sort_semantic(xs.drop_last()), xs.last(), 0)
    }
}

/// A slide is kept when it has a title, a layout name, text or media.
pub open spec fn has_content(s: SemanticSlideView) -> bool {
    s.title is Some || s.layout_name is Some || s.text_fragments.len() > 0 || s.media_descriptions.len() > 0
}

/// The slides of `xs` that have content, in order.
pub open spec fn with_content(xs: Seq<SemanticSlideView>) -> Seq<SemanticSlideView>
    decreases xs.len(),
{
    if xs.len() == 0 {
        seq![]
    } else {
        let r = with_content(xs.drop_last());
        if has_content(xs.last()) {
            r.push(xs.last())
        } else {
            r
        }
    }
}

/// Decoding a presentation's slide text: every slide archive, sorted by
/// path, keeping those with content.
pub open spec fn spec_semantic_presentation(p: PackageView) -> Result<Seq<SemanticSlideView>, LoadError> {
    match semantic_slides_from(p, p.entries) {
        Ok(ss) => Ok(with_content(sort_semantic(ss))),
        Err(e) => Err(e),
    }
}

fn insert_semantic_vec(xs: &mut Vec<SemanticSlide>, x: SemanticSlide)
    ensures
        final(xs)@.map_values(|s: SemanticSlide| s@) == insert_semantic(
            old(xs)@.map_values(|s: SemanticSlide| s@),
            x@,
            0,
        ),
{
    let ghost s = xs@.map_values(|s: SemanticSlide| s@);
    let key = chars_of(x.path.as_str());
    let mut j: usize = 0;
    while j < xs.len()
        invariant
            j <= xs@.len(),
            s == xs@.map_values(|s: SemanticSlide| s@),
            s == old(xs)@.map_values(|s: SemanticSlide| s@),
            key@ == x@.path,
            insert_semantic(s, x@, 0) == insert_semantic(s, x@, j as int),
        decreases xs.len() - j,
    {
        assert(s[j as int] == xs@[j as int]@);
        let other = chars_of(xs[j].path.as_str());
        if chars_less(key.as_slice(), other.as_slice()) {
            xs.insert(j, x);
            assert(xs@.map_values(|s: SemanticSlide| s@) =~= s.insert(j as int, x@));
            return;
        }
        j = j + 1;
    }
    xs.push(x);
    assert(xs@.map_values(|s: SemanticSlide| s@) =~= s.push(x@));
}

fn is_slide_archive_path(path: &[char]) -> (r: bool)
    ensures
        r == is_semantic_slide_path(path@),
{
    if !chars_start_with(path, chars_of("Index/").as_slice()) {
        return false;
    }
    if !chars_contain(path, chars_of("Slide").as_slice()) {
        return false;
    }
    match extension_of(path) {
        Some(e) => {
            let lower = to_ascii_lowercase(e.as_slice());
            chars_equal(lower.as_slice(), chars_of("iwa").as_slice())
        },
        None => false,
    }
}

impl SemanticSlide {
    /// The slide of the archive at `path`: its text fields.
    pub fn from_archive(path: String, archive: &IwaArchive) -> (r: SemanticSlide)
        ensures
            r@ == spec_semantic_slide(path@, archive@),
    {
        let cs = chars_of(path.as_str());
        let is_template = chars_contain(cs.as_slice(), chars_of("TemplateSlide").as_slice());
        let text_fragments = extract_utf8_fields(archive);
        let media_descriptions: Vec<String> = Vec::new();
        let r = SemanticSlide {
            path,
            is_template,
            layout_name: None,
            title: None,
            text_fragments,
            media_descriptions,
        };
        assert(r@.media_descriptions =~= seq![]);
        r
    }

    /// The archive path of this slide.
    pub fn path(&self) -> (r: &str)
        ensures
            r@ == self@.path,
    {
        self.path.as_str()
    }

    /// Whether this is a template (master) slide.
    pub fn is_template(&self) -> (r: bool)
        ensures
            r == self@.is_template,
    {
        self.is_template
    }

    /// The slide's layout name, if known.
    pub fn layout_name(&self) -> (r: Option<&str>)
        ensures
            opt_str_view(r) == self@.layout_name,
    {
        match &self.layout_name {
            Some(s) => Some(s.as_str()),
            None => None,
        }
    }

    /// The slide's title, if known.
    pub fn title(&self) -> (r: Option<&str>)
        ensures
            opt_str_view(r) == self@.title,
    {
        match &self.title {
            Some(s) => Some(s.as_str()),
            None => None,
        }
    }

    /// The slide's text fields, in order.
    pub fn text_fragments(&self) -> (r: &[String])
        ensures
            r@.map_values(|s: String| s@) == self@.text_fragments,
    {
        self.text_fragments.as_slice()
    }

    /// The slide's media descriptions.
    pub fn media_descriptions(&self) -> (r: &[String])
        ensures
            r@.map_values(|s: String| s@) == self@.media_descriptions,
    {
        self.media_descriptions.as_slice()
    }
}

fn read_semantic_slides(package: &Package) -> (r: Result<Vec<SemanticSlide>, Error>)
    ensures
        match semantic_slides_from(package@, package@.entries) {
            Ok(ss) => r matches Ok(v) && v@.map_values(|s: SemanticSlide| s@) == sort_semantic(ss),
            Err(e) => load_error_matches(r, e),
        },
{
    let entries = package.entries();
    let ghost es = package@.entries;
    let mut found: Vec<SemanticSlide> = Vec::new();
    let ghost mut got: Seq<SemanticSlideView> = seq![];
    let mut i: usize = 0;
    assert(es.skip(0) =~= es);
    while i < entries.len()
        invariant
            i <= entries@.len(),
            es == package@.entries,
            es == entries@.map_values(|e: crate::package::Entry| e@),
            found@.map_values(|s: SemanticSlide| s@) == sort_semantic(got),
            match semantic_slides_from(package@, es.skip(i as int)) {
                Ok(rest) => semantic_slides_from(package@, es) == Ok::<Seq<SemanticSlideView>, LoadError>(
                    got + rest,
                ),
                Err(x) => semantic_slides_from(package@, es) == Err::<Seq<SemanticSlideView>, LoadError>(x),
            },
        decreases entries.len() - i,
    {
        let entry = &entries[i];
        assert(es.skip(i as int)[0] == entry@);
        assert(es.skip(i as int).drop_first() =~= es.skip(i + 1));
        let path = chars_of(entry.path_str());
        if is_slide_archive_path(path.as_slice()) {
            let archive = package.read_archive(entry.path_str())?;
            let slide = SemanticSlide::from_archive(entry.path_string(), &archive);
            let ghost before = got;
            proof {
                got = got.push(slide@);
                assert(got.drop_last() =~= before);
                match semantic_slides_from(package@, es.skip(i + 1)) {
                    Ok(rest) => {
                        assert(before + (seq![slide@] + rest) =~= got + rest);
                    },
                    Err(_) => {},
                }
            }
            insert_semantic_vec(&mut found, slide);
        }
        i = i + 1;
    }
    assert(es.skip(i as int) =~= seq![]);
    assert(got + seq![] =~= got);
    Ok(found)
}

impl SemanticPresentation {
    /// Decodes the text of every slide archive, sorted by path, keeping the
    /// slides with content (see [`spec_semantic_presentation`]).
    pub fn from_package(package: &Package) -> (r: Result<SemanticPresentation, Error>)
        ensures
            match spec_semantic_presentation(package@) {
                Ok(ss) => r matches Ok(x) && x@ == ss,
                Err(e) => load_error_matches(r, e),
            },
    {
        let sorted = read_semantic_slides(package)?;
        let ghost orig = sorted@.map_values(|s: SemanticSlide| s@);
        let n = sorted.len();
        let mut rest = sorted;
        let mut out: Vec<SemanticSlide> = Vec::new();
        let mut k: usize = 0;
        while rest.len() > 0
            invariant
                k <= orig.len(),
                orig.len() == n,
                rest@.len() + k == orig.len(),
                rest@.map_values(|s: SemanticSlide| s@) == orig.skip(k as int),
                out@.map_values(|s: SemanticSlide| s@) == with_content(orig.take(k as int)),
            decreases rest.len(),
        {
            let ghost pre = rest@;
            let x = rest.remove(0);
            assert(orig.skip(k as int)[0] == orig[k as int]);
            assert(x@ == orig[k as int]);
            assert forall|i: int| 0 <= i < rest@.len() implies rest@[i]@ == orig.skip(k + 1)[i] by {
                assert(rest@[i] == pre[i + 1]);
                assert(pre.map_values(|s: SemanticSlide| s@)[i + 1] == pre[i + 1]@);
            }
            assert(rest@.map_values(|s: SemanticSlide| s@) =~= orig.skip(k + 1));
            assert(orig.take(k + 1).drop_last() =~= orig.take(k as int));
            let ghost before = out@.map_values(|s: SemanticSlide| s@);
            if x.title.is_some() || x.layout_name.is_some() || x.text_fragments.len() > 0
                || x.media_descriptions.len() > 0 {
                out.push(x);
                assert(out@.map_values(|s: SemanticSlide| s@) =~= before.push(x@));
            }
            k = k + 1;
        }
        assert(orig.take(k as int) =~= orig);
        Ok(SemanticPresentation { slides: out })
    }

    /// The slides with content, sorted by path.
    pub fn slides(&self) -> (r: &[SemanticSlide])
        ensures
            r@.map_values(|s: SemanticSlide| s@) == self@,
    {
        self.slides.as_slice()
    }
}

} // verus!
