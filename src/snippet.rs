//! The snippet record and its construction from a matched region.
use vstd::prelude::*;
use crate::tags::{
    begin_marker, end_marker, lemma_region_shape, opt_text, opt_view, region_shape, regions,
    scan_regions, TagSpan,
};
use crate::text::same_text;

verus! {

/// One named snippet, with what is known of it from every place it was seen.
#[derive(Debug, PartialEq, Eq)]
pub struct Snippet {
    pub name: String,
    /// The body of the tagged region, when the snippet was seen in a source file.
    pub content: Option<String>,
    /// The source file that holds the tagged region.
    pub source_file: Option<String>,
    /// The description given inline in the begin tag.
    pub comment: Option<String>,
    /// The snippet is the live definition (no inactive region carries its name).
    pub active: bool,
    /// Seen as a tagged region in a source file.
    pub source: bool,
    /// Seen as an inclusion in a document.
    pub latex: bool,
    /// Seen as an extracted snippet file.
    pub extracted: bool,
}

/// The mathematical value of a snippet.
pub struct SnippetView {
    pub name: Seq<char>,
    pub content: Option<Seq<char>>,
    pub source_file: Option<Seq<char>>,
    pub comment: Option<Seq<char>>,
    pub active: bool,
    pub source: bool,
    pub latex: bool,
    pub extracted: bool,
}

impl View for Snippet {
    type V = SnippetView;

    open spec fn view(&self) -> SnippetView {
        SnippetView {
            name: self.name@,
            content: opt_view(self.content),
            source_file: opt_view(self.source_file),
            comment: opt_view(self.comment),
            active: self.active,
            source: self.source,
            latex: self.latex,
            extracted: self.extracted,
        }
    }
}

/// Why a snippet could not be built.
#[derive(Debug, PartialEq, Eq)]
pub enum SnippetError {
    MissingBeginName,
    MissingEndName,
    /// The begin tag and the end tag of a region carry different names.
    MismatchedTag { begin: String, end: String, file: Option<String> },
    /// No snippet name could be taken from the path of a snippet file.
    NoFileStem { path: String },
}

/// The mathematical value of a `SnippetError`.
pub enum ErrorView {
    MissingBeginName,
    MissingEndName,
    MismatchedTag { begin: Seq<char>, end: Seq<char>, file: Option<Seq<char>> },
    NoFileStem { path: Seq<char> },
}

impl View for SnippetError {
    type V = ErrorView;

    open spec fn view(&self) -> ErrorView {
        match self {
            SnippetError::MissingBeginName => ErrorView::MissingBeginName,
            SnippetError::MissingEndName => ErrorView::MissingEndName,
            SnippetError::MismatchedTag { begin, end, file } => ErrorView::MismatchedTag {
                begin: begin@,
                end: end@,
                file: opt_view(*file),
            },
            SnippetError::NoFileStem { path } => ErrorView::NoFileStem { path: path@ },
        }
    }
}

impl DeepView for SnippetError {
    type V = ErrorView;

    open spec fn deep_view(&self) -> ErrorView {
        self@
    }
}

/// An optional string slice read as optional text.
pub open spec fn opt_str_view(o: Option<&str>) -> Option<Seq<char>> {
    match o {
        Some(s) => Some(s@),
        None => None,
    }
}

fn to_owned_opt(o: Option<&str>) -> (r: Option<String>)
    ensures
        opt_view(r) == opt_str_view(o),
{
    match o {
        Some(s) => Some(s.to_owned()),
        None => None,
    }
}

impl Snippet {
    /// Seen in a source file, in a document and as an extracted file: nothing is
    /// missing for this snippet.
    pub fn is_complete(&self) -> (r: bool)
        ensures
            r == (self.source && self.latex && self.extracted),
    {
        self.source && self.latex && self.extracted
    }

    /// A snippet named by `begin`, provided `begin` and `end` are both given and equal.
    pub fn new(
        begin: Option<&str>,
        content: Option<&str>,
        source_file: Option<String>,
        end: Option<&str>,
        comment: Option<&str>,
        active: bool,
        source: bool,
        latex: bool,
        extracted: bool,
    ) -> (r: Result<Snippet, SnippetError>)
        ensures
            begin is None ==> r matches Err(SnippetError::MissingBeginName),
            begin is Some && end is None ==> r matches Err(SnippetError::MissingEndName),
            begin is Some && end is Some && begin.unwrap()@ != end.unwrap()@ ==> (r matches Err(
                SnippetError::MismatchedTag { begin: rb, end: re, file },
            ) && rb@ == begin.unwrap()@ && re@ == end.unwrap()@ && opt_view(file) == opt_view(
                source_file,
            )),
            begin is Some && end is Some && begin.unwrap()@ == end.unwrap()@ ==> (r matches Ok(s)
                && s@ == (SnippetView {
                name: begin.unwrap()@,
                content: opt_str_view(content),
                source_file: opt_view(source_file),
                comment: opt_str_view(comment),
                active,
                source,
                latex,
                extracted,
            })),
    {
        let b = match begin {
            Some(b) => b,
            None => return Err(SnippetError::MissingBeginName),
        };
        let e = match end {
            Some(e) => e,
            None => return Err(SnippetError::MissingEndName),
        };
        if !same_text(b, e) {
            return Err(
                SnippetError::MismatchedTag { begin: b.to_owned(), end: e.to_owned(), file: source_file },
            );
        }
        Ok(
            Snippet {
                name: b.to_owned(),
                content: to_owned_opt(content),
                source_file,
                comment: to_owned_opt(comment),
                active,
                source,
                latex,
                extracted,
            },
        )
    }
}

/// The name in the begin tag of a region.
pub open spec fn begin_name(t: Seq<char>, r: TagSpan) -> Seq<char> {
    t.subrange(r.begin_lo, r.begin_hi)
}

/// The name in the end tag of a region.
pub open spec fn end_name(t: Seq<char>, r: TagSpan) -> Seq<char> {
    t.subrange(r.end_lo, r.end_hi)
}

/// The snippet that a well-formed region of `file` stands for.
pub open spec fn region_snippet(t: Seq<char>, r: TagSpan, file: Seq<char>, inactive: bool) -> SnippetView {
    SnippetView {
        name: begin_name(t, r),
        content: Some(t.subrange(r.body_lo, r.body_hi)),
        source_file: Some(file),
        comment: opt_text(t, r.comment),
        active: !inactive,
        source: true,
        latex: false,
        extracted: false,
    }
}

/// What one region of `file` yields: its snippet when both tags name it, else a
/// mismatch that carries both names and the file.
pub open spec fn region_result(
    t: Seq<char>,
    r: TagSpan,
    file: Seq<char>,
    inactive: bool,
    res: Result<Snippet, SnippetError>,
) -> bool {
    if begin_name(t, r) == end_name(t, r) {
        res matches Ok(s) && s@ == region_snippet(t, r, file, inactive)
    } else {
        res matches Err(SnippetError::MismatchedTag { begin, end, file: f }) && begin@ == begin_name(
            t,
            r,
        ) && end@ == end_name(t, r) && opt_view(f) == Some(file)
    }
}

/// The snippets of one kind (active, or inactive) that the regions of a source file
/// give, one result per region in the order of the text. Each region has the shape of
/// a tagged region, so a snippet's content is exactly the text between its tags.
pub fn source_snippets(text: &str, file: &str, inactive: bool) -> (r: Vec<Result<Snippet, SnippetError>>)
    ensures
        r@.len() == regions(text@, inactive).len(),
        forall|i: int|
            0 <= i < r@.len() ==> region_shape(
                text@,
                begin_marker(inactive),
                end_marker(inactive),
                #[trigger] regions(text@, inactive)[i],
            ),
        forall|i: int|
            0 <= i < r@.len() ==> region_result(
                text@,
                #[trigger] regions(text@, inactive)[i],
                file@,
                inactive,
                r@[i],
            ),
{
    let found = scan_regions(text, inactive);
    let mut out: Vec<Result<Snippet, SnippetError>> = Vec::new();
    for k in 0..found.len()
        invariant
            found@.len() == regions(text@, inactive).len(),
            forall|i: int|
                0 <= i < found@.len() ==> found@[i].reads(text@, #[trigger] regions(text@, inactive)[i]),
            out@.len() == k,
            forall|i: int|
                0 <= i < k ==> region_result(
                    text@,
                    #[trigger] regions(text@, inactive)[i],
                    file@,
                    inactive,
                    out@[i],
                ),
    {
        let m = &found[k];
        assert(m.reads(text@, regions(text@, inactive)[k as int]));
        let c = match &m.comment {
            Some(c) => Some(c.as_str()),
            None => None,
        };
        let res = Snippet::new(
            Some(m.begin.as_str()),
            Some(m.body.as_str()),
            Some(file.to_owned()),
            Some(m.end.as_str()),
            c,
            !inactive,
            true,
            false,
            false,
        );
        out.push(res);
    }
    assert forall|i: int| 0 <= i < out@.len() implies region_shape(
        text@,
        begin_marker(inactive),
        end_marker(inactive),
        #[trigger] regions(text@, inactive)[i],
    ) by {
        lemma_region_shape(text@, inactive, i);
    }
    out
}

} // verus!
