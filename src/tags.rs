//! The tag grammar: active and inactive tagged regions in source text.
//!
//! An active region reads `// SNIPPET:BEGIN {name}` followed by an optional
//! `${description}`, the body, and `// SNIPPET:END {name}`. An inactive region is
//! spelled the same with `_SNIPPET` in both markers. Matching follows the usual
//! leftmost, non-greedy reading: each name ends at the first `}`, the description at
//! the first `}` that still leaves a complete end tag behind it, and the body at the
//! first end marker. Scanning resumes after the end tag of each region.
use vstd::prelude::*;
use crate::text::{
    chars_of, find, find_from, lemma_find_from, lemma_find_from_is, matches_at, occurs_at,
};

verus! {

broadcast use vstd::string::group_string_axioms;

/// The marker that opens a region.
pub open spec fn begin_marker(inactive: bool) -> Seq<char> {
    if inactive {
        "// _SNIPPET:BEGIN {"@
    } else {
        "// SNIPPET:BEGIN {"@
    }
}

/// The marker that opens the end tag of a region.
pub open spec fn end_marker(inactive: bool) -> Seq<char> {
    if inactive {
        "// _SNIPPET:END {"@
    } else {
        "// SNIPPET:END {"@
    }
}

/// The character that closes a name or a description.
pub open spec fn close_brace() -> Seq<char> {
    seq!['}']
}

/// The opening of an inline description.
pub open spec fn description_open() -> Seq<char> {
    seq!['$', '{']
}

/// Where the parts of one matched region lie in the text (half-open ranges).
pub struct TagSpan {
    pub begin_lo: int,
    pub begin_hi: int,
    pub comment: Option<(int, int)>,
    pub body_lo: int,
    pub body_hi: int,
    pub end_lo: int,
    pub end_hi: int,
}

/// The end tag that closes a body starting at `from`: the first end marker at or
/// after `from`, and the first `}` after it. Yields (marker position, brace position).
pub open spec fn end_tag_from(t: Seq<char>, e: Seq<char>, from: int) -> Option<(int, int)> {
    match find_from(t, e, from) {
        Some(m) => match find_from(t, close_brace(), m + e.len()) {
            Some(q) => Some((m, q)),
            None => None,
        },
        None => None,
    }
}

/// The reading that takes a description starting at `i` (just after the begin name's `}`).
pub open spec fn described_at(t: Seq<char>, e: Seq<char>, i: int, begin_lo: int) -> Option<TagSpan> {
    if occurs_at(t, i, description_open()) {
        match find_from(t, close_brace(), i + 2) {
            Some(c) => match end_tag_from(t, e, c + 1) {
                Some((m, q)) => Some(
                    TagSpan {
                        begin_lo,
                        begin_hi: i - 1,
                        comment: Some((i + 2, c)),
                        body_lo: c + 1,
                        body_hi: m,
                        end_lo: m + e.len(),
                        end_hi: q,
                    },
                ),
                None => None,
            },
            None => None,
        }
    } else {
        None
    }
}

/// The region whose begin marker stands at `s`, if the text completes one there.
pub open spec fn region_at(t: Seq<char>, b: Seq<char>, e: Seq<char>, s: int) -> Option<TagSpan> {
    let len = t.len();
    let nb = s + b.len();
    match find_from(t, close_brace(), nb) {
        None => None,
        Some(p) => match end_tag_from(t, e, p + 1) {
            None => None,
            Some((m, q)) => match described_at(t, e, p + 1, nb) {
                Some(r) => Some(r),
                None => Some(
                    TagSpan {
                        begin_lo: nb,
                        begin_hi: p,
                        comment: None,
                        body_lo: p + 1,
                        body_hi: m,
                        end_lo: m + e.len(),
                        end_hi: q,
                    },
                ),
            },
        },
    }
}

/// All regions found when scanning `t` from `pos`, in order.
pub open spec fn regions_from(t: Seq<char>, b: Seq<char>, e: Seq<char>, pos: int) -> Seq<TagSpan>
    decreases t.len() - pos,
{
    if pos < 0 || pos > t.len() {
        Seq::empty()
    } else {
        match find_from(t, b, pos) {
            None => Seq::empty(),
            Some(s) => match region_at(t, b, e, s) {
                None => Seq::empty(),
                Some(r) => if pos < r.end_hi + 1 <= t.len() {
                    seq![r] + regions_from(t, b, e, r.end_hi + 1)
                } else {
                    Seq::empty()
                },
            },
        }
    }
}

/// All regions of one kind in `t`.
pub open spec fn regions(t: Seq<char>, inactive: bool) -> Seq<TagSpan> {
    regions_from(t, begin_marker(inactive), end_marker(inactive), 0)
}

/// The parts of a region lie in order inside the text.
pub open spec fn span_ordered(t: Seq<char>, r: TagSpan) -> bool {
    &&& 0 <= r.begin_lo <= r.begin_hi
    &&& r.begin_hi < r.body_lo <= r.body_hi
    &&& r.body_hi < r.end_lo <= r.end_hi < t.len()
    &&& match r.comment {
        Some((lo, hi)) => r.begin_hi < lo <= hi < r.body_lo,
        None => true,
    }
}

pub proof fn lemma_region_at_ordered(t: Seq<char>, b: Seq<char>, e: Seq<char>, s: int)
    requires
        0 <= s,
        e.len() > 0,
    ensures
        region_at(t, b, e, s) matches Some(r) ==> span_ordered(t, r) && s + b.len() == r.begin_lo,
{
    let len = t.len();
    let nb = s + b.len();
    lemma_find_from(t, close_brace(), nb);
    if let Some(p) = find_from(t, close_brace(), nb) {
        lemma_find_from(t, e, p + 1);
        if let Some(m) = find_from(t, e, p + 1) {
            lemma_find_from(t, close_brace(), m + e.len());
        }
        if occurs_at(t, p + 1, description_open()) {
            lemma_find_from(t, close_brace(), p + 3);
            if let Some(c) = find_from(t, close_brace(), p + 3) {
                lemma_find_from(t, e, c + 1);
                if let Some(m) = find_from(t, e, c + 1) {
                    lemma_find_from(t, close_brace(), m + e.len());
                }
            }
        }
    }
}

/// The shape of a matched region: the begin marker, the begin name closed by `}`, the
/// optional `${description}`, the body, and the end marker with the end name closed by
/// `}`, each right after the other; the body holds no end marker.
pub open spec fn region_shape(t: Seq<char>, b: Seq<char>, e: Seq<char>, r: TagSpan) -> bool {
    &&& occurs_at(t, r.begin_lo - b.len(), b)
    &&& occurs_at(t, r.begin_hi, close_brace())
    &&& match r.comment {
        Some((lo, hi)) => occurs_at(t, r.begin_hi + 1, description_open()) && lo == r.begin_hi + 3
            && occurs_at(t, hi, close_brace()) && r.body_lo == hi + 1,
        None => r.body_lo == r.begin_hi + 1,
    }
    &&& occurs_at(t, r.body_hi, e)
    &&& forall|j: int| r.body_lo <= j < r.body_hi ==> !occurs_at(t, j, e)
    &&& r.end_lo == r.body_hi + e.len()
    &&& occurs_at(t, r.end_hi, close_brace())
}

proof fn lemma_region_at_shape(t: Seq<char>, b: Seq<char>, e: Seq<char>, s: int)
    requires
        0 <= s,
        occurs_at(t, s, b),
    ensures
        region_at(t, b, e, s) matches Some(r) ==> region_shape(t, b, e, r),
{
    let nb = s + b.len();
    lemma_find_from(t, close_brace(), nb);
    if let Some(p) = find_from(t, close_brace(), nb) {
        lemma_find_from(t, e, p + 1);
        if let Some(m) = find_from(t, e, p + 1) {
            lemma_find_from(t, close_brace(), m + e.len());
        }
        if occurs_at(t, p + 1, description_open()) {
            lemma_find_from(t, close_brace(), p + 3);
            if let Some(c) = find_from(t, close_brace(), p + 3) {
                lemma_find_from(t, e, c + 1);
                if let Some(m) = find_from(t, e, c + 1) {
                    lemma_find_from(t, close_brace(), m + e.len());
                }
            }
        }
    }
}

proof fn lemma_regions_from_shape(t: Seq<char>, b: Seq<char>, e: Seq<char>, pos: int)
    ensures
        forall|i: int|
            0 <= i < regions_from(t, b, e, pos).len() ==> region_shape(
                t,
                b,
                e,
                #[trigger] regions_from(t, b, e, pos)[i],
            ),
    decreases t.len() - pos,
{
    if 0 <= pos <= t.len() {
        lemma_find_from(t, b, pos);
        if let Some(s) = find_from(t, b, pos) {
            lemma_region_at_shape(t, b, e, s);
            if let Some(r) = region_at(t, b, e, s) {
                if pos < r.end_hi + 1 <= t.len() {
                    lemma_regions_from_shape(t, b, e, r.end_hi + 1);
                    let rest = regions_from(t, b, e, r.end_hi + 1);
                    assert forall|i: int| 0 <= i < regions_from(t, b, e, pos).len() implies region_shape(
                        t,
                        b,
                        e,
                        #[trigger] regions_from(t, b, e, pos)[i],
                    ) by {
                        if i > 0 {
                            assert(regions_from(t, b, e, pos)[i] == rest[i - 1]);
                        }
                    }
                }
            }
        }
    }
}

/// Every region that the scan finds has the shape of a tagged region, so its body is
/// exactly the text between the begin tag (with its optional description) and the end
/// tag.
pub proof fn lemma_region_shape(t: Seq<char>, inactive: bool, i: int)
    requires
        0 <= i < regions(t, inactive).len(),
    ensures
        region_shape(t, begin_marker(inactive), end_marker(inactive), regions(t, inactive)[i]),
{
    lemma_regions_from_shape(t, begin_marker(inactive), end_marker(inactive), 0);
}

/// A text that is exactly one tagged region: begin marker, name, `}`, body, end
/// marker, the same name, `}`.
pub open spec fn one_region_text(name: Seq<char>, body: Seq<char>, inactive: bool) -> Seq<char> {
    begin_marker(inactive) + name + close_brace() + body + end_marker(inactive) + name + close_brace()
}

proof fn lemma_no_brace_in(t: Seq<char>, lo: int, hi: int, part: Seq<char>)
    requires
        0 <= lo <= hi <= t.len(),
        t.subrange(lo, hi) == part,
        forall|i: int| 0 <= i < part.len() ==> part[i] != '}',
    ensures
        forall|j: int| lo <= j < hi ==> !occurs_at(t, j, close_brace()),
{
    assert forall|j: int| lo <= j < hi implies !occurs_at(t, j, close_brace()) by {
        assert(part[j - lo] == t[j]);
        if occurs_at(t, j, close_brace()) {
            assert(t.subrange(j, j + 1)[0] == t[j]);
        }
    }
}

/// A well-formed region is found as it was written: a text made of one region whose
/// name holds no `}` and whose body neither opens with `${` nor holds an end marker
/// (not even one that runs into the end tag) scans as exactly that region, with no
/// description, both tags naming it, and its body as the body.
pub proof fn lemma_well_formed_region(name: Seq<char>, body: Seq<char>, inactive: bool)
    requires
        forall|i: int| 0 <= i < name.len() ==> name[i] != '}',
        !occurs_at(body + end_marker(inactive), 0, description_open()),
        forall|j: int| 0 <= j < body.len() ==> !occurs_at(body + end_marker(inactive), j, end_marker(inactive)),
    ensures
        ({
            let t = one_region_text(name, body, inactive);
            let rs = regions(t, inactive);
            &&& rs.len() == 1
            &&& t.subrange(rs[0].begin_lo, rs[0].begin_hi) == name
            &&& rs[0].comment is None
            &&& t.subrange(rs[0].body_lo, rs[0].body_hi) == body
            &&& t.subrange(rs[0].end_lo, rs[0].end_hi) == name
        }),
{
    reveal_strlit("// _SNIPPET:BEGIN {");
    reveal_strlit("// SNIPPET:BEGIN {");
    reveal_strlit("// _SNIPPET:END {");
    reveal_strlit("// SNIPPET:END {");
    let b = begin_marker(inactive);
    let e = end_marker(inactive);
    let c = close_brace();
    let be = body + e;
    let t = one_region_text(name, body, inactive);
    let o1 = b.len() as int;
    let o2 = o1 + name.len();
    let o3 = o2 + 1;
    let o4 = o3 + body.len();
    let o5 = o4 + e.len();
    let o6 = o5 + name.len();
    assert(t.len() == o6 + 1);
    assert(t.subrange(0, o1) =~= b);
    assert(t.subrange(o1, o2) =~= name);
    assert(t.subrange(o2, o3) =~= c);
    assert(t.subrange(o3, o5) =~= be);
    assert(t.subrange(o4, o5) =~= e);
    assert(t.subrange(o5, o6) =~= name);
    assert(t.subrange(o6, o6 + 1) =~= c);
    lemma_find_from_is(t, b, 0, 0);
    lemma_no_brace_in(t, o1, o2, name);
    lemma_find_from_is(t, c, o1, o2);
    assert forall|j: int| o3 <= j < o4 implies !occurs_at(t, j, e) by {
        assert(!occurs_at(be, j - o3, e));
        assert forall|x: int| 0 <= x < e.len() implies #[trigger] t.subrange(j, j + e.len())[x] == be.subrange(
            j - o3,
            j - o3 + e.len(),
        )[x] by {
            assert(t.subrange(o3, o5)[j - o3 + x] == t[j + x]);
        }
        assert(t.subrange(j, j + e.len()) =~= be.subrange(j - o3, j - o3 + e.len()));
    }
    lemma_find_from_is(t, e, o3, o4);
    lemma_no_brace_in(t, o5, o6, name);
    lemma_find_from_is(t, c, o5, o6);
    assert(t.subrange(o3, o3 + 2) =~= be.subrange(0, 2));
    assert(!occurs_at(t, o3, description_open()));
    assert(find_from(t, b, o6 + 1) is None);
    assert(regions_from(t, b, e, o6 + 1) =~= Seq::<TagSpan>::empty());
}

/// A region as matched in the text: begin name, optional description, body, end name.
#[derive(Debug, PartialEq, Eq)]
pub struct TagMatch {
    pub begin: String,
    pub comment: Option<String>,
    pub body: String,
    pub end: String,
}

/// The text of an optional range.
pub open spec fn opt_text(t: Seq<char>, r: Option<(int, int)>) -> Option<Seq<char>> {
    match r {
        Some((lo, hi)) => Some(t.subrange(lo, hi)),
        None => None,
    }
}

/// An optional string read as optional text.
pub open spec fn opt_view(o: Option<String>) -> Option<Seq<char>> {
    match o {
        Some(s) => Some(s@),
        None => None,
    }
}

impl TagMatch {
    /// This match holds the text of the parts that `r` locates in `t`.
    pub open spec fn reads(&self, t: Seq<char>, r: TagSpan) -> bool {
        &&& self.begin@ == t.subrange(r.begin_lo, r.begin_hi)
        &&& opt_view(self.comment) == opt_text(t, r.comment)
        &&& self.body@ == t.subrange(r.body_lo, r.body_hi)
        &&& self.end@ == t.subrange(r.end_lo, r.end_hi)
    }
}

/// The markers of one kind of region, as characters.
fn markers(inactive: bool) -> (r: (Vec<char>, Vec<char>))
    ensures
        r.0@ == begin_marker(inactive),
        r.1@ == end_marker(inactive),
        r.1@.len() > 0,
{
    proof {
        reveal_strlit("// _SNIPPET:END {");
        reveal_strlit("// SNIPPET:END {");
    }
    if inactive {
        (chars_of("// _SNIPPET:BEGIN {"), chars_of("// _SNIPPET:END {"))
    } else {
        (chars_of("// SNIPPET:BEGIN {"), chars_of("// SNIPPET:END {"))
    }
}

/// Where the parts of a matched region lie, as executable positions.
struct Span {
    begin_lo: usize,
    begin_hi: usize,
    comment: Option<(usize, usize)>,
    body_lo: usize,
    body_hi: usize,
    end_lo: usize,
    end_hi: usize,
}

impl View for Span {
    type V = TagSpan;

    closed spec fn view(&self) -> TagSpan {
        TagSpan {
            begin_lo: self.begin_lo as int,
            begin_hi: self.begin_hi as int,
            comment: match self.comment {
                Some((lo, hi)) => Some((lo as int, hi as int)),
                None => None,
            },
            body_lo: self.body_lo as int,
            body_hi: self.body_hi as int,
            end_lo: self.end_lo as int,
            end_hi: self.end_hi as int,
        }
    }
}

fn end_tag(t: &Vec<char>, e: &Vec<char>, from: usize) -> (r: Option<(usize, usize)>)
    ensures
        match r {
            Some((m, q)) => end_tag_from(t@, e@, from as int) == Some((m as int, q as int)),
            None => end_tag_from(t@, e@, from as int) is None,
        },
{
    let len = t.len();
    let close = vec!['}'];
    assert(close@ =~= close_brace());
    match find(t, e, from) {
        Some(m) => match find(t, &close, m + e.len()) {
            Some(q) => Some((m, q)),
            None => None,
        },
        None => None,
    }
}

fn find_region(t: &Vec<char>, b: &Vec<char>, e: &Vec<char>, s: usize) -> (r: Option<Span>)
    requires
        s + b@.len() <= t@.len(),
    ensures
        match r {
            Some(sp) => region_at(t@, b@, e@, s as int) == Some(sp@),
            None => region_at(t@, b@, e@, s as int) is None,
        },
{
    let close = vec!['}'];
    assert(close@ =~= close_brace());
    let open = vec!['$', '{'];
    assert(open@ =~= description_open());
    let len = t.len();
    let nb = s + b.len();
    let p = match find(t, &close, nb) {
        Some(p) => p,
        None => return None,
    };
    let (m, q) = match end_tag(t, e, p + 1) {
        Some(mq) => mq,
        None => return None,
    };
    if matches_at(t, p + 1, &open) {
        if let Some(c) = find(t, &close, p + 3) {
            if let Some((m2, q2)) = end_tag(t, e, c + 1) {
                proof {
                    lemma_find_from(t@, e@, c + 1);
                }
                return Some(
                    Span {
                        begin_lo: nb,
                        begin_hi: p,
                        comment: Some((p + 3, c)),
                        body_lo: c + 1,
                        body_hi: m2,
                        end_lo: m2 + e.len(),
                        end_hi: q2,
                    },
                );
            }
        }
    }
    proof {
        lemma_find_from(t@, e@, p + 1);
    }
    Some(
        Span {
            begin_lo: nb,
            begin_hi: p,
            comment: None,
            body_lo: p + 1,
            body_hi: m,
            end_lo: m + e.len(),
            end_hi: q,
        },
    )
}

/// The text of an optional span, as an owned string.
fn opt_substring(text: &str, r: Option<(usize, usize)>) -> (o: Option<String>)
    requires
        r matches Some((lo, hi)) ==> lo <= hi <= text@.len(),
    ensures
        opt_view(o) == opt_text(
            text@,
            match r {
                Some((lo, hi)) => Some((lo as int, hi as int)),
                None => None,
            },
        ),
{
    match r {
        Some((lo, hi)) => Some(text.substring_char(lo, hi).to_owned()),
        None => None,
    }
}

/// Every region of one kind in `text`, in the order in which the scan meets them.
pub fn scan_regions(text: &str, inactive: bool) -> (r: Vec<TagMatch>)
    ensures
        r@.len() == regions(text@, inactive).len(),
        forall|i: int| 0 <= i < r@.len() ==> r@[i].reads(text@, #[trigger] regions(text@, inactive)[i]),
{
    let t = chars_of(text);
    let (b, e) = markers(inactive);
    let len = t.len();
    let mut out: Vec<TagMatch> = Vec::new();
    let ghost mut done: Seq<TagSpan> = Seq::empty();
    let mut pos: usize = 0;
    assert(done + regions_from(t@, b@, e@, 0) =~= regions_from(t@, b@, e@, 0));
    loop
        invariant
            pos <= len,
            len == t@.len(),
            t@ == text@,
            b@ == begin_marker(inactive),
            e@ == end_marker(inactive),
            e@.len() > 0,
            regions(text@, inactive) == done + regions_from(t@, b@, e@, pos as int),
            out@.len() == done.len(),
            forall|i: int| 0 <= i < done.len() ==> out@[i].reads(text@, done[i]),
        decreases len - pos,
    {
        let s = match find(&t, &b, pos) {
            Some(s) => s,
            None => {
                assert(done + regions_from(t@, b@, e@, pos as int) =~= done);
                return out;
            },
        };
        let sp = match find_region(&t, &b, &e, s) {
            Some(sp) => sp,
            None => {
                assert(done + regions_from(t@, b@, e@, pos as int) =~= done);
                return out;
            },
        };
        proof {
            lemma_region_at_ordered(t@, b@, e@, s as int);
        }
        let m = TagMatch {
            begin: text.substring_char(sp.begin_lo, sp.begin_hi).to_owned(),
            comment: opt_substring(text, sp.comment),
            body: text.substring_char(sp.body_lo, sp.body_hi).to_owned(),
            end: text.substring_char(sp.end_lo, sp.end_hi).to_owned(),
        };
        out.push(m);
        let ghost rest = regions_from(t@, b@, e@, sp.end_hi + 1);
        proof {
            assert(regions_from(t@, b@, e@, pos as int) == seq![sp@] + rest);
            assert(done + (seq![sp@] + rest) =~= done.push(sp@) + rest);
            done = done.push(sp@);
        }
        pos = sp.end_hi + 1;
    }
}

} // verus!
