//! Reconciliation: the sightings of all scanners merged into one record per name.
use vstd::prelude::*;
use crate::inclusion::{included_names, scan_inclusions};
use crate::snippet::{
    begin_name, end_name, region_result, region_snippet, source_snippets, ErrorView, Snippet,
    SnippetError, SnippetView,
};
use crate::extract::planned;
use crate::store::{apply, apply_all, lists_exactly, sorted_by_name, Sighting, SnippetStore};
use crate::tags::{opt_view, regions, TagSpan};
use crate::text::chars_of;

verus! {

/// The name that `std::path::Path::file_stem` gives a path: the file name without its
/// last extension, or none where the path has no file name.
pub uninterp spec fn path_stem(path: Seq<char>) -> Option<Seq<char>>;

/// Relies on `std::path::Path::file_stem` (and the lossless `OsStr::to_str` of a
/// stem taken from a `str`): the result depends on the path alone.
#[verifier::external_body]
fn file_stem(path: &str) -> (r: Option<String>)
    ensures
        opt_view(r) == path_stem(path@),
{
    match std::path::Path::new(path).file_stem() {
        Some(stem) => stem.to_str().map(|s| s.to_owned()),
        None => None,
    }
}

/// The snippet name that the path of a snippet file gives: none for a path that ends
/// in a separator (it names a directory), else the stem of the path.
pub open spec fn snippet_stem(path: Seq<char>) -> Option<Seq<char>> {
    if path.len() > 0 && path.last() == '/' {
        None
    } else {
        path_stem(path)
    }
}

/// The snippet name of an extracted snippet file: the stem of its path.
pub fn snippet_name_from_file(path: &str) -> (r: Result<String, SnippetError>)
    ensures
        snippet_stem(path@) matches Some(n) ==> (r matches Ok(s) && s@ == n),
        snippet_stem(path@) is None ==> (r matches Err(SnippetError::NoFileStem { path: p }) && p@
            == path@),
{
    let chars = chars_of(path);
    if chars.len() > 0 && chars[chars.len() - 1] == '/' {
        return Err(SnippetError::NoFileStem { path: path.to_owned() });
    }
    match file_stem(path) {
        Some(name) => Ok(name),
        None => Err(SnippetError::NoFileStem { path: path.to_owned() }),
    }
}

/// The sightings that the first `rs` regions of a source file give: one for each
/// region whose tags carry the same name, in order.
pub open spec fn matched_sightings(t: Seq<char>, file: Seq<char>, inactive: bool, rs: Seq<TagSpan>) -> Seq<Sighting>
    decreases rs.len(),
{
    if rs.len() == 0 {
        Seq::empty()
    } else {
        let prev = matched_sightings(t, file, inactive, rs.drop_last());
        let r = rs.last();
        if begin_name(t, r) == end_name(t, r) {
            prev.push(Sighting::Region(region_snippet(t, r, file, inactive)))
        } else {
            prev
        }
    }
}

/// The mismatch errors that the regions `rs` of a source file give, in order.
pub open spec fn mismatches_in(t: Seq<char>, file: Seq<char>, rs: Seq<TagSpan>) -> Seq<ErrorView>
    decreases rs.len(),
{
    if rs.len() == 0 {
        Seq::empty()
    } else {
        let prev = mismatches_in(t, file, rs.drop_last());
        let r = rs.last();
        if begin_name(t, r) == end_name(t, r) {
            prev
        } else {
            prev.push(
                ErrorView::MismatchedTag {
                    begin: begin_name(t, r),
                    end: end_name(t, r),
                    file: Some(file),
                },
            )
        }
    }
}

/// The sightings of one kind of region in source files given as (path, text) pairs.
pub open spec fn source_sightings(files: Seq<(Seq<char>, Seq<char>)>, inactive: bool) -> Seq<Sighting>
    decreases files.len(),
{
    if files.len() == 0 {
        Seq::empty()
    } else {
        let f = files.last();
        source_sightings(files.drop_last(), inactive) + matched_sightings(f.1, f.0, inactive, regions(f.1, inactive))
    }
}

/// The mismatches of one kind of region in source files.
pub open spec fn source_mismatches(files: Seq<(Seq<char>, Seq<char>)>, inactive: bool) -> Seq<ErrorView>
    decreases files.len(),
{
    if files.len() == 0 {
        Seq::empty()
    } else {
        let f = files.last();
        source_mismatches(files.drop_last(), inactive) + mismatches_in(f.1, f.0, regions(f.1, inactive))
    }
}

/// The inclusion sightings of the given document texts.
pub open spec fn document_sightings(docs: Seq<Seq<char>>) -> Seq<Sighting>
    decreases docs.len(),
{
    if docs.len() == 0 {
        Seq::empty()
    } else {
        document_sightings(docs.drop_last()) + included_names(docs.last()).map_values(
            |n: Seq<char>| Sighting::Inclusion(n),
        )
    }
}

/// The sightings of extracted snippet files with the given paths (those with a stem).
pub open spec fn file_sightings(paths: Seq<Seq<char>>) -> Seq<Sighting>
    decreases paths.len(),
{
    if paths.len() == 0 {
        Seq::empty()
    } else {
        let prev = file_sightings(paths.drop_last());
        match snippet_stem(paths.last()) {
            Some(n) => prev.push(Sighting::File(n)),
            None => prev,
        }
    }
}

/// The errors for the paths among `paths` that give no snippet name.
pub open spec fn stem_problems(paths: Seq<Seq<char>>) -> Seq<ErrorView>
    decreases paths.len(),
{
    if paths.len() == 0 {
        Seq::empty()
    } else {
        let prev = stem_problems(paths.drop_last());
        match snippet_stem(paths.last()) {
            Some(_) => prev,
            None => prev.push(ErrorView::NoFileStem { path: paths.last() }),
        }
    }
}

/// Every sighting of one run, in the order of processing: active regions of all source
/// files, inactive regions of all source files, inclusions, extracted files.
pub open spec fn all_sightings(
    files: Seq<(Seq<char>, Seq<char>)>,
    docs: Seq<Seq<char>>,
    paths: Seq<Seq<char>>,
) -> Seq<Sighting> {
    source_sightings(files, false) + source_sightings(files, true) + document_sightings(docs)
        + file_sightings(paths)
}

/// The records that one run produces.
pub open spec fn reconciled(
    files: Seq<(Seq<char>, Seq<char>)>,
    docs: Seq<Seq<char>>,
    paths: Seq<Seq<char>>,
) -> Map<Seq<char>, SnippetView> {
    apply_all(Map::empty(), all_sightings(files, docs, paths))
}

/// No sighting among `ss` is a region.
pub open spec fn no_regions(ss: Seq<Sighting>) -> bool {
    forall|i: int| 0 <= i < ss.len() ==> !(#[trigger] ss[i] is Region)
}

/// What a source region decides of a record: everything but the document and file flags.
pub open spec fn source_part(v: SnippetView) -> (Seq<char>, Option<Seq<char>>, Option<Seq<char>>, Option<Seq<char>>, bool, bool) {
    (v.name, v.content, v.source_file, v.comment, v.active, v.source)
}

proof fn lemma_no_regions_keep_source(m: Map<Seq<char>, SnippetView>, ss: Seq<Sighting>, n: Seq<char>)
    requires
        no_regions(ss),
        forall|k: Seq<char>| #[trigger] m.contains_key(k) ==> m[k].name == k,
    ensures
        m.contains_key(n) ==> apply_all(m, ss).contains_key(n) && source_part(apply_all(m, ss)[n])
            == source_part(m[n]),
        !m.contains_key(n) && apply_all(m, ss).contains_key(n) ==> !apply_all(m, ss)[n].source
            && apply_all(m, ss)[n].name == n,
    decreases ss.len(),
{
    if ss.len() > 0 {
        assert(no_regions(ss.drop_last()));
        lemma_no_regions_keep_source(m, ss.drop_last(), n);
        assert(!(ss[ss.len() - 1] is Region));
    }
}

proof fn lemma_scanned_no_regions(docs: Seq<Seq<char>>, paths: Seq<Seq<char>>)
    ensures
        no_regions(document_sightings(docs) + file_sightings(paths)),
{
    lemma_documents_no_regions(docs);
    lemma_files_no_regions(paths);
    let c = document_sightings(docs);
    let d = file_sightings(paths);
    assert forall|i: int| 0 <= i < (c + d).len() implies !(#[trigger] (c + d)[i] is Region) by {
        if i < c.len() {
            assert((c + d)[i] == c[i]);
        } else {
            assert((c + d)[i] == d[i - c.len()]);
        }
    }
}

proof fn lemma_documents_no_regions(docs: Seq<Seq<char>>)
    ensures
        no_regions(document_sightings(docs)),
    decreases docs.len(),
{
    if docs.len() > 0 {
        lemma_documents_no_regions(docs.drop_last());
        let c = document_sightings(docs.drop_last());
        let e = included_names(docs.last()).map_values(|n: Seq<char>| Sighting::Inclusion(n));
        assert forall|i: int| 0 <= i < (c + e).len() implies !(#[trigger] (c + e)[i] is Region) by {
            if i < c.len() {
                assert((c + e)[i] == c[i]);
            } else {
                assert((c + e)[i] == e[i - c.len()]);
            }
        }
    }
}

proof fn lemma_files_no_regions(paths: Seq<Seq<char>>)
    ensures
        no_regions(file_sightings(paths)),
    decreases paths.len(),
{
    if paths.len() > 0 {
        lemma_files_no_regions(paths.drop_last());
    }
}

proof fn lemma_names_are_keys(m: Map<Seq<char>, SnippetView>, ss: Seq<Sighting>)
    requires
        forall|k: Seq<char>| #[trigger] m.contains_key(k) ==> m[k].name == k,
    ensures
        forall|k: Seq<char>| #[trigger] apply_all(m, ss).contains_key(k) ==> apply_all(m, ss)[k].name == k,
    decreases ss.len(),
{
    if ss.len() > 0 {
        lemma_names_are_keys(m, ss.drop_last());
    }
}

/// What extraction does for a snippet depends on the source files alone: runs over the
/// same source files, with any documents and any extracted files, plan the same step
/// for every snippet seen in a source file. So after an extraction, a second run
/// writes the same content for every active snippet.
pub proof fn lemma_plan_depends_on_sources_only(
    files: Seq<(Seq<char>, Seq<char>)>,
    docs1: Seq<Seq<char>>,
    paths1: Seq<Seq<char>>,
    docs2: Seq<Seq<char>>,
    paths2: Seq<Seq<char>>,
    n: Seq<char>,
)
    requires
        reconciled(files, docs1, paths1).contains_key(n),
        reconciled(files, docs1, paths1)[n].source,
    ensures
        reconciled(files, docs2, paths2).contains_key(n),
        planned(reconciled(files, docs1, paths1)[n]) == planned(reconciled(files, docs2, paths2)[n]),
{
    let m0 = Map::<Seq<char>, SnippetView>::empty();
    let srcs = source_sightings(files, false) + source_sightings(files, true);
    let ms = apply_all(m0, srcs);
    lemma_names_are_keys(m0, srcs);
    let rest1 = document_sightings(docs1) + file_sightings(paths1);
    let rest2 = document_sightings(docs2) + file_sightings(paths2);
    assert(all_sightings(files, docs1, paths1) =~= srcs + rest1);
    assert(all_sightings(files, docs2, paths2) =~= srcs + rest2);
    lemma_apply_all_concat(m0, srcs, rest1);
    lemma_apply_all_concat(m0, srcs, rest2);
    lemma_scanned_no_regions(docs1, paths1);
    lemma_scanned_no_regions(docs2, paths2);
    lemma_no_regions_keep_source(ms, rest1, n);
    lemma_no_regions_keep_source(ms, rest2, n);
}

pub proof fn lemma_apply_all_concat(m: Map<Seq<char>, SnippetView>, a: Seq<Sighting>, b: Seq<Sighting>)
    ensures
        apply_all(m, a + b) == apply_all(apply_all(m, a), b),
    decreases b.len(),
{
    if b.len() == 0 {
        assert(a + b =~= a);
    } else {
        assert((a + b).drop_last() =~= a + b.drop_last());
        lemma_apply_all_concat(m, a, b.drop_last());
    }
}

pub proof fn lemma_apply_all_push(m: Map<Seq<char>, SnippetView>, a: Seq<Sighting>, x: Sighting)
    ensures
        apply_all(m, a.push(x)) == apply(apply_all(m, a), x),
{
    assert(a.push(x).drop_last() =~= a);
}

/// Merges the regions of one kind found in a source file into `store`, and returns the
/// mismatched regions, in the order of the text.
pub fn record_source_file(store: &mut SnippetStore, text: &str, file: &str, inactive: bool) -> (r: Vec<SnippetError>)
    requires
        old(store).wf(),
    ensures
        final(store).wf(),
        final(store)@ == apply_all(old(store)@, matched_sightings(text@, file@, inactive, regions(text@, inactive))),
        r.deep_view() == mismatches_in(text@, file@, regions(text@, inactive)),
{
    let ghost rs = regions(text@, inactive);
    let ghost start = store@;
    let mut results = source_snippets(text, file, inactive);
    let ghost orig = results@;
    let n = results.len();
    let mut errs: Vec<SnippetError> = Vec::new();
    assert(rs.take(0) =~= Seq::<TagSpan>::empty());
    for k in 0..n
        invariant
            n == rs.len(),
            orig.len() == n,
            forall|i: int| 0 <= i < n ==> region_result(text@, #[trigger] rs[i], file@, inactive, orig[i]),
            results@ == orig.skip(k as int),
            store.wf(),
            store@ == apply_all(start, matched_sightings(text@, file@, inactive, rs.take(k as int))),
            errs.deep_view() == mismatches_in(text@, file@, rs.take(k as int)),
    {
        let res = results.remove(0);
        assert(res == orig[k as int]);
        assert(results@ =~= orig.skip(k + 1));
        let ghost rk = rs[k as int];
        assert(rs.take(k + 1).drop_last() =~= rs.take(k as int));
        assert(rs.take(k + 1).last() == rk);
        assert(region_result(text@, rk, file@, inactive, res));
        match res {
            Ok(sn) => {
                let ghost prev = matched_sightings(text@, file@, inactive, rs.take(k as int));
                store.record_region(sn);
                proof {
                    lemma_apply_all_push(start, prev, Sighting::Region(region_snippet(text@, rk, file@, inactive)));
                    assert(mismatches_in(text@, file@, rs.take(k + 1)) == mismatches_in(text@, file@, rs.take(k as int)));
                }
            },
            Err(e) => {
                let ghost mm = mismatches_in(text@, file@, rs.take(k as int));
                assert(matched_sightings(text@, file@, inactive, rs.take(k + 1)) == matched_sightings(text@, file@, inactive, rs.take(k as int)));
                assert(mismatches_in(text@, file@, rs.take(k + 1)) == mm.push(e@));
                let ghost old_errs = errs.deep_view();
                errs.push(e);
                assert(errs.deep_view() =~= old_errs.push(e@));
            },
        }
    }
    assert(rs.take(n as int) =~= rs);
    errs
}

/// Merges the inclusions of one document into `store`.
pub fn record_document(store: &mut SnippetStore, text: &str)
    requires
        old(store).wf(),
    ensures
        final(store).wf(),
        final(store)@ == apply_all(
            old(store)@,
            included_names(text@).map_values(|n: Seq<char>| Sighting::Inclusion(n)),
        ),
{
    let ghost start = store@;
    let ghost names = included_names(text@);
    let found = scan_inclusions(text);
    assert(names.take(0).map_values(|n: Seq<char>| Sighting::Inclusion(n)) =~= Seq::<Sighting>::empty());
    for k in 0..found.len()
        invariant
            found@.len() == names.len(),
            forall|i: int| 0 <= i < found@.len() ==> found@[i]@ == #[trigger] names[i],
            store.wf(),
            store@ == apply_all(start, names.take(k as int).map_values(|n: Seq<char>| Sighting::Inclusion(n))),
    {
        let ghost prev = names.take(k as int).map_values(|n: Seq<char>| Sighting::Inclusion(n));
        assert(names.take(k + 1).map_values(|n: Seq<char>| Sighting::Inclusion(n)) =~= prev.push(
            Sighting::Inclusion(names[k as int]),
        ));
        store.record_inclusion(found[k].clone());
        proof {
            lemma_apply_all_push(start, prev, Sighting::Inclusion(names[k as int]));
        }
    }
    assert(names.take(found@.len() as int) =~= names);
}

/// Merges one extracted snippet file into `store`, named by the stem of its path.
pub fn record_snippet_file(store: &mut SnippetStore, path: &str) -> (r: Result<(), SnippetError>)
    requires
        old(store).wf(),
    ensures
        final(store).wf(),
        final(store)@ == apply_all(old(store)@, file_sightings(seq![path@])),
        snippet_stem(path@) is Some <==> r is Ok,
        r matches Err(e) ==> (e matches SnippetError::NoFileStem { path: p } && p@ == path@),
{
    let ghost start = store@;
    assert(seq![path@].drop_last() =~= Seq::<Seq<char>>::empty());
    assert(seq![path@].last() == path@);
    assert(file_sightings(Seq::<Seq<char>>::empty()) == Seq::<Sighting>::empty());
    match snippet_name_from_file(path) {
        Ok(name) => {
            let ghost x = Sighting::File(name@);
            store.record_file(name);
            proof {
                assert(file_sightings(seq![path@]) =~= Seq::<Sighting>::empty().push(x));
                lemma_apply_all_push(start, Seq::empty(), x);
            }
            Ok(())
        },
        Err(e) => {
            assert(file_sightings(seq![path@]) =~= Seq::<Sighting>::empty());
            Err(e)
        },
    }
}

/// Merges the regions of one kind of all source files, given as (path, text) pairs.
pub fn record_sources(store: &mut SnippetStore, sources: &Vec<(String, String)>, inactive: bool) -> (r: Vec<SnippetError>)
    requires
        old(store).wf(),
    ensures
        final(store).wf(),
        final(store)@ == apply_all(old(store)@, source_sightings(sources.deep_view(), inactive)),
        r.deep_view() == source_mismatches(sources.deep_view(), inactive),
{
    let ghost files = sources.deep_view();
    let ghost start = store@;
    let mut errs: Vec<SnippetError> = Vec::new();
    assert(files.take(0) =~= Seq::<(Seq<char>, Seq<char>)>::empty());
    assert(errs.deep_view() =~= Seq::<ErrorView>::empty());
    for k in 0..sources.len()
        invariant
            files == sources.deep_view(),
            store.wf(),
            store@ == apply_all(start, source_sightings(files.take(k as int), inactive)),
            errs.deep_view() == source_mismatches(files.take(k as int), inactive),
    {
        let (path, text) = &sources[k];
        assert(files[k as int] == (path@, text@));
        assert(files.take(k + 1).drop_last() =~= files.take(k as int));
        let ghost before = source_sightings(files.take(k as int), inactive);
        let found = record_source_file(store, text.as_str(), path.as_str(), inactive);
        proof {
            lemma_apply_all_concat(start, before, matched_sightings(text@, path@, inactive, regions(text@, inactive)));
        }
        let ghost old_errs = errs.deep_view();
        let mut more = found;
        errs.append(&mut more);
        assert(errs.deep_view() =~= old_errs + found.deep_view());
    }
    assert(files.take(sources@.len() as int) =~= files);
    errs
}

/// Merges the inclusions of all document texts.
pub fn record_documents(store: &mut SnippetStore, documents: &Vec<String>)
    requires
        old(store).wf(),
    ensures
        final(store).wf(),
        final(store)@ == apply_all(old(store)@, document_sightings(documents.deep_view())),
{
    let ghost docs = documents.deep_view();
    let ghost start = store@;
    assert(docs.take(0) =~= Seq::<Seq<char>>::empty());
    for k in 0..documents.len()
        invariant
            docs == documents.deep_view(),
            store.wf(),
            store@ == apply_all(start, document_sightings(docs.take(k as int))),
    {
        assert(docs.take(k + 1).drop_last() =~= docs.take(k as int));
        let ghost before = document_sightings(docs.take(k as int));
        record_document(store, documents[k].as_str());
        proof {
            lemma_apply_all_concat(
                start,
                before,
                included_names(docs[k as int]).map_values(|n: Seq<char>| Sighting::Inclusion(n)),
            );
        }
    }
    assert(docs.take(documents@.len() as int) =~= docs);
}

/// Merges all extracted snippet files, given by path; returns an error for each path
/// that gives no name, in order.
pub fn record_snippet_files(store: &mut SnippetStore, paths: &Vec<String>) -> (r: Vec<SnippetError>)
    requires
        old(store).wf(),
    ensures
        final(store).wf(),
        final(store)@ == apply_all(old(store)@, file_sightings(paths.deep_view())),
        r.deep_view() == stem_problems(paths.deep_view()),
{
    let ghost ps = paths.deep_view();
    let ghost start = store@;
    let mut errs: Vec<SnippetError> = Vec::new();
    assert(ps.take(0) =~= Seq::<Seq<char>>::empty());
    assert(errs.deep_view() =~= Seq::<ErrorView>::empty());
    for k in 0..paths.len()
        invariant
            ps == paths.deep_view(),
            store.wf(),
            store@ == apply_all(start, file_sightings(ps.take(k as int))),
            errs.deep_view() == stem_problems(ps.take(k as int)),
    {
        let ghost p = ps[k as int];
        assert(ps.take(k + 1).drop_last() =~= ps.take(k as int));
        assert(ps.take(k + 1).last() == p);
        let ghost before = file_sightings(ps.take(k as int));
        let ghost mid = store@;
        let res = record_snippet_file(store, paths[k].as_str());
        assert(seq![p].drop_last() =~= Seq::<Seq<char>>::empty());
        assert(file_sightings(Seq::<Seq<char>>::empty()) == Seq::<Sighting>::empty());
        match res {
            Ok(()) => {
                proof {
                    let x = Sighting::File(snippet_stem(p)->0);
                    assert(file_sightings(seq![p]) =~= seq![x]);
                    assert(file_sightings(ps.take(k + 1)) == before.push(x));
                    lemma_apply_all_push(start, before, x);
                    assert(seq![x] =~= Seq::<Sighting>::empty().push(x));
                    lemma_apply_all_push(mid, Seq::<Sighting>::empty(), x);
                }
            },
            Err(e) => {
                proof {
                    assert(file_sightings(seq![p]) =~= Seq::<Sighting>::empty());
                    assert(file_sightings(ps.take(k + 1)) == before);
                }
                let ghost old_errs = errs.deep_view();
                errs.push(e);
                assert(errs.deep_view() =~= old_errs.push(ErrorView::NoFileStem { path: p }));
            },
        }
    }
    assert(ps.take(paths@.len() as int) =~= ps);
    errs
}

/// The outcome of one reconciliation run.
pub struct Reconciliation {
    /// One record per snippet name, in strictly increasing name order.
    pub snippets: Vec<Snippet>,
    /// The problems met on the way, in the order of processing.
    pub problems: Vec<SnippetError>,
}

/// Reconciles source files (path, text), document texts and extracted snippet file
/// paths: active regions first, then inactive regions, then inclusions, then files.
pub fn reconcile(sources: &Vec<(String, String)>, documents: &Vec<String>, snippet_files: &Vec<String>) -> (r: Reconciliation)
    ensures
        sorted_by_name(r.snippets@),
        lists_exactly(
            r.snippets@,
            reconciled(sources.deep_view(), documents.deep_view(), snippet_files.deep_view()),
        ),
        r.problems.deep_view() == source_mismatches(sources.deep_view(), false) + source_mismatches(
            sources.deep_view(),
            true,
        ) + stem_problems(snippet_files.deep_view()),
{
    let ghost files = sources.deep_view();
    let ghost a = source_sightings(files, false);
    let ghost b = source_sightings(files, true);
    let ghost c = document_sightings(documents.deep_view());
    let ghost d = file_sightings(snippet_files.deep_view());
    let mut store = SnippetStore::new();
    let mut problems = record_sources(&mut store, sources, false);
    let mut more = record_sources(&mut store, sources, true);
    let ghost p1 = problems.deep_view();
    let ghost p2 = more.deep_view();
    problems.append(&mut more);
    assert(problems.deep_view() =~= p1 + p2);
    record_documents(&mut store, documents);
    let mut unnamed = record_snippet_files(&mut store, snippet_files);
    let ghost p3 = unnamed.deep_view();
    problems.append(&mut unnamed);
    assert(problems.deep_view() =~= p1 + p2 + p3);
    proof {
        let m0 = Map::<Seq<char>, SnippetView>::empty();
        lemma_apply_all_concat(m0, a, b);
        lemma_apply_all_concat(m0, a + b, c);
        lemma_apply_all_concat(m0, a + b + c, d);
    }
    Reconciliation { snippets: store.into_sorted(), problems }
}

} // verus!
