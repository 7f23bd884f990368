//! The extraction policy: which snippet files to write, how, and what to report.
//!
//! A snippet seen in no source file cannot be extracted. An active snippet's file is
//! overwritten unconditionally; an inactive snippet's file is only created, never
//! replaced. Every snippet is planned on its own, so one failure touches no other.
use vstd::prelude::*;
use crate::snippet::{Snippet, SnippetView};
use crate::store::sorted_by_name;
use crate::text::{lemma_text_lt_irreflexive, text_lt};

verus! {

broadcast use vstd::string::group_string_axioms;

/// How a snippet file is opened for writing.
#[derive(PartialEq, Eq, Structural, Clone, Copy, Debug)]
pub enum WriteMode {
    /// Create the file, or truncate and overwrite it.
    Overwrite,
    /// Create the file; fail if it exists already.
    CreateNew,
}

/// What extraction does for one snippet.
#[derive(Debug, PartialEq, Eq)]
pub enum ExtractionStep {
    /// The snippet has no source region: nothing is written.
    NoSource { name: String },
    /// Write `content` to the file `file_name` in the target directory.
    Write { name: String, file_name: String, mode: WriteMode, content: String, empty: bool },
}

/// The mathematical value of an extraction step.
pub enum StepView {
    NoSource { name: Seq<char> },
    Write { name: Seq<char>, file_name: Seq<char>, mode: WriteMode, content: Seq<char>, empty: bool },
}

impl View for ExtractionStep {
    type V = StepView;

    open spec fn view(&self) -> StepView {
        match self {
            ExtractionStep::NoSource { name } => StepView::NoSource { name: name@ },
            ExtractionStep::Write { name, file_name, mode, content, empty } => StepView::Write {
                name: name@,
                file_name: file_name@,
                mode: *mode,
                content: content@,
                empty: *empty,
            },
        }
    }
}

impl DeepView for ExtractionStep {
    type V = StepView;

    open spec fn deep_view(&self) -> StepView {
        self@
    }
}

/// The extension of extracted snippet files.
pub open spec fn snippet_extension() -> Seq<char> {
    ".cpp"@
}

/// The file name under which the snippet `name` is extracted.
pub open spec fn file_name_of(name: Seq<char>) -> Seq<char> {
    name + snippet_extension()
}

/// What extraction does for a snippet.
pub open spec fn planned(s: SnippetView) -> StepView {
    if !s.source {
        StepView::NoSource { name: s.name }
    } else {
        StepView::Write {
            name: s.name,
            file_name: file_name_of(s.name),
            mode: if s.active {
                WriteMode::Overwrite
            } else {
                WriteMode::CreateNew
            },
            content: match s.content {
                Some(c) => c,
                None => Seq::empty(),
            },
            empty: s.content is None,
        }
    }
}

/// The file name under which the snippet `name` is extracted.
pub fn target_file_name(name: &str) -> (r: String)
    ensures
        r@ == file_name_of(name@),
{
    let mut r = name.to_owned();
    r.append(".cpp");
    r
}

/// The extraction step of one snippet.
pub fn plan_snippet(s: &Snippet) -> (r: ExtractionStep)
    ensures
        r@ == planned(s@),
{
    if !s.source {
        return ExtractionStep::NoSource { name: s.name.clone() };
    }
    let (content, empty) = match &s.content {
        Some(c) => (c.clone(), false),
        None => (String::new(), true),
    };
    ExtractionStep::Write {
        name: s.name.clone(),
        file_name: target_file_name(s.name.as_str()),
        mode: if s.active {
            WriteMode::Overwrite
        } else {
            WriteMode::CreateNew
        },
        content,
        empty,
    }
}

/// The extraction steps of the snippets, one per snippet in the same order.
pub fn plan_extraction(snippets: &Vec<Snippet>) -> (r: Vec<ExtractionStep>)
    ensures
        r@.len() == snippets@.len(),
        forall|i: int| 0 <= i < r@.len() ==> #[trigger] r@[i]@ == planned(snippets@[i]@),
{
    let mut r: Vec<ExtractionStep> = Vec::new();
    for k in 0..snippets.len()
        invariant
            r@.len() == k,
            forall|i: int| 0 <= i < k ==> #[trigger] r@[i]@ == planned(snippets@[i]@),
    {
        r.push(plan_snippet(&snippets[k]));
    }
    r
}

/// How performing a write step went.
#[derive(PartialEq, Eq, Structural, Clone, Copy, Debug)]
pub enum WriteOutcome {
    /// The file was opened and the content written.
    Written,
    /// The file could not be created because it exists already.
    AlreadyExists,
    /// Opening or writing failed otherwise.
    Failed,
}

/// What is reported for one snippet after extraction.
#[derive(PartialEq, Eq, Structural, Clone, Copy, Debug)]
pub enum Notice {
    /// No source region: the snippet cannot be extracted.
    NoSource,
    /// The content was written to the snippet file.
    Extracted,
    /// The snippet had no content: an empty file was written.
    EmptyFile,
    /// The snippet is inactive and its existing file was left untouched.
    InactiveKept,
    /// The file could not be written.
    WriteFailed,
}

/// The notice for a step and the outcome of performing it.
pub open spec fn notice_spec(step: StepView, outcome: WriteOutcome) -> Notice {
    match step {
        StepView::NoSource { .. } => Notice::NoSource,
        StepView::Write { mode, empty, .. } => match outcome {
            WriteOutcome::Written => if empty {
                Notice::EmptyFile
            } else {
                Notice::Extracted
            },
            WriteOutcome::AlreadyExists => if mode == WriteMode::CreateNew {
                Notice::InactiveKept
            } else {
                Notice::WriteFailed
            },
            WriteOutcome::Failed => Notice::WriteFailed,
        },
    }
}

/// The notice for a step, given how performing it went (ignored for a step that
/// writes nothing).
pub fn notice_for(step: &ExtractionStep, outcome: WriteOutcome) -> (r: Notice)
    ensures
        r == notice_spec(step@, outcome),
{
    match step {
        ExtractionStep::NoSource { .. } => Notice::NoSource,
        ExtractionStep::Write { mode, empty, .. } => match outcome {
            WriteOutcome::Written => if *empty {
                Notice::EmptyFile
            } else {
                Notice::Extracted
            },
            WriteOutcome::AlreadyExists => match mode {
                WriteMode::CreateNew => Notice::InactiveKept,
                WriteMode::Overwrite => Notice::WriteFailed,
            },
            WriteOutcome::Failed => Notice::WriteFailed,
        },
    }
}

/// A target directory after performing one step; the directory maps file names to
/// contents.
pub open spec fn perform(dir: Map<Seq<char>, Seq<char>>, step: StepView) -> Map<Seq<char>, Seq<char>> {
    match step {
        StepView::NoSource { .. } => dir,
        StepView::Write { file_name, mode, content, .. } => if mode == WriteMode::CreateNew
            && dir.contains_key(file_name) {
            dir
        } else {
            dir.insert(file_name, content)
        },
    }
}

/// A target directory after performing the steps in order.
pub open spec fn perform_all(dir: Map<Seq<char>, Seq<char>>, steps: Seq<StepView>) -> Map<Seq<char>, Seq<char>>
    decreases steps.len(),
{
    if steps.len() == 0 {
        dir
    } else {
        perform(perform_all(dir, steps.drop_last()), steps.last())
    }
}

/// How performing `step` on `dir` goes when no I/O error intervenes.
pub open spec fn outcome_on(dir: Map<Seq<char>, Seq<char>>, step: StepView) -> WriteOutcome {
    match step {
        StepView::Write { file_name, mode, .. } => if mode == WriteMode::CreateNew && dir.contains_key(
            file_name,
        ) {
            WriteOutcome::AlreadyExists
        } else {
            WriteOutcome::Written
        },
        StepView::NoSource { .. } => WriteOutcome::Written,
    }
}

/// The step writes the file `f`.
pub open spec fn writes(step: StepView, f: Seq<char>) -> bool {
    step matches StepView::Write { file_name, .. } && file_name == f
}

/// Snippets with pairwise distinct names.
pub open spec fn distinct_names(ss: Seq<SnippetView>) -> bool {
    forall|i: int, j: int| 0 <= i < ss.len() && 0 <= j < ss.len() && i != j ==> ss[i].name != ss[j].name
}

/// Snippets in strictly increasing name order, as reconciliation gives them, have
/// distinct names.
pub proof fn lemma_sorted_names_distinct(v: Seq<Snippet>)
    requires
        sorted_by_name(v),
    ensures
        distinct_names(v.map_values(|s: Snippet| s@)),
{
    let ss = v.map_values(|s: Snippet| s@);
    assert forall|i: int, j: int| 0 <= i < ss.len() && 0 <= j < ss.len() && i != j implies ss[i].name
        != ss[j].name by {
        lemma_text_lt_irreflexive(v[i].name@);
        if i < j {
            assert(text_lt(v[i].name@, v[j].name@));
        } else {
            assert(text_lt(v[j].name@, v[i].name@));
        }
    }
}

proof fn lemma_file_name_injective(a: Seq<char>, b: Seq<char>)
    requires
        file_name_of(a) == file_name_of(b),
    ensures
        a == b,
{
    assert(a =~= file_name_of(a).subrange(0, a.len() as int));
    assert(b =~= file_name_of(b).subrange(0, b.len() as int));
}

/// Only the step that writes a file decides it: with no such step the file is as it
/// was; with exactly one, it is as that step alone leaves it.
proof fn lemma_perform_all_at(dir: Map<Seq<char>, Seq<char>>, steps: Seq<StepView>, f: Seq<char>, i: int)
    requires
        -1 <= i < steps.len(),
        forall|j: int| 0 <= j < steps.len() && j != i ==> !writes(#[trigger] steps[j], f),
    ensures
        i == -1 ==> perform_all(dir, steps).contains_key(f) == dir.contains_key(f) && (dir.contains_key(f)
            ==> perform_all(dir, steps)[f] == dir[f]),
        i >= 0 ==> perform_all(dir, steps).contains_key(f) == perform(dir, steps[i]).contains_key(f)
            && (perform(dir, steps[i]).contains_key(f) ==> perform_all(dir, steps)[f] == perform(
            dir,
            steps[i],
        )[f]),
    decreases steps.len(),
{
    if steps.len() > 0 {
        let prev = steps.drop_last();
        let last = steps.len() - 1;
        if i == last {
            lemma_perform_all_at(dir, prev, f, -1);
        } else {
            lemma_perform_all_at(dir, prev, f, i);
            assert(!writes(steps[last], f));
        }
    }
}

/// The extraction policy. For snippets with distinct names, performing their steps
/// writes the content of each active snippet seen in a source file, leaves the
/// existing file of each inactive one untouched (and reports that), and writes nothing
/// for a snippet seen in no source file; what becomes of each snippet's file is what
/// its own step alone would make of it, whatever its siblings do.
pub proof fn lemma_extraction_policy(ss: Seq<SnippetView>, dir: Map<Seq<char>, Seq<char>>, i: int)
    requires
        distinct_names(ss),
        0 <= i < ss.len(),
    ensures
        ({
            let steps = ss.map_values(|s: SnippetView| planned(s));
            let f = file_name_of(ss[i].name);
            let after = perform_all(dir, steps);
            &&& after.contains_key(f) == perform(dir, steps[i]).contains_key(f)
            &&& after.contains_key(f) ==> after[f] == perform(dir, steps[i])[f]
            &&& ss[i].source && ss[i].active ==> after.contains_key(f) && after[f] == steps[i]->Write_content
            &&& ss[i].source && !ss[i].active && dir.contains_key(f) ==> after[f] == dir[f]
                && notice_spec(steps[i], outcome_on(dir, steps[i])) == Notice::InactiveKept
            &&& !ss[i].source ==> after.contains_key(f) == dir.contains_key(f) && (dir.contains_key(f)
                ==> after[f] == dir[f])
        }),
{
    let steps = ss.map_values(|s: SnippetView| planned(s));
    let f = file_name_of(ss[i].name);
    assert forall|j: int| 0 <= j < steps.len() && j != i implies !writes(#[trigger] steps[j], f) by {
        if writes(steps[j], f) {
            lemma_file_name_injective(ss[j].name, ss[i].name);
        }
    }
    if ss[i].source {
        lemma_perform_all_at(dir, steps, f, i);
    } else {
        assert(!writes(steps[i], f));
        lemma_perform_all_at(dir, steps, f, -1);
    }
}

proof fn lemma_idempotent_at(ss: Seq<SnippetView>, dir: Map<Seq<char>, Seq<char>>, f: Seq<char>)
    requires
        distinct_names(ss),
    ensures
        ({
            let steps = ss.map_values(|s: SnippetView| planned(s));
            let once = perform_all(dir, steps);
            let twice = perform_all(once, steps);
            twice.contains_key(f) == once.contains_key(f) && (once.contains_key(f) ==> twice[f] == once[f])
        }),
{
    let steps = ss.map_values(|s: SnippetView| planned(s));
    let once = perform_all(dir, steps);
    if exists|i: int| 0 <= i < steps.len() && writes(steps[i], f) {
        let i = choose|i: int| 0 <= i < steps.len() && writes(steps[i], f);
        assert forall|j: int| 0 <= j < steps.len() && j != i implies !writes(#[trigger] steps[j], f) by {
            if writes(steps[j], f) {
                lemma_file_name_injective(ss[j].name, ss[i].name);
            }
        }
        lemma_perform_all_at(dir, steps, f, i);
        lemma_perform_all_at(once, steps, f, i);
    } else {
        lemma_perform_all_at(dir, steps, f, -1);
        lemma_perform_all_at(once, steps, f, -1);
    }
}

/// Extraction is idempotent: performing the steps of snippets with distinct names a
/// second time leaves the target directory as the first time left it.
pub proof fn lemma_extraction_idempotent(ss: Seq<SnippetView>, dir: Map<Seq<char>, Seq<char>>)
    requires
        distinct_names(ss),
    ensures
        ({
            let steps = ss.map_values(|s: SnippetView| planned(s));
            perform_all(perform_all(dir, steps), steps) == perform_all(dir, steps)
        }),
{
    let steps = ss.map_values(|s: SnippetView| planned(s));
    let once = perform_all(dir, steps);
    let twice = perform_all(once, steps);
    assert forall|f: Seq<char>| #[trigger] twice.contains_key(f) == once.contains_key(f) by {
        lemma_idempotent_at(ss, dir, f);
    }
    assert forall|f: Seq<char>| #[trigger] once.contains_key(f) implies twice[f] == once[f] by {
        lemma_idempotent_at(ss, dir, f);
    }
    assert(twice =~= once);
}

} // verus!
