use snipper::extract::{notice_for, plan_extraction, target_file_name, ExtractionStep, Notice, WriteMode, WriteOutcome};
use snipper::reconcile::{reconcile, Reconciliation};
use snipper::snippet::{Snippet, SnippetError};
use snipper::store::SnippetStore;

fn run(sources: &[(&str, &str)], documents: &[&str], files: &[&str]) -> Reconciliation {
    let sources: Vec<(String, String)> =
        sources.iter().map(|(p, t)| (p.to_string(), t.to_string())).collect();
    let documents: Vec<String> = documents.iter().map(|d| d.to_string()).collect();
    let files: Vec<String> = files.iter().map(|f| f.to_string()).collect();
    reconcile(&sources, &documents, &files)
}

fn flags(s: &Snippet) -> (bool, bool, bool, bool) {
    (s.active, s.source, s.latex, s.extracted)
}

#[test]
fn scenario_included_active_snippet() {
    let r = run(
        &[("src/a.cpp", "// SNIPPET:BEGIN {foo}\nint foo();\n// SNIPPET:END {foo}\n")],
        &["\\lstinputlisting[language=C++]{snippets/foo.cpp}\n"],
        &[],
    );
    assert_eq!(r.snippets.len(), 1);
    let foo = &r.snippets[0];
    assert_eq!(foo.name, "foo");
    assert_eq!(flags(foo), (true, true, true, false));
    assert!(r.problems.is_empty());
}

#[test]
fn scenario_mismatched_tags() {
    let r = run(&[("src/b.cpp", "// SNIPPET:BEGIN {bar}\nx\n// SNIPPET:END {baz}\n")], &[], &[]);
    assert!(r.snippets.is_empty());
    assert_eq!(r.problems.len(), 1);
    match &r.problems[0] {
        SnippetError::MismatchedTag { begin, end, file } => {
            assert_eq!(begin, "bar");
            assert_eq!(end, "baz");
            assert_eq!(file.as_deref(), Some("src/b.cpp"));
        },
        _ => panic!("expected a mismatch"),
    }
}

#[test]
fn scenario_inactive_snippet_with_existing_file() {
    let r = run(
        &[("src/q.h", "// _SNIPPET:BEGIN {qux}\nold();\n// _SNIPPET:END {qux}\n")],
        &[],
        &["target/qux.cpp"],
    );
    assert_eq!(r.snippets.len(), 1);
    assert_eq!(flags(&r.snippets[0]), (false, true, false, true));
    let plan = plan_extraction(&r.snippets);
    match &plan[0] {
        ExtractionStep::Write { name, file_name, mode, content, empty } => {
            assert_eq!(name, "qux");
            assert_eq!(file_name, "qux.cpp");
            assert_eq!(*mode, WriteMode::CreateNew);
            assert_eq!(content, "\nold();\n");
            assert!(!*empty);
        },
        _ => panic!("expected a write"),
    }
    assert_eq!(notice_for(&plan[0], WriteOutcome::AlreadyExists), Notice::InactiveKept);
}

#[test]
fn scenario_inclusion_without_source() {
    let r = run(&[], &["\\lstinputlisting{s/only.cpp}"], &[]);
    assert_eq!(r.snippets.len(), 1);
    assert_eq!(flags(&r.snippets[0]), (false, false, true, false));
    let plan = plan_extraction(&r.snippets);
    assert!(matches!(&plan[0], ExtractionStep::NoSource { name } if name == "only"));
    assert_eq!(notice_for(&plan[0], WriteOutcome::Written), Notice::NoSource);
}

#[test]
fn records_come_sorted_by_name() {
    let r = run(
        &[("a.cpp", "// SNIPPET:BEGIN {zeta}z// SNIPPET:END {zeta}// SNIPPET:BEGIN {Alpha}a// SNIPPET:END {Alpha}")],
        &["\\lstinputlisting{d/beta.cpp}\n\\lstinputlisting{d/alpha.cpp}"],
        &["t/gamma.cpp", "t/zeta.cpp"],
    );
    let names: Vec<&str> = r.snippets.iter().map(|s| s.name.as_str()).collect();
    assert_eq!(names, vec!["Alpha", "alpha", "beta", "gamma", "zeta"]);
    assert_eq!(flags(&r.snippets[4]), (true, true, false, true));
}

#[test]
fn inactive_region_wins_over_active_one() {
    let text = "// SNIPPET:BEGIN {dup}new// SNIPPET:END {dup}\n// _SNIPPET:BEGIN {dup}old// _SNIPPET:END {dup}";
    let r = run(&[("x.cpp", text)], &[], &[]);
    assert_eq!(r.snippets.len(), 1);
    assert_eq!(flags(&r.snippets[0]), (false, true, false, false));
    assert_eq!(r.snippets[0].content.as_deref(), Some("new"));
}

#[test]
fn first_region_keeps_the_content() {
    let r = run(
        &[
            ("one.cpp", "// SNIPPET:BEGIN {s}first// SNIPPET:END {s}"),
            ("two.cpp", "// SNIPPET:BEGIN {s}second// SNIPPET:END {s}"),
        ],
        &[],
        &[],
    );
    assert_eq!(r.snippets.len(), 1);
    assert_eq!(r.snippets[0].content.as_deref(), Some("first"));
    assert_eq!(r.snippets[0].source_file.as_deref(), Some("one.cpp"));
}

#[test]
fn flags_do_not_depend_on_the_order_of_sightings() {
    let active = Snippet::new(Some("n"), Some("c"), Some("f".to_owned()), Some("n"), None, true, true, false, false);
    let inactive = Snippet::new(Some("n"), Some("d"), Some("g".to_owned()), Some("n"), None, false, true, false, false);

    let mut first = SnippetStore::new();
    first.record_inclusion("n".to_owned());
    first.record_region(inactive.unwrap());
    first.record_file("n".to_owned());
    first.record_region(active.unwrap());
    let a = first.into_sorted();

    let active = Snippet::new(Some("n"), Some("c"), Some("f".to_owned()), Some("n"), None, true, true, false, false);
    let inactive = Snippet::new(Some("n"), Some("d"), Some("g".to_owned()), Some("n"), None, false, true, false, false);
    let mut second = SnippetStore::new();
    second.record_region(active.unwrap());
    second.record_file("n".to_owned());
    second.record_region(inactive.unwrap());
    second.record_inclusion("n".to_owned());
    let b = second.into_sorted();

    assert_eq!(a.len(), 1);
    assert_eq!(b.len(), 1);
    assert_eq!(flags(&a[0]), (false, true, true, true));
    assert_eq!(flags(&a[0]), flags(&b[0]));
}

#[test]
fn inclusion_before_region_still_gives_an_active_record() {
    let mut store = SnippetStore::new();
    store.record_inclusion("late".to_owned());
    let s = Snippet::new(Some("late"), Some("body"), Some("f".to_owned()), Some("late"), None, true, true, false, false);
    store.record_region(s.unwrap());
    let v = store.into_sorted();
    assert_eq!(flags(&v[0]), (true, true, true, false));
    assert_eq!(v[0].content.as_deref(), Some("body"));
}

#[test]
fn reconciling_twice_gives_the_same_records() {
    let sources = [("a.cpp", "// SNIPPET:BEGIN {x}1// SNIPPET:END {x}// _SNIPPET:BEGIN {y}2// _SNIPPET:END {y}")];
    let docs = ["\\lstinputlisting{s/x.cpp}"];
    let files = ["t/y.cpp", "t/"];
    let one = run(&sources, &docs, &files);
    let two = run(&sources, &docs, &files);
    let view = |r: &Reconciliation| {
        r.snippets
            .iter()
            .map(|s| (s.name.clone(), s.content.clone(), flags(s)))
            .collect::<Vec<_>>()
    };
    assert_eq!(view(&one), view(&two));
    assert_eq!(one.problems.len(), two.problems.len());
}

#[test]
fn snippet_file_without_a_name_is_reported() {
    let r = run(&[], &[], &["target/.."]);
    assert!(r.snippets.is_empty());
    assert!(matches!(&r.problems[0], SnippetError::NoFileStem { path } if path == "target/.."));
}

#[test]
fn active_snippets_are_overwritten_and_inactive_ones_created() {
    let r = run(
        &[("a.cpp", "// SNIPPET:BEGIN {on}A// SNIPPET:END {on}// _SNIPPET:BEGIN {off}B// _SNIPPET:END {off}")],
        &[],
        &[],
    );
    let plan = plan_extraction(&r.snippets);
    assert_eq!(plan.len(), 2);
    match (&plan[0], &plan[1]) {
        (
            ExtractionStep::Write { name: n0, mode: m0, .. },
            ExtractionStep::Write { name: n1, mode: m1, content: c1, .. },
        ) => {
            assert_eq!((n0.as_str(), *m0), ("off", WriteMode::CreateNew));
            assert_eq!((n1.as_str(), *m1), ("on", WriteMode::Overwrite));
            assert_eq!(c1, "A");
        },
        _ => panic!("expected two writes"),
    }
    assert_eq!(notice_for(&plan[1], WriteOutcome::Written), Notice::Extracted);
    assert_eq!(notice_for(&plan[1], WriteOutcome::AlreadyExists), Notice::WriteFailed);
    assert_eq!(notice_for(&plan[0], WriteOutcome::Failed), Notice::WriteFailed);
}

#[test]
fn snippet_without_content_gives_an_empty_file() {
    let s = Snippet::new(Some("e"), None, None, Some("e"), None, true, true, false, false).unwrap();
    let plan = plan_extraction(&vec![s]);
    match &plan[0] {
        ExtractionStep::Write { content, empty, .. } => {
            assert!(content.is_empty());
            assert!(*empty);
        },
        _ => panic!("expected a write"),
    }
    assert_eq!(notice_for(&plan[0], WriteOutcome::Written), Notice::EmptyFile);
}

#[test]
fn target_file_name_appends_the_extension() {
    assert_eq!(target_file_name("foo"), "foo.cpp");
    assert_eq!(target_file_name("a.b"), "a.b.cpp");
}

#[test]
fn complete_only_when_seen_everywhere() {
    let r = run(
        &[("a.cpp", "// SNIPPET:BEGIN {all}x// SNIPPET:END {all}// SNIPPET:BEGIN {part}y// SNIPPET:END {part}")],
        &["\\lstinputlisting{s/all.cpp}\n\\lstinputlisting{s/part.cpp}"],
        &["t/all.cpp"],
    );
    assert_eq!(r.snippets.len(), 2);
    assert!(r.snippets[0].is_complete());
    assert!(!r.snippets[1].is_complete());
}
