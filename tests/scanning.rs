use snipper::inclusion::scan_inclusions;
use snipper::reconcile::snippet_name_from_file;
use snipper::snippet::{source_snippets, Snippet, SnippetError};
use snipper::tags::scan_regions;

fn active_pattern() -> regex::Regex {
    regex::RegexBuilder::new(
        r"(// SNIPPET:BEGIN \{(?P<BEGIN>.*?)\}(\$\{(?P<COMMENT>.*?)\})?(?P<SNIPPET>.*?)// SNIPPET:END \{(?P<END>.*?)\})",
    )
    .dot_matches_new_line(true)
    .build()
    .unwrap()
}

fn inactive_pattern() -> regex::Regex {
    regex::RegexBuilder::new(
        r"(// _SNIPPET:BEGIN \{(?P<BEGIN>.*?)\}(\$\{(?P<COMMENT>.*?)\})?(?P<SNIPPET>.*?)// _SNIPPET:END \{(?P<END>.*?)\})",
    )
    .dot_matches_new_line(true)
    .build()
    .unwrap()
}

fn include_pattern() -> regex::Regex {
    regex::RegexBuilder::new(r"(\\lstinputlisting.*?\{.*/(?P<SNIPPET_NAME>.*?)\.cpp.*?\})")
        .dot_matches_new_line(false)
        .build()
        .unwrap()
}

type Parts = (String, Option<String>, String, String);

fn regex_regions(pattern: &regex::Regex, text: &str) -> Vec<Parts> {
    pattern
        .captures_iter(text)
        .map(|c| {
            (
                c.name("BEGIN").unwrap().as_str().to_owned(),
                c.name("COMMENT").map(|m| m.as_str().to_owned()),
                c.name("SNIPPET").unwrap().as_str().to_owned(),
                c.name("END").unwrap().as_str().to_owned(),
            )
        })
        .collect()
}

fn scanned_regions(text: &str, inactive: bool) -> Vec<Parts> {
    scan_regions(text, inactive)
        .into_iter()
        .map(|m| (m.begin, m.comment, m.body, m.end))
        .collect()
}

const TAG_SAMPLES: &[&str] = &[
    "",
    "no tags at all",
    "// SNIPPET:BEGIN {foo}\nint x = 1;\n// SNIPPET:END {foo}\n",
    "// SNIPPET:BEGIN {a}${the a part}\nbody a\n// SNIPPET:END {a}\nmiddle\n// SNIPPET:BEGIN {b}\nbody b\n// SNIPPET:END {b}",
    "// SNIPPET:BEGIN {bar}\nx\n// SNIPPET:END {baz}\n",
    "// SNIPPET:BEGIN {a}${ // SNIPPET:END {x} ",
    "// SNIPPET:BEGIN {a}${ // SNIPPET:END {x} } body // SNIPPET:END {a}",
    "// SNIPPET:BEGIN {a}${no close // SNIPPET:END {a}",
    "// SNIPPET:BEGIN {a} body // SNIPPET:END {a",
    "// SNIPPET:BEGIN {a no brace at all",
    "// SNIPPET:BEGIN {a}x// SNIPPET:BEGIN {b}y// SNIPPET:END {b}z// SNIPPET:END {a}",
    "// _SNIPPET:BEGIN {qux}\nold\n// _SNIPPET:END {qux}\n// SNIPPET:BEGIN {qux}\nnew\n// SNIPPET:END {qux}",
    "héllo // SNIPPET:BEGIN {ünï}${dé}\nçode ✓\n// SNIPPET:END {ünï} tail",
    "// SNIPPET:BEGIN {}${}// SNIPPET:END {}",
    "// SNIPPET:BEGIN {a}\n// _SNIPPET:BEGIN {b}\n// _SNIPPET:END {b}\n// SNIPPET:END {a}",
];

#[test]
fn active_scan_agrees_with_the_tag_pattern() {
    let pattern = active_pattern();
    for text in TAG_SAMPLES {
        assert_eq!(scanned_regions(text, false), regex_regions(&pattern, text), "text: {:?}", text);
    }
}

#[test]
fn inactive_scan_agrees_with_the_tag_pattern() {
    let pattern = inactive_pattern();
    for text in TAG_SAMPLES {
        assert_eq!(scanned_regions(text, true), regex_regions(&pattern, text), "text: {:?}", text);
    }
}

const INCLUDE_SAMPLES: &[&str] = &[
    "",
    "\\lstinputlisting[language=C++]{snippets/foo.cpp}",
    "\\lstinputlisting{a/b/c.cpp} and \\lstinputlisting{x/y.cpp}\n",
    "\\lstinputlisting{foo.cpp}",
    "\\lstinputlisting{dir/foo.cpp",
    "\\lstinputlisting\n{dir/foo.cpp}",
    "\\lstinputlisting{a/b.cpp/c/d.cpp} \\lstinputlisting{e/f.cpp}",
    "\\lstinputlisting[x]{a/one.cpp}\n\\lstinputlisting[y]{b/two.cpp}\ntext \\lstinputlisting{c/thr.ee.cpp}",
    "\\lstinputlisting\\lstinputlisting{a/b.cpp}",
    "\\lstinputlisting{a/b.cpp.cpp}}",
    "\\lstinputlisting{a/.cpp}",
    "\\lstinputlisting{ä/ö.cpp} \\lstinputlisting{/x.cpp}",
];

#[test]
fn inclusion_scan_agrees_with_the_include_pattern() {
    let pattern = include_pattern();
    for text in INCLUDE_SAMPLES {
        let expected: Vec<String> = pattern
            .captures_iter(text)
            .map(|c| c.name("SNIPPET_NAME").unwrap().as_str().to_owned())
            .collect();
        assert_eq!(scan_inclusions(text), expected, "text: {:?}", text);
    }
}

#[test]
fn inclusion_takes_the_file_stem_after_the_last_slash() {
    let names = scan_inclusions("\\lstinputlisting[language=C++, caption=x]{../snippets/foo.cpp}\n");
    assert_eq!(names, vec!["foo".to_owned()]);
}

#[test]
fn active_region_gives_an_active_source_snippet() {
    let text = "// SNIPPET:BEGIN {foo}${A description}\nint main() {}\n// SNIPPET:END {foo}\n";
    let results = source_snippets(text, "src/main.cpp", false);
    assert_eq!(results.len(), 1);
    let snippet = results[0].as_ref().unwrap();
    assert_eq!(snippet.name, "foo");
    assert_eq!(snippet.content.as_deref(), Some("\nint main() {}\n"));
    assert_eq!(snippet.comment.as_deref(), Some("A description"));
    assert_eq!(snippet.source_file.as_deref(), Some("src/main.cpp"));
    assert!(snippet.active && snippet.source && !snippet.latex && !snippet.extracted);
}

#[test]
fn inactive_region_gives_an_inactive_source_snippet() {
    let text = "// _SNIPPET:BEGIN {qux}\nold();\n// _SNIPPET:END {qux}";
    let results = source_snippets(text, "a.h", true);
    assert_eq!(results.len(), 1);
    let snippet = results[0].as_ref().unwrap();
    assert_eq!(snippet.name, "qux");
    assert_eq!(snippet.content.as_deref(), Some("\nold();\n"));
    assert!(!snippet.active && snippet.source);
    assert!(source_snippets(text, "a.h", false).is_empty());
}

#[test]
fn mismatched_region_is_an_error_and_scanning_goes_on() {
    let text = "// SNIPPET:BEGIN {bar}\nx\n// SNIPPET:END {baz}\n// SNIPPET:BEGIN {ok}y// SNIPPET:END {ok}";
    let results = source_snippets(text, "f.cpp", false);
    assert_eq!(results.len(), 2);
    match &results[0] {
        Err(SnippetError::MismatchedTag { begin, end, file }) => {
            assert_eq!(begin, "bar");
            assert_eq!(end, "baz");
            assert_eq!(file.as_deref(), Some("f.cpp"));
        },
        _ => panic!("expected a mismatch"),
    }
    assert_eq!(results[1].as_ref().unwrap().name, "ok");
}

#[test]
fn new_checks_both_names() {
    assert!(matches!(
        Snippet::new(None, None, None, Some("a"), None, false, false, true, false),
        Err(SnippetError::MissingBeginName)
    ));
    assert!(matches!(
        Snippet::new(Some("a"), None, None, None, None, false, false, true, false),
        Err(SnippetError::MissingEndName)
    ));
    assert!(matches!(
        Snippet::new(Some("a"), None, None, Some("b"), None, false, false, true, false),
        Err(SnippetError::MismatchedTag { .. })
    ));
    let s = Snippet::new(Some("a"), Some("c"), Some("p".to_owned()), Some("a"), Some("d"), true, true, false, false)
        .unwrap();
    assert_eq!(s.name, "a");
    assert_eq!(s.content.as_deref(), Some("c"));
    assert_eq!(s.source_file.as_deref(), Some("p"));
    assert_eq!(s.comment.as_deref(), Some("d"));
    assert!(s.active && s.source && !s.latex && !s.extracted);
}

#[test]
fn snippet_file_name_is_its_stem() {
    assert_eq!(snippet_name_from_file("target/dir/foo.cpp").unwrap(), "foo");
    assert_eq!(snippet_name_from_file("bar.cpp").unwrap(), "bar");
    assert_eq!(snippet_name_from_file("dir/a.b.cpp").unwrap(), "a.b");
    assert!(matches!(
        snippet_name_from_file("dir/.."),
        Err(SnippetError::NoFileStem { path }) if path == "dir/.."
    ));
    assert!(snippet_name_from_file("").is_err());
    assert!(snippet_name_from_file("dir/sub/").is_err());
}

fn all_texts(tokens: &[&str], max_len: usize) -> Vec<String> {
    let mut texts = vec![String::new()];
    let mut layer = vec![String::new()];
    for _ in 0..max_len {
        let mut next = Vec::new();
        for prefix in &layer {
            for token in tokens {
                next.push(format!("{}{}", prefix, token));
            }
        }
        texts.extend(next.iter().cloned());
        layer = next;
    }
    texts
}

#[test]
fn tag_scan_agrees_with_the_tag_pattern_on_all_short_texts() {
    let tokens = [
        "// SNIPPET:BEGIN {",
        "// SNIPPET:END {",
        "// _SNIPPET:BEGIN {",
        "// _SNIPPET:END {",
        "}",
        "${",
        "a",
        "\n",
    ];
    let active = active_pattern();
    let inactive = inactive_pattern();
    for text in all_texts(&tokens, 5) {
        assert_eq!(scanned_regions(&text, false), regex_regions(&active, &text), "text: {:?}", text);
        assert_eq!(scanned_regions(&text, true), regex_regions(&inactive, &text), "text: {:?}", text);
    }
}

#[test]
fn inclusion_scan_agrees_with_the_include_pattern_on_all_short_texts() {
    let tokens = ["\\lstinputlisting", "{", "}", "/", ".cpp", "a", "\n"];
    let pattern = include_pattern();
    for text in all_texts(&tokens, 6) {
        let expected: Vec<String> = pattern
            .captures_iter(&text)
            .map(|c| c.name("SNIPPET_NAME").unwrap().as_str().to_owned())
            .collect();
        assert_eq!(scan_inclusions(&text), expected, "text: {:?}", text);
    }
}
