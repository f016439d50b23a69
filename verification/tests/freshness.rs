use okf::bundle::render_root_index;
use okf::commands::{render_determinism, render_freshness};
use okf::freshness::{collect_file, diff_dirs, strip_source_revision_line, StoredFile};
use okf::model::{Concept, ConceptKind, Language, Location};
use okf::render::group_by_kind_dir;

fn tree(files: &[(&str, &str)]) -> Vec<StoredFile> {
    files
        .iter()
        .map(|(path, content)| collect_file(path, content.as_bytes().to_vec()))
        .collect()
}

#[test]
fn diff_dirs_is_empty_for_byte_identical_trees() {
    let a = tree(&[("functions/f.md", "same content\n")]);
    let b = tree(&[("functions/f.md", "same content\n")]);

    assert!(diff_dirs(&a, &b, "run 1", "run 2").is_empty());
}

#[test]
fn diff_dirs_reports_content_that_differs_between_the_two_runs() {
    let a = tree(&[("f.md", "run one\n")]);
    let b = tree(&[("f.md", "run two\n")]);

    let diffs = diff_dirs(&a, &b, "run 1", "run 2");
    assert_eq!(diffs.len(), 1);
    assert!(diffs[0].contains("f.md"));
    assert!(diffs[0].contains("content differs"));
}

#[test]
fn diff_dirs_reports_a_file_present_on_only_one_side() {
    let a = tree(&[("only_in_a.md", "x\n")]);
    let b = tree(&[("only_in_b.md", "x\n")]);

    let diffs = diff_dirs(&a, &b, "run 1", "run 2");
    assert_eq!(diffs.len(), 2);
    assert!(diffs
        .iter()
        .any(|d| d.contains("only_in_a.md") && d.contains("run 1 only")));
    assert!(diffs
        .iter()
        .any(|d| d.contains("only_in_b.md") && d.contains("run 2 only")));
}

#[test]
fn diff_dirs_uses_the_given_labels_not_a_hardcoded_run_1_run_2() {
    let a = tree(&[("only_in_committed.md", "x\n")]);
    let b = tree(&[]);

    let diffs = diff_dirs(&a, &b, "the committed bundle", "a fresh regenerate");
    assert_eq!(diffs.len(), 1);
    assert!(diffs[0].contains("present in the committed bundle only"));
}

#[test]
fn diff_dirs_walks_nested_subdirectories() {
    let a = tree(&[("functions/nested/f.md", "a\n")]);
    let b = tree(&[("functions/nested/f.md", "b\n")]);

    let diffs = diff_dirs(&a, &b, "run 1", "run 2");
    assert_eq!(diffs.len(), 1);
    assert!(diffs[0].contains("functions/nested/f.md"));
}

#[test]
fn strip_source_revision_line_removes_only_that_line() {
    let input = b"---\nokf_version: \"0.2\"\ngenerator_name: \"okf-rs\"\ngenerator_version: \"0.4.0\"\nsource_revision: \"abc123\"\n---\n\n# Knowledge Base\n";
    let stripped = strip_source_revision_line(input);
    let stripped = String::from_utf8(stripped).unwrap();
    assert!(!stripped.contains("source_revision"));
    assert!(stripped.contains("generator_version: \"0.4.0\""));
    assert!(stripped.contains("# Knowledge Base"));
}

#[test]
fn strip_source_revision_line_is_a_no_op_without_one() {
    let input = b"---\nokf_version: \"0.2\"\n---\n\n# Knowledge Base\n";
    let stripped = strip_source_revision_line(input);
    assert_eq!(
        String::from_utf8(stripped).unwrap(),
        "---\nokf_version: \"0.2\"\n---\n\n# Knowledge Base"
    );
}

#[test]
fn diff_dirs_ignores_a_source_revision_only_difference_in_the_root_index() {
    let a = tree(&[(
        "index.md",
        "---\nokf_version: \"0.2\"\ngenerator_name: \"okf-rs\"\ngenerator_version: \"0.4.0\"\nsource_revision: \"aaaaaaa\"\n---\n\n# Knowledge Base\n",
    )]);
    let b = tree(&[(
        "index.md",
        "---\nokf_version: \"0.2\"\ngenerator_name: \"okf-rs\"\ngenerator_version: \"0.4.0\"\nsource_revision: \"bbbbbbb\"\n---\n\n# Knowledge Base\n",
    )]);

    assert!(
        diff_dirs(&a, &b, "the committed bundle", "a fresh regenerate").is_empty(),
        "a source_revision-only difference must not be reported as staleness"
    );
}

#[test]
fn diff_dirs_still_catches_a_real_root_index_content_difference() {
    let a = tree(&[(
        "index.md",
        "---\nokf_version: \"0.2\"\n---\n\n# Knowledge Base\n\n- [Functions](functions/index.md) (1)\n",
    )]);
    let b = tree(&[(
        "index.md",
        "---\nokf_version: \"0.2\"\n---\n\n# Knowledge Base\n\n- [Functions](functions/index.md) (2)\n",
    )]);

    let diffs = diff_dirs(&a, &b, "a", "b");
    assert_eq!(diffs.len(), 1);
    assert!(diffs[0].contains("index.md"));
}

#[test]
fn differences_come_by_path() {
    let a = tree(&[("z.md", "1"), ("a.md", "1"), ("m.md", "1")]);
    let b = tree(&[("z.md", "2"), ("b.md", "1"), ("m.md", "1")]);
    assert_eq!(
        diff_dirs(&a, &b, "left", "right"),
        vec![
            "a.md (present in left only)".to_string(),
            "b.md (present in right only)".to_string(),
            "z.md (content differs between left and right)".to_string(),
        ]
    );
}

#[test]
fn only_the_index_of_the_root_is_stripped() {
    let a = tree(&[("functions/index.md", "source_revision: a\n")]);
    let b = tree(&[("functions/index.md", "source_revision: b\n")]);
    assert_eq!(diff_dirs(&a, &b, "left", "right").len(), 1);
}

#[test]
fn separators_of_another_system_do_not_count() {
    let a = tree(&[("functions\\f.md", "x")]);
    let b = tree(&[("functions/f.md", "x")]);
    assert!(diff_dirs(&a, &b, "left", "right").is_empty());
    assert_eq!(a[0].path, "functions/f.md");
}

#[test]
fn bytes_that_are_no_text_are_left_alone() {
    let bytes = b"source_revision: \xff\n";
    assert_eq!(strip_source_revision_line(bytes), bytes.to_vec());
}

#[test]
fn a_written_index_counts_the_same_at_every_revision() {
    let concepts = vec![Concept {
        id: "functions/f".to_string(),
        kind: ConceptKind::Function,
        language: Language::Rust,
        name: "f".to_string(),
        qualified_name: "f".to_string(),
        description: None,
        location: Location {
            file: "src/lib.rs".to_string(),
            start_line: 1,
            end_line: 1,
        },
        signature: None,
        tags: Vec::new(),
        is_public: true,
        generated_at: None,
        relationships: Vec::new(),
    }];
    let groups = group_by_kind_dir(&concepts);
    let first = render_root_index(&groups, &Some("aaaaaaa".to_string()));
    let second = render_root_index(&groups, &Some("bbbbbbb".to_string()));
    let none = render_root_index(&groups, &None);
    assert!(first.contains("source_revision: \"aaaaaaa\"\n"));
    assert_ne!(first, second);
    let strip = |s: &String| strip_source_revision_line(s.as_bytes());
    assert_eq!(strip(&first), strip(&second));
    assert_eq!(strip(&first), strip(&none));
}

#[test]
fn what_a_comparison_found_is_told() {
    assert_eq!(
        render_determinism(&Vec::new(), true, "demo", 4),
        "Deterministic: two independent `generate --lsp` runs on demo produced byte-identical output (4 concepts).\n"
    );
    assert_eq!(
        render_determinism(&vec!["f.md (present in run 1 only)".to_string()], false, "demo", 4),
        "Non-deterministic: 1 file(s) differed between two independent `generate` runs on demo (unexpected on the tree-sitter-only path \u{2014} please report this as a bug):\n  f.md (present in run 1 only)\n"
    );
    assert_eq!(
        render_freshness(&Vec::new(), "knowledge", false, "demo", 2),
        "Up to date: the bundle at knowledge matches a fresh `generate` on demo (2 concepts).\n"
    );
    assert_eq!(
        render_freshness(&vec!["g.md".to_string()], "knowledge", true, "demo", 2),
        "Stale: 1 file(s) in knowledge don't match a fresh `generate --lsp` on demo \u{2014} run `okf-rs generate` and commit the result:\n  g.md\n"
    );
}

#[test]
fn line_ends_of_the_root_index_count() {
    let ended = tree(&[("index.md", "# Knowledge Base\n")]);
    let open = tree(&[("index.md", "# Knowledge Base")]);
    assert_eq!(
        diff_dirs(&ended, &open, "run 1", "run 2"),
        vec!["index.md (content differs between run 1 and run 2)"]
    );
    let returned = tree(&[("index.md", "# Knowledge Base\r\n")]);
    assert_eq!(diff_dirs(&ended, &returned, "run 1", "run 2").len(), 1);
    let revised = tree(&[("index.md", "source_revision: \"a\"\n# Knowledge Base\n")]);
    assert!(diff_dirs(&ended, &revised, "run 1", "run 2").is_empty());
}
