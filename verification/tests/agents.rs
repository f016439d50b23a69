use okf::agents::{
    agent_file_content, merge, render_import_section, render_section, AgentFile, BEGIN_MARKER,
    END_MARKER,
};

const FILES: [AgentFile; 3] = [AgentFile::Claude, AgentFile::Agents, AgentFile::Copilot];

/// What the three files hold after a run, from what they held before.
fn run(before: [Option<String>; 3], output: &str) -> [Option<String>; 3] {
    let mut after = [None, None, None];
    for (i, file) in FILES.iter().enumerate() {
        after[i] = Some(agent_file_content(*file, before[i].as_deref(), output));
    }
    after
}

#[test]
fn creates_new_files_with_the_section() {
    let [importing, agents, copilot] = run([None, None, None], "knowledge").map(Option::unwrap);

    assert!(importing.contains(BEGIN_MARKER));
    assert!(importing.contains("@AGENTS.md"));
    assert!(!importing.contains("knowledge/index.md"));

    assert!(agents.contains(BEGIN_MARKER));
    assert!(agents.contains("knowledge/index.md"));

    assert!(copilot.contains("knowledge/index.md"));
}

#[test]
fn preserves_existing_content_and_updates_marked_section_in_place() {
    let existing = "# My Project\n\nSome existing instructions the user wrote.\n".to_string();
    let first = run([Some(existing), None, None], "knowledge");
    let importing = first[0].as_deref().unwrap();
    assert!(importing.contains("Some existing instructions the user wrote."));
    assert!(importing.contains(BEGIN_MARKER));
    assert!(importing.contains("@AGENTS.md"));

    let [importing, agents, _] = run(first, "docs/kb").map(Option::unwrap);
    assert!(importing.contains("Some existing instructions the user wrote."));
    assert_eq!(importing.matches(BEGIN_MARKER).count(), 1);

    assert!(agents.contains("docs/kb/index.md"));
    assert!(!agents.contains("knowledge/index.md"));
}

#[test]
fn repeat_runs_do_not_grow_a_trailing_blank_line() {
    let once = run([None, None, None], "knowledge");
    let mut repeated = once.clone();
    for _ in 0..3 {
        repeated = run(repeated, "knowledge");
    }
    assert_eq!(once[1], repeated[1]);
}

#[test]
fn claude_md_import_does_not_duplicate_on_repeat_runs() {
    let once = run([None, None, None], "knowledge");
    let [importing, _, _] = run(once, "knowledge").map(Option::unwrap);
    assert_eq!(importing.matches("@AGENTS.md").count(), 1);
    assert_eq!(importing.matches(BEGIN_MARKER).count(), 1);
}

#[test]
fn the_section_goes_behind_what_is_there() {
    let section = render_import_section();
    assert_eq!(
        section,
        format!("{BEGIN_MARKER}\n@AGENTS.md\n{END_MARKER}\n")
    );
    assert_eq!(merge(Some("a\n"), &section), format!("a\n\n{section}"));
    assert_eq!(merge(None, &section), section);
    let around = format!("before\n{BEGIN_MARKER}\nold\n{END_MARKER}\nafter\n");
    assert_eq!(
        merge(Some(&around), &section),
        format!("before\n{section}after\n")
    );
    assert!(render_section("kb").contains("`kb/`"));
}

#[test]
fn stray_markers_do_not_make_the_file_grow() {
    let section = "<!-- okf-rs:begin -->\n@AGENTS.md\n<!-- okf-rs:end -->\n";
    let stray_end = format!("see <!-- okf-rs:end -->\n\n{section}");
    assert_eq!(merge(Some(&stray_end), section), stray_end);

    let stray_begin = "see <!-- okf-rs:begin -->\nmine\n";
    let once = merge(Some(stray_begin), section);
    assert_eq!(once, format!("{stray_begin}\n{section}"));
    assert_eq!(merge(Some(&once), section), once);

    let both = "<!-- okf-rs:end -->\n<!-- okf-rs:begin -->\nmine";
    let once = merge(Some(both), section);
    assert_eq!(once, format!("{both}\n\n{section}"));
    assert_eq!(merge(Some(&once), section), once);
}
