use okf::config::{DiffPolicy, PolicyAction};
use okf::diff::diff;
use okf::gates::{
    is_risky, policy_icon, render_ci_report, render_diff, render_impact, render_review_markdown,
    render_validation, Issue, IssueKind, Severity, REVIEW_MARKER,
};
use okf::impact::{ChangeKind, ImpactReport, ImpactedConcept};
use okf::model::{Concept, ConceptKind, Language, Location};
use okf::summary::CiSummary;

fn report_of(impacted: Vec<ImpactedConcept>) -> ImpactReport {
    ImpactReport {
        diff: Default::default(),
        impacted,
    }
}

fn percent(rate: f64) -> String {
    format!("{:.1}", rate * 100.0)
}

fn impacted(id: &str, change: ChangeKind, blast_radius: &[&str]) -> ImpactedConcept {
    ImpactedConcept {
        id: id.to_string(),
        kind: ConceptKind::Function,
        change,
        blast_radius: blast_radius.iter().map(|s| s.to_string()).collect(),
        is_public_api: true,
        in_cycle: false,
    }
}

#[test]
fn renders_no_changes_as_a_clear_one_liner() {
    let report = ImpactReport::default();
    let markdown = render_review_markdown(&report, "main", "HEAD");
    assert!(markdown.starts_with(REVIEW_MARKER));
    assert!(markdown.contains("No concept-level changes"));
}

#[test]
fn renders_a_table_row_per_changed_concept_with_blast_radius_and_flags() {
    let report = ImpactReport {
        diff: Default::default(),
        impacted: vec![impacted(
            "functions/callee",
            ChangeKind::Changed,
            &["functions/caller"],
        )],
    };
    let markdown = render_review_markdown(&report, "main", "feature");
    assert!(markdown.starts_with(REVIEW_MARKER));
    assert!(markdown.contains("okf-rs impact report: `main` → `feature`"));
    assert!(markdown.contains("1 concept(s) changed, affecting 1 other concept(s)"));
    assert!(markdown.contains("✏️ changed"));
    assert!(markdown.contains("`functions/callee`"));
    assert!(markdown.contains("| 1 |"));
    assert!(markdown.contains("✅"));
}

#[test]
fn counts_the_union_of_blast_radii_not_a_sum_with_double_counting() {
    let report = ImpactReport {
        diff: Default::default(),
        impacted: vec![
            impacted("functions/a", ChangeKind::Changed, &["functions/shared"]),
            impacted("functions/b", ChangeKind::Changed, &["functions/shared"]),
        ],
    };
    let markdown = render_review_markdown(&report, "main", "feature");
    assert!(markdown.contains("2 concept(s) changed, affecting 1 other concept(s)"));
}

#[test]
fn no_changes_exits_zero() {
    let (text, failed) =
        render_ci_report(&CiSummary::default(), None, DiffPolicy::default(), "a", "b");
    assert!(!failed);
    assert!(text.contains("No changes between a and b"));
    assert!(text.contains("exit code: 0"));
}

#[test]
fn metadata_only_change_with_default_policy_exits_zero() {
    let summary = CiSummary {
        confidence_changes: 2,
        ..Default::default()
    };
    let (text, failed) = render_ci_report(&summary, None, DiffPolicy::default(), "a", "b");
    assert!(!failed);
    assert!(text.contains("ℹ️"));
    assert!(text.contains("CONFIDENCE CHANGES: 2"));
    assert!(text.contains("exit code: 0"));
}

#[test]
fn resolver_only_change_with_default_policy_warns_but_exits_zero() {
    let summary = CiSummary {
        resolver_changes: 4,
        ..Default::default()
    };
    let (text, failed) = render_ci_report(&summary, Some(&percent(1.0)), DiffPolicy::default(), "a", "b");
    assert!(!failed);
    assert!(text.contains("⚠️"));
    assert!(text.contains("RESOLVER CHANGES: 4"));
    assert!(text.contains("exit code: 0"));
}

#[test]
fn resolver_only_change_reports_its_share_of_relationship_level_changes() {
    let summary = CiSummary {
        resolver_changes: 4,
        ..Default::default()
    };
    let (text, _) = render_ci_report(&summary, Some(&percent(1.0)), DiffPolicy::default(), "a", "b");
    assert!(
        text.contains("100.0% of relationship-level changes in this diff were resolver-only")
    );
}

#[test]
fn resolver_only_rate_renders_at_one_decimal_place_not_rounded_to_a_bare_100_percent() {
    let summary = CiSummary {
        source_changes: 2,
        resolver_changes: 1292,
        ..Default::default()
    };
    let (text, _) = render_ci_report(
        &summary,
        Some(&percent(1292.0 / 1294.0)),
        DiffPolicy::default(),
        "a",
        "b",
    );
    assert!(
        text.contains("99.8% of relationship-level changes in this diff were resolver-only")
    );
    assert!(!text.contains("100% of relationship-level changes"));
}

#[test]
fn resolver_only_rate_is_below_100_percent_when_source_changes_also_present() {
    let summary = CiSummary {
        source_changes: 1,
        resolver_changes: 1,
        ..Default::default()
    };
    let (text, _) = render_ci_report(&summary, Some(&percent(0.5)), DiffPolicy::default(), "a", "b");
    assert!(
        text.contains("50.0% of relationship-level changes in this diff were resolver-only")
    );
}

#[test]
fn no_rate_line_is_rendered_when_resolver_only_rate_is_none() {
    let summary = CiSummary {
        resolver_changes: 4,
        ..Default::default()
    };
    let (text, _) = render_ci_report(&summary, None, DiffPolicy::default(), "a", "b");
    assert!(text.contains("RESOLVER CHANGES: 4"));
    assert!(!text.contains("resolver-only"));
}

#[test]
fn added_source_edge_exits_one() {
    let summary = CiSummary {
        source_changes: 1,
        ..Default::default()
    };
    let (text, failed) = render_ci_report(&summary, None, DiffPolicy::default(), "a", "b");
    assert!(failed);
    assert!(text.contains("❌ SOURCE CHANGES: 1"));
    assert!(text.contains("exit code: 1"));
}

#[test]
fn removed_source_edge_exits_one() {
    let summary = CiSummary {
        source_changes: 1,
        ..Default::default()
    };
    let (_, failed) = render_ci_report(&summary, None, DiffPolicy::default(), "a", "b");
    assert!(failed);
}

#[test]
fn semantic_target_change_exits_one() {
    let summary = CiSummary {
        source_changes: 2,
        ..Default::default()
    };
    let (text, failed) = render_ci_report(&summary, None, DiffPolicy::default(), "a", "b");
    assert!(failed);
    assert!(text.contains("SOURCE CHANGES: 2"));
}

#[test]
fn mixed_source_and_resolver_changes_exits_one() {
    let summary = CiSummary {
        source_changes: 1,
        resolver_changes: 1,
        ..Default::default()
    };
    let (text, failed) = render_ci_report(&summary, Some(&percent(0.5)), DiffPolicy::default(), "a", "b");
    assert!(
        failed,
        "a source change fails regardless of the resolver change's own policy"
    );
    assert!(text.contains("❌ SOURCE CHANGES: 1"));
    assert!(text.contains("RESOLVER CHANGES: 1"));
}

#[test]
fn resolver_only_change_fails_when_policy_is_fail() {
    let summary = CiSummary {
        resolver_changes: 4,
        ..Default::default()
    };
    let policy = DiffPolicy {
        resolver_changes: PolicyAction::Fail,
        confidence_changes: PolicyAction::Ignore,
    };
    let (text, failed) = render_ci_report(&summary, Some(&percent(1.0)), policy, "a", "b");
    assert!(failed);
    assert!(text.contains("❌"));
    assert!(text.contains("RESOLVER CHANGES: 4"));
    assert!(text.contains("exit code: 1"));
}

#[test]
fn resolver_ignore_policy_still_reports_but_never_fails() {
    let summary = CiSummary {
        resolver_changes: 3,
        ..Default::default()
    };
    let policy = DiffPolicy {
        resolver_changes: PolicyAction::Ignore,
        confidence_changes: PolicyAction::Ignore,
    };
    let (text, failed) = render_ci_report(&summary, Some(&percent(1.0)), policy, "a", "b");
    assert!(!failed);
    assert!(text.contains("ℹ️"));
    assert!(text.contains("RESOLVER CHANGES: 3"));
}

#[test]
fn confidence_fail_policy_fails_the_exit_code() {
    let summary = CiSummary {
        confidence_changes: 2,
        ..Default::default()
    };
    let policy = DiffPolicy {
        resolver_changes: PolicyAction::Warn,
        confidence_changes: PolicyAction::Fail,
    };
    let (text, failed) = render_ci_report(&summary, None, policy, "a", "b");
    assert!(failed);
    assert!(text.contains("❌"));
    assert!(text.contains("exit code: 1"));
}

#[test]
fn provenance_change_is_reported_and_gated_as_a_resolver_change_not_confidence() {
    let summary = CiSummary {
        resolver_changes: 1,
        ..Default::default()
    };
    let policy = DiffPolicy {
        resolver_changes: PolicyAction::Fail,
        confidence_changes: PolicyAction::Warn,
    };
    let (_, failed) = render_ci_report(&summary, Some(&percent(1.0)), policy, "a", "b");
    assert!(
        failed,
        "resolver_changes = \"fail\" should gate a ProvenanceChange-derived count too"
    );
}

#[test]
fn a_full_report_is_pinned_word_for_word() {
    let summary = CiSummary {
        source_changes: 2,
        resolver_changes: 3,
        confidence_changes: 4,
        ..Default::default()
    };
    let (text, failed) =
        render_ci_report(&summary, Some("33.3"), DiffPolicy::default(), "main", "HEAD");
    assert!(failed);
    assert_eq!(
        text,
        "\u{274c} SOURCE CHANGES: 2\n\u{26a0}\u{fe0f}  RESOLVER CHANGES: 3\n   (33.3% of relationship-level changes in this diff were resolver-only)\n\u{2139}\u{fe0f}  CONFIDENCE CHANGES: 4\n\nexit code: 1"
    );
    assert_eq!(
        render_ci_report(&CiSummary::default(), None, DiffPolicy::default(), "a", "b"),
        ("No changes between a and b\n\nexit code: 0".to_string(), false)
    );
}

#[test]
fn only_one_policy_fails() {
    assert_eq!(policy_icon(PolicyAction::Fail), ("\u{274c}", true));
    assert!(!policy_icon(PolicyAction::Warn).1);
    assert!(!policy_icon(PolicyAction::Ignore).1);
}

#[test]
fn a_limit_on_the_reach_gates() {
    let report = report_of(vec![
        impacted("functions/a", ChangeKind::Changed, &["functions/x", "functions/y"]),
        impacted("functions/b", ChangeKind::Added, &[]),
    ]);
    assert!(!is_risky(&report, None));
    assert!(is_risky(&report, Some(0)));
    assert!(is_risky(&report, Some(2)));
    assert!(!is_risky(&report, Some(3)));
    assert!(!is_risky(&report_of(Vec::new()), Some(0)));
}

#[test]
fn the_impact_is_told_line_by_line() {
    let mut looping = impacted("functions/b", ChangeKind::Added, &[]);
    looping.in_cycle = true;
    let mut quiet = impacted("functions/c", ChangeKind::Removed, &[]);
    quiet.is_public_api = false;
    let report = report_of(vec![
        impacted("functions/a", ChangeKind::Changed, &["functions/x", "functions/y"]),
        looping,
        quiet,
    ]);
    assert_eq!(
        render_impact(&report, "main", "HEAD"),
        "3 concept(s) changed between main and HEAD, ordered by blast radius (most affected first):\n\n  ~ functions/a \u{2014} Function [public API]\n      blast radius: 2 concept(s): functions/x, functions/y\n  + functions/b \u{2014} Function [public API, in a call cycle]\n      blast radius: none (nothing else calls this, directly or transitively)\n  - functions/c \u{2014} Function\n      blast radius: none (nothing else calls this, directly or transitively)\n"
    );
    assert_eq!(
        render_impact(&report_of(Vec::new()), "a", "b"),
        "No concept-level changes between a and b\n"
    );
}

fn function(id: &str, signature: &str) -> Concept {
    Concept {
        id: id.to_string(),
        kind: ConceptKind::Function,
        language: Language::Rust,
        name: id.to_string(),
        qualified_name: id.to_string(),
        description: None,
        location: Location {
            file: "src/lib.rs".to_string(),
            start_line: 1,
            end_line: 1,
        },
        signature: Some(signature.to_string()),
        tags: Vec::new(),
        is_public: true,
        generated_at: None,
        relationships: Vec::new(),
    }
}

#[test]
fn a_diff_is_told_by_sort_of_change() {
    let before = vec![
        function("functions/gone", "fn gone()"),
        function("functions/same", "fn same()"),
        function("functions/moved", "fn moved()"),
    ];
    let after = vec![
        function("functions/same", "fn same()"),
        function("functions/moved", "fn moved(x: i32)"),
        function("functions/new", "fn new()"),
    ];
    assert_eq!(
        render_diff(&diff(&before, &after), "main", "HEAD"),
        "Added (1):\n  + functions/new \u{2014} Rust Function\nRemoved (1):\n  - functions/gone \u{2014} Rust Function\nChanged (1):\n  ~ functions/moved \u{2014} Function\n      - fn moved()\n      + fn moved(x: i32)\n"
    );
    assert_eq!(
        render_diff(&diff(&before, &before), "main", "HEAD"),
        "No concept-level changes between main and HEAD\n"
    );
}

#[test]
fn warnings_fail_a_bundle_only_where_they_are_about_orphans_and_it_is_asked_for() {
    let issue = |severity, kind| Issue {
        severity,
        kind,
        file: "functions/f.md".to_string(),
        message: "something".to_string(),
    };
    assert_eq!(
        render_validation("knowledge", &Vec::new(), true),
        ("knowledge \u{2014} no issues found\n".to_string(), false)
    );
    let orphan = vec![issue(Severity::Warning, IssueKind::Orphan)];
    assert_eq!(
        render_validation("knowledge", &orphan, false),
        ("warning: functions/f.md: something\n".to_string(), false)
    );
    assert!(render_validation("knowledge", &orphan, true).1);
    let other = vec![issue(Severity::Warning, IssueKind::Other(1))];
    assert!(!render_validation("knowledge", &other, true).1);
    let error = vec![issue(Severity::Error, IssueKind::Other(1))];
    assert_eq!(
        render_validation("knowledge", &error, false),
        ("error: functions/f.md: something\n".to_string(), true)
    );
}
