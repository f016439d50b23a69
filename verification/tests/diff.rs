use okf::diff::{diff, diff_relationships, RelationshipChangeKind};
use okf::impact::{impact, ChangeKind};
use okf::model::{
    Concept, ConceptKind, Confidence, Language, Location, RelationKind, Relationship,
};
use okf::summary::{ci_summary, resolver_only_rate, CiSummary};

fn rate_of(summary: &CiSummary) -> Option<f64> {
    summary
        .resolver_only_rate()
        .map(|(resolver, total)| resolver as f64 / total as f64)
}

fn make_concept(id: &str, signature: &str) -> Concept {
    Concept {
        id: id.to_string(),
        kind: ConceptKind::Function,
        language: Language::Rust,
        name: id.to_string(),
        qualified_name: id.to_string(),
        description: None,
        location: Location {
            file: "src/lib.rs".to_string(),
            start_line: 1,
            end_line: 1,
        },
        signature: Some(signature.to_string()),
        tags: Vec::new(),
        is_public: true,
        generated_at: None,
        relationships: Vec::new(),
    }
}

#[test]
fn diff_detects_added_removed_and_changed() {
    let before = vec![
        make_concept("functions/kept", "fn kept()"),
        make_concept("functions/removed", "fn removed()"),
        make_concept("functions/changed", "fn changed(a: i32)"),
    ];
    let after = vec![
        make_concept("functions/kept", "fn kept()"),
        make_concept("functions/added", "fn added()"),
        make_concept("functions/changed", "fn changed(a: i32, b: i32)"),
    ];

    let report = diff(&before, &after);

    assert_eq!(report.added.len(), 1);
    assert_eq!(report.added[0].id, "functions/added");

    assert_eq!(report.removed.len(), 1);
    assert_eq!(report.removed[0].id, "functions/removed");

    assert_eq!(report.changed.len(), 1);
    assert_eq!(report.changed[0].id, "functions/changed");
    assert_eq!(
        report.changed[0].before_signature.as_deref(),
        Some("fn changed(a: i32)")
    );
    assert_eq!(
        report.changed[0].after_signature.as_deref(),
        Some("fn changed(a: i32, b: i32)")
    );
}

#[test]
fn diff_is_empty_for_identical_snapshots() {
    let concepts = vec![make_concept("functions/a", "fn a()")];
    let report = diff(&concepts, &concepts.clone());
    assert!(report.is_empty());
}

#[test]
fn diff_ignores_relationship_order() {
    let mut before = make_concept("functions/a", "fn a()");
    before
        .relationships
        .push(Relationship::new(RelationKind::Calls, "functions/x", "x"));
    before
        .relationships
        .push(Relationship::new(RelationKind::Calls, "functions/y", "y"));

    let mut after = make_concept("functions/a", "fn a()");
    after
        .relationships
        .push(Relationship::new(RelationKind::Calls, "functions/y", "y"));
    after
        .relationships
        .push(Relationship::new(RelationKind::Calls, "functions/x", "x"));

    let report = diff(&[before], &[after]);
    assert!(
        report.is_empty(),
        "reordered relationships should not count as a change"
    );
}

fn provenance_relationship(
    kind: RelationKind,
    target: &str,
    resolved_by: &str,
    confidence: Confidence,
    resolver_version: Option<&str>,
) -> Relationship {
    Relationship {
        kind,
        target: target.to_string(),
        target_display: target.to_string(),
        resolved_by: resolved_by.to_string(),
        confidence,
        resolver_version: resolver_version.map(str::to_string),
    }
}

#[test]
fn diff_relationships_flags_an_added_edge_as_source_change() {
    let mut before = make_concept("functions/a", "fn a()");
    before
        .relationships
        .push(Relationship::new(RelationKind::Calls, "functions/b", "b"));

    let mut after = before.clone();
    after
        .relationships
        .push(Relationship::new(RelationKind::Calls, "functions/c", "c"));

    let changes = diff_relationships(&before, &after);
    assert_eq!(
        changes,
        vec![(
            RelationKind::Calls,
            "functions/c".to_string(),
            RelationshipChangeKind::SourceChange
        )]
    );
}

#[test]
fn diff_relationships_flags_a_removed_edge_as_source_change() {
    let mut before = make_concept("functions/a", "fn a()");
    before
        .relationships
        .push(Relationship::new(RelationKind::Calls, "functions/b", "b"));
    before
        .relationships
        .push(Relationship::new(RelationKind::Calls, "functions/c", "c"));

    let mut after = before.clone();
    after.relationships.retain(|r| r.target != "functions/c");

    let changes = diff_relationships(&before, &after);
    assert_eq!(
        changes,
        vec![(
            RelationKind::Calls,
            "functions/c".to_string(),
            RelationshipChangeKind::SourceChange
        )]
    );
}

#[test]
fn diff_relationships_a_rewired_target_is_two_source_changes_not_a_resolver_change() {
    let mut before = make_concept("functions/foo", "fn foo()");
    before.relationships.push(Relationship::new(
        RelationKind::Calls,
        "functions/bar",
        "bar",
    ));

    let mut after = make_concept("functions/foo", "fn foo()");
    after.relationships.push(Relationship::new(
        RelationKind::Calls,
        "functions/baz",
        "baz",
    ));

    let mut changes = diff_relationships(&before, &after);
    changes.sort_by(|a, b| a.1.cmp(&b.1));
    assert_eq!(
        changes,
        vec![
            (
                RelationKind::Calls,
                "functions/bar".to_string(),
                RelationshipChangeKind::SourceChange
            ),
            (
                RelationKind::Calls,
                "functions/baz".to_string(),
                RelationshipChangeKind::SourceChange
            ),
        ]
    );
}

#[test]
fn diff_relationships_flags_a_resolver_version_bump_as_resolver_change() {
    let mut before = make_concept("functions/foo", "fn foo()");
    before.relationships.push(provenance_relationship(
        RelationKind::Calls,
        "functions/bar",
        "rust-analyzer",
        Confidence::Semantic,
        Some("1.88.0"),
    ));

    let mut after = make_concept("functions/foo", "fn foo()");
    after.relationships.push(provenance_relationship(
        RelationKind::Calls,
        "functions/bar",
        "rust-analyzer",
        Confidence::Semantic,
        Some("1.89.0"),
    ));

    let changes = diff_relationships(&before, &after);
    assert_eq!(
        changes,
        vec![(
            RelationKind::Calls,
            "functions/bar".to_string(),
            RelationshipChangeKind::ResolverChange
        )]
    );

    let report = diff(&[before], &[after]);
    assert_eq!(report.changed.len(), 1);
    assert_eq!(report.changed[0].id, "functions/foo");
    assert_eq!(report.changed[0].relationship_changes.len(), 1);
}

#[test]
fn diff_relationships_a_resolver_change_that_also_rewires_the_target_is_source_change() {
    let mut before = make_concept("functions/foo", "fn foo()");
    before.relationships.push(provenance_relationship(
        RelationKind::Calls,
        "functions/bar",
        "rust-analyzer",
        Confidence::Semantic,
        Some("1.88.0"),
    ));

    let mut after = make_concept("functions/foo", "fn foo()");
    after.relationships.push(provenance_relationship(
        RelationKind::Calls,
        "functions/baz",
        "rust-analyzer",
        Confidence::Semantic,
        Some("1.89.0"),
    ));

    let mut changes = diff_relationships(&before, &after);
    changes.sort_by(|a, b| a.1.cmp(&b.1));
    assert_eq!(
        changes,
        vec![
            (
                RelationKind::Calls,
                "functions/bar".to_string(),
                RelationshipChangeKind::SourceChange
            ),
            (
                RelationKind::Calls,
                "functions/baz".to_string(),
                RelationshipChangeKind::SourceChange
            ),
        ]
    );
}

#[test]
fn diff_relationships_flags_a_combined_resolver_and_confidence_change_as_provenance_change() {
    let mut before = make_concept("functions/foo", "fn foo()");
    before.relationships.push(Relationship::new(
        RelationKind::Calls,
        "functions/bar",
        "bar",
    ));

    let mut after = make_concept("functions/foo", "fn foo()");
    after.relationships.push(provenance_relationship(
        RelationKind::Calls,
        "functions/bar",
        "rust-analyzer",
        Confidence::Semantic,
        Some("1.88.0"),
    ));

    let changes = diff_relationships(&before, &after);
    assert_eq!(
        changes,
        vec![(
            RelationKind::Calls,
            "functions/bar".to_string(),
            RelationshipChangeKind::ProvenanceChange
        )]
    );
}

#[test]
fn diff_relationships_is_order_independent() {
    let mut before = make_concept("functions/a", "fn a()");
    before
        .relationships
        .push(Relationship::new(RelationKind::Calls, "functions/x", "x"));
    before
        .relationships
        .push(Relationship::new(RelationKind::Calls, "functions/y", "y"));

    let mut after = make_concept("functions/a", "fn a()");
    after
        .relationships
        .push(Relationship::new(RelationKind::Calls, "functions/y", "y"));
    after
        .relationships
        .push(Relationship::new(RelationKind::Calls, "functions/x", "x"));

    assert!(diff_relationships(&before, &after).is_empty());
}

#[test]
fn a_signature_only_change_reports_empty_relationship_changes() {
    let mut before = make_concept("functions/a", "fn a()");
    before
        .relationships
        .push(Relationship::new(RelationKind::Calls, "functions/b", "b"));

    let mut after = make_concept("functions/a", "fn a(x: i32)");
    after
        .relationships
        .push(Relationship::new(RelationKind::Calls, "functions/b", "b"));

    let report = diff(&[before], &[after]);
    assert_eq!(report.changed.len(), 1);
    assert!(report.changed[0].relationship_changes.is_empty());
}

#[test]
fn ci_summary_is_empty_for_no_changes() {
    let concepts = vec![make_concept("functions/a", "fn a()")];
    let report = diff(&concepts, &concepts.clone());
    assert!(ci_summary(&report).is_empty());
}

#[test]
fn ci_summary_counts_a_signature_only_change_as_a_source_change() {
    let before = make_concept("functions/a", "fn a()");
    let after = make_concept("functions/a", "fn a(x: i32)");

    let report = diff(&[before], &[after]);
    let summary = ci_summary(&report);
    assert_eq!(summary.source_changes, 1);
    assert_eq!(summary.resolver_changes, 0);
    assert_eq!(summary.confidence_changes, 0);
}

#[test]
fn ci_summary_counts_an_added_edge_as_one_source_change() {
    let before = make_concept("functions/a", "fn a()");
    let mut after = before.clone();
    after
        .relationships
        .push(Relationship::new(RelationKind::Calls, "functions/b", "b"));

    let report = diff(&[before], &[after]);
    let summary = ci_summary(&report);
    assert_eq!(summary.source_changes, 1);
    assert_eq!(summary.resolver_changes, 0);
}

#[test]
fn ci_summary_counts_a_removed_edge_as_one_source_change() {
    let mut before = make_concept("functions/a", "fn a()");
    before
        .relationships
        .push(Relationship::new(RelationKind::Calls, "functions/b", "b"));
    let after = make_concept("functions/a", "fn a()");

    let report = diff(&[before], &[after]);
    let summary = ci_summary(&report);
    assert_eq!(summary.source_changes, 1);
}

#[test]
fn ci_summary_counts_a_target_rewire_as_two_source_changes() {
    let mut before = make_concept("functions/foo", "fn foo()");
    before.relationships.push(Relationship::new(
        RelationKind::Calls,
        "functions/bar",
        "bar",
    ));
    let mut after = make_concept("functions/foo", "fn foo()");
    after.relationships.push(Relationship::new(
        RelationKind::Calls,
        "functions/baz",
        "baz",
    ));

    let report = diff(&[before], &[after]);
    let summary = ci_summary(&report);
    assert_eq!(summary.source_changes, 2);
    assert_eq!(summary.resolver_changes, 0);
}

#[test]
fn ci_summary_counts_a_resolver_only_change_without_any_source_changes() {
    let mut before = make_concept("functions/foo", "fn foo()");
    before.relationships.push(provenance_relationship(
        RelationKind::Calls,
        "functions/bar",
        "rust-analyzer",
        Confidence::Semantic,
        Some("1.88.0"),
    ));
    let mut after = make_concept("functions/foo", "fn foo()");
    after.relationships.push(provenance_relationship(
        RelationKind::Calls,
        "functions/bar",
        "rust-analyzer",
        Confidence::Semantic,
        Some("1.89.0"),
    ));

    let report = diff(&[before], &[after]);
    let summary = ci_summary(&report);
    assert_eq!(summary.source_changes, 0);
    assert_eq!(summary.resolver_changes, 1);
    assert_eq!(summary.confidence_changes, 0);
    assert_eq!(rate_of(&summary), Some(1.0));
}

#[test]
fn resolver_only_rate_is_none_on_an_empty_summary() {
    assert_eq!(rate_of(&CiSummary::default()), None);
}

#[test]
fn resolver_only_rate_reports_the_share_of_relationship_level_changes() {
    let mut before = make_concept("functions/foo", "fn foo()");
    before.relationships.push(Relationship::new(
        RelationKind::Calls,
        "functions/bar",
        "bar",
    ));
    before.relationships.push(provenance_relationship(
        RelationKind::Calls,
        "functions/baz",
        "rust-analyzer",
        Confidence::Semantic,
        Some("1.88.0"),
    ));
    let mut after = make_concept("functions/foo", "fn foo()");
    after.relationships.push(Relationship::new(
        RelationKind::Calls,
        "functions/qux",
        "qux",
    ));
    after.relationships.push(provenance_relationship(
        RelationKind::Calls,
        "functions/baz",
        "rust-analyzer",
        Confidence::Semantic,
        Some("1.89.0"),
    ));

    let report = diff(&[before], &[after]);
    let summary = ci_summary(&report);
    assert_eq!(summary.source_changes, 2);
    assert_eq!(summary.resolver_changes, 1);
    let rate = rate_of(&summary).unwrap();
    assert!((rate - (1.0 / 3.0)).abs() < 1e-9);
}

#[test]
fn ci_summary_a_combined_resolver_and_confidence_change_counts_as_resolver_not_confidence() {
    let mut before = make_concept("functions/foo", "fn foo()");
    before.relationships.push(Relationship::new(
        RelationKind::Calls,
        "functions/bar",
        "bar",
    ));
    let mut after = make_concept("functions/foo", "fn foo()");
    after.relationships.push(provenance_relationship(
        RelationKind::Calls,
        "functions/bar",
        "rust-analyzer",
        Confidence::Semantic,
        Some("1.88.0"),
    ));

    let report = diff(&[before], &[after]);
    let summary = ci_summary(&report);
    assert_eq!(summary.source_changes, 0);
    assert_eq!(
        summary.resolver_changes, 1,
        "ProvenanceChange counts as resolver_changes"
    );
    assert_eq!(summary.confidence_changes, 0);
}

#[test]
fn ci_summary_mixed_source_and_resolver_changes_both_count() {
    let mut before = make_concept("functions/foo", "fn foo()");
    before.relationships.push(provenance_relationship(
        RelationKind::Calls,
        "functions/bar",
        "rust-analyzer",
        Confidence::Semantic,
        Some("1.88.0"),
    ));
    before
        .relationships
        .push(Relationship::new(RelationKind::Calls, "functions/x", "x"));

    let mut after = make_concept("functions/foo", "fn foo()");
    after.relationships.push(provenance_relationship(
        RelationKind::Calls,
        "functions/bar",
        "rust-analyzer",
        Confidence::Semantic,
        Some("1.89.0"),
    ));

    let report = diff(&[before], &[after]);
    let summary = ci_summary(&report);
    assert_eq!(summary.source_changes, 1);
    assert_eq!(summary.resolver_changes, 1);
}

#[test]
fn ci_summary_an_added_concept_with_no_relationships_still_counts_as_one_source_change() {
    let before: Vec<Concept> = vec![];
    let after = vec![make_concept("functions/new", "fn new()")];

    let report = diff(&before, &after);
    let summary = ci_summary(&report);
    assert_eq!(summary.source_changes, 1);
}

#[test]
fn ci_summary_an_added_concept_with_relationships_counts_one_per_relationship() {
    let before: Vec<Concept> = vec![];
    let mut new_concept = make_concept("functions/new", "fn new()");
    new_concept
        .relationships
        .push(Relationship::new(RelationKind::Calls, "functions/a", "a"));
    new_concept
        .relationships
        .push(Relationship::new(RelationKind::Calls, "functions/b", "b"));
    let after = vec![new_concept];

    let report = diff(&before, &after);
    let summary = ci_summary(&report);
    assert_eq!(summary.source_changes, 2);
}

fn concept_with_edges(
    id: &str,
    calls: &[&str],
    called_by: &[&str],
    is_public: bool,
) -> Concept {
    let mut c = make_concept(id, &format!("fn {id}()"));
    c.is_public = is_public;
    for target in calls {
        c.relationships
            .push(Relationship::new(RelationKind::Calls, *target, *target));
    }
    for source in called_by {
        c.relationships
            .push(Relationship::new(RelationKind::CalledBy, *source, *source));
    }
    c
}

#[test]
fn impact_reports_the_blast_radius_of_a_changed_concept() {
    let a = concept_with_edges("functions/a", &[], &["functions/b"], true);
    let b = concept_with_edges("functions/b", &["functions/a"], &["functions/c"], true);
    let c = concept_with_edges("functions/c", &["functions/b"], &[], true);
    let before = vec![a.clone(), b.clone(), c.clone()];

    let mut a_changed = a.clone();
    a_changed.signature = Some("fn a(x: i32)".to_string());
    let after = vec![a_changed, b, c];

    let report = impact(&before, &after);
    assert_eq!(report.diff.changed.len(), 1);
    assert_eq!(report.impacted.len(), 1);
    let impacted = &report.impacted[0];
    assert_eq!(impacted.id, "functions/a");
    assert_eq!(impacted.change, ChangeKind::Changed);
    assert_eq!(impacted.blast_radius, vec!["functions/b", "functions/c"]);
    assert!(impacted.is_public_api);
}

#[test]
fn impact_scores_a_removed_concept_against_the_before_graph() {
    let removed = concept_with_edges("functions/removed", &[], &["functions/caller"], true);
    let caller = concept_with_edges("functions/caller", &["functions/removed"], &[], true);
    let before = vec![removed, caller.clone()];
    let after = vec![caller];

    let report = impact(&before, &after);
    assert_eq!(report.impacted.len(), 1);
    assert_eq!(report.impacted[0].id, "functions/removed");
    assert_eq!(report.impacted[0].change, ChangeKind::Removed);
    assert_eq!(
        report.impacted[0].blast_radius,
        vec!["functions/caller"],
        "a removed concept's blast radius must come from the graph it actually had callers in"
    );
}

#[test]
fn impact_flags_public_api_and_cycle_membership() {
    let mut public_fn = concept_with_edges("functions/public", &[], &[], true);
    public_fn.is_public = true;
    let private_fn = concept_with_edges("functions/private", &[], &[], false);
    let mut recursive = concept_with_edges("functions/recursive", &[], &[], true);
    recursive.relationships.push(Relationship::new(
        RelationKind::Calls,
        "functions/recursive",
        "recursive",
    ));

    let before: Vec<Concept> = Vec::new();
    let after = vec![public_fn, private_fn, recursive];

    let report = impact(&before, &after);
    let by_id = |id: &str| report.impacted.iter().find(|c| c.id == id).unwrap();

    assert!(by_id("functions/public").is_public_api);
    assert!(!by_id("functions/private").is_public_api);
    assert!(by_id("functions/recursive").in_cycle);
    assert!(!by_id("functions/public").in_cycle);
}

#[test]
fn impact_sorts_by_blast_radius_size_descending() {
    let hub = concept_with_edges("functions/hub", &[], &["functions/x", "functions/y"], true);
    let x = concept_with_edges("functions/x", &["functions/hub"], &[], true);
    let y = concept_with_edges("functions/y", &["functions/hub"], &[], true);
    let leaf = concept_with_edges("functions/leaf", &[], &[], true);

    let before: Vec<Concept> = Vec::new();
    let after = vec![hub, x, y, leaf];

    let report = impact(&before, &after);
    assert_eq!(report.impacted[0].id, "functions/hub");
    assert_eq!(report.impacted[0].blast_radius.len(), 2);
}

#[test]
fn impact_is_empty_for_identical_snapshots() {
    let concepts = vec![make_concept("functions/a", "fn a()")];
    let report = impact(&concepts, &concepts.clone());
    assert!(report.diff.is_empty());
    assert!(report.impacted.is_empty());
}

#[test]
fn golden_diff_fixtures_classify_correctly_through_read_bundle() {
    let foo = |relationships: Vec<Relationship>| {
        let mut concept = make_concept("functions/foo", "fn foo()");
        concept.relationships = relationships;
        vec![concept]
    };
    let call = |target: &str| Relationship::new(RelationKind::Calls, target, target);
    let resolved = |target: &str, version: &str| {
        provenance_relationship(
            RelationKind::Calls,
            target,
            "rust-analyzer",
            Confidence::Semantic,
            Some(version),
        )
    };

    let report = diff(
        &foo(vec![call("functions/bar")]),
        &foo(vec![call("functions/bar")]),
    );
    assert!(report.is_empty());
    assert!(ci_summary(&report).is_empty());

    let report = diff(
        &foo(vec![call("functions/bar")]),
        &foo(vec![call("functions/bar"), call("functions/baz")]),
    );
    assert_eq!(report.changed.len(), 1);
    let summary = ci_summary(&report);
    assert_eq!(summary.source_changes, 1);
    assert_eq!(summary.resolver_changes, 0);
    assert_eq!(summary.confidence_changes, 0);

    let report = diff(
        &foo(vec![call("functions/bar"), call("functions/baz")]),
        &foo(vec![call("functions/bar")]),
    );
    assert_eq!(report.changed.len(), 1);
    let summary = ci_summary(&report);
    assert_eq!(summary.source_changes, 1);

    let report = diff(
        &foo(vec![resolved("functions/bar", "1.88.0")]),
        &foo(vec![resolved("functions/bar", "1.89.0")]),
    );
    assert_eq!(report.changed.len(), 1);
    let summary = ci_summary(&report);
    assert_eq!(summary.source_changes, 0);
    assert_eq!(summary.resolver_changes, 1);

    let report = diff(
        &foo(vec![resolved("functions/bar", "1.88.0")]),
        &foo(vec![resolved("functions/baz", "1.89.0")]),
    );
    assert_eq!(report.changed.len(), 1);
    let summary = ci_summary(&report);
    assert_eq!(summary.source_changes, 2);
    assert_eq!(summary.resolver_changes, 0);
}

#[test]
fn a_confidence_alone_that_moves_is_a_confidence_change() {
    let mut before = make_concept("functions/foo", "fn foo()");
    before.relationships.push(provenance_relationship(
        RelationKind::Calls,
        "functions/bar",
        "rust-analyzer",
        Confidence::Semantic,
        None,
    ));
    let mut after = make_concept("functions/foo", "fn foo()");
    after.relationships.push(provenance_relationship(
        RelationKind::Calls,
        "functions/bar",
        "rust-analyzer",
        Confidence::Exact,
        None,
    ));
    assert_eq!(
        diff_relationships(&before, &after),
        vec![(
            RelationKind::Calls,
            "functions/bar".to_string(),
            RelationshipChangeKind::ConfidenceChange
        )]
    );
    let summary = ci_summary(&diff(&[before], &[after]));
    assert_eq!(summary.confidence_changes, 1);
    assert_eq!(summary.source_changes, 0);
    assert_eq!(summary.resolver_changes, 0);
}

#[test]
fn what_is_added_one_way_is_removed_the_other() {
    let before = vec![make_concept("functions/a", "fn a()")];
    let after = vec![
        make_concept("functions/a", "fn a()"),
        make_concept("functions/b", "fn b()"),
    ];
    let there = diff(&before, &after);
    let back = diff(&after, &before);
    assert_eq!(there.added[0].id, "functions/b");
    assert_eq!(back.removed[0].id, "functions/b");
    assert!(there.removed.is_empty());
    assert!(back.added.is_empty());
}

#[test]
fn equal_reach_is_ordered_by_id() {
    let before: Vec<Concept> = Vec::new();
    let after = vec![
        make_concept("functions/z", "fn z()"),
        make_concept("functions/a", "fn a()"),
    ];
    let report = impact(&before, &after);
    let ids: Vec<&str> = report.impacted.iter().map(|c| c.id.as_str()).collect();
    assert_eq!(ids, vec!["functions/a", "functions/z"]);
    assert_eq!(report.impacted[0].change, ChangeKind::Added);
}

#[test]
fn whole_concepts_give_no_rate() {
    let report = diff(&[], &[make_concept("functions/new", "fn new()")]);
    let summary = ci_summary(&report);
    assert_eq!(summary.source_changes, 1);
    assert_eq!(summary.relationship_changes, 0);
    assert_eq!(summary.resolver_only_rate(), None);
    assert_eq!(resolver_only_rate(&report), None);
}

#[test]
fn whole_concepts_and_signatures_do_not_dilute_the_rate() {
    let edge = |version: &str| {
        provenance_relationship(
            RelationKind::Calls,
            "functions/bar",
            "rust-analyzer",
            Confidence::Semantic,
            Some(version),
        )
    };
    let mut before = make_concept("functions/foo", "fn foo()");
    before.relationships.push(edge("1.88.0"));
    let mut after = make_concept("functions/foo", "fn foo(x: u8)");
    after.relationships.push(edge("1.89.0"));
    let mut new = make_concept("functions/new", "fn new()");
    new.relationships.push(edge("1.89.0"));

    let there = diff(&[before.clone()], &[after.clone(), new.clone()]);
    let summary = ci_summary(&there);
    assert_eq!(summary.source_changes, 2);
    assert_eq!(summary.resolver_only_rate(), Some((1, 1)));
    assert_eq!(resolver_only_rate(&there), Some((1, 1)));

    let back = diff(&[after, new], &[before]);
    assert_eq!(ci_summary(&back), summary);
    assert_eq!(back.changed.len(), 1);
    assert_eq!(back.changed[0].before_signature, there.changed[0].after_signature);
    assert_eq!(
        back.changed[0].relationship_changes,
        there.changed[0].relationship_changes
    );
}

#[test]
fn a_summary_is_empty_with_its_report() {
    let c = make_concept("functions/foo", "fn foo()");
    let report = diff(&[c.clone()], &[c]);
    assert!(report.is_empty());
    assert!(ci_summary(&report).is_empty());
}
