use okf::commands::{
    docs_destination, generate_mode, render_docs_done, render_generated, render_regenerated,
    render_scan, resolve_enrich_config, search_mode, DocsFormat, EnrichSettings, GenerateMode,
    MissingSetting, ModeConflict, SearchMode,
};
use okf::enrich::EnrichStats;
use okf::model::{Concept, ConceptKind, Language, Location};
use okf::project::{ManifestKind, PackageRoot, Project, SourceFile};

fn concept(id: &str, kind: ConceptKind) -> Concept {
    Concept {
        id: id.to_string(),
        kind,
        language: Language::Rust,
        name: id.to_string(),
        qualified_name: id.to_string(),
        description: None,
        location: Location {
            file: "src/lib.rs".to_string(),
            start_line: 1,
            end_line: 1,
        },
        signature: None,
        tags: Vec::new(),
        is_public: true,
        generated_at: None,
        relationships: Vec::new(),
    }
}

#[test]
fn checks_do_not_go_together_with_each_other_or_with_enrichment() {
    assert_eq!(generate_mode(false, false, false), Ok(GenerateMode::Write));
    assert_eq!(generate_mode(false, false, true), Ok(GenerateMode::Write));
    assert_eq!(
        generate_mode(true, false, false),
        Ok(GenerateMode::CheckDeterminism)
    );
    assert_eq!(
        generate_mode(false, true, false),
        Ok(GenerateMode::CheckFresh)
    );
    assert_eq!(
        generate_mode(true, false, true),
        Err(ModeConflict::DeterminismAndEnrich)
    );
    assert_eq!(
        generate_mode(false, true, true),
        Err(ModeConflict::FreshAndEnrich)
    );
    assert_eq!(generate_mode(true, true, false), Err(ModeConflict::BothChecks));
    assert_eq!(generate_mode(true, true, true), Err(ModeConflict::BothChecks));
    let both = ModeConflict::BothChecks.message();
    assert!(both.contains("--check-determinism") && both.contains("--check-fresh"));
    let enriched = ModeConflict::DeterminismAndEnrich.message();
    assert!(enriched.contains("--check-determinism") && enriched.contains("--enrich"));
    let fresh = ModeConflict::FreshAndEnrich.message();
    assert!(fresh.contains("--check-fresh") && fresh.contains("--enrich"));
}

#[test]
fn meaning_goes_before_rank() {
    assert_eq!(search_mode(false, false), SearchMode::Plain);
    assert_eq!(search_mode(true, false), SearchMode::Ranked);
    assert_eq!(search_mode(false, true), SearchMode::Semantic);
    assert_eq!(search_mode(true, true), SearchMode::Semantic);
}

fn settings(base_url: Option<&str>, model: Option<&str>, api_key: Option<&str>) -> EnrichSettings {
    EnrichSettings {
        base_url: base_url.map(str::to_string),
        model: model.map(str::to_string),
        api_key: api_key.map(str::to_string),
    }
}

#[test]
fn what_is_given_goes_before_the_environment() {
    let config = resolve_enrich_config(
        settings(Some("http://given"), None, None),
        settings(Some("http://environment"), Some("m"), Some("k")),
    )
    .unwrap();
    assert_eq!(config.base_url, "http://given");
    assert_eq!(config.model, "m");
    assert_eq!(config.api_key.as_deref(), Some("k"));
    let config = resolve_enrich_config(
        settings(Some("u"), Some("m"), None),
        settings(None, None, None),
    )
    .unwrap();
    assert_eq!(config.api_key, None);
}

#[test]
fn an_address_and_a_model_are_required() {
    let missing =
        resolve_enrich_config(settings(None, Some("m"), None), settings(None, None, None));
    assert_eq!(missing.err(), Some(MissingSetting::BaseUrl));
    let missing =
        resolve_enrich_config(settings(Some("u"), None, None), settings(None, None, None));
    assert_eq!(missing.err(), Some(MissingSetting::Model));
    assert_eq!(
        MissingSetting::BaseUrl.message(),
        "this command requires --enrich-base-url (or the OKF_ENRICH_BASE_URL environment variable)"
    );
    assert_eq!(
        MissingSetting::Model.message(),
        "this command requires --enrich-model (or the OKF_ENRICH_MODEL environment variable)"
    );
}

#[test]
fn each_format_has_its_place() {
    let place = |format| docs_destination(None, format);
    assert_eq!(place(DocsFormat::Html), "docs");
    assert_eq!(place(DocsFormat::Markdown), "docs.md");
    assert_eq!(place(DocsFormat::Pdf), "docs.pdf");
    assert_eq!(place(DocsFormat::Dita), "docs-dita");
    assert_eq!(place(DocsFormat::Graphml), "docs.graphml");
    assert_eq!(place(DocsFormat::Obsidian), "docs-obsidian");
    assert_eq!(
        docs_destination(Some("elsewhere".to_string()), DocsFormat::Html),
        "elsewhere"
    );
    assert_eq!(
        render_docs_done(DocsFormat::Graphml, 3, "docs.graphml"),
        "Generated GraphML graph for 3 concepts into docs.graphml\n"
    );
    assert_eq!(
        render_docs_done(DocsFormat::Pdf, 1, "x.pdf"),
        "Generated PDF documentation for 1 concepts into x.pdf\n"
    );
}

#[test]
fn a_run_tells_what_it_wrote() {
    let concepts = vec![
        concept("functions/a", ConceptKind::Function),
        concept("documents/b", ConceptKind::Document),
        concept("functions/c", ConceptKind::Function),
        concept("documents/d", ConceptKind::Document),
        concept("packages/e", ConceptKind::Package),
    ];
    assert_eq!(
        render_generated(
            &concepts,
            "knowledge",
            3,
            1,
            Some(EnrichStats {
                generated: 2,
                reused: 0
            }),
            Some(2)
        ),
        "Generated 5 concepts into knowledge (3 files parsed, 1 reused from cache)\nEnriched 2 concepts (2 generated, 0 reused from the previous bundle)\nImported 2 DITA topics as Document concepts\n  Package      1\n  Document     2\n  Function     2\n"
    );
    assert_eq!(
        render_generated(&Vec::new(), "out", 0, 7, None, None),
        "Generated 0 concepts into out (0 files parsed, 7 reused from cache)\n"
    );
    assert_eq!(
        render_regenerated(4, 1, 2),
        "Regenerated 4 concepts (1 files parsed, 2 reused from cache)\n"
    );
}

fn source(path: &str, language: Language) -> SourceFile {
    SourceFile {
        relative_path: path.to_string(),
        absolute_path: format!("/demo/{path}"),
        language,
    }
}

#[test]
fn a_scan_tells_what_it_found() {
    let mut project = Project {
        root: "/demo".to_string(),
        files: vec![
            source("a.rs", Language::Rust),
            source("b.py", Language::Python),
            source("c.rs", Language::Rust),
        ],
        manifest: None,
        packages: Vec::new(),
    };
    assert_eq!(
        render_scan(&project),
        "Project root: /demo\nManifest: none detected\n3 source files:\n  Python       1\n  Rust         2\n"
    );
    project.packages.push(PackageRoot {
        relative_dir: String::new(),
        manifest: ManifestKind::Cargo,
    });
    assert!(render_scan(&project).contains("\nManifest: Cargo\n"));
    project.packages.push(PackageRoot {
        relative_dir: "web".to_string(),
        manifest: ManifestKind::Npm,
    });
    assert!(render_scan(&project).contains(&format!(
        "\n2 packages detected:\n  {:<30} Cargo\n  {:<30} Npm\n",
        ".", "web"
    )));
}
