use okf::analysis::{
    analyze, analyze_with_cache, analyze_with_cache_lsp, gather_files, reuse_file,
    AnalysisResult, FileParseResult,
};
use okf::cache::{hash_content, AnalysisCache};
use okf::calls::{resolve_calls, ResolvedEdge};
use okf::extraction::{CallCandidate, CallEntry, CallSite, FileExtraction};
use okf::model::{Concept, ConceptKind, Confidence, Language, Location, RelationKind};
use okf::packages::{
    detect_packages, gomod_name, link_modules_to_packages, package_directory, read_manifest_name,
};
use okf::project::{ManifestKind, PackageRoot};

fn concept(id: &str, kind: ConceptKind, name: &str, file: &str, line: usize) -> Concept {
    Concept {
        id: id.to_string(),
        kind,
        language: Language::Rust,
        name: name.to_string(),
        qualified_name: name.to_string(),
        description: None,
        location: Location {
            file: file.to_string(),
            start_line: line,
            end_line: line,
        },
        signature: None,
        tags: Vec::new(),
        is_public: true,
        generated_at: None,
        relationships: Vec::new(),
    }
}

fn function(path: &str, name: &str, line: usize) -> Concept {
    let stem = path.trim_end_matches(".rs");
    concept(
        &format!("functions/{stem}/{name}"),
        ConceptKind::Function,
        name,
        path,
        line,
    )
}

fn module(path: &str) -> Concept {
    let stem = path.trim_end_matches(".rs");
    concept(
        &format!("modules/{stem}"),
        ConceptKind::Module,
        stem,
        path,
        1,
    )
}

fn call(caller_id: &str, callee: &str, line: u32) -> CallCandidate {
    CallCandidate {
        caller_id: caller_id.to_string(),
        callee_name: callee.to_string(),
        call_site: CallSite { line, character: 0 },
    }
}

fn file(path: &str, concepts: Vec<Concept>, calls: Vec<CallCandidate>) -> FileParseResult {
    FileParseResult {
        relative_path: path.to_string(),
        language: Language::Rust,
        hash: hash_content(path),
        extraction: FileExtraction { concepts, calls },
        reused: false,
    }
}

fn named<'a>(result: &'a AnalysisResult, name: &str) -> &'a Concept {
    result.concepts.iter().find(|c| c.name == name).unwrap()
}

#[test]
fn resolves_unambiguous_calls_and_detects_package() {
    let roots = vec![PackageRoot {
        relative_dir: String::new(),
        manifest: ManifestKind::Cargo,
    }];
    let contents = vec![Some(
        "[package]\nname = \"demo\"\nversion = \"0.1.0\"\n".to_string(),
    )];
    let (packages, skipped) = detect_packages(&roots, &contents);
    assert!(skipped.is_empty());
    let files = vec![file(
        "src/lib.rs",
        vec![
            module("src/lib.rs"),
            function("src/lib.rs", "verify_token", 1),
            function("src/lib.rs", "decode_jwt", 3),
        ],
        vec![call("functions/src/lib/verify_token", "decode_jwt", 0)],
    )];

    let result = analyze("/demo", &packages, &files);

    let package = result
        .concepts
        .iter()
        .find(|c| c.kind == ConceptKind::Package)
        .unwrap();
    assert_eq!(package.name, "demo");

    let verify = named(&result, "verify_token");
    let calls_decode = verify
        .relationships
        .iter()
        .find(|r| r.kind == RelationKind::Calls && r.target_display == "decode_jwt")
        .unwrap();
    assert_eq!(calls_decode.resolved_by, "tree-sitter");
    assert_eq!(calls_decode.confidence, Confidence::Exact);

    let decode = named(&result, "decode_jwt");
    let called_by_verify = decode
        .relationships
        .iter()
        .find(|r| r.kind == RelationKind::CalledBy && r.target_display == "verify_token")
        .unwrap();
    assert_eq!(called_by_verify.resolved_by, "tree-sitter");
    assert_eq!(called_by_verify.confidence, Confidence::Exact);
}

#[test]
fn does_not_resolve_ambiguous_call_names() {
    let files = vec![
        file(
            "src/a.rs",
            vec![
                function("src/a.rs", "run", 1),
                function("src/a.rs", "caller", 1),
            ],
            vec![call("functions/src/a/caller", "run", 0)],
        ),
        file("src/b.rs", vec![function("src/b.rs", "run", 1)], Vec::new()),
    ];

    let result = analyze("/demo", &Vec::new(), &files);

    assert!(!named(&result, "caller")
        .relationships
        .iter()
        .any(|r| r.kind == RelationKind::Calls));
}

#[test]
fn ambiguous_calls_are_left_to_be_confirmed() {
    let concepts = vec![
        function("src/a.rs", "run", 1),
        function("src/b.rs", "run", 1),
        function("src/a.rs", "helper", 2),
        function("src/a.rs", "caller", 3),
    ];
    let entry = |callee: &str| CallEntry {
        call: call("functions/src/a/caller", callee, 0),
        language: Language::Rust,
        relative_path: "src/a.rs".to_string(),
    };
    let calls = vec![entry("run"), entry("helper"), entry("missing"), entry("caller")];
    let (edges, ambiguous) = resolve_calls(&concepts, &calls);
    assert_eq!(ambiguous, vec![0]);
    assert_eq!(edges.len(), 1);
    assert_eq!(edges[0].callee, "functions/src/a/helper");
}

#[test]
fn resolves_an_ambiguous_call_via_a_real_rust_analyzer_when_scoping_disambiguates_it() {
    let files = vec![
        file(
            "src/a.rs",
            vec![
                function("src/a.rs", "run", 1),
                function("src/a.rs", "caller", 2),
            ],
            vec![call("functions/src/a/caller", "run", 1)],
        ),
        file("src/b.rs", vec![function("src/b.rs", "run", 1)], Vec::new()),
    ];
    let gathered = gather_files(&Vec::new(), &files);
    let confirmed = vec![ResolvedEdge {
        caller: "functions/src/a/caller".to_string(),
        callee: "functions/src/a/run".to_string(),
        resolved_by: "rust-analyzer".to_string(),
        confidence: Confidence::Semantic,
        resolver_version: Some("1.88.0".to_string()),
    }];
    let result = analyze_with_cache_lsp("/demo", gathered, confirmed);
    let call = named(&result, "caller")
        .relationships
        .iter()
        .find(|r| r.kind == RelationKind::Calls)
        .expect("caller should have exactly one resolved Calls edge");
    assert_eq!(
        call.target, "functions/src/a/run",
        "should resolve specifically to a::run, not b::run"
    );
    assert_eq!(call.resolved_by, "rust-analyzer");
    assert_eq!(call.confidence, Confidence::Semantic);
    assert_eq!(call.resolver_version.as_deref(), Some("1.88.0"));
}

#[test]
fn two_concepts_of_one_id_get_different_ones() {
    let files = vec![file(
        "src/a.rs",
        vec![
            function("src/a.rs", "run", 3),
            function("src/a.rs", "run", 5),
        ],
        Vec::new(),
    )];
    let result = analyze("/demo", &Vec::new(), &files);
    assert_eq!(result.concepts.len(), 2);
    assert_ne!(result.concepts[0].id, result.concepts[1].id);
}

fn two_file_project() -> Vec<FileParseResult> {
    vec![
        file(
            "src/a.rs",
            vec![function("src/a.rs", "caller", 1)],
            vec![call("functions/src/a/caller", "callee", 0)],
        ),
        file("src/b.rs", vec![function("src/b.rs", "callee", 1)], Vec::new()),
    ]
}

fn sorted_ids(concepts: &[Concept]) -> Vec<&str> {
    let mut ids: Vec<&str> = concepts.iter().map(|c| c.id.as_str()).collect();
    ids.sort();
    ids
}

#[test]
fn cached_analysis_matches_uncached_analysis() {
    let files = two_file_project();

    let uncached = analyze("/demo", &Vec::new(), &files);
    let gathered = gather_files(&Vec::new(), &files);
    let stats = gathered.stats;
    let cached = analyze_with_cache("/demo", gathered);

    assert_eq!(stats.reparsed, 2);
    assert_eq!(stats.reused, 0);
    assert_eq!(sorted_ids(&uncached.concepts), sorted_ids(&cached.concepts));
}

fn again(cache: &AnalysisCache, contents: &[(&str, &str)]) -> Vec<FileParseResult> {
    contents
        .iter()
        .map(|(path, content)| {
            match reuse_file(cache, path, Language::Rust, content) {
                Ok(reused) => reused,
                Err(hash) => FileParseResult {
                    relative_path: path.to_string(),
                    language: Language::Rust,
                    hash,
                    extraction: FileExtraction {
                        concepts: vec![function(path, "f", 1)],
                        calls: Vec::new(),
                    },
                    reused: false,
                },
            }
        })
        .collect()
}

#[test]
fn second_run_with_a_warm_cache_reuses_every_unchanged_file() {
    let contents = [
        ("src/a.rs", "pub fn caller() { callee() }"),
        ("src/b.rs", "pub fn callee() {}"),
    ];
    let first = gather_files(&Vec::new(), &again(&AnalysisCache::new(), &contents));
    assert_eq!(first.stats.reparsed, 2);
    assert_eq!(first.stats.reused, 0);

    let second = gather_files(&Vec::new(), &again(&first.cache, &contents));
    assert_eq!(second.stats.reparsed, 0);
    assert_eq!(second.stats.reused, 2);
    assert_eq!(sorted_ids(&first.concepts), sorted_ids(&second.concepts));
}

#[test]
fn only_the_changed_file_is_reparsed() {
    let first = gather_files(
        &Vec::new(),
        &again(
            &AnalysisCache::new(),
            &[
                ("src/a.rs", "pub fn caller() { callee() }"),
                ("src/b.rs", "pub fn callee() {}"),
            ],
        ),
    );
    let second = gather_files(
        &Vec::new(),
        &again(
            &first.cache,
            &[
                ("src/a.rs", "pub fn caller() { callee() }"),
                ("src/b.rs", "pub fn callee() {} pub fn extra() {}"),
            ],
        ),
    );

    assert_eq!(second.stats.reparsed, 1, "only src/b.rs changed");
    assert_eq!(second.stats.reused, 1, "src/a.rs is untouched");
}

#[test]
fn removed_files_are_pruned_from_the_cache_not_left_stale() {
    let first = gather_files(&Vec::new(), &two_file_project());
    assert_eq!(first.cache.len(), 2);

    let mut files = two_file_project();
    files.pop();
    let second = gather_files(&Vec::new(), &files);

    assert_eq!(
        second.cache.len(),
        1,
        "src/b.rs should be dropped, not stale"
    );
}

#[test]
fn parallel_extraction_produces_the_same_concept_order_on_every_run() {
    let files: Vec<FileParseResult> = ["a", "b", "c", "d", "e", "f"]
        .iter()
        .map(|letter| {
            let path = format!("src/{letter}.rs");
            let concepts = vec![function(&path, &format!("fn_{letter}"), 1)];
            file(&path, concepts, Vec::new())
        })
        .collect();
    let first = analyze("/demo", &Vec::new(), &files);
    let names: Vec<&str> = first.concepts.iter().map(|c| c.name.as_str()).collect();
    assert_eq!(names, vec!["fn_a", "fn_b", "fn_c", "fn_d", "fn_e", "fn_f"]);
    for _ in 0..5 {
        let repeat = analyze("/demo", &Vec::new(), &files);
        assert_eq!(
            first
                .concepts
                .iter()
                .map(|c| c.id.clone())
                .collect::<Vec<_>>(),
            repeat
                .concepts
                .iter()
                .map(|c| c.id.clone())
                .collect::<Vec<_>>(),
            "concept order must be identical across runs, not just the same set"
        );
    }
}

#[test]
fn emits_one_package_per_workspace_member_and_links_modules_to_the_right_one() {
    let root = |dir: &str| PackageRoot {
        relative_dir: dir.to_string(),
        manifest: ManifestKind::Cargo,
    };
    let roots = vec![root(""), root("crates/a"), root("crates/b")];
    let contents = vec![
        Some("[workspace]\nmembers = [\"crates/a\", \"crates/b\"]\n".to_string()),
        Some("[package]\nname = \"a\"\nversion = \"0.1.0\"\n".to_string()),
        Some("[package]\nname = \"b\"\nversion = \"0.1.0\"\n".to_string()),
    ];
    let (found, _) = detect_packages(&roots, &contents);
    let files = vec![
        file(
            "crates/a/src/lib.rs",
            vec![module("crates/a/src/lib.rs")],
            Vec::new(),
        ),
        file(
            "crates/b/src/lib.rs",
            vec![module("crates/b/src/lib.rs")],
            Vec::new(),
        ),
    ];
    let result = analyze("/demo", &found, &files);

    let packages: Vec<&Concept> = result
        .concepts
        .iter()
        .filter(|c| c.kind == ConceptKind::Package)
        .collect();
    assert_eq!(
        packages.len(),
        2,
        "the virtual workspace root has no [package] table and shouldn't get a concept: {packages:?}"
    );
    let names: Vec<&str> = packages.iter().map(|p| p.name.as_str()).collect();
    assert!(names.contains(&"a"));
    assert!(names.contains(&"b"));

    let module_a = result
        .concepts
        .iter()
        .find(|c| c.kind == ConceptKind::Module && c.location.file == "crates/a/src/lib.rs")
        .unwrap();
    let package_a = packages.iter().find(|p| p.name == "a").unwrap();
    assert!(
        module_a
            .relationships
            .iter()
            .any(|r| r.kind == RelationKind::MemberOf && r.target == package_a.id),
        "crate a's module should be linked to package a, not b: {:?}",
        module_a.relationships
    );

    let module_b = result
        .concepts
        .iter()
        .find(|c| c.kind == ConceptKind::Module && c.location.file == "crates/b/src/lib.rs")
        .unwrap();
    let package_b = packages.iter().find(|p| p.name == "b").unwrap();
    assert!(module_b
        .relationships
        .iter()
        .any(|r| r.kind == RelationKind::MemberOf && r.target == package_b.id));
    assert!(
        !module_b
            .relationships
            .iter()
            .any(|r| r.kind == RelationKind::MemberOf && r.target == package_a.id),
        "crate b's module must not be linked to package a"
    );
}

#[test]
fn two_manifest_kinds_in_the_same_directory_get_distinct_package_ids() {
    let root = |dir: &str, manifest| PackageRoot {
        relative_dir: dir.to_string(),
        manifest,
    };
    let roots = vec![
        root("", ManifestKind::Cargo),
        root("crates/docgen", ManifestKind::Cargo),
        root("crates/docgen", ManifestKind::Npm),
    ];
    let contents = vec![
        Some("[workspace]\nmembers = [\"crates/docgen\"]\n".to_string()),
        Some("[package]\nname = \"docgen\"\nversion = \"0.1.0\"\n".to_string()),
        Some(r#"{"name": "docgen-web"}"#.to_string()),
    ];
    let (packages, _) = detect_packages(&roots, &contents);
    assert_eq!(packages.len(), 2, "{packages:?}");
    assert_ne!(
        packages[0].id, packages[1].id,
        "two different manifest kinds sharing a directory must not collide on id"
    );
}

#[test]
fn a_malformed_manifest_does_not_abort_analysis_of_sibling_packages() {
    let root = |dir: &str| PackageRoot {
        relative_dir: dir.to_string(),
        manifest: ManifestKind::Cargo,
    };
    let roots = vec![root(""), root("crates/a"), root("crates/b")];
    let contents = vec![
        Some("[workspace]\nmembers = [\"crates/a\", \"crates/b\"]\n".to_string()),
        Some("[package\nname = \"a\"\n".to_string()),
        Some("[package]\nname = \"b\"\nversion = \"0.1.0\"\n".to_string()),
    ];
    let (packages, skipped) = detect_packages(&roots, &contents);
    assert_eq!(
        packages.len(),
        1,
        "only the valid crate b should get a Package concept: {packages:?}"
    );
    assert_eq!(packages[0].name, "b");
    assert_eq!(skipped, vec![1]);

    let files = vec![
        file(
            "crates/a/src/lib.rs",
            vec![function("crates/a/src/lib.rs", "a_fn", 1)],
            Vec::new(),
        ),
        file(
            "crates/b/src/lib.rs",
            vec![function("crates/b/src/lib.rs", "b_fn", 1)],
            Vec::new(),
        ),
    ];
    let result = analyze("/demo", &packages, &files);
    assert!(result.concepts.iter().any(|c| c.name == "a_fn"));
    assert!(result.concepts.iter().any(|c| c.name == "b_fn"));
}

#[test]
fn each_manifest_names_its_package() {
    let name = |kind, content: &str| read_manifest_name(kind, content).unwrap();
    assert_eq!(
        name(ManifestKind::Cargo, "[package]\nname = \"a\"\n").as_deref(),
        Some("a")
    );
    assert_eq!(name(ManifestKind::Cargo, "[workspace]\n"), None);
    assert_eq!(
        name(ManifestKind::Npm, r#"{"name": "b"}"#).as_deref(),
        Some("b")
    );
    assert_eq!(
        name(ManifestKind::PyProject, "[project]\nname = \"c\"\n").as_deref(),
        Some("c")
    );
    assert_eq!(
        name(ManifestKind::PyProject, "[tool.poetry]\nname = \"d\"\n").as_deref(),
        Some("d")
    );
    assert_eq!(
        name(ManifestKind::GoModule, "go 1.22\nmodule  example.com/e \n").as_deref(),
        Some("example.com/e")
    );
    assert_eq!(gomod_name("go 1.22\n"), None);
    assert!(read_manifest_name(ManifestKind::Npm, "{").is_err());
    assert!(read_manifest_name(ManifestKind::Cargo, "[package").is_err());
}

#[test]
fn the_nearest_package_owns_a_module() {
    let mut outer = concept("packages/outer", ConceptKind::Package, "outer", "Cargo.toml", 1);
    outer.qualified_name = "outer".to_string();
    let inner = concept(
        "packages/inner",
        ConceptKind::Package,
        "inner",
        "crates/inner/Cargo.toml",
        1,
    );
    let near = module("crates/inner/src/lib.rs");
    let far = module("crates/inner2/src/lib.rs");
    let mut concepts = vec![outer, inner, near, far];
    link_modules_to_packages(&mut concepts);
    assert_eq!(concepts[2].relationships[0].target, "packages/inner");
    assert_eq!(concepts[3].relationships[0].target, "packages/outer");
    assert_eq!(package_directory("crates/inner/Cargo.toml"), "crates/inner");
    assert_eq!(package_directory("Cargo.toml"), "");
}

#[test]
fn a_call_that_is_made_twice_stands_twice_at_both_ends() {
    let files = vec![file(
        "src/a.rs",
        vec![
            function("src/a.rs", "helper", 1),
            function("src/a.rs", "caller", 5),
        ],
        vec![
            call("functions/src/a/caller", "helper", 6),
            call("functions/src/a/caller", "helper", 7),
        ],
    )];
    let result = analyze("/demo", &Vec::new(), &files);
    let calls = &named(&result, "caller").relationships;
    let called = &named(&result, "helper").relationships;
    assert_eq!(calls.len(), 2);
    assert_eq!(called.len(), 2);
    for (there, back) in calls.iter().zip(called) {
        assert_eq!(there.kind, RelationKind::Calls);
        assert_eq!(there.target, "functions/src/a/helper");
        assert_eq!(there.confidence, Confidence::Exact);
        assert_eq!(back.kind, RelationKind::CalledBy);
        assert_eq!(back.target, "functions/src/a/caller");
        assert_eq!(back.confidence, Confidence::Exact);
    }
}

#[test]
fn what_a_server_adds_stands_behind_what_names_settle() {
    let files = vec![
        file(
            "src/a.rs",
            vec![
                function("src/a.rs", "run", 1),
                function("src/a.rs", "helper", 3),
                function("src/a.rs", "caller", 5),
            ],
            vec![
                call("functions/src/a/caller", "run", 6),
                call("functions/src/a/caller", "helper", 7),
            ],
        ),
        file("src/b.rs", vec![function("src/b.rs", "run", 1)], Vec::new()),
    ];
    let confirmed = vec![ResolvedEdge {
        caller: "functions/src/a/caller".to_string(),
        callee: "functions/src/a/run".to_string(),
        resolved_by: "rust-analyzer".to_string(),
        confidence: Confidence::Semantic,
        resolver_version: None,
    }];
    let alone = analyze_with_cache("/demo", gather_files(&Vec::new(), &files));
    let asked = analyze_with_cache_lsp("/demo", gather_files(&Vec::new(), &files), confirmed);
    for (before, after) in alone.concepts.iter().zip(&asked.concepts) {
        let n = before.relationships.len();
        assert_eq!(after.id, before.id);
        for (kept, first) in after.relationships.iter().zip(&before.relationships) {
            assert_eq!(kept.kind, first.kind);
            assert_eq!(kept.target, first.target);
            assert_eq!(kept.resolved_by, first.resolved_by);
            assert_eq!(kept.confidence, Confidence::Exact);
        }
        for added in &after.relationships[n..] {
            assert_eq!(added.confidence, Confidence::Semantic);
        }
    }
    assert_eq!(named(&alone, "caller").relationships.len(), 1);
    assert_eq!(named(&asked, "caller").relationships.len(), 2);
    assert_eq!(asked.concepts[0].relationships[0].kind, RelationKind::CalledBy);
}
