use okf::cache::{hash_content, AnalysisCache, CacheEntry};
use okf::config::{
    head_revision, load, resolve_bundle, write_default, BundlePath, Config, ConfigWarning,
    DiffPolicy, PolicyAction,
};
use okf::extraction::FileExtraction;
use okf::model::Language;
use okf::project::{ManifestKind, PackageRoot, Project, RootManifests, ScannedFile};
use okf::source::decode_source;

fn found(path: &str, language: Option<Language>) -> ScannedFile {
    ScannedFile {
        path: path.to_string(),
        file_name: path.rsplit('/').next().map(str::to_string),
        absolute_path: format!("/demo/{path}"),
        language,
    }
}

fn at_root(cargo: bool, npm: bool) -> RootManifests {
    RootManifests {
        cargo,
        npm,
        pyproject: false,
        gomod: false,
    }
}

fn package(dir: &str, manifest: ManifestKind) -> PackageRoot {
    PackageRoot {
        relative_dir: dir.to_string(),
        manifest,
    }
}

#[test]
fn scans_recognized_files_and_skips_ignored() {
    let files = vec![
        found("Cargo.toml", None),
        found(".gitignore", None),
        found("src/main.rs", Some(Language::Rust)),
        found("README.md", None),
    ];

    let project = Project::load("/demo".to_string(), &files, at_root(true, false));

    assert_eq!(project.manifest, Some(ManifestKind::Cargo));
    let paths: Vec<_> = project
        .files
        .iter()
        .map(|f| f.relative_path.as_str())
        .collect();
    assert_eq!(paths, vec!["src/main.rs"]);
    assert_eq!(project.files[0].language, Language::Rust);
    assert_eq!(project.packages, vec![package("", ManifestKind::Cargo)]);
}

#[test]
fn discovers_every_member_package_in_a_workspace() {
    let files = vec![
        found("crates/b/Cargo.toml", None),
        found("crates/b/src/lib.rs", Some(Language::Rust)),
        found("Cargo.toml", None),
        found("crates/a/Cargo.toml", None),
        found("crates/a/src/lib.rs", Some(Language::Rust)),
    ];

    let project = Project::load("/demo".to_string(), &files, at_root(true, false));

    assert_eq!(
        project.packages,
        vec![
            package("", ManifestKind::Cargo),
            package("crates/a", ManifestKind::Cargo),
            package("crates/b", ManifestKind::Cargo),
        ]
    );
    let paths: Vec<_> = project
        .files
        .iter()
        .map(|f| f.relative_path.as_str())
        .collect();
    assert_eq!(paths, vec!["crates/a/src/lib.rs", "crates/b/src/lib.rs"]);
}

#[test]
fn ignores_manifests_under_vendored_dependency_directories() {
    let files = vec![
        found("package.json", None),
        found("node_modules/some-dep/package.json", None),
    ];

    let project = Project::load("/demo".to_string(), &files, at_root(false, true));

    assert_eq!(
        project.packages,
        vec![package("", ManifestKind::Npm)],
        "the vendored dependency's package.json should not be discovered as a project package"
    );
}

#[test]
fn detects_multiple_languages() {
    let files = vec![
        found("a.py", Some(Language::Python)),
        found("b.go", Some(Language::Go)),
        found("c.ts", Some(Language::TypeScript)),
    ];

    let project = Project::load("/demo".to_string(), &files, at_root(false, false));
    assert_eq!(project.files.len(), 3);
    assert_eq!(project.files_for(Language::Go).len(), 1);
    assert_eq!(project.manifest, None);
}

#[test]
fn two_manifests_of_one_directory_come_by_kind() {
    let files = vec![found("web/package.json", None), found("web/Cargo.toml", None)];
    let project = Project::load("/demo".to_string(), &files, at_root(false, false));
    assert_eq!(
        project.packages,
        vec![
            package("web", ManifestKind::Cargo),
            package("web", ManifestKind::Npm),
        ]
    );
}

#[test]
fn read_source_lossy_passes_through_valid_utf8_unchanged() {
    let (content, clean) = decode_source("fn main() { println!(\"h\u{e9}llo\"); }".as_bytes());
    assert_eq!(content, "fn main() { println!(\"h\u{e9}llo\"); }");
    assert!(clean);
}

#[test]
fn read_source_lossy_decodes_windows_1254_instead_of_mangling_it() {
    let mut bytes = b"// yaz\xfd\n".to_vec();
    bytes.extend_from_slice(b"class Program {}");

    let (content, clean) = decode_source(&bytes);

    assert_eq!(content, "// yaz\u{131}\nclass Program {}");
    assert!(!clean);
}

#[test]
fn read_source_lossy_never_produces_replacement_characters_for_windows_1254() {
    let mut bytes = b"// caf\x81\n".to_vec();
    bytes.extend_from_slice(b"class Program {}");

    let (content, _) = decode_source(&bytes);

    assert!(
        !content.contains('\u{FFFD}'),
        "Windows-1254 decoding should never introduce U+FFFD, got: {content:?}"
    );
    assert_eq!(content, "// caf\u{81}\nclass Program {}");
    let every: Vec<u8> = (0u8..=255).collect();
    assert!(!decode_source(&every).0.contains('\u{FFFD}'));
}

#[test]
fn read_source_lossy_preserves_valid_utf8_around_a_stray_bad_byte() {
    let mut bytes = b"// caf\xc3\xa9 note ".to_vec();
    bytes.push(0x92);
    bytes.extend_from_slice(b" done\nfn main() {}");

    let (content, _) = decode_source(&bytes);

    assert_eq!(content, "// caf\u{e9} note \u{2019} done\nfn main() {}");
}

#[test]
fn a_sequence_cut_short_at_the_end_is_decoded_too() {
    let (content, clean) = decode_source(b"caf\xc3");
    assert_eq!(content, "caf\u{c3}");
    assert!(!clean);
}

#[test]
fn missing_config_file_is_every_default() {
    let (config, warnings) = load(None);
    assert_eq!(config.output, "knowledge");
    assert_eq!(config.diff, DiffPolicy::default());
    assert!(warnings.is_empty());
}

#[test]
fn a_diff_table_absent_from_an_otherwise_valid_config_uses_default_policy() {
    let (config, _) = load(Some("output = \"kb\"\n"));
    assert_eq!(config.output, "kb");
    assert_eq!(config.diff, DiffPolicy::default());
}

#[test]
fn reads_a_fully_specified_diff_policy() {
    let (config, _) = load(Some(
        "output = \"kb\"\n\n[diff]\nresolver_changes = \"fail\"\nconfidence_changes = \"warn\"\n",
    ));
    assert_eq!(config.diff.resolver_changes, PolicyAction::Fail);
    assert_eq!(config.diff.confidence_changes, PolicyAction::Warn);
}

#[test]
fn a_partially_specified_diff_table_only_overrides_the_keys_present() {
    let (config, _) = load(Some(
        "output = \"kb\"\n\n[diff]\nresolver_changes = \"ignore\"\n",
    ));
    assert_eq!(config.diff.resolver_changes, PolicyAction::Ignore);
    assert_eq!(config.diff.confidence_changes, PolicyAction::Ignore);
}

#[test]
fn an_unrecognized_policy_value_falls_back_to_the_default_for_that_key_only() {
    let (config, warnings) = load(Some(
        "output = \"kb\"\n\n[diff]\nresolver_changes = \"maybe\"\nconfidence_changes = \"fail\"\n",
    ));
    assert_eq!(config.diff.resolver_changes, PolicyAction::Warn);
    assert_eq!(config.diff.confidence_changes, PolicyAction::Fail);
    assert_eq!(
        warnings,
        vec![ConfigWarning::UnknownResolverAction("maybe".to_string())]
    );
}

#[test]
fn a_missing_output_key_still_reads_the_diff_table() {
    let (config, warnings) = load(Some("[diff]\nresolver_changes = \"fail\"\n"));
    assert_eq!(config.output, "knowledge");
    assert_eq!(config.diff.resolver_changes, PolicyAction::Fail);
    assert_eq!(warnings, vec![ConfigWarning::MissingOutput]);
}

#[test]
fn a_config_that_is_no_toml_is_every_default_with_a_warning() {
    let (config, warnings) = load(Some("output = "));
    assert_eq!(config.output, "knowledge");
    assert_eq!(config.diff, DiffPolicy::default());
    assert_eq!(warnings, vec![ConfigWarning::Unparsable]);
}

#[test]
fn what_is_written_is_read_back() {
    let (config, warnings) = load(Some(&write_default("out/kb")));
    assert_eq!(config.output, "out/kb");
    assert!(warnings.is_empty());
}

#[test]
fn a_given_bundle_goes_before_the_configured_one() {
    let config = Config::default();
    assert_eq!(
        resolve_bundle(Some("here".to_string()), &config),
        BundlePath::Given("here".to_string())
    );
    assert_eq!(
        resolve_bundle(None, &config),
        BundlePath::InProject("knowledge".to_string())
    );
}

#[test]
fn none_outside_a_git_repository() {
    assert_eq!(head_revision(false, Some("")), None);
}

#[test]
fn none_in_a_freshly_initialized_repo_with_no_commits_yet() {
    assert_eq!(head_revision(false, Some("HEAD\n")), None);
}

#[test]
fn a_printed_revision_is_trimmed() {
    assert_eq!(
        head_revision(true, Some("abc123\n")),
        Some("abc123".to_string())
    );
    assert_eq!(head_revision(true, Some("\n")), None);
    assert_eq!(head_revision(true, None), None);
}

fn nothing() -> FileExtraction {
    FileExtraction {
        concepts: Vec::new(),
        calls: Vec::new(),
    }
}

#[test]
fn round_trips_through_save_and_load() {
    let mut cache = AnalysisCache::new();
    cache.insert("src/lib.rs", 42, nothing());
    let saved: Vec<CacheEntry> = cache
        .entries()
        .iter()
        .map(|e| CacheEntry {
            relative_path: e.relative_path.clone(),
            content_hash: e.content_hash,
            extraction: e.extraction.clone(),
        })
        .collect();

    let loaded = AnalysisCache::restore("1.0.0", "1.0.0", saved);
    assert_eq!(loaded.len(), 1);
    assert!(loaded.get("src/lib.rs", 42).is_some());
    assert!(
        loaded.get("src/lib.rs", 43).is_none(),
        "hash mismatch should miss"
    );
    assert!(loaded.get("src/other.rs", 42).is_none());
}

#[test]
fn a_cache_saved_by_a_different_okf_rs_version_is_discarded() {
    let entries = vec![CacheEntry {
        relative_path: "src/lib.rs".to_string(),
        content_hash: 42,
        extraction: nothing(),
    }];
    let loaded = AnalysisCache::restore("0.0.0-not-this-build", "1.0.0", entries);
    assert_eq!(
        loaded.len(),
        0,
        "a cache stamped with a different version must be treated as empty, not silently reused"
    );
}

#[test]
fn storing_again_replaces_and_leaves_the_rest() {
    let mut cache = AnalysisCache::new();
    cache.insert("b", 1, nothing());
    cache.insert("a", 2, nothing());
    cache.insert("b", 3, nothing());
    assert_eq!(cache.len(), 2);
    assert!(cache.get("b", 1).is_none());
    assert!(cache.get("b", 3).is_some());
    assert!(cache.get("a", 2).is_some());
    let paths: Vec<&str> = cache
        .entries()
        .iter()
        .map(|e| e.relative_path.as_str())
        .collect();
    assert_eq!(paths, vec!["a", "b"]);
}

#[test]
fn a_hash_tells_contents_apart() {
    assert_eq!(hash_content("fn f() {}"), hash_content("fn f() {}"));
    assert_ne!(hash_content("fn f() {}"), hash_content("fn g() {}"));
}

#[test]
fn stray_bytes_are_the_characters_of_the_old_encoding() {
    let high = [
        0x20AC, 0x81, 0x201A, 0x192, 0x201E, 0x2026, 0x2020, 0x2021, 0x2C6, 0x2030, 0x160, 0x2039,
        0x152, 0x8D, 0x8E, 0x8F, 0x90, 0x2018, 0x2019, 0x201C, 0x201D, 0x2022, 0x2013, 0x2014,
        0x2DC, 0x2122, 0x161, 0x203A, 0x153, 0x9D, 0x9E, 0x178,
    ];
    for byte in 0x80..=0xFFu8 {
        let expected = match byte {
            0x80..=0x9F => high[(byte - 0x80) as usize],
            0xD0 => 0x11E,
            0xDD => 0x130,
            0xDE => 0x15E,
            0xF0 => 0x11F,
            0xFD => 0x131,
            0xFE => 0x15F,
            _ => byte as u32,
        };
        let (content, clean) = decode_source(&[b'a', byte, b'b']);
        let expected = format!("a{}b", char::from_u32(expected).unwrap());
        assert_eq!(content, expected, "byte {byte:#x}");
        assert!(!clean);
    }
}

#[test]
fn a_replacement_character_of_the_file_stays() {
    let (content, clean) = decode_source("a\u{FFFD}b".as_bytes());
    assert_eq!(content, "a\u{FFFD}b");
    assert!(clean);
}

#[test]
fn a_scan_in_another_order_gives_the_same_project() {
    let scan = || {
        vec![
            found("b/package.json", None),
            found("b/Cargo.toml", None),
            found("b/z.rs", Some(Language::Rust)),
            found("a\\y.py", Some(Language::Python)),
            found("a/x.rs", Some(Language::Rust)),
        ]
    };
    let mut other = scan();
    other.reverse();
    let one = Project::load("/demo".to_string(), &scan(), at_root(false, false));
    let two = Project::load("/demo".to_string(), &other, at_root(false, false));
    let paths = |p: &Project| -> Vec<String> {
        p.files.iter().map(|f| f.relative_path.clone()).collect()
    };
    assert_eq!(paths(&one), vec!["a/x.rs", "a/y.py", "b/z.rs"]);
    assert_eq!(paths(&one), paths(&two));
    assert_eq!(one.packages, two.packages);
    assert_eq!(one.packages[0], package("b", ManifestKind::Cargo));
}

#[test]
fn paths_that_need_escapes_are_read_back() {
    assert_eq!(
        write_default("docs\\kb"),
        "# okf-rs project configuration\noutput = \"docs\\\\kb\"\n"
    );
    for path in ["docs\\kb", "a \"b\" c", "tab\there", "line\nfeed\r", "\u{0}\u{1b}\u{7f}", "", "caf\u{e9} \u{1f980}"] {
        let (config, warnings) = load(Some(&write_default(path)));
        assert_eq!(config.output, path);
        assert!(warnings.is_empty());
    }
}

#[test]
fn the_manifest_at_the_root_is_a_package_even_where_the_scan_passes_it_over() {
    let files = vec![found("tool/package.json", None)];
    let project = Project::load("/demo".to_string(), &files, at_root(true, false));
    assert_eq!(project.manifest, Some(ManifestKind::Cargo));
    assert_eq!(
        project.packages,
        vec![package("", ManifestKind::Cargo), package("tool", ManifestKind::Npm)]
    );
}
