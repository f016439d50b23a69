use okf::bundle::{
    frontmatter, prepare_bundle, unique_by_kind_and_target, write_bundle, OutputFile,
};
use okf::model::{Concept, ConceptKind, Language, Location, RelationKind, Relationship};
use okf::naming::{disambiguate_duplicate_ids, first_clash, make_id};
use okf::render::{capitalize, escape_markup, group_by_kind_dir, relative_link};
use serde_yaml::{Mapping, Value};

fn text(s: &str) -> Value {
    Value::String(s.to_string())
}

fn list(items: &[String]) -> Value {
    Value::Sequence(items.iter().map(|i| text(i)).collect())
}

fn head(concept: &Concept) -> String {
    let f = frontmatter(concept);
    let mut map = Mapping::new();
    map.insert(text("type"), text(&f.type_));
    map.insert(text("title"), text(&f.title));
    if let Some(description) = &f.description {
        map.insert(text("description"), text(description));
    }
    map.insert(text("resource"), text(&f.resource));
    if !f.tags.is_empty() {
        map.insert(text("tags"), list(&f.tags));
    }
    if f.private {
        map.insert(text("visibility"), text("private"));
    }
    if let Some(r) = &f.relationships {
        let mut kinds = Mapping::new();
        for (name, targets) in [
            ("imports", &r.imports),
            ("calls", &r.calls),
            ("called_by", &r.called_by),
            ("implements", &r.implements),
            ("inherits", &r.inherits),
            ("depends_on", &r.depends_on),
            ("member_of", &r.member_of),
        ] {
            if !targets.is_empty() {
                kinds.insert(text(name), list(targets));
            }
        }
        map.insert(text("relationships"), Value::Mapping(kinds));
    }
    serde_yaml::to_string(&Value::Mapping(map)).unwrap()
}

fn written(concepts: Vec<Concept>) -> Vec<OutputFile> {
    let prepared = prepare_bundle(&concepts).unwrap();
    let heads: Vec<String> = prepared.iter().map(head).collect();
    write_bundle(&prepared, &heads, &None).unwrap()
}

fn has_file(files: &[OutputFile], path: &str) -> bool {
    files.iter().any(|f| f.path == path)
}

fn page_at(files: &[OutputFile], path: &str) -> String {
    files
        .iter()
        .find(|f| f.path == path)
        .unwrap()
        .content
        .clone()
}

fn concept(id_kind: ConceptKind, name: &str, qualified: &str, file: &str) -> Concept {
    Concept {
        id: make_id(id_kind.bundle_dir(), qualified),
        kind: id_kind,
        language: Language::Rust,
        name: name.to_string(),
        qualified_name: qualified.to_string(),
        description: None,
        location: Location {
            file: file.to_string(),
            start_line: 1,
            end_line: 1,
        },
        signature: Some(format!("fn {name}()")),
        tags: Vec::new(),
        is_public: true,
        generated_at: None,
        relationships: Vec::new(),
    }
}

#[test]
fn writes_bundle_with_index_and_links() {
    let mut module = concept(ConceptKind::Module, "auth", "auth", "src/auth.rs");
    let mut caller = concept(
        ConceptKind::Function,
        "verify_token",
        "auth.verify_token",
        "src/auth.rs",
    );
    let callee = concept(
        ConceptKind::Function,
        "decode_jwt",
        "auth.decode_jwt",
        "src/auth.rs",
    );

    caller.relationships.push(Relationship::new(RelationKind::Calls, &callee.id, "decode_jwt"));
    module.relationships.push(Relationship::new(RelationKind::Imports, "external/std-collections-hashmap", "std::collections::HashMap"));

    let concepts = vec![module, caller, callee];
    let files = written(concepts);

    assert!(has_file(&files, "index.md"));
    assert!(has_file(&files, "modules/index.md"));
    assert!(has_file(&files, "functions/index.md"));
    assert!(has_file(&files, "modules/auth.md"));
    assert!(has_file(&files, "functions/auth/verify_token.md"));

    let caller_content =
        page_at(&files, "functions/auth/verify_token.md");
    assert!(caller_content.starts_with("---\ntype: Rust Function\n"));
    assert!(caller_content.contains("[decode_jwt](../../functions/auth/decode_jwt.md)"));

    let module_content = page_at(&files, "modules/auth.md");
    assert!(module_content.contains("- `std::collections::HashMap`"));
    assert!(module_content.contains("[verify_token]"));
    assert!(module_content.contains("[decode_jwt]"));
}

#[test]
fn disambiguates_duplicate_ids_instead_of_overwriting() {
    let a = concept(ConceptKind::Function, "run", "run", "src/a.rs");
    let b = concept(ConceptKind::Function, "run", "run", "src/a.rs");
    let files = written(vec![a, b]);

    assert!(has_file(&files, "functions/run.md"));
    assert!(has_file(&files, "functions/run-2.md"));
}

#[test]
fn disambiguates_ids_differing_only_by_case() {
    let a = concept(ConceptKind::Function, "Run", "Run", "src/a.rs");
    let b = concept(ConceptKind::Function, "run", "run", "src/b.rs");
    let files = written(vec![a, b]);

    assert!(has_file(&files, "functions/Run.md"));
    assert!(has_file(&files, "functions/run-2.md"));
}

#[test]
fn disambiguation_order_is_deterministic_by_location_not_input_order() {
    let mut later = concept(ConceptKind::Function, "run", "run", "src/a.rs");
    later.location.start_line = 20;
    let mut earlier = concept(ConceptKind::Function, "run", "run", "src/a.rs");
    earlier.location.start_line = 10;

    let files = written(vec![later, earlier]);

    let first_content = page_at(&files, "functions/run.md");
    assert!(first_content.contains("#L10"));
    let second_content = page_at(&files, "functions/run-2.md");
    assert!(second_content.contains("#L20"));
}

#[test]
fn omits_visibility_for_public_and_marks_private() {
    let public = concept(ConceptKind::Function, "run", "run", "src/a.rs");
    let mut private = concept(ConceptKind::Function, "helper", "helper", "src/a.rs");
    private.is_public = false;

    let files = written(vec![public, private]);

    let public_content = page_at(&files, "functions/run.md");
    assert!(!public_content.contains("visibility"));

    let private_content = page_at(&files, "functions/helper.md");
    assert!(private_content.contains("visibility: private"));
}

#[test]
fn serializes_relationships_into_frontmatter() {
    let mut caller = concept(
        ConceptKind::Function,
        "verify_token",
        "auth.verify_token",
        "src/auth.rs",
    );
    let callee = concept(
        ConceptKind::Function,
        "decode_jwt",
        "auth.decode_jwt",
        "src/auth.rs",
    );
    caller.relationships.push(Relationship::new(RelationKind::Calls, &callee.id, "decode_jwt"));

    let files = written(vec![caller, callee]);

    let content =
        page_at(&files, "functions/auth/verify_token.md");
    assert!(content.contains("relationships:\n  calls:\n  - functions/auth/decode_jwt\n"));
}

#[test]
fn calling_the_same_target_twice_renders_only_one_line() {
    let mut caller = concept(
        ConceptKind::Function,
        "verify_token",
        "auth.verify_token",
        "src/auth.rs",
    );
    let callee = concept(
        ConceptKind::Function,
        "decode_jwt",
        "auth.decode_jwt",
        "src/auth.rs",
    );
    for _ in 0..2 {
        caller.relationships.push(Relationship::new(RelationKind::Calls, &callee.id, "decode_jwt"));
    }

    let files = written(vec![caller, callee]);

    let content =
        page_at(&files, "functions/auth/verify_token.md");
    assert!(content.contains("relationships:\n  calls:\n  - functions/auth/decode_jwt\n"));
    assert_eq!(
        content
            .matches("[decode_jwt](../../functions/auth/decode_jwt.md)")
            .count(),
        1,
        "the `# Calls` section should list the repeated callee once: {content}"
    );
}

#[test]
fn omits_relationships_field_when_concept_has_none() {
    let solo = concept(ConceptKind::Function, "run", "run", "src/a.rs");
    let files = written(vec![solo]);

    let content = page_at(&files, "functions/run.md");
    assert!(!content.contains("relationships"));
}

#[test]
fn package_contains_lists_its_member_modules_via_reverse_member_of() {
    let package = concept(ConceptKind::Package, "demo", "demo", "Cargo.toml");
    let mut module = concept(ConceptKind::Module, "lib", "lib", "src/lib.rs");
    module.relationships.push(Relationship::new(RelationKind::MemberOf, &package.id, "demo"));

    let files = written(vec![package.clone(), module.clone()]);

    let package_content = page_at(&files, "packages/demo.md");
    assert!(package_content.contains("# Contains"));
    assert!(package_content.contains(&format!(
        "[lib]({})",
        relative_link(&package.id, &module.id, "md")
    )));

    let module_content = page_at(&files, "modules/lib.md");
    assert!(
        module_content.contains("# Member of"),
        "the generic relationship rendering should show the module's own Member of section: {module_content}"
    );
}

#[test]
fn frontmatter_relationships_round_trip_through_read_bundle() {
    let mut caller = concept(
        ConceptKind::Function,
        "verify_token",
        "auth.verify_token",
        "src/auth.rs",
    );
    let mut callee = concept(
        ConceptKind::Function,
        "decode_jwt",
        "auth.decode_jwt",
        "src/auth.rs",
    );
    caller
        .relationships
        .push(Relationship::new(RelationKind::Calls, &callee.id, "decode_jwt"));
    callee
        .relationships
        .push(Relationship::new(RelationKind::CalledBy, &caller.id, "verify_token"));

    let files = written(vec![caller.clone(), callee.clone()]);
    let read = |path: &str| -> Value {
        let page = page_at(&files, path);
        let head = page.split("---\n").nth(1).unwrap().to_string();
        serde_yaml::from_str(&head).unwrap()
    };

    let pages = |path: &str| path.ends_with(".md") && !path.ends_with("index.md");
    assert_eq!(files.iter().filter(|f| pages(&f.path)).count(), 2);
    let kinds = |head: &Value| head["relationships"].as_mapping().unwrap().len();
    let read_caller = read("functions/auth/verify_token.md");
    assert_eq!(kinds(&read_caller), 1);
    assert_eq!(read_caller["relationships"]["calls"].as_sequence().unwrap().len(), 1);
    assert_eq!(
        read_caller["relationships"]["calls"][0].as_str(),
        Some(callee.id.as_str())
    );
    assert_eq!(read_caller["title"].as_str(), Some("verify_token"));
    assert!(page_at(&files, "functions/auth/verify_token.md").contains("# Calls\n\n- [decode_jwt]("));
    let read_callee = read("functions/auth/decode_jwt.md");
    assert_eq!(kinds(&read_callee), 1);
    assert_eq!(read_callee["relationships"]["called_by"].as_sequence().unwrap().len(), 1);
    assert_eq!(
        read_callee["relationships"]["called_by"][0].as_str(),
        Some(caller.id.as_str())
    );
    assert_eq!(read_callee["title"].as_str(), Some("decode_jwt"));
    assert!(page_at(&files, "functions/auth/decode_jwt.md").contains("# Called by\n\n- [verify_token]("));
}

#[test]
fn a_whole_page_is_pinned() {
    let mut caller = concept(ConceptKind::Function, "a", "m.a", "src/m.rs");
    caller
        .relationships
        .push(Relationship::new(RelationKind::Calls, "functions/m/b", "b"));
    caller
        .relationships
        .push(Relationship::new(RelationKind::Calls, "external/c", "c"));
    let callee = concept(ConceptKind::Function, "b", "m.b", "src/m.rs");
    let concepts = vec![caller, callee];
    let heads = vec!["type: x\n".to_string(), "type: y\n".to_string()];
    let files = write_bundle(&concepts, &heads, &Some("abc".to_string())).unwrap();
    assert_eq!(
        page_at(&files, "functions/m/a.md"),
        "---\ntype: x\n---\n\n# Signature\n\n`fn a()`\n\n# Calls\n\n- [b](../../functions/m/b.md)\n- `c`"
    );
    assert_eq!(
        page_at(&files, "functions/index.md"),
        "# Functions\n\n- [a](../functions/m/a.md) \u{2014} Rust Function\n- [b](../functions/m/b.md) \u{2014} Rust Function\n"
    );
    assert_eq!(
        page_at(&files, "index.md"),
        "---\nokf_version: \"0.2\"\nsource_revision: \"abc\"\n---\n\n# Knowledge Base\n\n- [Functions](functions/index.md) (2)\n"
    );
    assert_eq!(files.len(), 4);
}

#[test]
fn ids_that_still_clash_are_an_error() {
    let run = concept(ConceptKind::Function, "run", "run", "src/a.rs");
    let again = concept(ConceptKind::Function, "run", "run", "src/b.rs");
    let taken = concept(ConceptKind::Function, "run-2", "run-2", "src/c.rs");
    let named = disambiguate_duplicate_ids(&[run.clone(), again.clone(), taken.clone()]);
    assert_eq!(first_clash(&named).is_some(), prepare_bundle(&vec![run, again, taken]).is_err());
}

#[test]
fn repeated_pairs_stand_once() {
    let rels = vec![
        Relationship::new(RelationKind::Calls, "a", "a"),
        Relationship::new(RelationKind::CalledBy, "a", "a"),
        Relationship::new(RelationKind::Calls, "a", "other"),
        Relationship::new(RelationKind::Calls, "b", "b"),
    ];
    assert_eq!(unique_by_kind_and_target(&rels), vec![0, 1, 3]);
}

#[test]
fn links_go_up_and_down() {
    assert_eq!(
        relative_link("functions/auth/f", "modules/auth", "md"),
        "../../modules/auth.md"
    );
    assert_eq!(relative_link("a", "b", "html"), "b.html");
}

#[test]
fn markup_is_escaped() {
    assert_eq!(
        escape_markup("a<b> & \"c\""),
        "a&lt;b&gt; &amp; &quot;c&quot;"
    );
    assert_eq!(capitalize("functions"), "Functions");
    assert_eq!(capitalize(""), "");
}

#[test]
fn groups_come_by_directory() {
    let concepts = vec![
        concept(ConceptKind::Module, "m", "m", "src/m.rs"),
        concept(ConceptKind::Function, "f", "f", "src/m.rs"),
        concept(ConceptKind::Method, "g", "t.g", "src/m.rs"),
    ];
    let groups = group_by_kind_dir(&concepts);
    let dirs: Vec<&str> = groups.iter().map(|g| g.dir).collect();
    assert_eq!(dirs, vec!["functions", "modules"]);
    assert_eq!(groups[0].entries.len(), 2);
}

#[test]
fn a_bundle_with_clashing_ids_is_not_written() {
    let mut again = concept(ConceptKind::Function, "run", "run", "src/a.rs");
    again.location.start_line = 2;
    again.location.end_line = 2;
    let concepts = vec![
        concept(ConceptKind::Function, "run", "run", "src/a.rs"),
        again,
        concept(ConceptKind::Function, "run-2", "run-2", "src/b.rs"),
    ];
    let heads = vec![String::new(), String::new(), String::new()];
    let refused = write_bundle(&concepts, &heads, &None).unwrap_err();
    assert_eq!(refused.id, "functions/run-2");
    assert_eq!(refused.location, "src/b.rs#L1-L1");
}

#[test]
fn the_head_says_when_the_page_was_generated() {
    let mut dated = concept(ConceptKind::Function, "f", "f", "src/a.rs");
    assert_eq!(frontmatter(&dated).generated_at, None);
    dated.generated_at = Some("2024-05-01T00:00:00Z".to_string());
    assert_eq!(frontmatter(&dated).generated_at, dated.generated_at);
    assert_eq!(dated.clone().generated_at, dated.generated_at);
}
