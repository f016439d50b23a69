use okf::bundle::OutputFile;
use okf::documents::{generate_graphml, generate_markdown, generate_obsidian, slug, wikilink};
use okf::html::generate_html;
use okf::model::{Concept, ConceptKind, Language, Location, RelationKind, Relationship};
use okf::naming::make_id;
use okf::wrapping::{hard_split, print_items, wrap_text, PrintItem};

fn has_file(files: &[OutputFile], path: &str) -> bool {
    files.iter().any(|f| f.path == path)
}

fn page_at(files: &[OutputFile], path: &str) -> String {
    files
        .iter()
        .find(|f| f.path == path)
        .unwrap()
        .content
        .clone()
}

fn concept(kind: ConceptKind, name: &str, qualified: &str, file: &str) -> Concept {
    Concept {
        id: make_id(kind.bundle_dir(), qualified),
        kind,
        language: Language::Rust,
        name: name.to_string(),
        qualified_name: qualified.to_string(),
        description: None,
        location: Location {
            file: file.to_string(),
            start_line: 1,
            end_line: 1,
        },
        signature: Some(format!("fn {name}()")),
        tags: Vec::new(),
        is_public: true,
        generated_at: None,
        relationships: Vec::new(),
    }
}

#[test]
fn writes_html_site_with_index_and_links() {
    let module = concept(ConceptKind::Module, "auth", "auth", "src/auth.rs");
    let mut caller = concept(
        ConceptKind::Function,
        "verify_token",
        "auth.verify_token",
        "src/auth.rs",
    );
    let callee = concept(
        ConceptKind::Function,
        "decode_jwt",
        "auth.decode_jwt",
        "src/auth.rs",
    );
    caller.relationships.push(Relationship::new(RelationKind::Calls, &callee.id, "decode_jwt"));

    let concepts = vec![module, caller, callee];
    let files = generate_html(&concepts);

    assert!(has_file(&files, "index.html"));
    assert!(has_file(&files, "modules/@index.html"));
    assert!(has_file(&files, "functions/@index.html"));
    assert!(has_file(&files, "modules/auth.html"));
    assert!(has_file(&files, "functions/auth/verify_token.html"));

    let content =
        page_at(&files, "functions/auth/verify_token.html");
    assert!(content.contains("<h1>verify_token</h1>"));
    assert!(content.contains("Rust Function"));
    assert!(content.contains("<pre><code>fn verify_token()</code></pre>"));
    assert!(!content.contains("[decode_jwt]"));
    assert!(content.contains("../../functions/auth/decode_jwt.html"));
}

#[test]
fn escapes_signatures_containing_generics() {
    let mut fn_concept = concept(ConceptKind::Function, "wrap", "wrap", "src/lib.rs");
    fn_concept.signature = Some("fn wrap<T: Clone>(x: &T) -> Vec<T>".to_string());
    fn_concept.description = Some("Uses <angle brackets> & ampersands".to_string());

    let files = generate_html(&vec![fn_concept]);
    let content = page_at(&files, "functions/wrap.html");

    assert!(content.contains("fn wrap&lt;T: Clone&gt;(x: &amp;T) -&gt; Vec&lt;T&gt;"));
    assert!(content.contains("Uses &lt;angle brackets&gt; &amp; ampersands"));
    assert!(
        !content.contains("Vec<T>"),
        "raw unescaped generics would break the HTML"
    );
}

#[test]
fn package_html_page_lists_member_modules() {
    let package = concept(ConceptKind::Package, "demo", "demo", "Cargo.toml");
    let mut module = concept(ConceptKind::Module, "lib", "lib", "src/lib.rs");
    module.relationships.push(Relationship::new(RelationKind::MemberOf, &package.id, "demo"));

    let files = generate_html(&vec![package.clone(), module.clone()]);

    let package_content = page_at(&files, "packages/demo.html");
    assert!(package_content.contains("<h2>Contains</h2>"));
    assert!(package_content.contains("../modules/lib.html"));

    let module_content = page_at(&files, "modules/lib.html");
    assert!(module_content.contains("<h2>Member of</h2>"));
}

#[test]
fn markdown_has_table_of_contents_and_per_concept_sections() {
    let module = concept(ConceptKind::Module, "auth", "auth", "src/auth.rs");
    let mut private_fn = concept(
        ConceptKind::Function,
        "helper",
        "auth.helper",
        "src/auth.rs",
    );
    private_fn.is_public = false;
    private_fn.tags = vec!["internal".to_string()];

    let markdown = generate_markdown(&vec![module, private_fn]);

    assert!(markdown.starts_with("# Documentation"));
    assert!(markdown.contains("## Contents"));
    assert!(markdown.contains("[Modules](#modules)"));
    assert!(markdown.contains("[Functions](#functions)"));
    assert!(markdown.contains("### helper"));
    assert!(markdown.contains("_private_"));
    assert!(markdown.contains("Tags: internal"));
}

#[test]
fn markdown_lists_relationships_by_display_name() {
    let mut caller = concept(ConceptKind::Function, "a", "a", "src/lib.rs");
    caller.relationships.push(Relationship::new(RelationKind::Calls, "functions/b", "b"));

    let markdown = generate_markdown(&vec![caller]);
    assert!(markdown.contains("**Calls:** b"));
}

#[test]
fn a_module_whose_id_is_literally_index_does_not_collide_with_the_directory_index() {
    let module = concept(ConceptKind::Module, "index", "index", "index.js");
    let files = generate_html(&vec![module]);

    let module_page = page_at(&files, "modules/index.html");
    assert!(
        module_page.contains("<h1>index</h1>"),
        "the module's own page must not be overwritten by the directory index: {module_page}"
    );

    let dir_index = page_at(&files, "modules/@index.html");
    assert!(dir_index.contains("Modules"));
}

#[test]
fn writes_notes_with_wikilinks_and_a_root_index() {
    let mut caller = concept(
        ConceptKind::Function,
        "verify_token",
        "verify_token",
        "src/auth.rs",
    );
    let callee = concept(
        ConceptKind::Function,
        "decode_jwt",
        "decode_jwt",
        "src/auth.rs",
    );
    caller.relationships.push(Relationship::new(RelationKind::Calls, &callee.id, "decode_jwt"));

    let concepts = vec![caller.clone(), callee.clone()];
    let files = generate_obsidian(&concepts);

    assert!(has_file(&files, "index.md"));
    let note = page_at(&files, &format!("{}.md", caller.id));
    assert!(note.starts_with("---\ntype: Rust Function\n---\n"));
    assert!(note.contains("# verify_token"));
    assert!(note.contains("## Calls"));
    assert!(note.contains(&format!("[[{}|decode_jwt]]", callee.id)));

    let index = page_at(&files, "index.md");
    assert!(index.contains(&format!("[[{}|verify_token]]", caller.id)));
}

#[test]
fn a_relationship_target_outside_the_bundle_is_plain_text_not_a_dangling_link() {
    let mut concept = concept(ConceptKind::Function, "f", "f", "src/lib.rs");
    concept.relationships.push(Relationship::new(RelationKind::Calls, "external/std::io::Read::read", "Read::read"));

    let files = generate_obsidian(&vec![concept.clone()]);
    let note = page_at(&files, &format!("{}.md", concept.id));
    assert!(note.contains("`Read::read`"));
    assert!(!note.contains("[[Read::read"));
}

#[test]
fn tags_become_frontmatter_tags() {
    let mut concept = concept(ConceptKind::Function, "f", "f", "src/lib.rs");
    concept.tags = vec!["auth".to_string(), "security".to_string()];

    let files = generate_obsidian(&vec![concept.clone()]);
    let note = page_at(&files, &format!("{}.md", concept.id));
    assert!(note.contains("tags: [auth, security]"));
}

fn node(id: &str, kind: ConceptKind, is_public: bool) -> Concept {
    Concept {
        id: id.to_string(),
        kind,
        language: Language::Rust,
        name: id.rsplit('/').next().unwrap().to_string(),
        qualified_name: id.to_string(),
        description: None,
        location: Location {
            file: "src/lib.rs".to_string(),
            start_line: 1,
            end_line: 1,
        },
        signature: None,
        tags: Vec::new(),
        is_public,
        generated_at: None,
        relationships: Vec::new(),
    }
}

#[test]
fn renders_a_well_formed_document_with_nodes_and_edges() {
    let mut caller = node("functions/a", ConceptKind::Function, true);
    let callee = node("functions/b", ConceptKind::Function, false);
    caller.relationships.push(Relationship::new(RelationKind::Calls, "functions/b", "b"));

    let xml = generate_graphml(&vec![caller, callee]);

    assert!(xml.starts_with("<?xml version=\"1.0\" encoding=\"UTF-8\"?>"));
    assert!(xml.contains("<node id=\"functions/a\">"));
    assert!(xml.contains("<node id=\"functions/b\">"));
    assert!(xml.contains("<data key=\"public\">true</data>"));
    assert!(xml.contains("<data key=\"public\">false</data>"));
    assert!(xml.contains("<edge source=\"functions/a\" target=\"functions/b\">"));
    assert!(xml.contains("<data key=\"relation\">Calls</data>"));
}

#[test]
fn called_by_edges_are_omitted_to_avoid_doubling_call_edges() {
    let mut caller = node("functions/a", ConceptKind::Function, true);
    let mut callee = node("functions/b", ConceptKind::Function, true);
    caller.relationships.push(Relationship::new(RelationKind::Calls, "functions/b", "b"));
    callee.relationships.push(Relationship::new(RelationKind::CalledBy, "functions/a", "a"));

    let xml = generate_graphml(&vec![caller, callee]);
    assert_eq!(xml.matches("<edge ").count(), 1, "{xml}");
}

#[test]
fn a_relationship_target_outside_the_bundle_produces_no_dangling_edge() {
    let mut caller = node("functions/a", ConceptKind::Function, true);
    caller.relationships.push(Relationship::new(RelationKind::Calls, "external/std::io::Read::read", "Read::read"));

    let xml = generate_graphml(&vec![caller]);
    assert_eq!(xml.matches("<edge ").count(), 0, "{xml}");
}

#[test]
fn escapes_special_characters_in_signatures_and_names() {
    let mut c = node("functions/wrap", ConceptKind::Function, true);
    c.name = "wrap<T>".to_string();
    let xml = generate_graphml(&vec![c]);
    assert!(xml.contains("wrap&lt;T&gt;"));
    assert!(!xml.contains("wrap<T>"));
}

#[test]
fn wraps_long_text_into_multiple_lines_within_the_limit() {
    let lines = wrap_text("the quick brown fox jumps over the lazy dog", 12);
    assert!(lines.len() > 1);
    for line in &lines {
        assert!(line.chars().count() <= 12, "line too long: {line:?}");
    }
    assert_eq!(lines.join(" "), "the quick brown fox jumps over the lazy dog");
}

#[test]
fn short_text_stays_on_one_line() {
    assert_eq!(wrap_text("short text", 40), vec!["short text".to_string()]);
}

#[test]
fn a_single_word_longer_than_the_limit_is_hard_split() {
    let lines = wrap_text("supercalifragilisticexpialidocious", 10);
    assert!(lines.len() > 1);
    for line in &lines {
        assert!(line.chars().count() <= 10);
    }
    assert_eq!(lines.join(""), "supercalifragilisticexpialidocious");
}

#[test]
fn empty_text_produces_one_empty_line_not_zero_lines() {
    assert_eq!(wrap_text("", 10), vec![String::new()]);
}


#[test]
fn words_are_cut_where_they_must_be() {
    assert_eq!(
        hard_split("abcdefg", 3),
        vec!["abc".to_string(), "def".to_string(), "g".to_string()]
    );
    assert_eq!(
        wrap_text("ab abcdefg cd", 5),
        vec![
            "ab".to_string(),
            "abcde".to_string(),
            "fg".to_string(),
            "cd".to_string()
        ]
    );
}

#[test]
fn anchors_and_links_have_a_shape() {
    assert_eq!(slug("My Functions!"), "my-functions-");
    assert_eq!(wikilink("functions/a", "a"), "[[functions/a|a]]");
}

#[test]
fn what_is_printed_names_each_concept() {
    let mut one = concept(ConceptKind::Function, "f", "f", "src/lib.rs");
    one.description = Some("Does it.".to_string());
    let items = print_items(&vec![one]);
    assert!(matches!(&items[0], PrintItem::Title(t) if t == "Documentation"));
    assert!(items.len() > 2);
}

#[test]
fn no_page_of_a_concept_takes_the_place_of_an_index() {
    let concepts = vec![
        concept(ConceptKind::Module, "index", "index", "index.js"),
        concept(ConceptKind::Function, "index", "index", "index.js"),
    ];
    let files = generate_html(&concepts);
    let mut paths: Vec<&str> = files.iter().map(|f| f.path.as_str()).collect();
    let all = paths.len();
    paths.sort();
    paths.dedup();
    assert_eq!(paths.len(), all);
}
