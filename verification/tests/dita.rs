use okf::bundle::OutputFile;
use okf::dita::{
    concept_of_topic, export_dita, fallback_title, import_dita, import_file, is_topic_extension,
    path_to_qualified_name, topic_id, SkipReason, TopicFile,
};
use okf::model::{Concept, ConceptKind, Language, Location, RelationKind, Relationship};
use okf::naming::make_id;
use okf::nesting::{is_shallow, NESTING_LIMIT};
use okf::xml::XmlNode;

fn has_file(files: &[OutputFile], path: &str) -> bool {
    files.iter().any(|f| f.path == path)
}

fn page_at(files: &[OutputFile], path: &str) -> String {
    files
        .iter()
        .find(|f| f.path == path)
        .unwrap()
        .content
        .clone()
}

fn write(corpus: &mut Vec<OutputFile>, path: &str, content: &str) {
    corpus.push(OutputFile {
        path: path.to_string(),
        content: content.to_string(),
    });
}

fn import(corpus: &[OutputFile]) -> (Vec<Concept>, Vec<(String, SkipReason)>) {
    let topics: Vec<TopicFile> = corpus
        .iter()
        .filter(|f| is_topic_extension(f.path.rsplit_once('.').map(|(_, e)| e)))
        .map(|f| TopicFile {
            relative_path: f.path.clone(),
            content: Some(f.content.clone()),
        })
        .collect();
    import_dita(&topics)
}

fn concept(kind: ConceptKind, name: &str, qualified: &str, file: &str) -> Concept {
    Concept {
        id: make_id(kind.bundle_dir(), qualified),
        kind,
        language: Language::Rust,
        name: name.to_string(),
        qualified_name: qualified.to_string(),
        description: None,
        location: Location {
            file: file.to_string(),
            start_line: 1,
            end_line: 1,
        },
        signature: Some(format!("fn {name}()")),
        tags: Vec::new(),
        is_public: true,
        generated_at: None,
        relationships: Vec::new(),
    }
}

#[test]
fn writes_a_topic_per_concept_and_a_root_map() {
    let module = concept(ConceptKind::Module, "auth", "auth", "src/auth.rs");
    let mut caller = concept(
        ConceptKind::Function,
        "verify_token",
        "auth.verify_token",
        "src/auth.rs",
    );
    let callee = concept(
        ConceptKind::Function,
        "decode_jwt",
        "auth.decode_jwt",
        "src/auth.rs",
    );
    caller.relationships.push(Relationship::new(RelationKind::Calls, &callee.id, "decode_jwt"));
    caller.description = Some("Verifies a signed token.".to_string());
    caller.tags = vec!["auth".to_string()];

    let concepts = vec![module, caller, callee];
    let files = export_dita(&concepts);

    assert!(has_file(&files, "root.ditamap"));
    assert!(has_file(&files, "functions/auth/verify_token.dita"));

    let content =
        page_at(&files, "functions/auth/verify_token.dita");
    assert!(content.starts_with("<?xml version=\"1.0\" encoding=\"UTF-8\"?>"));
    assert!(content.contains("<topic id=\"functions-auth-verify_token\">"));
    assert!(content.contains("<title>verify_token</title>"));
    assert!(content.contains("<shortdesc>Verifies a signed token.</shortdesc>"));
    assert!(content.contains("<codeblock>fn verify_token()</codeblock>"));
    assert!(content.contains("<li>decode_jwt</li>"));
    assert!(content.contains("<p>auth</p>"));

    let map = page_at(&files, "root.ditamap");
    assert!(map.contains("<topicref href=\"functions/auth/verify_token.dita\"/>"));
    assert!(map.contains("<topicref href=\"modules/auth.dita\"/>"));
}

#[test]
fn escapes_signatures_and_descriptions_containing_generics() {
    let mut fn_concept = concept(ConceptKind::Function, "wrap", "wrap", "src/lib.rs");
    fn_concept.signature = Some("fn wrap<T: Clone>(x: &T) -> Vec<T>".to_string());
    fn_concept.description = Some("Uses <angle brackets> & ampersands".to_string());

    let files = export_dita(&vec![fn_concept]);
    let content = page_at(&files, "functions/wrap.dita");

    assert!(content.contains("fn wrap&lt;T: Clone&gt;(x: &amp;T) -&gt; Vec&lt;T&gt;"));
    assert!(content.contains("Uses &lt;angle brackets&gt; &amp; ampersands"));
    assert!(
        !content.contains("Vec<T>"),
        "raw unescaped generics would break the XML"
    );
}

#[test]
fn imports_a_single_topic_with_title_and_shortdesc() {
    let mut corpus = Vec::new();
    write(&mut corpus,
        "auth/verify-token.dita",
        r#"<?xml version="1.0" encoding="UTF-8"?>
<!DOCTYPE topic PUBLIC "-//OASIS//DTD DITA Topic//EN" "topic.dtd">
<topic id="verify-token">
  <title>Verify Token</title>
  <shortdesc>Explains how token verification works.</shortdesc>
  <body><p>Details here.</p></body>
</topic>
"#,
    );

    let (concepts, skipped) = import(&corpus);
    assert!(skipped.is_empty(), "unexpected skips: {skipped:?}");
    assert_eq!(concepts.len(), 1);

    let concept = &concepts[0];
    assert_eq!(concept.kind, ConceptKind::Document);
    assert_eq!(concept.language, Language::Dita);
    assert_eq!(concept.name, "Verify Token");
    assert_eq!(
        concept.description.as_deref(),
        Some("Explains how token verification works.")
    );
    assert_eq!(concept.qualified_name, "verify-token");
    assert_eq!(concept.id, "documents/verify-token");
    assert_eq!(concept.location.file, "auth/verify-token.dita");
}

#[test]
fn a_topic_with_no_id_falls_back_to_a_path_derived_qualified_name() {
    let mut corpus = Vec::new();
    write(&mut corpus,
        "guides/getting-started.dita",
        "<topic><title>Getting Started</title><body/></topic>",
    );

    let (concepts, _) = import(&corpus);
    assert_eq!(concepts.len(), 1);
    assert_eq!(concepts[0].qualified_name, "guides.getting-started");
}

#[test]
fn a_topic_with_no_title_falls_back_to_its_filename() {
    let mut corpus = Vec::new();
    write(&mut corpus, "untitled.dita", "<topic><body/></topic>");

    let (concepts, _) = import(&corpus);
    assert_eq!(concepts.len(), 1);
    assert_eq!(concepts[0].name, "untitled");
}

#[test]
fn malformed_xml_is_skipped_not_fatal_to_the_rest_of_the_import() {
    let mut corpus = Vec::new();
    write(&mut corpus, "broken.dita", "<topic><title>Oops</topic>");
    write(&mut corpus,
        "fine.dita",
        "<topic><title>Fine</title><body/></topic>",
    );

    let (concepts, skipped) = import(&corpus);
    assert_eq!(concepts.len(), 1);
    assert_eq!(concepts[0].name, "Fine");
    assert_eq!(skipped.len(), 1);
    assert_eq!(skipped[0].0, "broken.dita");
    assert_eq!(skipped[0].1, SkipReason::NotWellFormed);
}

#[test]
fn non_dita_xml_files_are_ignored_by_extension() {
    let mut corpus = Vec::new();
    write(&mut corpus, "notes.txt", "not xml at all");
    write(&mut corpus,
        "topic.dita",
        "<topic><title>Real Topic</title><body/></topic>",
    );

    let (concepts, skipped) = import(&corpus);
    assert_eq!(concepts.len(), 1);
    assert!(skipped.is_empty());
}

#[test]
fn importing_a_single_file_path_works_the_same_as_a_directory() {
    let mut corpus = Vec::new();
    write(&mut corpus,
        "solo.dita",
        "<topic id=\"solo\"><title>Solo</title><body/></topic>",
    );

    let (concepts, _) = import(&corpus);
    assert_eq!(concepts.len(), 1);
    assert_eq!(concepts[0].name, "Solo");
    assert_eq!(concepts[0].location.file, "solo.dita");
}

#[test]
fn concatenates_mixed_inline_markup_in_shortdesc() {
    let mut corpus = Vec::new();
    write(&mut corpus,
        "mixed.dita",
        "<topic><title>Mixed</title><shortdesc>Uses <b>bold</b> text.</shortdesc><body/></topic>",
    );

    let (concepts, _) = import(&corpus);
    assert_eq!(concepts[0].description.as_deref(), Some("Uses bold text."));
}

#[test]
fn exporting_then_importing_round_trips_title_and_description() {
    let original = Concept {
        id: make_id("functions", "auth.verify_token"),
        kind: ConceptKind::Function,
        language: Language::Rust,
        name: "verify_token".to_string(),
        qualified_name: "auth.verify_token".to_string(),
        description: Some("Verifies a signed authentication token.".to_string()),
        location: Location {
            file: "src/auth.rs".to_string(),
            start_line: 1,
            end_line: 3,
        },
        signature: Some("fn verify_token(token: &str) -> bool".to_string()),
        tags: Vec::new(),
        is_public: true,
        generated_at: None,
        relationships: Vec::new(),
    };

    let corpus = export_dita(&vec![original.clone()]);

    let (imported, skipped) = import(&corpus);
    assert!(skipped.is_empty(), "unexpected skips: {skipped:?}");
    assert_eq!(imported.len(), 1);

    let round_tripped = &imported[0];
    assert_eq!(round_tripped.kind, ConceptKind::Document);
    assert_eq!(round_tripped.name, original.name);
    assert_eq!(round_tripped.description, original.description);
}

#[test]
fn markup_in_a_concept_is_read_back_as_text() {
    let mut c = concept(ConceptKind::Function, "cmp<T> & \"more\"", "a.cmp", "src/<a>.rs");
    c.description = Some("a < b,\n\tb > c ]]> 'd'".to_string());
    c.tags = vec!["x&y".to_string(), "".to_string()];
    c.relationships.push(Relationship::new(RelationKind::Calls, "f", "f<\"g\">"));
    let (imported, skipped) = import(&export_dita(&vec![c.clone()]));
    assert!(skipped.is_empty());
    assert_eq!(imported[0].name, c.name);
    assert_eq!(imported[0].description, c.description);
    assert_eq!(imported[0].qualified_name, "functions-a-cmp");
    assert_eq!(imported[0].id, make_id("documents", "functions-a-cmp"));
}

#[test]
fn a_concept_without_a_name_or_description_is_read_back_without() {
    let mut c = concept(ConceptKind::Function, "", "a.f", "src/a.rs");
    c.signature = Some("".to_string());
    let (imported, _) = import(&export_dita(&vec![c]));
    assert_eq!(imported[0].name, "f");
    assert_eq!(imported[0].description, None);
}

#[test]
fn a_file_that_cannot_be_read_is_skipped() {
    let files = vec![
        TopicFile {
            relative_path: "a.dita".to_string(),
            content: None,
        },
        TopicFile {
            relative_path: "b.dita".to_string(),
            content: Some("<topic/>".to_string()),
        },
    ];
    let (concepts, skipped) = import_dita(&files);
    assert_eq!(concepts.len(), 1);
    assert_eq!(concepts[0].name, "b");
    assert_eq!(skipped, vec![("a.dita".to_string(), SkipReason::Unreadable)]);
}

#[test]
fn only_children_of_the_root_name_a_topic() {
    let node = |depth: usize, tag: Option<&str>, text: Option<&str>| XmlNode {
        depth,
        tag: tag.map(str::to_string),
        id: None,
        text: text.map(str::to_string),
    };
    let nodes = vec![
        node(0, Some("topic"), None),
        node(1, Some("body"), None),
        node(2, Some("title"), None),
        node(3, None, Some("inner")),
        node(1, Some("title"), None),
        node(2, None, Some("outer")),
    ];
    let concept = concept_of_topic(&nodes, "a/b.dita", 0);
    assert_eq!(concept.name, "outer");
    assert_eq!(concept.qualified_name, "a.b");
    assert_eq!(concept.location.end_line, 1);
}

#[test]
fn names_come_from_paths() {
    assert_eq!(fallback_title("guides/start.here.dita"), "start.here");
    assert_eq!(fallback_title(".hidden"), ".hidden");
    assert_eq!(path_to_qualified_name("guides/start.dita"), "guides.start");
    assert_eq!(topic_id("functions/auth/f"), "functions-auth-f");
    assert!(is_topic_extension(Some("xml")));
    assert!(!is_topic_extension(Some("ditamap")));
    assert!(!is_topic_extension(None));
}

/// A topic with so many elements in each other.
fn nested(depth: usize) -> String {
    format!("{}{}", "<b>".repeat(depth), "</b>".repeat(depth))
}

#[test]
fn a_topic_is_read_as_deep_as_the_limit() {
    assert!(is_shallow(&nested(NESTING_LIMIT)));
    assert!(import_file(&nested(NESTING_LIMIT), "a.dita").is_some());
    assert!(!is_shallow(&nested(NESTING_LIMIT + 1)));
    assert!(!is_shallow(&"<b>".repeat(200_000)));
}

#[test]
fn entities_count_by_how_deep_they_nest() {
    let topic = |values: &[String]| {
        let declared: String = values
            .iter()
            .enumerate()
            .map(|(k, v)| format!("<!ENTITY e{k} \"{v}\">"))
            .collect();
        format!("<!DOCTYPE a [{declared}]><a>&e0;</a>")
    };
    let flat = topic(&["<b>x</b>".repeat(1_000)]);
    assert!(is_shallow(&flat));
    assert!(import_file(&flat, "a.dita").is_some());

    let levels = |depth: usize| -> Vec<String> {
        (0..10)
            .map(|k| {
                let inner = if k < 9 { format!("&e{};", k + 1) } else { "x".to_string() };
                format!("{}{inner}{}", "<b>".repeat(depth), "</b>".repeat(depth))
            })
            .collect()
    };
    let deepest = (NESTING_LIMIT - 1) / 10;
    let chain = topic(&levels(deepest));
    assert!(is_shallow(&chain));
    assert!(import_file(&chain, "a.dita").is_some());
    assert!(!is_shallow(&topic(&levels(deepest + 1))));
    assert!(!is_shallow(&topic(&["<!-- </b> --><b x='</b>'>".repeat(100)])));
}

#[test]
fn what_looks_like_a_tag_and_is_none_does_not_count() {
    let elements = |inner: &str| format!("<a>{}</a>", inner.repeat(1_000));
    for inner in [
        "<b/>",
        "<b x='>/>'/>",
        "<b></b>",
        "<!-- <b> -->",
        "<![CDATA[<b>]]>",
        "<?p <b>?>",
    ] {
        assert!(is_shallow(&elements(inner)), "{inner}");
        assert!(import_file(&elements(inner), "a.dita").is_some(), "{inner}");
    }
    for hidden in ["<!-- </b> --><b>", "<![CDATA[</b>]]><b>", "/><b>", "<b x='/>'>", "<?p </b>?><b>"] {
        assert!(!is_shallow(&elements(hidden)), "{hidden}");
    }
    let declared = "<?xml version='?><!--'?>";
    assert!(!is_shallow(&format!("{declared}{}", nested(1_000))));
    let entity = format!("<!DOCTYPE a [<!ENTITY e \"{}\">]><a>&e;</a>", "<b>".repeat(100));
    assert!(!is_shallow(&entity));
    let entity = "<!DOCTYPE a [<!-- \" --><!ENTITY e \"<b>x</b>\">]><a>&e;</a>";
    assert!(import_file(entity, "a.dita").is_some());
}

#[test]
fn topics_come_by_path_part_by_part() {
    let file = |path: &str, content: Option<&str>| TopicFile {
        relative_path: path.to_string(),
        content: content.map(str::to_string),
    };
    let names = |files: &Vec<TopicFile>| -> Vec<String> {
        import_dita(files).0.into_iter().map(|c| c.location.file).collect()
    };
    let files = vec![
        file("b.dita", Some("<topic/>")),
        file("a.dita", Some("<topic/>")),
        file("z.dita", None),
        file("a/b.dita", Some("<topic/>")),
        file("c.dita", Some("<topic>")),
    ];
    let turned: Vec<TopicFile> = files
        .iter()
        .rev()
        .map(|f| file(&f.relative_path, f.content.as_deref()))
        .collect();
    assert_eq!(names(&files), vec!["a/b.dita", "a.dita", "b.dita"]);
    assert_eq!(names(&turned), names(&files));
    let skipped = vec![
        ("c.dita".to_string(), SkipReason::NotWellFormed),
        ("z.dita".to_string(), SkipReason::Unreadable),
    ];
    assert_eq!(import_dita(&files).1, skipped);
    assert_eq!(import_dita(&turned).1, skipped);
}
