use okf::extraction::{CallCandidate, CallEntry, CallSite};
use okf::model::{Concept, ConceptKind, Confidence, Language, Location};
use okf::naming::disambiguate_duplicate_ids;
use okf::probing::CrateWarmup;
use okf::resolution::{Event, Lookup, Session, Step};

fn function(id: &str, name: &str, file: &str, start: usize, end: usize) -> Concept {
    Concept {
        id: id.to_string(),
        kind: ConceptKind::Function,
        language: Language::Rust,
        name: name.to_string(),
        qualified_name: name.to_string(),
        description: None,
        location: Location {
            file: file.to_string(),
            start_line: start,
            end_line: end,
        },
        signature: None,
        tags: Vec::new(),
        is_public: true,
        generated_at: None,
        relationships: Vec::new(),
    }
}

fn entry(caller_id: &str, callee: &str, path: &str, language: Language) -> CallEntry {
    CallEntry {
        call: CallCandidate {
            caller_id: caller_id.to_string(),
            callee_name: callee.to_string(),
            call_site: CallSite {
                line: 4,
                character: 2,
            },
        },
        language,
        relative_path: path.to_string(),
    }
}

fn project() -> Vec<Concept> {
    vec![
        function("functions/a/run", "run", "src/a.rs", 1, 3),
        function("functions/b/run", "run", "src/b.rs", 1, 3),
        function("functions/a/caller", "caller", "src/a.rs", 5, 7),
    ]
}

#[test]
fn a_place_within_one_candidate_confirms_it() {
    let concepts = project();
    let lookup = Lookup::new(&concepts);
    let call = entry("functions/a/caller", "run", "src/a.rs", Language::Rust);
    let edge = lookup
        .confirm(
            &call,
            &vec![("src/a.rs".to_string(), 0)],
            &Some("1.88.0".to_string()),
        )
        .unwrap();
    assert_eq!(edge.caller, "functions/a/caller");
    assert_eq!(edge.callee, "functions/a/run");
    assert_eq!(edge.resolved_by, "rust-analyzer");
    assert_eq!(edge.confidence, Confidence::Semantic);
    assert_eq!(edge.resolver_version.as_deref(), Some("1.88.0"));
    assert!(lookup
        .confirm(&call, &vec![("src/a.rs".to_string(), 9)], &None)
        .is_none());
    assert!(lookup.confirm(&call, &Vec::new(), &None).is_none());
}

#[test]
fn a_session_starts_one_server_asks_and_ends() {
    let concepts = project();
    let lookup = Lookup::new(&concepts);
    let first = entry("functions/a/caller", "run", "src/a.rs", Language::Rust);
    let second = entry("functions/b/run", "run", "src/b.rs", Language::Rust);
    let entries = vec![&first, &second];
    let mut session = Session::new();
    let mut step = |session: &mut Session, event| session.step(&lookup, &entries, &None, event);
    assert_eq!(step(&mut session, Event::Go), Step::Start(Language::Rust));
    assert_eq!(
        step(&mut session, Event::Started(Some("1.0".to_string()))),
        Step::Query(0)
    );
    assert_eq!(
        step(
            &mut session,
            Event::Found(vec![("src/b.rs".to_string(), 1)])
        ),
        Step::Query(1)
    );
    assert_eq!(step(&mut session, Event::Found(Vec::new())), Step::Pause);
    assert_eq!(step(&mut session, Event::Go), Step::Query(1));
    assert_eq!(step(&mut session, Event::Found(Vec::new())), Step::Done);
    assert_eq!(session.edges.len(), 1);
    assert_eq!(session.edges[0].callee, "functions/b/run");
    assert_eq!(session.edges[0].resolver_version.as_deref(), Some("1.0"));
}

#[test]
fn calls_without_a_server_are_passed_over() {
    let concepts = project();
    let lookup = Lookup::new(&concepts);
    let first = entry("functions/a/caller", "run", "src/a.rs", Language::Rust);
    let second = entry("functions/a/caller", "run", "src/a.rs", Language::Rust);
    let entries = vec![&first, &second];
    let mut session = Session::new();
    assert_eq!(
        session.step(&lookup, &entries, &None, Event::Go),
        Step::Start(Language::Rust)
    );
    assert_eq!(
        session.step(&lookup, &entries, &None, Event::NoServer),
        Step::Done
    );
    assert!(session.edges.is_empty());
}

#[test]
fn a_crate_is_warmed_up_before_the_first_question() {
    let concepts = project();
    let lookup = Lookup::new(&concepts);
    let first = entry("functions/a/caller", "run", "src/a.rs", Language::Rust);
    let warm = entry(
        "functions/a/caller",
        "run",
        "crates/okf-graph/src/lib.rs",
        Language::Rust,
    );
    let entries = vec![&first, &warm];
    let warmup = Some(CrateWarmup {
        crate_name: "okf-graph".to_string(),
        queries: 5,
    });
    let mut session = Session::new();
    session.step(&lookup, &entries, &warmup, Event::Go);
    assert_eq!(
        session.step(&lookup, &entries, &warmup, Event::Started(None)),
        Step::Query(1)
    );
    assert_eq!(
        session.step(&lookup, &entries, &warmup, Event::NoAnswer),
        Step::Query(0)
    );
}

#[test]
fn nothing_to_ask_ends_at_once() {
    let concepts = project();
    let lookup = Lookup::new(&concepts);
    let mut session = Session::new();
    assert_eq!(
        session.step(&lookup, &Vec::new(), &None, Event::Go),
        Step::Done
    );
}

#[test]
fn namesakes_are_numbered_by_where_they_stand() {
    let concepts = [
        function("functions/run", "run", "src/b.rs", 1, 1),
        function("functions/run", "run", "src/a.rs", 9, 9),
        function("functions/run", "run", "src/a.rs", 2, 2),
        function("functions/other", "other", "src/a.rs", 1, 1),
    ];
    let ids: Vec<String> = disambiguate_duplicate_ids(&concepts)
        .into_iter()
        .map(|c| c.id)
        .collect();
    assert_eq!(
        ids,
        vec![
            "functions/run-3".to_string(),
            "functions/run-2".to_string(),
            "functions/run".to_string(),
            "functions/other".to_string(),
        ]
    );
}
