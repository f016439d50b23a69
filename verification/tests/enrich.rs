use okf::enrich::{
    completions_url, embeddable_text, embeddings_url, enrich_missing_descriptions,
    plan_descriptions, prompt_for,
    read_completion, semantic_candidates, semantic_search, CompletionError, EnrichStats,
};
use okf::links::{
    is_refusal, link_jobs, pair_key, search_query, suggest_missing_links, SuggestedLink,
};
use okf::model::{Concept, ConceptKind, Language, Location, RelationKind, Relationship};

fn function_concept(id: &str) -> Concept {
    Concept {
        id: id.to_string(),
        kind: ConceptKind::Function,
        language: Language::Rust,
        name: id.to_string(),
        qualified_name: id.to_string(),
        description: None,
        location: Location {
            file: "src/lib.rs".to_string(),
            start_line: 1,
            end_line: 1,
        },
        signature: Some("fn f()".to_string()),
        tags: Vec::new(),
        is_public: true,
        generated_at: None,
        relationships: Vec::new(),
    }
}

/// Fills in what is missing with one answer for every question, and tells how
/// many questions there were.
fn enriched(
    concepts: &mut Vec<Concept>,
    previous: Vec<Concept>,
    answer: &str,
) -> (EnrichStats, usize) {
    let (asked, reused) = plan_descriptions(concepts, &previous);
    let answers: Vec<Option<String>> = asked
        .iter()
        .map(|_| Some(read_completion(&vec![answer.to_string()]).unwrap()))
        .collect();
    let stats = enrich_missing_descriptions(concepts, &asked, &answers, reused).unwrap();
    (stats, asked.len())
}

#[test]
fn complete_parses_a_canned_response() {
    assert_eq!(
        read_completion(&vec!["  a concise summary\n".to_string()]),
        Ok("a concise summary".to_string())
    );
    assert_eq!(
        read_completion(&Vec::new()),
        Err(CompletionError::NoChoices)
    );
    assert_eq!(
        read_completion(&vec![" \n".to_string()]),
        Err(CompletionError::Empty)
    );
    assert_eq!(
        completions_url("http://localhost:11434/v1//"),
        "http://localhost:11434/v1/chat/completions"
    );
}

#[test]
fn enrich_missing_descriptions_fills_in_a_function_without_one() {
    let mut concepts = vec![function_concept("functions/f")];

    let (stats, _) = enriched(&mut concepts, Vec::new(), "verifies a token");
    assert_eq!(
        stats,
        EnrichStats {
            generated: 1,
            reused: 0
        }
    );
    assert_eq!(concepts[0].description.as_deref(), Some("verifies a token"));
}

#[test]
fn enrich_missing_descriptions_never_overwrites_an_existing_one() {
    let mut concept = function_concept("functions/f");
    concept.description = Some("hand-written description".to_string());
    let mut concepts = vec![concept];

    let (stats, asked) = enriched(&mut concepts, Vec::new(), "should not be used");
    assert_eq!(
        stats,
        EnrichStats {
            generated: 0,
            reused: 0
        }
    );
    assert_eq!(
        concepts[0].description.as_deref(),
        Some("hand-written description")
    );
    assert_eq!(asked, 0);
}

#[test]
fn enrich_missing_descriptions_reuses_a_previous_bundles_description_without_a_call() {
    let mut concepts = vec![function_concept("functions/f")];
    let mut previous = function_concept("functions/f");
    previous.description = Some("from a prior --enrich run".to_string());

    let (stats, asked) = enriched(&mut concepts, vec![previous], "should not be used");
    assert_eq!(
        stats,
        EnrichStats {
            generated: 0,
            reused: 1
        }
    );
    assert_eq!(
        concepts[0].description.as_deref(),
        Some("from a prior --enrich run")
    );
    assert_eq!(asked, 0);
}

#[test]
fn enrich_missing_descriptions_skips_kinds_outside_the_enrichable_set() {
    let mut concept = function_concept("structs/s");
    concept.kind = ConceptKind::Struct;
    let mut concepts = vec![concept];

    let (stats, asked) = enriched(&mut concepts, Vec::new(), "should not be used");
    assert_eq!(
        stats,
        EnrichStats {
            generated: 0,
            reused: 0
        }
    );
    assert_eq!(concepts[0].description, None);
    assert_eq!(asked, 0);
}

#[test]
fn enrich_missing_descriptions_mixes_reused_and_generated_in_one_run() {
    let mut previous = function_concept("functions/has_prior");
    previous.description = Some("carried forward".to_string());
    let mut concepts = vec![
        function_concept("functions/has_prior"),
        function_concept("functions/new"),
    ];

    let (stats, asked) = enriched(&mut concepts, vec![previous], "freshly generated");
    assert_eq!(
        stats,
        EnrichStats {
            generated: 1,
            reused: 1
        }
    );
    assert_eq!(concepts[0].description.as_deref(), Some("carried forward"));
    assert_eq!(
        concepts[1].description.as_deref(),
        Some("freshly generated")
    );
    assert_eq!(asked, 1);
}

#[test]
fn answers_up_to_the_first_that_fails_are_kept() {
    let mut concepts = vec![
        function_concept("functions/a"),
        function_concept("functions/b"),
        function_concept("functions/c"),
    ];
    let (asked, reused) = plan_descriptions(&mut concepts, &Vec::new());
    let answers = vec![
        Some("first".to_string()),
        None,
        Some("third".to_string()),
    ];
    assert_eq!(
        enrich_missing_descriptions(&mut concepts, &asked, &answers, reused),
        Err(1)
    );
    assert_eq!(concepts[0].description.as_deref(), Some("first"));
    assert_eq!(concepts[1].description, None);
}

#[test]
fn questions_fence_what_they_quote() {
    let mut concept = function_concept("functions/f");
    concept.signature = Some("fn f()".to_string());
    assert_eq!(
        prompt_for(&concept),
        "Describe what this Rust function/method does, in one sentence, for developer documentation.\nName: ```functions/f```\nSignature: ```fn f()```"
    );
}

fn concept(id: &str, kind: ConceptKind, description: Option<&str>) -> Concept {
    Concept {
        id: id.to_string(),
        kind,
        language: Language::Rust,
        name: id.rsplit('/').next().unwrap().to_string(),
        qualified_name: id.replace('/', "."),
        description: description.map(str::to_string),
        location: Location {
            file: "src/lib.rs".to_string(),
            start_line: 1,
            end_line: 1,
        },
        signature: None,
        tags: Vec::new(),
        is_public: true,
        generated_at: None,
        relationships: Vec::new(),
    }
}

/// Judges the pairs that a search which finds everything would give, with one
/// answer for every pair, and tells how many were judged.
fn judged(concepts: Vec<Concept>, answer: &str) -> (Vec<SuggestedLink>, usize) {
    let all: Vec<String> = concepts.iter().map(|c| c.id.clone()).collect();
    let hits: Vec<Vec<String>> = concepts
        .iter()
        .map(|c| match search_query(c) {
            Some(_) => all.clone(),
            None => Vec::new(),
        })
        .collect();
    let jobs = link_jobs(&concepts, &hits, 5);
    let answers: Vec<Option<String>> = jobs.iter().map(|_| Some(answer.to_string())).collect();
    let suggestions = suggest_missing_links(&concepts, &jobs, &answers).unwrap();
    (suggestions, jobs.len())
}

#[test]
fn suggests_a_link_the_model_confirms() {
    let concepts = vec![
        concept(
            "functions/verify_token",
            ConceptKind::Function,
            Some("Verifies a signed authentication token."),
        ),
        concept(
            "functions/decode_jwt",
            ConceptKind::Function,
            Some("Decodes a JSON Web Token's claims."),
        ),
    ];

    let (suggestions, _) = judged(concepts, "A almost certainly calls into B");
    assert_eq!(suggestions.len(), 1);
    assert_eq!(suggestions[0].from_id, "functions/verify_token");
    assert_eq!(suggestions[0].to_id, "functions/decode_jwt");
    assert_eq!(suggestions[0].reason, "A almost certainly calls into B");
}

#[test]
fn no_suggestion_when_the_model_says_no() {
    let concepts = vec![
        concept(
            "functions/verify_token",
            ConceptKind::Function,
            Some("Verifies a signed authentication token."),
        ),
        concept(
            "functions/unrelated",
            ConceptKind::Function,
            Some("Formats a currency amount for display."),
        ),
    ];

    let (suggestions, _) = judged(concepts, "NO");
    assert!(suggestions.is_empty());
}

#[test]
fn an_already_linked_pair_is_never_sent_to_the_model() {
    let mut a = concept(
        "functions/verify_token",
        ConceptKind::Function,
        Some("Verifies a signed authentication token."),
    );
    let mut b = concept(
        "functions/decode_jwt",
        ConceptKind::Function,
        Some("Decodes a JSON Web Token's claims."),
    );
    a.relationships
        .push(Relationship::new(RelationKind::Calls, &b.id, &b.name));
    b.relationships
        .push(Relationship::new(RelationKind::CalledBy, &a.id, &a.name));

    let (suggestions, sent) = judged(vec![a, b], "should not be used");
    assert!(suggestions.is_empty());
    assert_eq!(sent, 0);
}

#[test]
fn modules_and_packages_are_never_candidates_or_sources() {
    let concepts = vec![
        concept(
            "modules/auth",
            ConceptKind::Module,
            Some("Authentication and token handling."),
        ),
        concept(
            "packages/core",
            ConceptKind::Package,
            Some("Core authentication package."),
        ),
    ];

    let (suggestions, sent) = judged(concepts, "should not be used");
    assert!(suggestions.is_empty());
    assert_eq!(sent, 0);
}

#[test]
fn documents_are_never_candidates_or_sources() {
    let concepts = vec![
        concept(
            "documents/guide",
            ConceptKind::Document,
            Some("A guide to authentication."),
        ),
        concept(
            "documents/reference",
            ConceptKind::Document,
            Some("Authentication API reference."),
        ),
    ];

    let (suggestions, sent) = judged(concepts, "should not be used");
    assert!(suggestions.is_empty());
    assert_eq!(sent, 0);
}

#[test]
fn a_concept_without_a_description_is_never_a_search_source() {
    let concepts = vec![
        concept("functions/undocumented", ConceptKind::Function, None),
        concept(
            "functions/other",
            ConceptKind::Function,
            Some("Does something else entirely."),
        ),
    ];

    assert!(search_query(&concepts[0]).is_none());
    let hits = vec![vec!["functions/other".to_string()], Vec::new()];
    assert!(link_jobs(&concepts, &hits, 5).is_empty());
}

#[test]
fn a_pair_is_judged_at_most_once_even_if_symmetric_search_would_find_it_twice() {
    let concepts = vec![
        concept(
            "functions/a_token_thing",
            ConceptKind::Function,
            Some("token handling alpha"),
        ),
        concept(
            "functions/b_token_thing",
            ConceptKind::Function,
            Some("token handling beta"),
        ),
    ];

    let (suggestions, sent) = judged(concepts, "related");
    assert_eq!(suggestions.len(), 1);
    assert_eq!(sent, 1);
}

#[test]
fn a_refusal_is_the_one_word() {
    assert!(is_refusal("NO"));
    assert!(is_refusal(" no\n"));
    assert!(!is_refusal("no."));
    assert!(!is_refusal("Both handle tokens"));
    assert_eq!(pair_key("b", "a"), ("a".to_string(), "b".to_string()));
    assert_eq!(pair_key("a", "b"), pair_key("b", "a"));
}

#[test]
fn a_judgement_that_is_missing_is_the_error() {
    let concepts = vec![
        concept("functions/a", ConceptKind::Function, Some("one")),
        concept("functions/b", ConceptKind::Function, Some("two")),
    ];
    let hits = vec![vec!["functions/b".to_string()], Vec::new()];
    let jobs = link_jobs(&concepts, &hits, 5);
    assert_eq!(jobs.len(), 1);
    assert_eq!(
        suggest_missing_links(&concepts, &jobs, &vec![None]).err(),
        Some(0)
    );
}

fn closest(concepts: &Vec<Concept>, closeness: &Vec<u32>, limit: usize) -> Vec<String> {
    let candidates = semantic_candidates(concepts);
    semantic_search(concepts, &candidates, closeness, limit)
        .into_iter()
        .map(|k| concepts[candidates[k].0].id.clone())
        .collect()
}

#[test]
fn ranks_the_closer_embedding_first() {
    let token_fn = concept(
        "functions/verify_token",
        ConceptKind::Function,
        Some("Verifies a signed authentication token."),
    );
    let currency_fn = concept(
        "functions/format_currency",
        ConceptKind::Function,
        Some("Formats a currency amount for display."),
    );
    let hits = closest(&vec![token_fn, currency_fn], &vec![1000, 0], 10);
    assert_eq!(
        hits,
        vec![
            "functions/verify_token".to_string(),
            "functions/format_currency".to_string()
        ]
    );
}

#[test]
fn concepts_without_a_description_are_never_embedded_or_returned() {
    let described = concept("functions/a", ConceptKind::Function, Some("does something"));
    let undescribed = concept("functions/b", ConceptKind::Function, None);
    let concepts = vec![described, undescribed];

    let candidates = semantic_candidates(&concepts);
    assert_eq!(candidates.len(), 1);
    assert_eq!(
        candidates[0].1,
        embeddable_text(&concepts[0], "does something")
    );
    assert_eq!(
        candidates[0].1,
        "functions.a (Rust Function): does something"
    );
    let hits = closest(&concepts, &vec![5], 10);
    assert_eq!(hits, vec!["functions/a".to_string()]);
}

#[test]
fn empty_bundle_of_described_concepts_returns_no_hits_without_a_network_call() {
    let concepts = vec![concept("functions/a", ConceptKind::Function, None)];
    assert!(semantic_candidates(&concepts).is_empty());
    assert!(closest(&concepts, &Vec::new(), 10).is_empty());
}

#[test]
fn results_are_capped_at_the_requested_limit() {
    let concepts: Vec<Concept> = (0..5)
        .map(|i| {
            concept(
                &format!("functions/f{i}"),
                ConceptKind::Function,
                Some("token handler"),
            )
        })
        .collect();

    let hits = closest(&concepts, &vec![1; 5], 2);
    assert_eq!(
        hits,
        vec!["functions/f0".to_string(), "functions/f1".to_string()]
    );
}

#[test]
fn no_more_questions_start_from_a_concept_than_were_asked_for() {
    let concepts: Vec<Concept> = ["a", "b", "c", "d"]
        .iter()
        .map(|n| concept(&format!("functions/{n}"), ConceptKind::Function, Some("token handling")))
        .collect();
    let ids: Vec<String> = concepts.iter().map(|c| c.id.clone()).collect();
    let hits = vec![ids[1..].to_vec(), Vec::new(), Vec::new(), ids.clone()];
    let jobs = link_jobs(&concepts, &hits, 2);
    let pairs: Vec<(usize, usize)> = jobs.iter().map(|j| (j.from, j.to)).collect();
    assert_eq!(pairs, vec![(0, 1), (0, 2), (3, 0), (3, 1)]);
    assert!(link_jobs(&concepts, &hits, 0).is_empty());
}

#[test]
fn hits_that_are_linked_already_leave_room_for_others() {
    let mut concepts: Vec<Concept> = ["a", "b", "c", "d"]
        .iter()
        .map(|n| concept(&format!("functions/{n}"), ConceptKind::Function, Some("token handling")))
        .collect();
    concepts[0].relationships.push(Relationship::new(
        RelationKind::Calls,
        "functions/b",
        "b",
    ));
    let ids: Vec<String> = concepts.iter().map(|c| c.id.clone()).collect();
    let hits = vec![ids.clone(), Vec::new(), Vec::new(), Vec::new()];
    let jobs = link_jobs(&concepts, &hits, 1);
    let pairs: Vec<(usize, usize)> = jobs.iter().map(|j| (j.from, j.to)).collect();
    assert_eq!(pairs, vec![(0, 2)]);
}

#[test]
fn texts_are_placed_at_an_address_of_their_own() {
    assert_eq!(embeddings_url("http://localhost:11434/v1/"), "http://localhost:11434/v1/embeddings");
    assert_eq!(embeddings_url("http://localhost:11434/v1"), "http://localhost:11434/v1/embeddings");
}
