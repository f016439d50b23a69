use okf::data::{parse_json, Data};
use okf::extraction::{CallCandidate, CallEntry, CallSite};
use okf::model::Language;
use okf::probing::{
    crate_name_from_path, probe_targets, record_probe, warmup_targets, CrateWarmup, ProbeOutcome,
    ProbeSkips,
};
use okf::protocol::{
    executable_candidates, language_id, parse_definition_locations, parse_number,
    message_header, parse_server_version, read_header, read_reply, server_command, Header, Progress, Reply,
};
use okf::uri::{can_decode, path_to_uri, percent_decode, percent_encode, relativize, uri_to_path};
use std::time::Duration;

fn json(text: &str) -> Data {
    parse_json(text).unwrap()
}

#[test]
fn server_command_covers_the_verified_languages() {
    assert_eq!(
        server_command(Language::Rust),
        Some(("rust-analyzer", vec![]))
    );
    assert_eq!(
        server_command(Language::Python),
        Some(("pyright-langserver", vec!["--stdio"]))
    );
    assert_eq!(server_command(Language::Php), None);
}

#[test]
fn is_available_is_false_for_a_language_with_no_server_config() {
    assert!(server_command(Language::Php).is_none());
}

#[test]
fn parse_server_version_reads_server_info_version() {
    let result = json(
        r#"{ "capabilities": {}, "serverInfo": { "name": "rust-analyzer", "version": "1.88.0" } }"#,
    );
    assert_eq!(parse_server_version(&result), Some("1.88.0".to_string()));
}

#[test]
fn parse_server_version_is_none_without_server_info() {
    let result = json(r#"{ "capabilities": {} }"#);
    assert_eq!(parse_server_version(&result), None);
}

#[test]
fn parse_server_version_is_none_when_version_is_missing_or_not_a_string() {
    let no_version = json(r#"{ "serverInfo": { "name": "rust-analyzer" } }"#);
    assert_eq!(parse_server_version(&no_version), None);

    let wrong_type = json(r#"{ "serverInfo": { "name": "x", "version": 188 } }"#);
    assert_eq!(parse_server_version(&wrong_type), None);
}

#[test]
fn parse_definition_locations_handles_null_single_and_array_shapes() {
    assert!(parse_definition_locations(&Data::Null).is_empty());

    let single = json(
        r#"{ "uri": "file:///a/b.rs",
             "range": { "start": { "line": 4, "character": 0 }, "end": { "line": 4, "character": 3 } } }"#,
    );
    assert_eq!(
        parse_definition_locations(&single),
        vec![("file:///a/b.rs".to_string(), 4)]
    );

    let array = json(
        r#"[
            { "uri": "file:///a/b.rs",
              "range": { "start": { "line": 4, "character": 0 }, "end": { "line": 4, "character": 3 } } },
            { "targetUri": "file:///a/c.rs",
              "targetRange": { "start": { "line": 9, "character": 2 }, "end": { "line": 9, "character": 5 } } }
        ]"#,
    );
    assert_eq!(
        parse_definition_locations(&array),
        vec![
            ("file:///a/b.rs".to_string(), 4),
            ("file:///a/c.rs".to_string(), 9),
        ]
    );
}

#[test]
fn relativize_strips_the_project_root_prefix() {
    let root = "/a/b";
    let uri = path_to_uri("/a/b/src/lib.rs");
    assert_eq!(relativize(root, &uri), "src/lib.rs");
}

#[test]
fn relativize_round_trips_paths_with_spaces_and_non_ascii() {
    let root = "/a/My Projects/caf\u{e9}";
    let uri = path_to_uri(&format!("{root}/src/lib.rs"));
    assert!(
        uri.contains("%20") || !uri.contains(' '),
        "the space in the path must be percent-encoded in the URI: {uri}"
    );
    assert_eq!(relativize(root, &uri), "src/lib.rs");
}

#[test]
fn percent_encode_and_decode_round_trip_special_characters() {
    let original = "/a/My Projects/caf\u{e9}/src/lib.rs";
    let encoded = percent_encode(original);
    assert!(encoded.contains("%20"));
    assert_eq!(percent_decode(&encoded), original);
}

#[test]
fn a_path_elsewhere_stays_whole() {
    let uri = path_to_uri("/c/src/lib.rs");
    assert_eq!(uri, "file:///c/src/lib.rs");
    assert_eq!(relativize("/a/b", &uri), "/c/src/lib.rs");
    assert_eq!(uri_to_path(&uri), "/c/src/lib.rs");
}

#[test]
fn escapes_are_of_bytes() {
    assert_eq!(percent_encode("caf\u{e9}?"), "caf%C3%A9%3F");
    assert_eq!(percent_decode("a%2Fb%zz%4"), "a/b%zz%4");
    assert_eq!(percent_decode("%FF"), "\u{fffd}");
    assert!(can_decode("%C3%A9"));
    assert!(!can_decode("%a\u{e9}"));
}

#[test]
fn wait_for_response_returns_the_matching_message_and_skips_others() {
    let messages = [
        json(r#"{ "jsonrpc": "2.0", "id": 99, "result": "not mine" }"#),
        json(r#"{ "jsonrpc": "2.0", "id": 1, "result": "mine" }"#),
    ];
    let mut answers = Vec::new();
    for message in &messages {
        match read_reply(message, 1) {
            Reply::Unrelated => {}
            Reply::Refused(error) => panic!("{error:?}"),
            Reply::Answer(result) => answers.push(result),
        }
    }
    assert_eq!(answers, vec![Data::Text("mine".to_string())]);
}

#[test]
fn wait_for_response_surfaces_a_json_rpc_error() {
    let message =
        json(r#"{ "jsonrpc": "2.0", "id": 1, "error": { "code": -1, "message": "boom" } }"#);
    match read_reply(&message, 1) {
        Reply::Refused(error) => {
            assert_eq!(error.get("message").unwrap().as_text(), Some("boom"))
        }
        other => panic!("{other:?}"),
    }
}

#[test]
fn an_answer_without_a_result_is_null() {
    match read_reply(&json(r#"{ "id": 3 }"#), 3) {
        Reply::Answer(result) => assert_eq!(result, Data::Null),
        other => panic!("{other:?}"),
    }
    assert!(matches!(
        read_reply(&json(r#"{ "method": "$/progress" }"#), 3),
        Reply::Unrelated
    ));
}

#[test]
fn observe_progress_message_acks_workdoneprogress_create_and_tracks_no_token_yet() {
    let mut progress = Progress::new();
    let message = json(
        r#"{ "jsonrpc": "2.0", "id": 7,
             "method": "window/workDoneProgress/create",
             "params": { "token": "rustAnalyzer/Indexing" } }"#,
    );
    let ack = progress.observe_progress_message(&message).unwrap();
    assert_eq!(ack.get("jsonrpc").unwrap().as_text(), Some("2.0"));
    assert_eq!(ack.get("id"), message.get("id"));
    assert_eq!(ack.get("result"), Some(&Data::Null));
    assert!(
        progress.seen_any,
        "a create request itself counts as progress activity"
    );
    assert!(
        progress.active.is_empty(),
        "no token is active until a `begin` progress arrives"
    );
}

fn report(token: &str, kind: &str) -> Data {
    json(&format!(
        r#"{{ "jsonrpc": "2.0", "method": "$/progress",
              "params": {{ "token": {token}, "value": {{ "kind": "{kind}" }} }} }}"#
    ))
}

#[test]
fn observe_progress_message_tracks_the_begin_report_end_lifecycle() {
    let mut progress = Progress::new();
    let token = "\"rustAnalyzer/Indexing\"";

    assert!(progress
        .observe_progress_message(&report(token, "begin"))
        .is_none());
    assert!(progress.seen_any);
    assert!(progress.active.contains(&"rustAnalyzer/Indexing".to_string()));

    progress.observe_progress_message(&report(token, "report"));
    assert!(
        progress.active.contains(&"rustAnalyzer/Indexing".to_string()),
        "still active after a `report`"
    );

    progress.observe_progress_message(&report(token, "end"));
    assert!(progress.active.is_empty(), "`end` retires the token");
}

#[test]
fn observe_progress_message_tracks_multiple_overlapping_tokens_independently() {
    let mut progress = Progress::new();

    progress.observe_progress_message(&report("\"roots-scanned\"", "begin"));
    progress.observe_progress_message(&report("\"cachePriming\"", "begin"));
    assert_eq!(progress.active.len(), 2);

    progress.observe_progress_message(&report("\"roots-scanned\"", "end"));
    assert_eq!(
        progress.active.len(),
        1,
        "`cachePriming` is still active after `roots-scanned` ends"
    );
    assert!(!progress.ready_when_quiet());

    progress.observe_progress_message(&report("\"cachePriming\"", "end"));
    assert!(progress.active.is_empty());
    assert!(progress.ready_when_quiet());
}

#[test]
fn observe_progress_message_ignores_unrelated_notifications() {
    let mut progress = Progress::new();
    let unrelated = json(
        r#"{ "jsonrpc": "2.0", "method": "textDocument/publishDiagnostics",
             "params": { "uri": "file:///a.rs", "diagnostics": [] } }"#,
    );
    assert!(progress.observe_progress_message(&unrelated).is_none());
    assert!(
        !progress.seen_any,
        "an unrelated notification isn't progress activity"
    );
    assert!(progress.active.is_empty());
}

#[test]
fn observe_progress_message_accepts_a_numeric_token() {
    let mut progress = Progress::new();
    progress.observe_progress_message(&report("42", "begin"));
    assert!(progress.active.contains(&"42".to_string()));
}

#[test]
fn a_server_that_never_reported_is_ready_once_it_is_quiet() {
    assert!(Progress::new().ready_when_quiet());
}

#[test]
fn a_header_gives_the_length_of_the_body() {
    let first = read_header(None, Some("Content-Type: x\r\n"));
    assert_eq!(first, Header::More(None));
    let second = read_header(None, Some("Content-Length: 42\r\n"));
    assert_eq!(second, Header::More(Some(42)));
    assert_eq!(read_header(Some(42), Some("\r\n")), Header::Body(42));
    assert_eq!(read_header(None, Some("\r\n")), Header::MissingLength);
    assert_eq!(read_header(Some(42), None), Header::Closed);
    assert_eq!(parse_number("+7"), Some(7));
    assert_eq!(parse_number("7x"), None);
    assert_eq!(parse_number(""), None);
    assert_eq!(parse_number("99999999999999999999999"), None);
}

#[test]
fn executables_have_endings_on_one_system_only() {
    assert_eq!(
        executable_candidates("gopls", false, &Some(".EXE".to_string())),
        vec!["gopls".to_string()]
    );
    assert_eq!(
        executable_candidates("gopls", true, &Some(".COM;.EXE".to_string())),
        vec![
            "gopls".to_string(),
            "gopls.COM".to_string(),
            "gopls.EXE".to_string()
        ]
    );
}

#[test]
fn languages_have_ids() {
    assert_eq!(language_id(Language::Rust), "rust");
    assert_eq!(language_id(Language::TypeScript), "typescript");
}

fn candidate(caller_id: &str, path: &str) -> CallEntry {
    candidate_lang(caller_id, path, Language::Rust)
}

fn candidate_lang(caller_id: &str, path: &str, language: Language) -> CallEntry {
    CallEntry {
        call: CallCandidate {
            caller_id: caller_id.to_string(),
            callee_name: "get".to_string(),
            call_site: CallSite {
                line: 0,
                character: 0,
            },
        },
        language,
        relative_path: path.to_string(),
    }
}

#[test]
fn warmup_targets_only_selects_the_named_crate() {
    let a = candidate("functions/a", "crates/okf-graph/src/lib.rs");
    let b = candidate("functions/b", "crates/okf-lsp/src/lib.rs");
    let c = candidate("functions/c", "crates/okf-graph/src/other.rs");
    let ambiguous = vec![&a, &b, &c];
    let warmup = CrateWarmup {
        crate_name: "okf-graph".to_string(),
        queries: 10,
    };

    let targets = warmup_targets(&ambiguous, Language::Rust, &warmup);

    assert_eq!(targets.len(), 2);
    assert!(targets
        .iter()
        .all(|entry| entry.relative_path.starts_with("crates/okf-graph/")));
}

#[test]
fn warmup_targets_respects_the_query_budget() {
    let a = candidate("functions/a", "crates/okf-graph/src/a.rs");
    let b = candidate("functions/b", "crates/okf-graph/src/b.rs");
    let ambiguous = vec![&a, &b];
    let warmup = CrateWarmup {
        crate_name: "okf-graph".to_string(),
        queries: 1,
    };

    let targets = warmup_targets(&ambiguous, Language::Rust, &warmup);

    assert_eq!(targets.len(), 1);
}

#[test]
fn warmup_targets_does_not_match_a_crate_name_that_is_only_a_prefix() {
    let a = candidate("functions/a", "crates/okf-graph-extra/src/lib.rs");
    let ambiguous = vec![&a];
    let warmup = CrateWarmup {
        crate_name: "okf-graph".to_string(),
        queries: 10,
    };

    let targets = warmup_targets(&ambiguous, Language::Rust, &warmup);

    assert!(targets.is_empty());
}

#[test]
fn warmup_targets_does_not_fire_through_a_different_languages_client() {
    let rust_file = candidate_lang("functions/a", "crates/okf-graph/src/lib.rs", Language::Rust);
    let python_file = candidate_lang(
        "functions/b",
        "crates/okf-graph/src/other.py",
        Language::Python,
    );
    let ambiguous = vec![&python_file, &rust_file];
    let warmup = CrateWarmup {
        crate_name: "okf-graph".to_string(),
        queries: 10,
    };

    let rust_targets = warmup_targets(&ambiguous, Language::Rust, &warmup);
    assert_eq!(rust_targets.len(), 1);
    assert_eq!(rust_targets[0].call.caller_id, "functions/a");

    let python_targets = warmup_targets(&ambiguous, Language::Python, &warmup);
    assert_eq!(python_targets.len(), 1);
    assert_eq!(python_targets[0].call.caller_id, "functions/b");
}

#[test]
fn crate_name_from_path_extracts_the_crate_directory_name() {
    assert_eq!(
        crate_name_from_path("crates/okf-graph/src/lib.rs"),
        Some("okf-graph".to_string())
    );
    assert_eq!(
        crate_name_from_path("crates/okf-graph/src/nested/mod.rs"),
        Some("okf-graph".to_string())
    );
}

#[test]
fn crate_name_from_path_is_none_outside_crates() {
    assert_eq!(crate_name_from_path("src/lib.rs"), None);
    assert_eq!(crate_name_from_path("crates/"), None);
    assert_eq!(crate_name_from_path("crates"), None);
}

#[test]
fn probe_targets_picks_one_entry_per_distinct_crate_at_its_first_appearance() {
    let a1 = candidate("functions/a1", "crates/okf-graph/src/a.rs");
    let a2 = candidate("functions/a2", "crates/okf-graph/src/b.rs");
    let b1 = candidate("functions/b1", "crates/okf-core/src/lib.rs");
    let ambiguous = vec![&a1, &a2, &b1];

    let targets = probe_targets(&ambiguous);

    assert_eq!(targets.len(), 2);
    assert_eq!(targets[0].0, "okf-graph");
    assert_eq!(targets[0].1.call.caller_id, "functions/a1");
    assert_eq!(targets[1].0, "okf-core");
    assert_eq!(targets[1].1.call.caller_id, "functions/b1");
}

#[test]
fn probe_targets_skips_entries_outside_crates() {
    let outside = candidate("functions/c", "src/lib.rs");
    let ambiguous = vec![&outside];

    let targets = probe_targets(&ambiguous);

    assert!(targets.is_empty());
}

#[test]
fn probes_that_came_to_nothing_are_counted() {
    let mut results = Vec::new();
    let mut skips = ProbeSkips::default();
    record_probe(&mut results, &mut skips, "a".to_string(), ProbeOutcome::NoServer);
    record_probe(&mut results, &mut skips, "b".to_string(), ProbeOutcome::Unopened);
    record_probe(
        &mut results,
        &mut skips,
        "c".to_string(),
        ProbeOutcome::Probed {
            cold: Some(0),
            cold_elapsed: Duration::from_millis(5),
            warm: Some(2),
            warm_elapsed: Duration::from_millis(1),
        },
    );
    record_probe(
        &mut results,
        &mut skips,
        "d".to_string(),
        ProbeOutcome::Probed {
            cold: None,
            cold_elapsed: Duration::from_millis(5),
            warm: Some(2),
            warm_elapsed: Duration::from_millis(1),
        },
    );
    assert_eq!(skips.no_server, 1);
    assert_eq!(skips.total(), skips.no_server + skips.other);
    let probed = results.iter().find(|r| r.crate_name == "c").unwrap();
    assert!(probed.cold_empty);
    assert!(!probed.warm_empty);
    assert_eq!(probed.cold_elapsed, Duration::from_millis(5));
}

#[test]
fn a_header_is_read_as_it_was_written() {
    let header = message_header(1024);
    assert_eq!(header, "Content-Length: 1024\r\n\r\n");
    let mut lines = header.split_inclusive('\n');
    assert_eq!(read_header(None, lines.next()), Header::More(Some(1024)));
    assert_eq!(read_header(Some(1024), lines.next()), Header::Body(1024));
    assert_eq!(lines.next(), None);
}
