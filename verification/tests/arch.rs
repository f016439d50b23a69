use okf::arch::{domains, layers, package_dependencies, Domain, PackageLayer};
use okf::communities::{communities, greedy_modularity_communities, Community, PackageLink};
use okf::features::{detect_features, FeatureKind};
use okf::graph::Graph;
use okf::model::{Concept, ConceptKind, Language, Location, RelationKind, Relationship};
use okf::patterns::{detect_patterns, PatternKind};

fn concept(id: &str, kind: ConceptKind, file: &str) -> Concept {
    Concept {
        id: id.to_string(),
        kind,
        language: Language::Rust,
        name: id.rsplit('/').next().unwrap().to_string(),
        qualified_name: id.to_string(),
        description: None,
        location: Location {
            file: file.to_string(),
            start_line: 1,
            end_line: 1,
        },
        signature: None,
        tags: Vec::new(),
        is_public: true,
        generated_at: None,
        relationships: Vec::new(),
    }
}

fn member_of(concept: &mut Concept, package_id: &str) {
    concept.relationships.push(Relationship::new(
        RelationKind::MemberOf,
        package_id,
        package_id,
    ));
}

fn calls(concept: &mut Concept, target_id: &str) {
    concept
        .relationships
        .push(Relationship::new(RelationKind::Calls, target_id, target_id));
}

fn two_layer_project() -> Vec<Concept> {
    let core_pkg = concept("packages/core", ConceptKind::Package, "core/Cargo.toml");
    let app_pkg = concept("packages/app", ConceptKind::Package, "app/Cargo.toml");
    let mut core_mod = concept("modules/core", ConceptKind::Module, "core/src/lib.rs");
    member_of(&mut core_mod, "packages/core");
    let mut app_mod = concept("modules/app", ConceptKind::Module, "app/src/lib.rs");
    member_of(&mut app_mod, "packages/app");

    let mut caller = concept("functions/app_fn", ConceptKind::Function, "app/src/lib.rs");
    calls(&mut caller, "functions/core_fn");
    let callee = concept(
        "functions/core_fn",
        ConceptKind::Function,
        "core/src/lib.rs",
    );

    vec![core_pkg, app_pkg, core_mod, app_mod, caller, callee]
}

#[test]
fn layers_a_simple_two_package_dependency() {
    let concepts = two_layer_project();
    let graph = Graph::build(&concepts);
    let mut result = layers(&graph);
    result.sort_by(|a, b| a.package_id.cmp(&b.package_id));

    assert_eq!(
        result,
        vec![
            PackageLayer {
                package_id: "packages/app".to_string(),
                layer: 1
            },
            PackageLayer {
                package_id: "packages/core".to_string(),
                layer: 0
            },
        ]
    );
}

#[test]
fn layers_collapses_a_package_dependency_cycle_into_one_layer() {
    let a_pkg = concept("packages/a", ConceptKind::Package, "a/Cargo.toml");
    let b_pkg = concept("packages/b", ConceptKind::Package, "b/Cargo.toml");
    let mut a_mod = concept("modules/a", ConceptKind::Module, "a/src/lib.rs");
    member_of(&mut a_mod, "packages/a");
    let mut b_mod = concept("modules/b", ConceptKind::Module, "b/src/lib.rs");
    member_of(&mut b_mod, "packages/b");

    let mut a_fn = concept("functions/a_fn", ConceptKind::Function, "a/src/lib.rs");
    calls(&mut a_fn, "functions/b_fn");
    let mut b_fn = concept("functions/b_fn", ConceptKind::Function, "b/src/lib.rs");
    calls(&mut b_fn, "functions/a_fn");

    let concepts = vec![a_pkg, b_pkg, a_mod, b_mod, a_fn, b_fn];
    let graph = Graph::build(&concepts);
    let result = layers(&graph);

    assert!(
        result.iter().all(|l| l.layer == 0),
        "mutually dependent packages should share one layer: {result:?}"
    );
}

#[test]
fn layers_reports_isolated_packages_at_layer_zero_and_is_empty_without_any_package() {
    let solo = concept("packages/solo", ConceptKind::Package, "solo/Cargo.toml");
    let concepts = vec![solo];
    let graph = Graph::build(&concepts);
    assert_eq!(
        layers(&graph),
        vec![PackageLayer {
            package_id: "packages/solo".to_string(),
            layer: 0
        }]
    );

    let no_packages: Vec<Concept> = Vec::new();
    let empty_graph = Graph::build(&no_packages);
    assert!(layers(&empty_graph).is_empty());
}

#[test]
fn domains_groups_dependent_packages_and_keeps_isolated_ones_as_singletons() {
    let concepts = two_layer_project();
    let graph = Graph::build(&concepts);
    let result = domains(&graph);
    assert_eq!(
        result,
        vec![Domain {
            package_ids: vec!["packages/app".to_string(), "packages/core".to_string()]
        }]
    );

    let solo = concept("packages/solo", ConceptKind::Package, "solo/Cargo.toml");
    let solo_concepts = vec![solo];
    let solo_graph = Graph::build(&solo_concepts);
    assert_eq!(
        domains(&solo_graph),
        vec![Domain {
            package_ids: vec!["packages/solo".to_string()]
        }]
    );
}

#[test]
fn domains_reports_two_unrelated_packages_as_separate_domains() {
    let a_pkg = concept("packages/a", ConceptKind::Package, "a/Cargo.toml");
    let b_pkg = concept("packages/b", ConceptKind::Package, "b/Cargo.toml");
    let concepts = vec![a_pkg, b_pkg];
    let graph = Graph::build(&concepts);

    let result = domains(&graph);
    assert_eq!(
        result,
        vec![
            Domain {
                package_ids: vec!["packages/a".to_string()]
            },
            Domain {
                package_ids: vec!["packages/b".to_string()]
            },
        ]
    );
}

fn edge(weights: &mut Vec<PackageLink>, a: &str, b: &str, weight: usize) {
    let (first, second) = if a <= b { (a, b) } else { (b, a) };
    weights.push(PackageLink {
        first: first.to_string(),
        second: second.to_string(),
        weight,
    });
}

#[test]
fn greedy_modularity_communities_returns_all_singletons_when_there_are_no_edges() {
    let packages = vec!["packages/a".to_string(), "packages/b".to_string()];
    let result = greedy_modularity_communities(&packages, &Vec::new());
    assert_eq!(
        result,
        vec![
            Community {
                package_ids: vec!["packages/a".to_string()]
            },
            Community {
                package_ids: vec!["packages/b".to_string()]
            },
        ]
    );
}

#[test]
fn greedy_modularity_communities_merges_a_single_connected_pair() {
    let packages = vec!["packages/app".to_string(), "packages/core".to_string()];
    let mut weights = Vec::new();
    edge(&mut weights, "packages/app", "packages/core", 1);

    let result = greedy_modularity_communities(&packages, &weights);
    assert_eq!(
        result,
        vec![Community {
            package_ids: vec!["packages/app".to_string(), "packages/core".to_string()]
        }]
    );
}

#[test]
fn greedy_modularity_communities_splits_two_dense_clusters_joined_by_a_thin_bridge() {
    let packages: Vec<String> = ["a1", "a2", "a3", "b1", "b2", "b3"]
        .iter()
        .map(|s| format!("packages/{s}"))
        .collect();
    let mut weights = Vec::new();
    for (x, y) in [("a1", "a2"), ("a1", "a3"), ("a2", "a3")] {
        edge(
            &mut weights,
            &format!("packages/{x}"),
            &format!("packages/{y}"),
            10,
        );
    }
    for (x, y) in [("b1", "b2"), ("b1", "b3"), ("b2", "b3")] {
        edge(
            &mut weights,
            &format!("packages/{x}"),
            &format!("packages/{y}"),
            10,
        );
    }
    edge(&mut weights, "packages/a1", "packages/b1", 1);

    let result = greedy_modularity_communities(&packages, &weights);
    assert_eq!(
        result,
        vec![
            Community {
                package_ids: vec![
                    "packages/a1".to_string(),
                    "packages/a2".to_string(),
                    "packages/a3".to_string(),
                ]
            },
            Community {
                package_ids: vec![
                    "packages/b1".to_string(),
                    "packages/b2".to_string(),
                    "packages/b3".to_string(),
                ]
            },
        ],
        "the two dense triangles must stay separate communities despite the bridge edge"
    );
}

#[test]
fn communities_reports_all_singletons_without_any_package_dependency() {
    let a_pkg = concept("packages/a", ConceptKind::Package, "a/Cargo.toml");
    let b_pkg = concept("packages/b", ConceptKind::Package, "b/Cargo.toml");
    let concepts = vec![a_pkg, b_pkg];
    let graph = Graph::build(&concepts);

    assert_eq!(
        communities(&graph),
        vec![
            Community {
                package_ids: vec!["packages/a".to_string()]
            },
            Community {
                package_ids: vec!["packages/b".to_string()]
            },
        ]
    );
}

#[test]
fn communities_is_empty_without_any_package() {
    let no_packages: Vec<Concept> = Vec::new();
    let graph = Graph::build(&no_packages);
    assert!(communities(&graph).is_empty());
}

#[test]
fn communities_is_deterministic_across_repeated_runs() {
    let concepts = two_layer_project();
    let graph = Graph::build(&concepts);

    let first = communities(&graph);
    for _ in 0..10 {
        assert_eq!(communities(&graph), first);
    }
}

fn type_concept(path: &str, kind: ConceptKind) -> Concept {
    let id = format!("{}/{path}", kind.bundle_dir());
    Concept {
        id,
        kind,
        language: Language::Rust,
        name: path.rsplit('/').next().unwrap().to_string(),
        qualified_name: path.replace('/', "."),
        description: None,
        location: Location {
            file: "src/lib.rs".to_string(),
            start_line: 1,
            end_line: 1,
        },
        signature: None,
        tags: Vec::new(),
        is_public: true,
        generated_at: None,
        relationships: Vec::new(),
    }
}

fn method(owner_path: &str, name: &str) -> Concept {
    Concept {
        name: name.to_string(),
        ..type_concept(&format!("{owner_path}/{name}"), ConceptKind::Method)
    }
}

#[test]
fn detects_a_builder() {
    let builder = type_concept("RequestBuilder", ConceptKind::Struct);
    let build_method = method("RequestBuilder", "build");
    let unrelated = type_concept("Plain", ConceptKind::Struct);

    let concepts = vec![builder, build_method, unrelated];
    let found = detect_patterns(&concepts);

    assert_eq!(found.len(), 1);
    assert_eq!(found[0].kind, PatternKind::Builder);
    assert_eq!(found[0].concept_id, "classes/RequestBuilder");
}

#[test]
fn a_builder_named_type_without_a_build_method_is_not_flagged() {
    let builder = type_concept("RequestBuilder", ConceptKind::Struct);
    let other_method = method("RequestBuilder", "with_header");

    let concepts = vec![builder, other_method];
    assert!(detect_patterns(&concepts).is_empty());
}

#[test]
fn detects_a_singleton_by_get_instance() {
    let logger = type_concept("Logger", ConceptKind::Class);
    let accessor = method("Logger", "get_instance");

    let concepts = vec![logger, accessor];
    let found = detect_patterns(&concepts);

    assert_eq!(found.len(), 1);
    assert_eq!(found[0].kind, PatternKind::Singleton);
    assert_eq!(found[0].concept_id, "classes/Logger");
}

#[test]
fn detects_a_factory_by_name_prefix_and_by_owning_type_suffix() {
    let free_fn = type_concept("create_user", ConceptKind::Function);
    let factory_type = type_concept("AuthFactory", ConceptKind::Class);
    let factory_method = method("AuthFactory", "build_token");

    let concepts = vec![free_fn, factory_type, factory_method];
    let found = detect_patterns(&concepts);

    assert_eq!(found.len(), 2);
    assert!(found.iter().all(|p| p.kind == PatternKind::Factory));
    let ids: Vec<&str> = found.iter().map(|p| p.concept_id.as_str()).collect();
    assert!(ids.contains(&"functions/create_user"));
    assert!(ids.contains(&"functions/AuthFactory/build_token"));
}

#[test]
fn a_new_prefixed_constructor_is_not_flagged_as_a_factory() {
    let ctor = method("Widget", "new");
    assert!(detect_patterns(&[ctor]).is_empty());
}

#[test]
fn detects_a_visitor_by_two_or_more_visit_methods() {
    let visitor = type_concept("NodeVisitor", ConceptKind::Interface);
    let visit_a = method("NodeVisitor", "visit_binary");
    let visit_b = method("NodeVisitor", "visit_literal");

    let concepts = vec![visitor, visit_a, visit_b];
    let found = detect_patterns(&concepts);

    assert_eq!(found.len(), 1);
    assert_eq!(found[0].kind, PatternKind::Visitor);
    assert_eq!(found[0].concept_id, "interfaces/NodeVisitor");
}

#[test]
fn a_single_visit_method_is_not_enough_to_flag_a_visitor() {
    let visitor = type_concept("NodeVisitor", ConceptKind::Interface);
    let visit_a = method("NodeVisitor", "visit_binary");

    let concepts = vec![visitor, visit_a];
    assert!(detect_patterns(&concepts).is_empty());
}

#[test]
fn patterns_results_are_sorted_by_kind_then_id() {
    let builder = type_concept("FooBuilder", ConceptKind::Struct);
    let build_method = method("FooBuilder", "build");
    let logger = type_concept("Logger", ConceptKind::Class);
    let accessor = method("Logger", "instance");

    let concepts = vec![builder, build_method, logger, accessor];
    let found = detect_patterns(&concepts);

    assert_eq!(found.len(), 2);
    assert_eq!(found[0].kind, PatternKind::Builder);
    assert_eq!(found[1].kind, PatternKind::Singleton);
}

fn visible_type(path: &str, kind: ConceptKind, is_public: bool) -> Concept {
    let id = format!("{}/{path}", kind.bundle_dir());
    Concept {
        id,
        kind,
        language: Language::Rust,
        name: path.rsplit('/').next().unwrap().to_string(),
        qualified_name: path.replace('/', "."),
        description: None,
        location: Location {
            file: "src/lib.rs".to_string(),
            start_line: 1,
            end_line: 1,
        },
        signature: None,
        tags: Vec::new(),
        is_public,
        generated_at: None,
        relationships: Vec::new(),
    }
}

fn visible_method(owner_path: &str, name: &str, is_public: bool) -> Concept {
    Concept {
        name: name.to_string(),
        ..visible_type(&format!("{owner_path}/{name}"), ConceptKind::Method, is_public)
    }
}

#[test]
fn detects_a_rest_endpoint_via_public_method_on_a_controller() {
    let controller = visible_type("UserController", ConceptKind::Class, true);
    let public_action = visible_method("UserController", "get_user", true);
    let private_helper = visible_method("UserController", "format_response", false);

    let concepts = vec![controller, public_action, private_helper];
    let found = detect_features(&concepts);

    assert_eq!(found.len(), 1);
    assert_eq!(found[0].kind, FeatureKind::RestEndpoint);
    assert_eq!(found[0].concept_id, "functions/UserController/get_user");
}

#[test]
fn a_non_controller_types_methods_are_not_flagged_as_endpoints() {
    let plain = visible_type("UserService", ConceptKind::Class, true);
    let public_method = visible_method("UserService", "get_user", true);
    let concepts = vec![plain, public_method];
    assert!(detect_features(&concepts).is_empty());
}

#[test]
fn detects_database_models_by_suffix() {
    let model = visible_type("User", ConceptKind::Struct, true);
    let user_model = visible_type("UserModel", ConceptKind::Struct, true);
    let user_entity = visible_type("UserEntity", ConceptKind::Class, true);
    let user_record = visible_type("UserRecord", ConceptKind::Struct, true);

    let concepts = vec![model, user_model, user_entity, user_record];
    let found = detect_features(&concepts);

    assert_eq!(found.len(), 3);
    assert!(found.iter().all(|f| f.kind == FeatureKind::DatabaseModel));
    let ids: Vec<&str> = found.iter().map(|f| f.concept_id.as_str()).collect();
    assert!(ids.contains(&"classes/UserModel"));
    assert!(ids.contains(&"classes/UserEntity"));
    assert!(ids.contains(&"classes/UserRecord"));
}

#[test]
fn detects_event_emitters_subscribers_and_handlers() {
    let emitter = visible_type("emit_user_created", ConceptKind::Function, true);
    let subscriber = visible_type("on_user_created", ConceptKind::Function, true);
    let handler = visible_type("payment_event", ConceptKind::Function, true);
    let unrelated = visible_type("get_user", ConceptKind::Function, true);

    let concepts = vec![emitter, subscriber, handler, unrelated];
    let found = detect_features(&concepts);

    assert_eq!(found.len(), 3);
    assert!(found.iter().all(|f| f.kind == FeatureKind::EventFlow));
    let ids: Vec<&str> = found.iter().map(|f| f.concept_id.as_str()).collect();
    assert!(ids.contains(&"functions/emit_user_created"));
    assert!(ids.contains(&"functions/on_user_created"));
    assert!(ids.contains(&"functions/payment_event"));
}

#[test]
fn features_results_are_sorted_by_kind_then_id() {
    let controller = visible_type("XController", ConceptKind::Class, true);
    let action = visible_method("XController", "list", true);
    let db_model = visible_type("XModel", ConceptKind::Struct, true);
    let event = visible_type("emit_x", ConceptKind::Function, true);

    let concepts = vec![controller, action, db_model, event];
    let found = detect_features(&concepts);

    assert_eq!(found.len(), 3);
    assert_eq!(found[0].kind, FeatureKind::RestEndpoint);
    assert_eq!(found[1].kind, FeatureKind::DatabaseModel);
    assert_eq!(found[2].kind, FeatureKind::EventFlow);
}

#[test]
fn dependencies_between_packages_come_in_order_and_once() {
    let mut concepts = two_layer_project();
    let mut again = concept("functions/app_more", ConceptKind::Function, "app/src/lib.rs");
    calls(&mut again, "functions/core_fn");
    concepts.push(again);
    let graph = Graph::build(&concepts);
    assert_eq!(
        package_dependencies(&graph),
        vec![("packages/app".to_string(), "packages/core".to_string())]
    );
}

#[test]
fn a_chain_of_packages_has_a_layer_each() {
    let mut concepts = Vec::new();
    for name in ["a", "b", "c"] {
        concepts.push(concept(
            &format!("packages/{name}"),
            ConceptKind::Package,
            &format!("{name}/Cargo.toml"),
        ));
        let mut module = concept(
            &format!("modules/{name}"),
            ConceptKind::Module,
            &format!("{name}/src/lib.rs"),
        );
        member_of(&mut module, &format!("packages/{name}"));
        concepts.push(module);
    }
    let mut a = concept("functions/a", ConceptKind::Function, "a/src/lib.rs");
    calls(&mut a, "functions/b");
    let mut b = concept("functions/b", ConceptKind::Function, "b/src/lib.rs");
    calls(&mut b, "functions/c");
    let c = concept("functions/c", ConceptKind::Function, "c/src/lib.rs");
    concepts.push(a);
    concepts.push(b);
    concepts.push(c);
    let graph = Graph::build(&concepts);
    let layer_of = |id: &str| {
        layers(&graph)
            .iter()
            .find(|l| l.package_id == id)
            .unwrap()
            .layer
    };
    assert_eq!(layer_of("packages/c"), 0);
    assert_eq!(layer_of("packages/b"), 1);
    assert_eq!(layer_of("packages/a"), 2);
    assert_eq!(domains(&graph).len(), 1);
}

#[test]
fn found_kinds_have_names() {
    assert_eq!(FeatureKind::RestEndpoint.as_str(), "RestEndpoint");
    assert_eq!(FeatureKind::DatabaseModel.as_str(), "DatabaseModel");
    assert_eq!(FeatureKind::EventFlow.as_str(), "EventFlow");
    assert_eq!(PatternKind::Builder.as_str(), "Builder");
    assert_eq!(PatternKind::Singleton.as_str(), "Singleton");
    assert_eq!(PatternKind::Factory.as_str(), "Factory");
    assert_eq!(PatternKind::Visitor.as_str(), "Visitor");
}

#[test]
fn names_that_only_begin_like_visiting_make_no_visitor() {
    let concepts = vec![
        type_concept("Stats", ConceptKind::Interface),
        method("Stats", "visits"),
        method("Stats", "visitor_count"),
    ];
    assert!(detect_patterns(&concepts).is_empty());
}

#[test]
fn modules_that_depend_on_each_other_without_packages_have_no_communities() {
    let mut module_a = concept("modules/a", ConceptKind::Module, "a.rs");
    member_of(&mut module_a, "modules/x");
    let mut module_b = concept("modules/b", ConceptKind::Module, "b.rs");
    member_of(&mut module_b, "modules/y");
    let x = concept("modules/x", ConceptKind::Module, "x.rs");
    let y = concept("modules/y", ConceptKind::Module, "y.rs");
    let mut f = concept("functions/a/f", ConceptKind::Function, "a.rs");
    calls(&mut f, "functions/b/g");
    let g = concept("functions/b/g", ConceptKind::Function, "b.rs");
    let concepts = vec![module_a, module_b, x, y, f, g];
    let graph = Graph::build(&concepts);
    assert_eq!(package_dependencies(&graph).len(), 1);
    assert!(communities(&graph).is_empty());
}

#[test]
fn every_package_stands_in_one_layer_one_domain_and_one_community() {
    let mut concepts = two_layer_project();
    concepts.push(concept("packages/tool", ConceptKind::Package, "tool/Cargo.toml"));
    let graph = Graph::build(&concepts);
    let packages = vec!["packages/app", "packages/core", "packages/tool"];

    let mut layered: Vec<String> = layers(&graph).into_iter().map(|l| l.package_id).collect();
    layered.sort();
    assert_eq!(layered, packages);

    let mut in_domains: Vec<String> = domains(&graph)
        .into_iter()
        .flat_map(|d| d.package_ids)
        .collect();
    in_domains.sort();
    assert_eq!(in_domains, packages);

    let mut in_communities: Vec<String> = communities(&graph)
        .into_iter()
        .flat_map(|c| c.package_ids)
        .collect();
    in_communities.sort();
    assert_eq!(in_communities, packages);
}

#[test]
fn communities_do_not_depend_on_the_order_of_the_packages() {
    let mut weights = Vec::new();
    edge(&mut weights, "packages/a", "packages/b", 3);
    edge(&mut weights, "packages/b", "packages/c", 1);
    edge(&mut weights, "packages/c", "packages/d", 3);
    let forward: Vec<String> = ["a", "b", "c", "d"].iter().map(|s| format!("packages/{s}")).collect();
    let backward: Vec<String> = forward.iter().rev().cloned().collect();
    let merged = greedy_modularity_communities(&forward, &weights);
    assert_eq!(merged, greedy_modularity_communities(&backward, &weights));
    assert_eq!(
        merged,
        vec![
            Community {
                package_ids: vec!["packages/a".to_string(), "packages/b".to_string()]
            },
            Community {
                package_ids: vec!["packages/c".to_string(), "packages/d".to_string()]
            },
        ]
    );
    assert_eq!(
        greedy_modularity_communities(&backward, &Vec::new()),
        greedy_modularity_communities(&forward, &Vec::new())
    );
}

#[test]
fn links_without_weight_leave_every_package_alone_whatever_they_name() {
    let packages = vec!["packages/b".to_string(), "packages/a".to_string()];
    let mut weights = Vec::new();
    edge(&mut weights, "packages/a", "packages/unknown", 0);
    assert_eq!(
        greedy_modularity_communities(&packages, &weights),
        vec![
            Community {
                package_ids: vec!["packages/a".to_string()]
            },
            Community {
                package_ids: vec!["packages/b".to_string()]
            },
        ]
    );
}
