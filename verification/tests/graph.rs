use okf::graph::Graph;
use okf::model::{Concept, ConceptKind, Language, Location, RelationKind, Relationship};
use okf::scc::tarjan_scc;

fn concept(id: &str, kind: ConceptKind, file: &str, is_public: bool) -> Concept {
    Concept {
        id: id.to_string(),
        kind,
        language: Language::Rust,
        name: id.rsplit('/').next().unwrap().to_string(),
        qualified_name: id.to_string(),
        description: None,
        location: Location {
            file: file.to_string(),
            start_line: 1,
            end_line: 1,
        },
        signature: None,
        tags: Vec::new(),
        is_public,
        generated_at: None,
        relationships: Vec::new(),
    }
}

fn add_edge(concept: &mut Concept, kind: RelationKind, target_id: &str) {
    concept
        .relationships
        .push(Relationship::new(kind, target_id, target_id));
}

#[test]
fn callers_and_callees_and_ownership() {
    let module_a = concept("modules/a", ConceptKind::Module, "a.rs", true);
    let module_b = concept("modules/b", ConceptKind::Module, "b.rs", true);
    let mut f = concept("functions/a/f", ConceptKind::Function, "a.rs", true);
    let mut g = concept("functions/b/g", ConceptKind::Function, "b.rs", true);
    add_edge(&mut f, RelationKind::Calls, "functions/b/g");
    add_edge(&mut g, RelationKind::CalledBy, "functions/a/f");

    let concepts = vec![module_a, module_b, f, g];
    let graph = Graph::build(&concepts);

    assert_eq!(graph.callees("functions/a/f")[0].id, "functions/b/g");
    assert_eq!(graph.callers("functions/b/g")[0].id, "functions/a/f");
    assert_eq!(
        graph.owning_module("functions/a/f").unwrap().id,
        "modules/a"
    );
    assert_eq!(graph.members_of("modules/a")[0].id, "functions/a/f",);

    let deps = graph.module_dependencies();
    assert_eq!(deps, vec![("modules/a", "modules/b")]);
}

#[test]
fn owning_package_resolves_through_a_module_for_any_concept() {
    let package = concept("packages/demo", ConceptKind::Package, "Cargo.toml", true);
    let mut module = concept("modules/a", ConceptKind::Module, "a.rs", true);
    add_edge(&mut module, RelationKind::MemberOf, "packages/demo");
    let function = concept("functions/a/f", ConceptKind::Function, "a.rs", true);

    let concepts = vec![package, module, function];
    let graph = Graph::build(&concepts);

    assert_eq!(
        graph.owning_package("modules/a").unwrap().id,
        "packages/demo",
        "a Module resolves its own MemberOf relationship directly"
    );
    assert_eq!(
        graph.owning_package("functions/a/f").unwrap().id,
        "packages/demo",
        "a Function resolves transitively through its owning Module"
    );
}

#[test]
fn owning_package_is_none_without_a_detected_package() {
    let module = concept("modules/a", ConceptKind::Module, "a.rs", true);
    let concepts = vec![module];
    let graph = Graph::build(&concepts);
    assert!(graph.owning_package("modules/a").is_none());
}

#[test]
fn public_api_excludes_private_and_structural_kinds() {
    let module = concept("modules/a", ConceptKind::Module, "a.rs", true);
    let public_fn = concept("functions/a/pub_fn", ConceptKind::Function, "a.rs", true);
    let private_fn = concept("functions/a/priv_fn", ConceptKind::Function, "a.rs", false);

    let concepts = vec![module, public_fn, private_fn];
    let graph = Graph::build(&concepts);

    let api = graph.public_api();
    assert_eq!(api.len(), 1);
    assert_eq!(api[0].id, "functions/a/pub_fn");
}

#[test]
fn document_concepts_are_excluded_from_public_api_and_isolated_concepts() {
    let doc = concept(
        "documents/readme",
        ConceptKind::Document,
        "readme.dita",
        true,
    );
    let concepts = vec![doc];
    let graph = Graph::build(&concepts);

    assert!(graph.public_api().is_empty());
    assert!(graph.isolated_concepts().is_empty());
}

#[test]
fn of_kind_filters_and_sorts_by_id() {
    let module = concept("modules/a", ConceptKind::Module, "a.rs", true);
    let fn_b = concept("functions/b", ConceptKind::Function, "a.rs", true);
    let fn_a = concept("functions/a", ConceptKind::Function, "a.rs", true);

    let concepts = vec![module, fn_b, fn_a];
    let graph = Graph::build(&concepts);

    let functions = graph.of_kind(ConceptKind::Function);
    assert_eq!(
        functions.iter().map(|c| c.id.as_str()).collect::<Vec<_>>(),
        vec!["functions/a", "functions/b"]
    );
    assert!(graph.of_kind(ConceptKind::Package).is_empty());
}

#[test]
fn isolated_concepts_excludes_modules_and_connected_functions() {
    let module = concept("modules/a", ConceptKind::Module, "a.rs", true);
    let mut caller = concept("functions/a/caller", ConceptKind::Function, "a.rs", true);
    let mut callee = concept("functions/a/callee", ConceptKind::Function, "a.rs", true);
    let unused = concept("functions/a/unused", ConceptKind::Function, "a.rs", true);
    add_edge(&mut caller, RelationKind::Calls, "functions/a/callee");
    add_edge(&mut callee, RelationKind::CalledBy, "functions/a/caller");

    let concepts = vec![module, caller, callee, unused];
    let graph = Graph::build(&concepts);

    let isolated = graph.isolated_concepts();
    assert_eq!(isolated.len(), 1);
    assert_eq!(isolated[0].id, "functions/a/unused");
}

#[test]
fn connected_components_groups_by_call_edges_and_excludes_singletons() {
    let mut a = concept("functions/a", ConceptKind::Function, "x.rs", true);
    let mut b = concept("functions/b", ConceptKind::Function, "x.rs", true);
    let mut c = concept("functions/c", ConceptKind::Function, "x.rs", true);
    let mut d = concept("functions/d", ConceptKind::Function, "x.rs", true);
    let isolated = concept("functions/isolated", ConceptKind::Function, "x.rs", true);
    add_edge(&mut a, RelationKind::Calls, "functions/b");
    add_edge(&mut b, RelationKind::CalledBy, "functions/a");
    add_edge(&mut c, RelationKind::Calls, "functions/d");
    add_edge(&mut d, RelationKind::CalledBy, "functions/c");

    let concepts = vec![a, b, c, d, isolated];
    let graph = Graph::build(&concepts);

    let components = graph.connected_components();
    assert_eq!(
        components.len(),
        2,
        "expected two components: {components:?}"
    );
    assert_eq!(components[0], vec!["functions/a", "functions/b"]);
    assert_eq!(components[1], vec!["functions/c", "functions/d"]);
    assert!(
        !components
            .iter()
            .flatten()
            .any(|&id| id == "functions/isolated"),
        "an isolated concept should not appear as its own component: {components:?}"
    );
}

#[test]
fn a_self_recursive_concept_is_its_own_component_not_dropped_as_a_singleton() {
    let mut recursive = concept("functions/recursive", ConceptKind::Function, "x.rs", true);
    add_edge(&mut recursive, RelationKind::Calls, "functions/recursive");
    add_edge(
        &mut recursive,
        RelationKind::CalledBy,
        "functions/recursive",
    );

    let concepts = vec![recursive];
    let graph = Graph::build(&concepts);

    assert!(
        graph.isolated_concepts().is_empty(),
        "a self-recursive concept has an edge, so it isn't isolated"
    );
    assert_eq!(
        graph.connected_components(),
        vec![vec!["functions/recursive"]],
        "a self-recursive concept should form its own single-concept component"
    );
}

#[test]
fn detects_direct_and_mutual_cycles() {
    let mut a = concept("functions/a", ConceptKind::Function, "x.rs", true);
    let mut b = concept("functions/b", ConceptKind::Function, "x.rs", true);
    let mut self_recursive = concept("functions/c", ConceptKind::Function, "x.rs", true);
    add_edge(&mut a, RelationKind::Calls, "functions/b");
    add_edge(&mut b, RelationKind::Calls, "functions/a");
    add_edge(&mut self_recursive, RelationKind::Calls, "functions/c");

    let concepts = vec![a, b, self_recursive];
    let graph = Graph::build(&concepts);

    let cycles = graph.cycles();
    assert_eq!(
        cycles.len(),
        2,
        "expected the a<->b cycle and the c self-cycle: {cycles:?}"
    );
    assert!(cycles
        .iter()
        .any(|c| c == &vec!["functions/a", "functions/b"]));
    assert!(cycles.iter().any(|c| c == &vec!["functions/c"]));
}

#[test]
fn no_false_positive_cycles_in_a_dag() {
    let mut a = concept("functions/a", ConceptKind::Function, "x.rs", true);
    let b = concept("functions/b", ConceptKind::Function, "x.rs", true);
    add_edge(&mut a, RelationKind::Calls, "functions/b");

    let concepts = vec![a, b];
    let graph = Graph::build(&concepts);
    assert!(graph.cycles().is_empty());
}

#[test]
fn transitive_callers_follows_the_whole_caller_chain() {
    let mut a = concept("functions/a", ConceptKind::Function, "x.rs", true);
    let mut b = concept("functions/b", ConceptKind::Function, "x.rs", true);
    let c = concept("functions/c", ConceptKind::Function, "x.rs", true);
    add_edge(&mut a, RelationKind::CalledBy, "functions/b");
    add_edge(&mut b, RelationKind::Calls, "functions/a");
    add_edge(&mut b, RelationKind::CalledBy, "functions/c");

    let concepts = vec![a, b, c];
    let graph = Graph::build(&concepts);

    let affected = graph.transitive_callers("functions/a", None);
    assert_eq!(
        affected.iter().map(|c| c.id.as_str()).collect::<Vec<_>>(),
        vec!["functions/b", "functions/c"]
    );
}

#[test]
fn transitive_callers_respects_max_depth() {
    let mut a = concept("functions/a", ConceptKind::Function, "x.rs", true);
    let mut b = concept("functions/b", ConceptKind::Function, "x.rs", true);
    let c = concept("functions/c", ConceptKind::Function, "x.rs", true);
    add_edge(&mut a, RelationKind::CalledBy, "functions/b");
    add_edge(&mut b, RelationKind::CalledBy, "functions/c");

    let concepts = vec![a, b, c];
    let graph = Graph::build(&concepts);

    assert_eq!(
        graph
            .transitive_callers("functions/a", Some(1))
            .iter()
            .map(|c| c.id.as_str())
            .collect::<Vec<_>>(),
        vec!["functions/b"],
        "depth 1 should match direct callers() exactly"
    );
    assert_eq!(
        graph
            .transitive_callers("functions/a", Some(2))
            .iter()
            .map(|c| c.id.as_str())
            .collect::<Vec<_>>(),
        vec!["functions/b", "functions/c"]
    );
}

#[test]
fn transitive_callers_handles_cycles_without_including_the_start_or_looping_forever() {
    let mut a = concept("functions/a", ConceptKind::Function, "x.rs", true);
    let mut b = concept("functions/b", ConceptKind::Function, "x.rs", true);
    add_edge(&mut a, RelationKind::CalledBy, "functions/b");
    add_edge(&mut b, RelationKind::CalledBy, "functions/a");

    let concepts = vec![a, b];
    let graph = Graph::build(&concepts);

    assert_eq!(
        graph
            .transitive_callers("functions/a", None)
            .iter()
            .map(|c| c.id.as_str())
            .collect::<Vec<_>>(),
        vec!["functions/b"],
        "the start concept itself must never appear in its own blast radius"
    );
}

#[test]
fn transitive_callers_is_empty_for_a_concept_with_no_callers() {
    let a = concept("functions/a", ConceptKind::Function, "x.rs", true);
    let concepts = vec![a];
    let graph = Graph::build(&concepts);
    assert!(graph.transitive_callers("functions/a", None).is_empty());
}

#[test]
fn shortest_call_path_finds_indirect_route() {
    let mut a = concept("functions/a", ConceptKind::Function, "x.rs", true);
    let mut b = concept("functions/b", ConceptKind::Function, "x.rs", true);
    let c = concept("functions/c", ConceptKind::Function, "x.rs", true);
    add_edge(&mut a, RelationKind::Calls, "functions/b");
    add_edge(&mut b, RelationKind::Calls, "functions/c");

    let concepts = vec![a, b, c];
    let graph = Graph::build(&concepts);

    let path = graph
        .shortest_call_path("functions/a", "functions/c")
        .unwrap();
    assert_eq!(path, vec!["functions/a", "functions/b", "functions/c"]);
    assert!(graph
        .shortest_call_path("functions/c", "functions/a")
        .is_none());
}

#[test]
fn equal_ids_are_found_as_the_last_of_them() {
    let first = concept("functions/a", ConceptKind::Function, "first.rs", true);
    let second = concept("functions/a", ConceptKind::Function, "second.rs", true);
    let concepts = vec![first, second];
    let graph = Graph::build(&concepts);
    assert_eq!(graph.get("functions/a").unwrap().location.file, "second.rs");
    assert!(graph.get("functions/b").is_none());
}

#[test]
fn one_step_of_callers_is_the_callers() {
    let mut a = concept("functions/a", ConceptKind::Function, "x.rs", true);
    let mut b = concept("functions/b", ConceptKind::Function, "x.rs", true);
    let mut c = concept("functions/c", ConceptKind::Function, "x.rs", true);
    add_edge(&mut a, RelationKind::CalledBy, "functions/b");
    add_edge(&mut a, RelationKind::CalledBy, "functions/c");
    add_edge(&mut b, RelationKind::CalledBy, "functions/c");
    add_edge(&mut c, RelationKind::CalledBy, "functions/a");
    let concepts = vec![a, b, c];
    let graph = Graph::build(&concepts);
    let near: Vec<&str> = graph
        .transitive_callers("functions/a", Some(1))
        .iter()
        .map(|c| c.id.as_str())
        .collect();
    let direct: Vec<&str> = graph
        .callers("functions/a")
        .iter()
        .map(|c| c.id.as_str())
        .collect();
    assert_eq!(near, direct);
    assert!(graph.transitive_callers("functions/a", Some(0)).is_empty());
}

#[test]
fn a_path_to_itself_is_one_step_long() {
    let a = concept("functions/a", ConceptKind::Function, "x.rs", true);
    let concepts = vec![a];
    let graph = Graph::build(&concepts);
    assert_eq!(
        graph.shortest_call_path("functions/a", "functions/a"),
        Some(vec!["functions/a"])
    );
    assert!(graph
        .shortest_call_path("functions/a", "functions/gone")
        .is_none());
}

#[test]
fn the_shortest_of_two_ways_is_taken() {
    let mut a = concept("functions/a", ConceptKind::Function, "x.rs", true);
    let mut b = concept("functions/b", ConceptKind::Function, "x.rs", true);
    let mut c = concept("functions/c", ConceptKind::Function, "x.rs", true);
    let d = concept("functions/d", ConceptKind::Function, "x.rs", true);
    add_edge(&mut a, RelationKind::Calls, "functions/b");
    add_edge(&mut b, RelationKind::Calls, "functions/c");
    add_edge(&mut c, RelationKind::Calls, "functions/d");
    add_edge(&mut a, RelationKind::Calls, "functions/c");
    let concepts = vec![a, b, c, d];
    let graph = Graph::build(&concepts);
    assert_eq!(
        graph.shortest_call_path("functions/a", "functions/d"),
        Some(vec!["functions/a", "functions/c", "functions/d"])
    );
}

#[test]
fn a_method_is_owned_by_the_package_of_its_module_and_not_by_its_type() {
    let package = concept("packages/demo", ConceptKind::Package, "Cargo.toml", true);
    let class = concept("classes/a/T", ConceptKind::Class, "a.rs", true);
    let mut module = concept("modules/a", ConceptKind::Module, "a.rs", true);
    add_edge(&mut module, RelationKind::MemberOf, "packages/demo");
    let mut member = concept("functions/a/T/f", ConceptKind::Method, "a.rs", true);
    add_edge(&mut member, RelationKind::MemberOf, "classes/a/T");

    let concepts = vec![package, class, module, member];
    let graph = Graph::build(&concepts);
    assert_eq!(graph.owning_package("functions/a/T/f").unwrap().id, "packages/demo");
    assert_eq!(graph.owning_package("modules/a").unwrap().id, "packages/demo");
    assert!(graph.owning_package("packages/demo").is_none());
}

#[test]
fn components_go_by_the_walk_that_finds_them() {
    let groups = |nodes: &Vec<&'static str>, table: &'static [(&'static str, &'static [&'static str])]| {
        tarjan_scc(nodes, |name: &str| {
            table
                .iter()
                .filter(|(from, _)| *from == name)
                .flat_map(|(_, to)| to.iter().copied())
                .collect()
        })
    };
    assert_eq!(
        groups(&vec!["a", "b", "c"], &[("a", &["b"]), ("b", &["a"]), ("c", &["a"])]),
        vec![vec!["b", "a"], vec!["c"]]
    );
    assert_eq!(
        groups(&vec!["r"], &[("r", &["x", "y"])]),
        vec![vec!["x"], vec!["y"], vec!["r"]]
    );
    assert_eq!(
        groups(&vec!["r"], &[("r", &["y", "x"])]),
        vec![vec!["y"], vec!["x"], vec!["r"]]
    );
}
