use crust::config::{ProjectInfo, ProjectManifest, Target};
use crust::graph::{DependencyGraph, GraphError, TargetKind};

fn manifest(targets: Vec<Target>) -> ProjectManifest {
    ProjectManifest {
        project: ProjectInfo { name: "demo".into(), version: None },
        targets,
    }
}

fn exe(name: &str, deps: &[&str]) -> Target {
    Target::Executable {
        name: name.into(),
        sources: vec![format!("src/{name}.c")],
        deps: deps.iter().map(|d| d.to_string()).collect(),
    }
}

fn custom(name: &str, deps: &[&str]) -> Target {
    Target::CustomCommand {
        name: name.into(),
        command: format!("touch {name}"),
        outputs: vec![name.to_lowercase()],
        deps: deps.iter().map(|d| d.to_string()).collect(),
        inputs: vec![],
    }
}

fn sample_manifest() -> ProjectManifest {
    manifest(vec![
        Target::StaticLibrary {
            name: "core".into(),
            sources: vec!["src/core.c".into()],
            deps: vec![],
        },
        Target::Executable {
            name: "app".into(),
            sources: vec!["src/main.c".into()],
            deps: vec!["core".into()],
        },
    ])
}

fn topo_names(graph: &DependencyGraph) -> Vec<String> {
    graph.topo_order().unwrap().iter().map(|n| n.name.clone()).collect()
}

fn position(names: &[String], name: &str) -> usize {
    names.iter().position(|n| n == name).unwrap()
}

#[test]
fn builds_graph_and_topo_sort() {
    let manifest = sample_manifest();
    let graph = DependencyGraph::from_manifest(&manifest).unwrap();
    let names: Vec<_> = graph
        .topo_order()
        .unwrap()
        .iter()
        .map(|n| n.name.clone())
        .collect();
    assert_eq!(names, vec!["core", "app"]);
}

#[test]
fn detects_cycles() {
    let manifest = ProjectManifest {
        project: ProjectInfo {
            name: "demo".into(),
            version: None,
        },
        targets: vec![Target::Executable {
            name: "app".into(),
            sources: vec!["src/main.c".into()],
            deps: vec!["app".into()],
        }],
    };
    let result = DependencyGraph::from_manifest(&manifest);
    assert!(result.is_err());
}

#[test]
fn one_node_per_target_with_derived_outputs() {
    let graph = DependencyGraph::from_manifest(&manifest(vec![
        Target::Executable { name: "app".into(), sources: vec!["main.c".into()], deps: vec!["core".into(), "plug".into()] },
        Target::StaticLibrary { name: "core".into(), sources: vec!["core.c".into()], deps: vec![] },
        Target::SharedLibrary { name: "plug".into(), sources: vec!["plug.c".into()], deps: vec![] },
        Target::CustomCommand {
            name: "gen".into(),
            command: "python gen.py".into(),
            outputs: vec!["generated.h".into()],
            deps: vec![],
            inputs: vec!["schema.json".into()],
        },
    ]))
    .unwrap();
    let nodes = graph.nodes();
    assert_eq!(nodes.len(), 4);
    assert_eq!(nodes[0].name, "app");
    assert_eq!(nodes[0].kind, TargetKind::Executable);
    assert_eq!(nodes[0].outputs, vec!["app"]);
    assert_eq!(nodes[0].dependencies, vec!["core", "plug"]);
    assert_eq!(nodes[0].command, None);
    assert_eq!(nodes[1].kind, TargetKind::StaticLibrary);
    assert_eq!(nodes[1].outputs, vec!["libcore.a"]);
    assert_eq!(nodes[2].kind, TargetKind::SharedLibrary);
    assert_eq!(nodes[2].outputs, vec!["libplug.so"]);
    assert_eq!(nodes[3].kind, TargetKind::CustomCommand);
    assert_eq!(nodes[3].sources, vec!["schema.json"]);
    assert_eq!(nodes[3].outputs, vec!["generated.h"]);
    assert_eq!(nodes[3].command.as_deref(), Some("python gen.py"));
}

#[test]
fn topo_order_respects_every_edge_of_a_diamond() {
    let graph = DependencyGraph::from_manifest(&manifest(vec![
        custom("D", &["B", "C"]),
        custom("B", &["A"]),
        custom("C", &["A"]),
        custom("A", &[]),
    ]))
    .unwrap();
    let names = topo_names(&graph);
    assert_eq!(names.len(), 4);
    for node in graph.nodes() {
        for dep in &node.dependencies {
            assert!(position(&names, dep) < position(&names, &node.name));
        }
    }
}

#[test]
fn empty_manifest_gives_empty_graph() {
    let graph = DependencyGraph::from_manifest(&manifest(vec![])).unwrap();
    assert!(graph.nodes().is_empty());
    assert!(graph.topo_order().unwrap().is_empty());
}

#[test]
fn duplicate_names_are_rejected() {
    let result = DependencyGraph::from_manifest(&manifest(vec![exe("app", &[]), custom("app", &[])]));
    match result {
        Err(GraphError::DuplicateName { name }) => assert_eq!(name, "app"),
        other => panic!("expected a duplicate name, got {:?}", other.map(|_| ())),
    }
}

#[test]
fn unknown_dependency_is_rejected() {
    let result = DependencyGraph::from_manifest(&manifest(vec![exe("app", &["nope"])]));
    match result {
        Err(GraphError::UnknownDependency { dep, from }) => {
            assert_eq!(dep, "nope");
            assert_eq!(from, "app");
        }
        other => panic!("expected an unknown dependency, got {:?}", other.map(|_| ())),
    }
}

#[test]
fn self_loop_is_a_cycle() {
    let result = DependencyGraph::from_manifest(&manifest(vec![custom("X", &["X"])]));
    match result {
        Err(GraphError::Cycle { node }) => assert_eq!(node, "X"),
        other => panic!("expected a cycle, got {:?}", other.map(|_| ())),
    }
}

#[test]
fn longer_cycle_is_rejected() {
    let result = DependencyGraph::from_manifest(&manifest(vec![
        custom("A", &["C"]),
        custom("B", &["A"]),
        custom("C", &["B"]),
        custom("D", &[]),
    ]));
    assert!(matches!(result, Err(GraphError::Cycle { .. })));
}

#[test]
fn duplicate_is_reported_before_unknown_dependency() {
    let result = DependencyGraph::from_manifest(&manifest(vec![exe("app", &["nope"]), exe("app", &[])]));
    assert!(matches!(result, Err(GraphError::DuplicateName { .. })));
}

#[test]
fn source_paths_join_every_declared_source() {
    let graph = DependencyGraph::from_manifest(&manifest(vec![
        Target::Executable { name: "app".into(), sources: vec!["a.c".into(), "b.c".into()], deps: vec![] },
        Target::CustomCommand {
            name: "gen".into(),
            command: "true".into(),
            outputs: vec!["x".into()],
            deps: vec![],
            inputs: vec!["in.txt".into()],
        },
    ]))
    .unwrap();
    assert_eq!(graph.source_paths("proj"), vec!["proj/a.c", "proj/b.c", "proj/in.txt"]);
}

#[test]
fn custom_command_without_outputs_is_rejected() {
    let result = DependencyGraph::from_manifest(&manifest(vec![
        exe("app", &[]),
        Target::CustomCommand {
            name: "gen".into(),
            command: "true".into(),
            outputs: vec![],
            deps: vec![],
            inputs: vec![],
        },
    ]));
    match result {
        Err(GraphError::NoOutputs { name }) => assert_eq!(name, "gen"),
        other => panic!("expected a target without outputs, got {:?}", other.map(|_| ())),
    }
}

#[test]
fn cycle_error_names_a_node_on_the_cycle() {
    let result = DependencyGraph::from_manifest(&manifest(vec![
        custom("C", &["A"]),
        custom("A", &["B"]),
        custom("B", &["A"]),
    ]));
    match result {
        Err(GraphError::Cycle { node }) => assert!(node == "A" || node == "B", "named {node}"),
        other => panic!("expected a cycle, got {:?}", other.map(|_| ())),
    }
}

#[test]
fn duplicate_error_names_the_first_repeat() {
    let result = DependencyGraph::from_manifest(&manifest(vec![
        exe("a", &[]),
        exe("b", &[]),
        exe("b", &[]),
        exe("a", &[]),
    ]));
    match result {
        Err(GraphError::DuplicateName { name }) => assert_eq!(name, "b"),
        other => panic!("expected a duplicate name, got {:?}", other.map(|_| ())),
    }
}

#[test]
fn topo_order_is_the_same_on_every_call() {
    let graph = DependencyGraph::from_manifest(&manifest(vec![
        custom("D", &["B", "C"]),
        custom("B", &["A"]),
        custom("C", &["A"]),
        custom("A", &[]),
        custom("E", &[]),
    ]))
    .unwrap();
    assert_eq!(topo_names(&graph), topo_names(&graph));
}

fn no_outputs(name: &str, deps: &[&str]) -> Target {
    Target::CustomCommand {
        name: name.into(),
        command: "true".into(),
        outputs: vec![],
        deps: deps.iter().map(|d| d.to_string()).collect(),
        inputs: vec![],
    }
}

#[test]
fn unknown_dependency_is_reported_before_missing_outputs() {
    let result = DependencyGraph::from_manifest(&manifest(vec![no_outputs("a", &["nope"])]));
    assert!(matches!(result, Err(GraphError::UnknownDependency { .. })));
}

#[test]
fn cycle_is_reported_before_missing_outputs() {
    let result = DependencyGraph::from_manifest(&manifest(vec![no_outputs("x", &["x"])]));
    match result {
        Err(GraphError::Cycle { node }) => assert_eq!(node, "x"),
        other => panic!("expected a cycle, got {:?}", other.map(|_| ())),
    }
}
