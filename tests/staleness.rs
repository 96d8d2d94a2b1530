use crust::config::{ProjectInfo, ProjectManifest, Target};
use crust::graph::DependencyGraph;
use crust::staleness::is_stale;

fn one_target_graph() -> DependencyGraph {
    DependencyGraph::from_manifest(&ProjectManifest {
        project: ProjectInfo { name: "demo".into(), version: None },
        targets: vec![Target::Executable {
            name: "app".into(),
            sources: vec!["src/main.c".into()],
            deps: vec![],
        }],
    })
    .unwrap()
}

#[test]
fn no_backend_outputs_is_outdated() {
    assert!(one_target_graph().is_outdated(5, &[Some(1)], &[]));
}

#[test]
fn missing_backend_output_is_outdated_whatever_the_times() {
    let graph = one_target_graph();
    assert!(graph.is_outdated(1, &[Some(1)], &[Some(100), None]));
    assert!(graph.is_outdated(0, &[], &[None]));
}

#[test]
fn equal_times_are_not_outdated() {
    assert!(!one_target_graph().is_outdated(10, &[Some(20)], &[Some(20)]));
}

#[test]
fn touching_a_source_makes_it_outdated() {
    let graph = one_target_graph();
    let before = [Some(10)];
    let outputs = [Some(20), Some(30)];
    assert!(!graph.is_outdated(5, &before, &outputs));
    let touched = [Some(31)];
    assert!(graph.is_outdated(5, &touched, &outputs));
}

#[test]
fn unchanged_snapshot_gives_the_same_answer() {
    let graph = one_target_graph();
    let sources = [Some(10), None];
    let outputs = [Some(12)];
    let first = graph.is_outdated(11, &sources, &outputs);
    let second = graph.is_outdated(11, &sources, &outputs);
    assert_eq!(first, second);
    assert!(!first);
}

#[test]
fn newer_manifest_makes_it_outdated() {
    assert!(one_target_graph().is_outdated(50, &[Some(1)], &[Some(40)]));
}

#[test]
fn oldest_output_decides() {
    assert!(is_stale(0, &[Some(25)], &[Some(30), Some(20)]));
    assert!(!is_stale(0, &[Some(15)], &[Some(30), Some(20)]));
}

#[test]
fn missing_inputs_are_ignored() {
    assert!(!is_stale(0, &[None, Some(3)], &[Some(4)]));
}
