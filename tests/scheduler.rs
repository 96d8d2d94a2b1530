use crust::config::{ProjectInfo, ProjectManifest, Target};
use crust::executor::{BuildExecutor, Scheduler};
use crust::graph::DependencyGraph;

fn custom(name: &str, deps: &[&str]) -> Target {
    Target::CustomCommand {
        name: name.into(),
        command: format!("touch {name}"),
        outputs: vec![name.to_lowercase()],
        deps: deps.iter().map(|d| d.to_string()).collect(),
        inputs: vec![],
    }
}

fn graph(targets: Vec<Target>) -> DependencyGraph {
    DependencyGraph::from_manifest(&ProjectManifest {
        project: ProjectInfo { name: "demo".into(), version: None },
        targets,
    })
    .unwrap()
}

/// Runs every queued node one at a time, first in first out, with an action
/// that returns the node's name; records the order of the calls.
fn run_sequentially(g: &DependencyGraph) -> (Vec<String>, Vec<(String, Vec<String>)>) {
    let (mut sched, ready) = Scheduler::new(g);
    let mut queue: std::collections::VecDeque<usize> = ready.into_iter().collect();
    let mut log = Vec::new();
    while let Some(i) = queue.pop_front() {
        let name = g.nodes()[i].name.clone();
        let _inputs = sched.dep_outputs(i);
        log.push(name.clone());
        queue.extend(sched.complete(i, vec![format!("out/{name}")]));
    }
    assert!(!sched.in_flight());
    (log, sched.result().unwrap().produced)
}

#[test]
fn linear_chain_runs_in_order() {
    let g = graph(vec![custom("A", &[]), custom("B", &["A"]), custom("C", &["B"])]);
    let (log, produced) = run_sequentially(&g);
    assert_eq!(log, vec!["A", "B", "C"]);
    assert_eq!(produced.len(), 3);
}

#[test]
fn schedules_chain_before_dependents() {
    let g = graph(vec![custom("prep", &[]), custom("gen", &["prep"]), custom("assemble", &["gen"])]);
    let (log, produced) = run_sequentially(&g);
    for node in g.nodes() {
        for dep in &node.dependencies {
            let d = log.iter().position(|n| n == dep).unwrap();
            let n = log.iter().position(|n| n == &node.name).unwrap();
            assert!(d < n);
        }
    }
    assert_eq!(produced.len(), 3);
}

#[test]
fn every_action_runs_exactly_once() {
    let g = graph(vec![
        custom("D", &["B", "C"]),
        custom("B", &["A"]),
        custom("C", &["A"]),
        custom("A", &[]),
        custom("E", &[]),
    ]);
    let (log, produced) = run_sequentially(&g);
    let mut sorted = log.clone();
    sorted.sort();
    assert_eq!(sorted, vec!["A", "B", "C", "D", "E"]);
    assert_eq!(produced.len(), 5);
    assert_eq!(produced[0], ("D".to_string(), vec!["out/D".to_string()]));
}

#[test]
fn diamond_gathers_dependency_outputs_in_declared_order() {
    let g = graph(vec![custom("A", &[]), custom("B", &["A"]), custom("C", &["A"]), custom("D", &["B", "C"])]);
    let (mut sched, ready) = Scheduler::new(&g);
    assert_eq!(ready, vec![0]);
    assert!(sched.dep_outputs(0).is_empty());
    let after_a = sched.complete(0, vec!["a.o".into()]);
    assert_eq!(after_a, vec![1, 2]);
    assert_eq!(sched.dep_outputs(1), vec!["a.o"]);
    // C finishes before B; D still receives B's outputs first.
    assert!(sched.complete(2, vec!["c1".into(), "c2".into()]).is_empty());
    assert_eq!(sched.complete(1, vec!["b".into()]), vec![3]);
    assert_eq!(sched.dep_outputs(3), vec!["b", "c1", "c2"]);
}

#[test]
fn empty_outputs_contribute_nothing() {
    let g = graph(vec![custom("A", &[]), custom("B", &[]), custom("C", &["A", "B"])]);
    let (mut sched, ready) = Scheduler::new(&g);
    assert_eq!(ready, vec![0, 1]);
    assert!(sched.complete(0, vec![]).is_empty());
    assert_eq!(sched.complete(1, vec!["b".into()]), vec![2]);
    assert_eq!(sched.dep_outputs(2), vec!["b"]);
}

#[test]
fn failure_stops_dispatch_and_hides_outputs() {
    let g = graph(vec![custom("A", &[]), custom("B", &[]), custom("C", &[]), custom("D", &["A"])]);
    let (mut sched, ready) = Scheduler::new(&g);
    assert_eq!(ready, vec![0, 1, 2]);
    sched.fail(1);
    assert!(sched.in_flight());
    assert!(sched.complete(0, vec!["a".into()]).is_empty());
    assert!(sched.complete(2, vec!["c".into()]).is_empty());
    assert!(!sched.in_flight());
    assert!(sched.result().is_none());
}

#[test]
fn empty_graph_has_an_empty_result() {
    let g = graph(vec![]);
    let (sched, ready) = Scheduler::new(&g);
    assert!(ready.is_empty());
    assert!(!sched.in_flight());
    assert!(sched.result().unwrap().produced.is_empty());
}

#[test]
fn executor_takes_the_given_worker_count() {
    assert_eq!(BuildExecutor::new(Some(2)).workers(), 2);
    assert_eq!(BuildExecutor::new(Some(1)).workers(), 1);
}

#[test]
fn executor_defaults_to_at_least_one_worker() {
    assert!(BuildExecutor::new(None).workers() >= 1);
}
