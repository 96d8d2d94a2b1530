use crust::backend::{backend_summary_from_graph, compile_command, link_command, Backend, BackendEmitResult, CrustBackend};
use crust::config::{ProjectInfo, ProjectManifest, Target};
use crust::graph::{DependencyGraph, TargetKind};

fn graph() -> DependencyGraph {
    DependencyGraph::from_manifest(&ProjectManifest {
        project: ProjectInfo { name: "demo".into(), version: None },
        targets: vec![
            Target::StaticLibrary { name: "core".into(), sources: vec!["core.c".into()], deps: vec![] },
            Target::Executable { name: "app".into(), sources: vec!["main.c".into()], deps: vec!["core".into()] },
        ],
    })
    .unwrap()
}

#[test]
fn manifest_dir_is_the_parent_directory() {
    assert_eq!(ProjectManifest::manifest_dir("proj/sub/crust.build"), "proj/sub");
    assert_eq!(ProjectManifest::manifest_dir("/"), ".");
}

#[test]
fn collect_inputs_joins_sources_then_appends_dependency_outputs() {
    let backend = CrustBackend::new("proj".into(), None);
    let inputs = backend.collect_inputs(&["a.c".to_string(), "b.c".to_string()], &["build/libcore.a".to_string()]);
    assert_eq!(inputs, vec!["proj/a.c", "proj/b.c", "build/libcore.a"]);
}

#[test]
fn needs_rebuild_compares_latest_input_with_oldest_output() {
    let backend = CrustBackend::new("proj".into(), Some(1));
    assert!(backend.needs_rebuild(&[Some(5)], &[]));
    assert!(backend.needs_rebuild(&[Some(5)], &[None]));
    assert!(backend.needs_rebuild(&[Some(5)], &[Some(4)]));
    assert!(!backend.needs_rebuild(&[Some(5)], &[Some(5)]));
    assert!(!backend.needs_rebuild(&[None], &[Some(1)]));
}

#[test]
fn primary_outputs_are_every_node_output_under_the_build_dir() {
    let backend = CrustBackend::new("proj".into(), None);
    assert_eq!(backend.name(), "native");
    assert_eq!(backend.primary_outputs(&graph(), "build"), vec!["build/libcore.a", "build/app"]);
}

#[test]
fn target_outputs_live_in_the_build_dir() {
    let backend = CrustBackend::new(".".into(), None);
    let g = graph();
    assert_eq!(backend.target_outputs(&g.nodes()[0], "out"), vec!["out/libcore.a"]);
}

#[test]
fn summary_from_graph_lists_outputs_as_not_built() {
    let g = graph();
    let summary = backend_summary_from_graph(&g.nodes()[1], "build");
    assert_eq!(summary.name, "app");
    assert!(!summary.built);
    assert_eq!(summary.outputs, vec!["build/app"]);
    assert_eq!(summary.duration, 0);
}

#[test]
fn single_result_holds_one_file() {
    let result = BackendEmitResult::single("build/build.ninja".into());
    assert_eq!(result.files, vec!["build/build.ninja"]);
    assert!(result.target_summaries.is_empty());
}

#[test]
fn object_path_numbers_sources() {
    let backend = CrustBackend::new("proj".into(), None);
    assert_eq!(backend.object_path("build", "app", 0), "build/app_0.o");
    assert_eq!(backend.object_path("build", "app", 12), "build/app_12.o");
    assert_eq!(backend.source_path("main.c"), "proj/main.c");
}

#[test]
fn compile_command_builds_one_object() {
    assert_eq!(compile_command("proj/main.c", "build/app_0.o"), vec!["cc", "-c", "proj/main.c", "-o", "build/app_0.o"]);
}

#[test]
fn link_commands_by_kind() {
    let objects = vec!["a.o".to_string(), "b.o".to_string()];
    let deps = vec!["build/libcore.a".to_string()];
    assert_eq!(
        link_command(TargetKind::Executable, "build/app", &objects, &deps),
        vec!["cc", "-o", "build/app", "a.o", "b.o", "build/libcore.a"]
    );
    assert_eq!(
        link_command(TargetKind::SharedLibrary, "build/libp.so", &objects, &deps),
        vec!["cc", "-shared", "-o", "build/libp.so", "a.o", "b.o", "build/libcore.a"]
    );
    assert_eq!(
        link_command(TargetKind::StaticLibrary, "build/libcore.a", &objects, &deps),
        vec!["ar", "rcs", "build/libcore.a", "a.o", "b.o"]
    );
}

#[test]
fn join_keeps_absolute_paths_and_single_separators() {
    let backend = CrustBackend::new("proj/".into(), None);
    let inputs = backend.collect_inputs(&["/abs/x.c".to_string(), "y.c".to_string()], &[]);
    assert_eq!(inputs, vec!["/abs/x.c", "proj/y.c"]);
    let bare = CrustBackend::new("".into(), None);
    assert_eq!(bare.source_path("z.c"), "z.c");
}
