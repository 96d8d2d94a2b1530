use vstd::prelude::*;
use vstd::string::*;
use crate::paths::{parent_of, path_parent};

verus! {

/// The `project` record of a manifest.
#[derive(Debug, Clone)]
pub struct ProjectInfo {
    pub name: String,
    pub version: Option<String>,
}

/// One build target as the manifest declares it.
#[derive(Debug, Clone)]
pub enum Target {
    Executable { name: String, sources: Vec<String>, deps: Vec<String> },
    StaticLibrary { name: String, sources: Vec<String>, deps: Vec<String> },
    SharedLibrary { name: String, sources: Vec<String>, deps: Vec<String> },
    CustomCommand {
        name: String,
        command: String,
        outputs: Vec<String>,
        deps: Vec<String>,
        inputs: Vec<String>,
    },
}

/// The text of each string in a sequence.
pub open spec fn texts(v: Seq<String>) -> Seq<Seq<char>> {
    v.map_values(|s: String| s@)
}

impl Target {
    pub open spec fn spec_name(&self) -> Seq<char> {
        match self {
            Target::Executable { name, .. } => name@,
            Target::StaticLibrary { name, .. } => name@,
            Target::SharedLibrary { name, .. } => name@,
            Target::CustomCommand { name, .. } => name@,
        }
    }

    /// The declared dependency names, in order.
    pub open spec fn spec_deps(&self) -> Seq<String> {
        match self {
            Target::Executable { deps, .. } => deps@,
            Target::StaticLibrary { deps, .. } => deps@,
            Target::SharedLibrary { deps, .. } => deps@,
            Target::CustomCommand { deps, .. } => deps@,
        }
    }

    /// The declared sources; for a custom command, its input files.
    pub open spec fn spec_sources(&self) -> Seq<String> {
        match self {
            Target::Executable { sources, .. } => sources@,
            Target::StaticLibrary { sources, .. } => sources@,
            Target::SharedLibrary { sources, .. } => sources@,
            Target::CustomCommand { inputs, .. } => inputs@,
        }
    }

    pub fn name(&self) -> (r: &str)
        ensures
            r@ == self.spec_name(),
    {
        match self {
            Target::Executable { name, .. } => name.as_str(),
            Target::StaticLibrary { name, .. } => name.as_str(),
            Target::SharedLibrary { name, .. } => name.as_str(),
            Target::CustomCommand { name, .. } => name.as_str(),
        }
    }

    pub fn dependencies(&self) -> (r: &[String])
        ensures
            r@ == self.spec_deps(),
    {
        match self {
            Target::Executable { deps, .. } => deps.as_slice(),
            Target::StaticLibrary { deps, .. } => deps.as_slice(),
            Target::SharedLibrary { deps, .. } => deps.as_slice(),
            Target::CustomCommand { deps, .. } => deps.as_slice(),
        }
    }

    pub fn sources(&self) -> (r: &[String])
        ensures
            r@ == self.spec_sources(),
    {
        match self {
            Target::Executable { sources, .. } => sources.as_slice(),
            Target::StaticLibrary { sources, .. } => sources.as_slice(),
            Target::SharedLibrary { sources, .. } => sources.as_slice(),
            Target::CustomCommand { inputs, .. } => inputs.as_slice(),
        }
    }
}

/// A loaded manifest: the project record and its targets in declared order.
#[derive(Debug, Clone)]
pub struct ProjectManifest {
    pub project: ProjectInfo,
    pub targets: Vec<Target>,
}

impl ProjectManifest {
    /// The directory that holds the manifest, or `.` when the path has no parent.
    pub fn manifest_dir(manifest_path: &str) -> (r: String)
        ensures
            r@ == match parent_of(manifest_path@) {
                Some(d) => d,
                None => "."@,
            },
    {
        match path_parent(manifest_path) {
            Some(d) => d,
            None => {
                proof { reveal_strlit("."); }
                String::from_str(".")
            },
        }
    }
}

} // verus!
