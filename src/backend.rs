use vstd::prelude::*;
use crate::config::texts;
use vstd::string::*;
use crate::graph::{DependencyGraph, TargetKind, TargetNode};
use crate::paths::{join_all, join_path, joined, joined_all};
use crate::staleness::{is_stale, stale};

verus! {

/// A way of building a graph: run the tools directly, or describe the build
/// for another tool.
pub trait Backend {
    /// The files whose times decide whether a graph must be built again.
    spec fn spec_primary_outputs(&self, graph: Seq<TargetNode>, out_dir: Seq<char>) -> Seq<Seq<char>>;

    fn name(&self) -> &str;

    /// The files whose times decide whether the build must run again.
    fn primary_outputs(&self, graph: &DependencyGraph, out_dir: &str) -> (r: Vec<String>)
        ensures
            texts(r@) == self.spec_primary_outputs(graph@, out_dir@),
    ;
}

/// What a backend wrote or built.
#[derive(Debug, Clone)]
pub struct BackendEmitResult {
    pub files: Vec<String>,
    pub target_summaries: Vec<TargetBuildSummary>,
}

impl BackendEmitResult {
    pub fn single(path: String) -> (r: BackendEmitResult)
        ensures
            r.files@ == seq![path],
            r.target_summaries@.len() == 0,
    {
        BackendEmitResult { files: vec![path], target_summaries: Vec::new() }
    }
}

/// One target's line in a build summary; `duration` is in nanoseconds.
#[derive(Debug, Clone)]
pub struct TargetBuildSummary {
    pub name: String,
    pub built: bool,
    pub outputs: Vec<String>,
    pub duration: u128,
}

/// The summary of a target that was not built in this run: its declared
/// outputs under `builddir`, and no time spent.
pub fn backend_summary_from_graph(node: &TargetNode, builddir: &str) -> (r: TargetBuildSummary)
    ensures
        r.name@ == node.name@,
        !r.built,
        texts(r.outputs@) == joined_all(builddir@, texts(node.outputs@)),
        r.duration == 0,
{
    TargetBuildSummary {
        name: crate::graph::clone_text(&node.name),
        built: false,
        outputs: join_all(builddir, node.outputs.as_slice()),
        duration: 0,
    }
}

/// The character of a decimal digit.
pub open spec fn digit(d: nat) -> char {
    if d == 0 { '0' } else if d == 1 { '1' } else if d == 2 { '2' } else if d == 3 { '3' } else if d == 4 {
        '4'
    } else if d == 5 { '5' } else if d == 6 { '6' } else if d == 7 { '7' } else if d == 8 { '8' } else {
        '9'
    }
}

/// The decimal digits of a number, most significant first, without leading zeros.
pub open spec fn decimal(n: nat) -> Seq<char>
    decreases n,
{
    if n < 10 {
        seq![digit(n)]
    } else {
        decimal(n / 10) + seq![digit(n % 10)]
    }
}

fn digit_text(d: usize) -> (r: &'static str)
    requires
        d < 10,
    ensures
        r@ == seq![digit(d as nat)],
{
    proof {
        reveal_strlit("0");
        reveal_strlit("1");
        reveal_strlit("2");
        reveal_strlit("3");
        reveal_strlit("4");
        reveal_strlit("5");
        reveal_strlit("6");
        reveal_strlit("7");
        reveal_strlit("8");
        reveal_strlit("9");
    }
    let r = if d == 0 { "0" } else if d == 1 { "1" } else if d == 2 { "2" } else if d == 3 { "3" } else if d == 4 {
        "4"
    } else if d == 5 { "5" } else if d == 6 { "6" } else if d == 7 { "7" } else if d == 8 { "8" } else {
        "9"
    };
    assert(r@ =~= seq![digit(d as nat)]);
    r
}

fn decimal_text(n: usize) -> (r: String)
    ensures
        r@ == decimal(n as nat),
    decreases n,
{
    if n < 10 {
        String::from_str(digit_text(n))
    } else {
        let mut s = decimal_text(n / 10);
        s.append(digit_text(n % 10));
        s
    }
}

/// The argument list that archives or links a target of kind `kind` into
/// `output` from its objects (and, when linking, its dependencies' outputs).
pub open spec fn link_argv(kind: TargetKind, output: Seq<char>, objects: Seq<Seq<char>>, deps: Seq<Seq<char>>) -> Seq<Seq<char>> {
    match kind {
        TargetKind::StaticLibrary => seq!["ar"@, "rcs"@, output] + objects,
        TargetKind::SharedLibrary => seq!["cc"@, "-shared"@, "-o"@, output] + objects + deps,
        _ => seq!["cc"@, "-o"@, output] + objects + deps,
    }
}

fn text(s: &str) -> (r: String)
    ensures
        r@ == s@,
{
    String::from_str(s)
}

fn push_all(v: &mut Vec<String>, more: &[String])
    ensures
        texts(final(v)@) == texts(old(v)@) + texts(more@),
{
    let ghost first = v@;
    let mut i: usize = 0;
    while i < more.len()
        invariant
            i <= more@.len(),
            v@ == first + more@.subrange(0, i as int),
        decreases more@.len() - i,
    {
        v.push(crate::graph::clone_text(&more[i]));
        proof {
            assert(v@ =~= first + more@.subrange(0, i + 1));
        }
        i += 1;
    }
    assert(more@.subrange(0, more@.len() as int) =~= more@);
    assert(texts(v@) =~= texts(first) + texts(more@));
}

/// The command that compiles `source` into `object`.
pub fn compile_command(source: &str, object: &str) -> (r: Vec<String>)
    ensures
        texts(r@) == seq!["cc"@, "-c"@, source@, "-o"@, object@],
{
    proof {
        reveal_strlit("cc");
        reveal_strlit("-c");
        reveal_strlit("-o");
    }
    let r = vec![text("cc"), text("-c"), text(source), text("-o"), text(object)];
    assert(texts(r@) =~= seq!["cc"@, "-c"@, source@, "-o"@, object@]);
    r
}

/// The command that archives or links a target; see `link_argv`.
pub fn link_command(kind: TargetKind, output: &str, objects: &[String], dep_outputs: &[String]) -> (r: Vec<String>)
    ensures
        texts(r@) == link_argv(kind, output@, texts(objects@), texts(dep_outputs@)),
{
    proof {
        reveal_strlit("ar");
        reveal_strlit("rcs");
        reveal_strlit("cc");
        reveal_strlit("-shared");
        reveal_strlit("-o");
    }
    let mut r = match kind {
        TargetKind::StaticLibrary => vec![text("ar"), text("rcs"), text(output)],
        TargetKind::SharedLibrary => vec![text("cc"), text("-shared"), text("-o"), text(output)],
        _ => vec![text("cc"), text("-o"), text(output)],
    };
    let ghost head = texts(r@);
    push_all(&mut r, objects);
    match kind {
        TargetKind::StaticLibrary => {},
        _ => {
            push_all(&mut r, dep_outputs);
        },
    }
    proof {
        match kind {
            TargetKind::StaticLibrary => {
                assert(head =~= seq!["ar"@, "rcs"@, output@]);
            },
            TargetKind::SharedLibrary => {
                assert(head =~= seq!["cc"@, "-shared"@, "-o"@, output@]);
            },
            _ => {
                assert(head =~= seq!["cc"@, "-o"@, output@]);
            },
        }
    }
    r
}

/// The backend that builds the targets itself, by running the compiler,
/// archiver, linker or shell.
#[derive(Debug, Clone)]
pub struct CrustBackend {
    manifest_dir: String,
    parallelism: Option<usize>,
}

impl CrustBackend {
    pub closed spec fn spec_manifest_dir(&self) -> Seq<char> {
        self.manifest_dir@
    }

    pub closed spec fn spec_parallelism(&self) -> Option<usize> {
        self.parallelism
    }

    pub fn new(manifest_dir: String, parallelism: Option<usize>) -> (r: CrustBackend)
        ensures
            r.spec_manifest_dir() == manifest_dir@,
            r.spec_parallelism() == parallelism,
    {
        CrustBackend { manifest_dir, parallelism }
    }

    pub fn manifest_dir(&self) -> (r: &str)
        ensures
            r@ == self.spec_manifest_dir(),
    {
        self.manifest_dir.as_str()
    }

    pub fn parallelism(&self) -> (r: Option<usize>)
        ensures
            r == self.spec_parallelism(),
    {
        self.parallelism
    }

    /// Whether an artifact must be rebuilt, given the times of its inputs and
    /// outputs (`None` where a path is missing). Missing inputs are ignored.
    pub fn needs_rebuild(&self, inputs: &[Option<u128>], outputs: &[Option<u128>]) -> (r: bool)
        ensures
            r == stale(0, inputs@, outputs@),
    {
        is_stale(0, inputs, outputs)
    }

    /// The sources under the manifest directory, followed by the outputs of
    /// the dependencies.
    pub fn collect_inputs(&self, sources: &[String], dep_outputs: &[String]) -> (r: Vec<String>)
        ensures
            texts(r@) == joined_all(self.spec_manifest_dir(), texts(sources@)) + texts(dep_outputs@),
    {
        let mut inputs = join_all(self.manifest_dir.as_str(), sources);
        let ghost first = inputs@;
        let mut i: usize = 0;
        while i < dep_outputs.len()
            invariant
                i <= dep_outputs@.len(),
                inputs@ == first + dep_outputs@.subrange(0, i as int),
            decreases dep_outputs@.len() - i,
        {
            inputs.push(crate::graph::clone_text(&dep_outputs[i]));
            proof {
                assert(inputs@ =~= first + dep_outputs@.subrange(0, i + 1));
            }
            i += 1;
        }
        assert(dep_outputs@.subrange(0, dep_outputs@.len() as int) =~= dep_outputs@);
        assert(texts(inputs@) =~= texts(first) + texts(dep_outputs@));
        inputs
    }

    /// Where the `idx`-th source of `target_name` is compiled to:
    /// `<target_name>_<idx>.o` under `out_dir`.
    pub fn object_path(&self, out_dir: &str, target_name: &str, idx: usize) -> (r: String)
        ensures
            r@ == joined(out_dir@, target_name@ + "_"@ + decimal(idx as nat) + ".o"@),
    {
        proof {
            reveal_strlit("_");
            reveal_strlit(".o");
        }
        let mut name = text(target_name);
        name.append("_");
        name.append(decimal_text(idx).as_str());
        name.append(".o");
        join_path(out_dir, name.as_str())
    }

    /// A source path under the manifest directory.
    pub fn source_path(&self, source: &str) -> (r: String)
        ensures
            r@ == joined(self.spec_manifest_dir(), source@),
    {
        join_path(self.manifest_dir.as_str(), source)
    }

    /// The paths a node's action returns: its declared outputs under `out_dir`.
    pub fn target_outputs(&self, node: &TargetNode, out_dir: &str) -> (r: Vec<String>)
        ensures
            texts(r@) == joined_all(out_dir@, texts(node.outputs@)),
    {
        join_all(out_dir, node.outputs.as_slice())
    }

    /// Every node's outputs under `out_dir`, node by node.
    pub fn all_outputs(&self, graph: &DependencyGraph, out_dir: &str) -> (r: Vec<String>)
        ensures
            texts(r@) == joined_all(out_dir@, crate::graph::all_outputs(graph@)),
    {
        let nodes = graph.nodes();
        let mut r: Vec<String> = Vec::new();
        let mut i: usize = 0;
        while i < nodes.len()
            invariant
                nodes@ == graph@,
                i <= nodes@.len(),
                texts(r@) == joined_all(out_dir@, crate::graph::all_outputs(nodes@.subrange(0, i as int))),
            decreases nodes@.len() - i,
        {
            let mut more = self.target_outputs(&nodes[i], out_dir);
            let ghost before = r@;
            let ghost added = more@;
            r.append(&mut more);
            proof {
                let ns = nodes@.subrange(0, i + 1);
                assert(ns.drop_last() =~= nodes@.subrange(0, i as int));
                assert(texts(r@) =~= texts(before) + texts(added));
                assert(joined_all(out_dir@, crate::graph::all_outputs(ns)) =~= joined_all(out_dir@, crate::graph::all_outputs(ns.drop_last()))
                    + joined_all(out_dir@, texts(ns.last().outputs@)));
            }
            i += 1;
        }
        assert(nodes@.subrange(0, nodes@.len() as int) =~= nodes@);
        r
    }
}

impl Backend for CrustBackend {
    /// Every node's outputs under the build directory.
    open spec fn spec_primary_outputs(&self, graph: Seq<TargetNode>, out_dir: Seq<char>) -> Seq<Seq<char>> {
        joined_all(out_dir, crate::graph::all_outputs(graph))
    }

    fn name(&self) -> &str {
        "native"
    }

    fn primary_outputs(&self, graph: &DependencyGraph, out_dir: &str) -> Vec<String> {
        self.all_outputs(graph, out_dir)
    }
}

} // verus!
