use vstd::prelude::*;
use vstd::string::*;
use crate::config::{texts, ProjectManifest, Target};
use crate::order::{index_edge, index_ranks, indices_wf, is_index_cycle, is_topo, lists, on_index_cycle, topo_indices};
use crate::paths::{join_all, joined_all};
use crate::staleness::{is_stale, stale};

verus! {

#[derive(Debug, Clone, Copy, PartialEq, Eq, Structural)]
pub enum TargetKind {
    Executable,
    StaticLibrary,
    SharedLibrary,
    CustomCommand,
}

/// A target as the graph schedules it.
#[derive(Debug, Clone)]
pub struct TargetNode {
    pub name: String,
    pub kind: TargetKind,
    pub sources: Vec<String>,
    pub dependencies: Vec<String>,
    pub outputs: Vec<String>,
    pub command: Option<String>,
}

/// Why a manifest does not make a graph.
#[derive(Debug, Clone)]
pub enum GraphError {
    DuplicateName { name: String },
    NoOutputs { name: String },
    UnknownDependency { dep: String, from: String },
    Cycle { node: String },
}

pub open spec fn kind_of(t: Target) -> TargetKind {
    match t {
        Target::Executable { .. } => TargetKind::Executable,
        Target::StaticLibrary { .. } => TargetKind::StaticLibrary,
        Target::SharedLibrary { .. } => TargetKind::SharedLibrary,
        Target::CustomCommand { .. } => TargetKind::CustomCommand,
    }
}

/// The outputs a target produces, relative to the build directory.
pub open spec fn outputs_of(t: Target) -> Seq<Seq<char>> {
    match t {
        Target::Executable { name, .. } => seq![name@],
        Target::StaticLibrary { name, .. } => seq!["lib"@ + name@ + ".a"@],
        Target::SharedLibrary { name, .. } => seq!["lib"@ + name@ + ".so"@],
        Target::CustomCommand { outputs, .. } => crate::config::texts(outputs@),
    }
}

/// `n` is the node that target `t` becomes.
pub open spec fn node_matches(n: TargetNode, t: Target) -> bool {
    &&& n.name@ == t.spec_name()
    &&& n.kind == kind_of(t)
    &&& n.sources@ == t.spec_sources()
    &&& n.dependencies@ == t.spec_deps()
    &&& crate::config::texts(n.outputs@) == outputs_of(t)
    &&& match t {
        Target::CustomCommand { command, .. } => n.command == Some(command),
        _ => n.command.is_none(),
    }
}

/// Two targets share a name.
pub open spec fn has_duplicate(ts: Seq<Target>) -> bool {
    exists|i: int, j: int|
        0 <= i < j < ts.len() && #[trigger] ts[i].spec_name() == #[trigger] ts[j].spec_name()
}

pub open spec fn names_of(ts: Seq<Target>) -> Seq<Seq<char>> {
    ts.map_values(|t: Target| t.spec_name())
}

pub open spec fn deps_of(ts: Seq<Target>) -> Seq<Seq<Seq<char>>> {
    ts.map_values(|t: Target| crate::config::texts(t.spec_deps()))
}

/// Target `i` names, among its dependencies, the name of target `j`.
pub open spec fn depends(names: Seq<Seq<char>>, deps: Seq<Seq<Seq<char>>>, i: int, j: int) -> bool {
    exists|k: int| 0 <= k < deps[i].len() && #[trigger] deps[i][k] == names[j]
}

/// `rank` strictly grows along every dependency edge.
pub open spec fn ranks(
    names: Seq<Seq<char>>,
    deps: Seq<Seq<Seq<char>>>,
    rank: spec_fn(int) -> nat,
) -> bool {
    forall|i: int, j: int|
        0 <= i < names.len() && 0 <= j < names.len() && #[trigger] depends(names, deps, i, j)
            ==> rank(j) < rank(i)
}

/// The dependency edges have no cycle: some numbering of the targets grows along them.
pub open spec fn acyclic(names: Seq<Seq<char>>, deps: Seq<Seq<Seq<char>>>) -> bool {
    exists|rank: spec_fn(int) -> nat| ranks(names, deps, rank)
}

pub open spec fn known(names: Seq<Seq<char>>, d: Seq<char>) -> bool {
    exists|j: int| 0 <= j < names.len() && names[j] == d
}

/// Dependency `k` of target `i` names no target.
pub open spec fn unknown_at(names: Seq<Seq<char>>, deps: Seq<Seq<Seq<char>>>, i: int, k: int) -> bool {
    0 <= i < deps.len() && 0 <= k < deps[i].len() && !known(names, deps[i][k])
}

pub open spec fn has_unknown(names: Seq<Seq<char>>, deps: Seq<Seq<Seq<char>>>) -> bool {
    exists|i: int, k: int| #[trigger] unknown_at(names, deps, i, k)
}

pub(crate) fn clone_strings(v: &Vec<String>) -> (r: Vec<String>)
    ensures
        r@ == v@,
{
    let mut r: Vec<String> = Vec::new();
    let mut i: usize = 0;
    while i < v.len()
        invariant
            i <= v.len(),
            r@ == v@.subrange(0, i as int),
        decreases v.len() - i,
    {
        r.push(v[i].clone());
        i += 1;
    }
    assert(r@ =~= v@);
    r
}

pub(crate) fn clone_text(s: &String) -> (r: String)
    ensures
        r == *s,
{
    s.clone()
}

fn library_file(name: &String, suffix: &str) -> (r: String)
    ensures
        r@ == "lib"@ + name@ + suffix@,
{
    let mut s = String::from_str("lib");
    proof {
        reveal_strlit("lib");
    }
    s.append(name.as_str());
    s.append(suffix);
    s
}

fn build_node(t: &Target) -> (n: TargetNode)
    ensures
        node_matches(n, *t),
{
    proof {
        reveal_strlit("lib");
        reveal_strlit(".a");
        reveal_strlit(".so");
    }
    match t {
        Target::Executable { name, sources, deps } => {
            let outputs = vec![clone_text(name)];
            assert(crate::config::texts(outputs@) =~= outputs_of(*t));
            TargetNode {
                name: clone_text(name),
                kind: TargetKind::Executable,
                sources: clone_strings(sources),
                dependencies: clone_strings(deps),
                outputs,
                command: None,
            }
        },
        Target::StaticLibrary { name, sources, deps } => {
            let outputs = vec![library_file(name, ".a")];
            assert(crate::config::texts(outputs@) =~= outputs_of(*t));
            TargetNode {
                name: clone_text(name),
                kind: TargetKind::StaticLibrary,
                sources: clone_strings(sources),
                dependencies: clone_strings(deps),
                outputs,
                command: None,
            }
        },
        Target::SharedLibrary { name, sources, deps } => {
            let outputs = vec![library_file(name, ".so")];
            assert(crate::config::texts(outputs@) =~= outputs_of(*t));
            TargetNode {
                name: clone_text(name),
                kind: TargetKind::SharedLibrary,
                sources: clone_strings(sources),
                dependencies: clone_strings(deps),
                outputs,
                command: None,
            }
        },
        Target::CustomCommand { name, command, outputs, deps, inputs } => {
            TargetNode {
                name: clone_text(name),
                kind: TargetKind::CustomCommand,
                sources: clone_strings(inputs),
                dependencies: clone_strings(deps),
                outputs: clone_strings(outputs),
                command: Some(clone_text(command)),
            }
        },
    }
}

pub open spec fn node_names(ns: Seq<TargetNode>) -> Seq<Seq<char>> {
    ns.map_values(|n: TargetNode| n.name@)
}

pub open spec fn node_deps(ns: Seq<TargetNode>) -> Seq<Seq<Seq<char>>> {
    ns.map_values(|n: TargetNode| crate::config::texts(n.dependencies@))
}

/// Position of the node called `name`, if any.
fn index_of(nodes: &Vec<TargetNode>, name: &String) -> (r: Option<usize>)
    ensures
        match r {
            Some(j) => j < nodes@.len() && nodes@[j as int].name@ == name@,
            None => forall|j: int| 0 <= j < nodes@.len() ==> nodes@[j].name@ != name@,
        },
{
    let mut j: usize = 0;
    while j < nodes.len()
        invariant
            j <= nodes@.len(),
            forall|q: int| 0 <= q < j ==> nodes@[q].name@ != name@,
        decreases nodes@.len() - j,
    {
        if nodes[j].name.eq(name) {
            return Some(j);
        }
        j += 1;
    }
    None
}

/// Names are unique, every dependency names a node, and the edges have no cycle.
pub open spec fn graph_wf(ns: Seq<TargetNode>) -> bool {
    &&& forall|i: int, j: int| 0 <= i < j < ns.len() ==> #[trigger] ns[i].name@ != #[trigger] ns[j].name@
    &&& !has_unknown(node_names(ns), node_deps(ns))
    &&& acyclic(node_names(ns), node_deps(ns))
    &&& forall|i: int| 0 <= i < ns.len() ==> (#[trigger] ns[i]).outputs@.len() > 0
}

/// The sources of all nodes, node by node.
pub open spec fn all_sources(ns: Seq<TargetNode>) -> Seq<Seq<char>>
    decreases ns.len(),
{
    if ns.len() == 0 {
        seq![]
    } else {
        all_sources(ns.drop_last()) + texts(ns.last().sources@)
    }
}

/// The outputs of all nodes, node by node.
pub open spec fn all_outputs(ns: Seq<TargetNode>) -> Seq<Seq<char>>
    decreases ns.len(),
{
    if ns.len() == 0 {
        seq![]
    } else {
        all_outputs(ns.drop_last()) + texts(ns.last().outputs@)
    }
}

/// `ns` holds, in order, the node of each target of `ts`.
pub open spec fn built_from(ns: Seq<TargetNode>, ts: Seq<Target>) -> bool {
    &&& ns.len() == ts.len()
    &&& forall|i: int| 0 <= i < ts.len() ==> #[trigger] node_matches(ns[i], ts[i])
}

pub open spec fn contains_node(ns: Seq<TargetNode>, n: TargetNode) -> bool {
    exists|i: int| 0 <= i < ns.len() && ns[i] == n
}

/// `r` lists every node of `ns` once, each after the nodes it depends on.
pub open spec fn is_linearization(ns: Seq<TargetNode>, r: Seq<TargetNode>) -> bool {
    &&& forall|p: int| 0 <= p < r.len() ==> #[trigger] contains_node(ns, r[p])
    &&& forall|i: int| 0 <= i < ns.len() ==> #[trigger] contains_node(r, ns[i])
    &&& forall|p: int, q: int| 0 <= p < q < r.len() ==> #[trigger] r[p].name@ != #[trigger] r[q].name@
    &&& forall|p: int, q: int, k: int|
        0 <= p < r.len() && 0 <= q < r.len() && 0 <= k < r[q].dependencies@.len()
            && #[trigger] r[q].dependencies@[k]@ == #[trigger] r[p].name@ ==> p < q
}

/// `d` gives, for each dependency of each node, the position of the node it names.
pub open spec fn resolves(ns: Seq<TargetNode>, d: Seq<Vec<usize>>) -> bool {
    &&& d.len() == ns.len()
    &&& forall|i: int| 0 <= i < ns.len() ==> #[trigger] d[i]@.len() == ns[i].dependencies@.len()
    &&& forall|i: int, k: int|
        0 <= i < ns.len() && 0 <= k < d[i]@.len() ==> #[trigger] d[i]@[k] < ns.len()
            && ns[d[i]@[k] as int].name@ == ns[i].dependencies@[k]@
}

proof fn lemma_rank_to_indices(ns: Seq<TargetNode>, d: Seq<Vec<usize>>, rank: spec_fn(int) -> nat)
    requires
        resolves(ns, d),
        ranks(node_names(ns), node_deps(ns), rank),
    ensures
        index_ranks(d, rank),
{
    assert forall|i: int, k: int| 0 <= i < d.len() && 0 <= k < d[i]@.len() implies rank(
        #[trigger] d[i]@[k] as int,
    ) < rank(i) by {
        let j = d[i]@[k] as int;
        assert(node_deps(ns)[i][k] == node_names(ns)[j]);
        assert(depends(node_names(ns), node_deps(ns), i, j));
    }
}

proof fn lemma_acyclic_from_order(ns: Seq<TargetNode>, d: Seq<Vec<usize>>, order: Seq<usize>)
    requires
        resolves(ns, d),
        is_topo(d, order),
        forall|i: int, j: int| 0 <= i < j < ns.len() ==> #[trigger] ns[i].name@ != #[trigger] ns[j].name@,
    ensures
        acyclic(node_names(ns), node_deps(ns)),
{
    let names = node_names(ns);
    let deps = node_deps(ns);
    let rank = |i: int| (choose|p: int| 0 <= p < order.len() && order[p] == i) as nat;
    assert forall|i: int, j: int|
        0 <= i < names.len() && 0 <= j < names.len() && #[trigger] depends(names, deps, i, j) implies rank(j) < rank(i) by {
        assert(lists(order, i));
        assert(lists(order, j));
        let p = choose|p: int| 0 <= p < order.len() && order[p] == i;
        let q = choose|q: int| 0 <= q < order.len() && order[q] == j;
        let k = choose|k: int| 0 <= k < deps[i].len() && #[trigger] deps[i][k] == names[j];
        let j2 = d[i]@[k] as int;
        assert(names[j2] == deps[i][k]);
        if j2 != j {
            if j2 < j {
                assert(ns[j2].name@ != ns[j].name@);
            } else {
                assert(ns[j].name@ != ns[j2].name@);
            }
        }
        assert(order[q] == d[order[p] as int]@[k]);
    }
    assert(ranks(names, deps, rank));
}

proof fn lemma_linearization(ns: Seq<TargetNode>, d: Seq<Vec<usize>>, order: Seq<usize>, r: Seq<TargetNode>)
    requires
        resolves(ns, d),
        is_topo(d, order),
        graph_wf(ns),
        r.len() == order.len(),
        forall|q: int| 0 <= q < r.len() ==> #[trigger] r[q] == ns[order[q] as int],
    ensures
        is_linearization(ns, r),
{
    assert forall|p: int| 0 <= p < r.len() implies #[trigger] contains_node(ns, r[p]) by {
        assert(ns[order[p] as int] == r[p]);
    }
    assert forall|i: int| 0 <= i < ns.len() implies #[trigger] contains_node(r, ns[i]) by {
        assert(lists(order, i));
        let p = choose|p: int| 0 <= p < order.len() && order[p] == i;
        assert(r[p] == ns[i]);
    }
    assert forall|p: int, q: int| 0 <= p < q < r.len() implies #[trigger] r[p].name@ != #[trigger] r[q].name@ by {
        let a = order[p] as int;
        let b = order[q] as int;
        assert(a != b);
        if a < b {
            assert(ns[a].name@ != ns[b].name@);
        } else {
            assert(ns[b].name@ != ns[a].name@);
        }
    }
    assert forall|p: int, q: int, k: int|
        0 <= p < r.len() && 0 <= q < r.len() && 0 <= k < r[q].dependencies@.len()
            && #[trigger] r[q].dependencies@[k]@ == #[trigger] r[p].name@ implies p < q by {
        let a = order[p] as int;
        let b = order[q] as int;
        let j = d[b]@[k] as int;
        assert(ns[j].name@ == ns[b].dependencies@[k]@);
        if j != a {
            if j < a {
                assert(ns[j].name@ != ns[a].name@);
            } else {
                assert(ns[a].name@ != ns[j].name@);
            }
        }
        assert(order[p] == d[order[q] as int]@[k]);
    }
}

/// Target `i` is the first, in manifest order, whose name repeats an earlier one.
pub open spec fn first_repeat(ts: Seq<Target>, i: int) -> bool {
    &&& 0 <= i < ts.len()
    &&& exists|j: int| 0 <= j < i && #[trigger] ts[j].spec_name() == ts[i].spec_name()
    &&& forall|p: int, q: int| 0 <= p < q < i ==> #[trigger] ts[p].spec_name() != #[trigger] ts[q].spec_name()
}

/// Some target declares no outputs.
pub open spec fn has_empty_outputs(ts: Seq<Target>) -> bool {
    exists|i: int| 0 <= i < ts.len() && #[trigger] outputs_of(ts[i]).len() == 0
}

/// `path` follows dependency edges and comes back to where it started.
pub open spec fn is_cycle(names: Seq<Seq<char>>, deps: Seq<Seq<Seq<char>>>, path: Seq<int>) -> bool {
    &&& path.len() >= 2
    &&& path[0] == path.last()
    &&& forall|p: int| 0 <= p < path.len() ==> 0 <= #[trigger] path[p] < names.len()
    &&& forall|p: int| 0 <= p < path.len() - 1 ==> #[trigger] depends(names, deps, path[p], path[p + 1])
}

/// Target `i` lies on a cycle of dependency edges.
pub open spec fn on_cycle(names: Seq<Seq<char>>, deps: Seq<Seq<Seq<char>>>, i: int) -> bool {
    exists|path: Seq<int>| #[trigger] is_cycle(names, deps, path) && path[0] == i
}

/// What building a graph from targets `ts` gives: duplicate names are
/// rejected first, then unknown dependencies, then cycles, then targets
/// without outputs.
pub open spec fn construction_outcome(ts: Seq<Target>, r: Result<DependencyGraph, GraphError>) -> bool {
    match r {
        Ok(g) => {
            &&& !has_duplicate(ts)
            &&& !has_empty_outputs(ts)
            &&& !has_unknown(names_of(ts), deps_of(ts))
            &&& acyclic(names_of(ts), deps_of(ts))
            &&& built_from(g@, ts)
            &&& graph_wf(g@)
        },
        Err(GraphError::DuplicateName { name }) => {
            &&& has_duplicate(ts)
            &&& exists|i: int| #[trigger] first_repeat(ts, i) && ts[i].spec_name() == name@
        },
        Err(GraphError::NoOutputs { name }) => {
            &&& !has_duplicate(ts)
            &&& !has_unknown(names_of(ts), deps_of(ts))
            &&& acyclic(names_of(ts), deps_of(ts))
            &&& exists|i: int|
                0 <= i < ts.len() && #[trigger] outputs_of(ts[i]).len() == 0 && ts[i].spec_name() == name@
                    && forall|q: int| 0 <= q < i ==> #[trigger] outputs_of(ts[q]).len() > 0
        },
        Err(GraphError::UnknownDependency { dep, from }) => {
            &&& !has_duplicate(ts)
            &&& exists|i: int, k: int|
                #[trigger] unknown_at(names_of(ts), deps_of(ts), i, k) && ts[i].spec_name() == from@
                    && deps_of(ts)[i][k] == dep@
        },
        Err(GraphError::Cycle { node }) => {
            &&& !has_duplicate(ts)
            &&& !has_unknown(names_of(ts), deps_of(ts))
            &&& !acyclic(names_of(ts), deps_of(ts))
            &&& exists|i: int| 0 <= i < ts.len() && ts[i].spec_name() == node@ && #[trigger] on_cycle(names_of(ts), deps_of(ts), i)
        },
    }
}

proof fn lemma_cycle_to_names(ns: Seq<TargetNode>, d: Seq<Vec<usize>>, i: int)
    requires
        resolves(ns, d),
        on_index_cycle(d, i),
    ensures
        on_cycle(node_names(ns), node_deps(ns), i),
{
    let names = node_names(ns);
    let deps = node_deps(ns);
    let path = choose|path: Seq<int>| #[trigger] is_index_cycle(d, path) && path[0] == i;
    assert forall|p: int| 0 <= p < path.len() - 1 implies #[trigger] depends(names, deps, path[p], path[p + 1]) by {
        assert(index_edge(d, path[p], path[p + 1]));
        let k = choose|k: int| 0 <= k < d[path[p]]@.len() && d[path[p]]@[k] as int == path[p + 1];
        assert(deps[path[p]][k] == names[path[p + 1]]);
    }
    assert(is_cycle(names, deps, path));
}

/// The nodes at the given positions, in that order.
pub open spec fn order_nodes(ns: Seq<TargetNode>, order: Seq<usize>) -> Seq<TargetNode> {
    order.map_values(|p: usize| ns[p as int])
}

/// The targets of a manifest as a dependency graph. Built once, never changed.
#[derive(Debug)]
pub struct DependencyGraph {
    nodes: Vec<TargetNode>,
    order: Vec<usize>,
}

impl View for DependencyGraph {
    type V = Seq<TargetNode>;

    closed spec fn view(&self) -> Seq<TargetNode> {
        self.nodes@
    }
}

/// Positions of the nodes that each node depends on, or the first dependency
/// that names no node, as (node, dependency).
fn resolve_dependencies(nodes: &Vec<TargetNode>) -> (r: Result<Vec<Vec<usize>>, (usize, usize)>)
    ensures
        match r {
            Ok(d) => resolves(nodes@, d@) && !has_unknown(node_names(nodes@), node_deps(nodes@)),
            Err((i, k)) => unknown_at(node_names(nodes@), node_deps(nodes@), i as int, k as int),
        },
{
    let ghost names = node_names(nodes@);
    let ghost deps = node_deps(nodes@);
    let mut d: Vec<Vec<usize>> = Vec::new();
    let mut i: usize = 0;
    while i < nodes.len()
        invariant
            i <= nodes@.len(),
            names == node_names(nodes@),
            deps == node_deps(nodes@),
            d@.len() == i,
            forall|i2: int| 0 <= i2 < i ==> #[trigger] d@[i2]@.len() == nodes@[i2].dependencies@.len(),
            forall|i2: int, k: int|
                0 <= i2 < i && 0 <= k < d@[i2]@.len() ==> #[trigger] d@[i2]@[k] < nodes@.len()
                    && nodes@[d@[i2]@[k] as int].name@ == nodes@[i2].dependencies@[k]@,
        decreases nodes@.len() - i,
    {
        let deps_i = &nodes[i].dependencies;
        let mut row: Vec<usize> = Vec::new();
        let mut k: usize = 0;
        while k < deps_i.len()
            invariant
                i < nodes@.len(),
                names == node_names(nodes@),
                deps == node_deps(nodes@),
                *deps_i == nodes@[i as int].dependencies,
                k <= deps_i@.len(),
                row@.len() == k,
                forall|k2: int| 0 <= k2 < k ==> #[trigger] row@[k2] < nodes@.len()
                    && nodes@[row@[k2] as int].name@ == deps_i@[k2]@,
            decreases deps_i@.len() - k,
        {
            match index_of(nodes, &deps_i[k]) {
                Some(j) => {
                    row.push(j);
                },
                None => {
                    proof {
                        assert(deps[i as int][k as int] == deps_i@[k as int]@);
                        assert forall|j: int| 0 <= j < names.len() implies names[j] != deps[i as int][k as int] by {
                            assert(names[j] == nodes@[j].name@);
                        }
                    }
                    return Err((i, k));
                },
            }
            k += 1;
        }
        d.push(row);
        i += 1;
    }
    proof {
        assert forall|i2: int, k: int| !#[trigger] unknown_at(names, deps, i2, k) by {
            if 0 <= i2 < deps.len() && 0 <= k < deps[i2].len() {
                let j = d@[i2]@[k] as int;
                assert(names[j] == deps[i2][k]);
            }
        }
    }
    Ok(d)
}

impl DependencyGraph {
    #[verifier::type_invariant]
    spec fn inv(&self) -> bool {
        &&& graph_wf(self.nodes@)
        &&& forall|p: int| 0 <= p < self.order@.len() ==> #[trigger] self.order@[p] < self.nodes@.len()
        &&& is_linearization(self.nodes@, order_nodes(self.nodes@, self.order@))
    }

    /// The order `topo_order` gives: fixed when the graph is built.
    pub closed spec fn spec_topo(&self) -> Seq<TargetNode> {
        order_nodes(self.nodes@, self.order@)
    }

    /// Builds the graph of a manifest's targets, rejecting duplicate names, then
    /// unknown dependencies, then cycles, then targets without outputs.
    pub fn from_manifest(manifest: &ProjectManifest) -> (r: Result<DependencyGraph, GraphError>)
        ensures
            construction_outcome(manifest.targets@, r),
    {
        let ghost ts = manifest.targets@;
        let mut nodes: Vec<TargetNode> = Vec::new();
        let mut i: usize = 0;
        while i < manifest.targets.len()
            invariant
                ts == manifest.targets@,
                i <= ts.len(),
                nodes@.len() == i,
                forall|q: int| 0 <= q < i ==> #[trigger] node_matches(nodes@[q], ts[q]),
                forall|p: int, q: int| 0 <= p < q < i ==> #[trigger] ts[p].spec_name() != #[trigger] ts[q].spec_name(),
            decreases ts.len() - i,
        {
            let node = build_node(&manifest.targets[i]);
            match index_of(&nodes, &node.name) {
                Some(j) => {
                    proof {
                        assert(node_matches(nodes@[j as int], ts[j as int]));
                        assert(ts[j as int].spec_name() == ts[i as int].spec_name());
                        assert(first_repeat(ts, i as int));
                    }
                    return Err(GraphError::DuplicateName { name: node.name });
                },
                None => {
                    proof {
                        assert forall|p: int| 0 <= p < i implies #[trigger] ts[p].spec_name() != ts[i as int].spec_name() by {
                            assert(node_matches(nodes@[p], ts[p]));
                        }
                    }
                    nodes.push(node);
                },
            }
            i += 1;
        }
        proof {
            assert forall|q: int| 0 <= q < ts.len() implies #[trigger] names_of(ts)[q] == node_names(nodes@)[q] by {
                assert(node_matches(nodes@[q], ts[q]));
            }
            assert(names_of(ts) =~= node_names(nodes@));
            assert forall|q: int| 0 <= q < ts.len() implies #[trigger] deps_of(ts)[q] == node_deps(nodes@)[q] by {
                assert(node_matches(nodes@[q], ts[q]));
            }
            assert(deps_of(ts) =~= node_deps(nodes@));
            assert forall|p: int, q: int| 0 <= p < q < nodes@.len() implies #[trigger] nodes@[p].name@ != #[trigger] nodes@[q].name@ by {
                assert(node_matches(nodes@[p], ts[p]));
                assert(node_matches(nodes@[q], ts[q]));
            }
        }
        assert(!has_duplicate(ts));
        let d = match resolve_dependencies(&nodes) {
            Ok(d) => d,
            Err((i, k)) => {
                let dep = clone_text(&nodes[i].dependencies[k]);
                let from = clone_text(&nodes[i].name);
                proof {
                    assert(node_matches(nodes@[i as int], ts[i as int]));
                    assert(unknown_at(names_of(ts), deps_of(ts), i as int, k as int));
                }
                return Err(GraphError::UnknownDependency { dep, from });
            },
        };
        match topo_indices(&d) {
            Ok(order) => {
                proof {
                    lemma_acyclic_from_order(nodes@, d@, order@);
                    assert(names_of(ts) == node_names(nodes@));
                    assert(deps_of(ts) == node_deps(nodes@));
                }
                let mut e: usize = 0;
                while e < nodes.len()
                    invariant
                        ts == manifest.targets@,
                        !has_duplicate(ts),
                        !has_unknown(names_of(ts), deps_of(ts)),
                        acyclic(names_of(ts), deps_of(ts)),
                        nodes@.len() == ts.len(),
                        e <= ts.len(),
                        forall|q: int| 0 <= q < ts.len() ==> #[trigger] node_matches(nodes@[q], ts[q]),
                        forall|q: int| 0 <= q < e ==> #[trigger] outputs_of(ts[q]).len() > 0,
                    decreases ts.len() - e,
                {
                    proof {
                        assert(node_matches(nodes@[e as int], ts[e as int]));
                        assert(texts(nodes@[e as int].outputs@).len() == nodes@[e as int].outputs@.len());
                    }
                    if nodes[e].outputs.len() == 0 {
                        return Err(GraphError::NoOutputs { name: clone_text(&nodes[e].name) });
                    }
                    e += 1;
                }
                proof {
                    assert forall|q: int| 0 <= q < nodes@.len() implies (#[trigger] nodes@[q]).outputs@.len() > 0 by {
                        assert(node_matches(nodes@[q], ts[q]));
                        assert(outputs_of(ts[q]).len() > 0);
                        assert(texts(nodes@[q].outputs@).len() == nodes@[q].outputs@.len());
                    }
                    assert(!has_empty_outputs(ts));
                }
                proof {
                    lemma_linearization(nodes@, d@, order@, order_nodes(nodes@, order@));
                }
                Ok(DependencyGraph { nodes, order })
            },
            Err(j) => {
                proof {
                    if acyclic(node_names(nodes@), node_deps(nodes@)) {
                        let rank = choose|rank: spec_fn(int) -> nat| ranks(node_names(nodes@), node_deps(nodes@), rank);
                        lemma_rank_to_indices(nodes@, d@, rank);
                    }
                    assert(names_of(ts)[j as int] == ts[j as int].spec_name());
                    lemma_cycle_to_names(nodes@, d@, j as int);
                }
                Err(GraphError::Cycle { node: clone_text(&nodes[j].name) })
            },
        }
    }

    /// Positions of each node's dependencies, in declared order.
    pub(crate) fn dependency_indices(&self) -> (r: Vec<Vec<usize>>)
        ensures
            resolves(self@, r@),
            indices_wf(r@),
            exists|rank: spec_fn(int) -> nat| index_ranks(r@, rank),
    {
        proof { use_type_invariant(self); }
        match resolve_dependencies(&self.nodes) {
            Ok(d) => {
                proof {
                    let rank = choose|rank: spec_fn(int) -> nat| ranks(node_names(self.nodes@), node_deps(self.nodes@), rank);
                    lemma_rank_to_indices(self.nodes@, d@, rank);
                }
                d
            },
            Err(_) => {
                proof { assert(has_unknown(node_names(self.nodes@), node_deps(self.nodes@))); }
                Vec::new()
            },
        }
    }

    /// The declared source of every node, joined onto `manifest_dir`, node by node
    /// in the manifest's order.
    pub fn source_paths(&self, manifest_dir: &str) -> (r: Vec<String>)
        ensures
            texts(r@) == joined_all(manifest_dir@, all_sources(self@)),
    {
        let mut r: Vec<String> = Vec::new();
        let mut i: usize = 0;
        while i < self.nodes.len()
            invariant
                i <= self.nodes@.len(),
                texts(r@) == joined_all(manifest_dir@, all_sources(self.nodes@.subrange(0, i as int))),
            decreases self.nodes@.len() - i,
        {
            let mut more = join_all(manifest_dir, self.nodes[i].sources.as_slice());
            let ghost before = r@;
            let ghost added = more@;
            r.append(&mut more);
            proof {
                let ns = self.nodes@.subrange(0, i + 1);
                assert(ns.drop_last() =~= self.nodes@.subrange(0, i as int));
                assert(texts(r@) =~= texts(before) + texts(added));
                assert(joined_all(manifest_dir@, all_sources(ns)) =~= joined_all(manifest_dir@, all_sources(ns.drop_last()))
                    + joined_all(manifest_dir@, texts(ns.last().sources@)));
            }
            i += 1;
        }
        assert(self.nodes@.subrange(0, self.nodes@.len() as int) =~= self.nodes@);
        r
    }

    /// Whether the backend outputs must be regenerated. `manifest_mtime` is the
    /// manifest's modification time; `source_mtimes` holds the times of the
    /// paths that `source_paths(manifest_dir)` returns, one for each and in the
    /// same order; `backend_outputs` holds the times of the backend outputs.
    /// A missing path is `None`.
    pub fn is_outdated(&self, manifest_mtime: u128, source_mtimes: &[Option<u128>], backend_outputs: &[Option<u128>]) -> (r: bool)
        ensures
            r == stale(manifest_mtime, source_mtimes@, backend_outputs@),
    {
        is_stale(manifest_mtime, source_mtimes, backend_outputs)
    }

    /// The nodes, one per target, in the manifest's order.
    pub fn nodes(&self) -> (r: &[TargetNode])
        ensures
            r@ == self@,
            graph_wf(self@),
    {
        proof { use_type_invariant(self); }
        self.nodes.as_slice()
    }

    /// Every node, each after the nodes it depends on. The order is fixed
    /// when the graph is built, so every call gives the same one.
    pub fn topo_order(&self) -> (r: Result<Vec<&TargetNode>, GraphError>)
        ensures
            match r {
                Ok(v) => v@.map_values(|n: &TargetNode| *n) == self.spec_topo() && is_linearization(self@, self.spec_topo()),
                Err(_) => false,
            },
    {
        proof { use_type_invariant(self); }
        let mut r: Vec<&TargetNode> = Vec::new();
        let mut p: usize = 0;
        while p < self.order.len()
            invariant
                p <= self.order@.len(),
                r@.len() == p,
                forall|q: int| 0 <= q < self.order@.len() ==> #[trigger] self.order@[q] < self.nodes@.len(),
                forall|q: int| 0 <= q < p ==> #[trigger] r@[q] == self.nodes@[self.order@[q] as int],
            decreases self.order@.len() - p,
        {
            r.push(&self.nodes[self.order[p]]);
            p += 1;
        }
        assert(r@.map_values(|n: &TargetNode| *n) =~= self.spec_topo());
        Ok(r)
    }
}

/// `topo_order` is stable: two calls on one graph give the same order.
pub proof fn lemma_topo_order_stable(g: &DependencyGraph, first: Seq<TargetNode>, second: Seq<TargetNode>)
    requires
        first == g.spec_topo(),
        second == g.spec_topo(),
    ensures
        first == second,
{
}

pub open spec fn valid_targets(ts: Seq<Target>) -> bool {
    !has_duplicate(ts) && !has_empty_outputs(ts) && !has_unknown(names_of(ts), deps_of(ts)) && acyclic(
        names_of(ts),
        deps_of(ts),
    )
}

/// A valid manifest gives a graph with exactly one node per target: node `i`
/// is target `i`, and no two nodes share a name.
pub proof fn lemma_valid_manifest_builds(ts: Seq<Target>, r: Result<DependencyGraph, GraphError>)
    requires
        construction_outcome(ts, r),
        valid_targets(ts),
    ensures
        r is Ok,
        built_from(r->Ok_0@, ts),
        forall|i: int, j: int| 0 <= i < ts.len() && 0 <= j < ts.len() && #[trigger] r->Ok_0@[i].name@ == #[trigger] ts[j].spec_name() ==> i == j,
{
    let g = r->Ok_0;
    assert forall|i: int, j: int| 0 <= i < ts.len() && 0 <= j < ts.len() && #[trigger] g@[i].name@ == #[trigger] ts[j].spec_name() implies i == j by {
        assert(node_matches(g@[i], ts[i]));
        if i < j {
            assert(!(ts[i].spec_name() == ts[j].spec_name()));
        } else if j < i {
            assert(!(ts[j].spec_name() == ts[i].spec_name()));
        }
    }
}

/// A manifest in which two targets share a name is rejected as a duplicate.
pub proof fn lemma_duplicate_rejected(ts: Seq<Target>, r: Result<DependencyGraph, GraphError>)
    requires
        construction_outcome(ts, r),
        has_duplicate(ts),
    ensures
        r matches Err(GraphError::DuplicateName { .. }),
{
}

/// A manifest with distinct names, known dependencies and no cycle in which
/// some target declares no outputs is rejected for that.
pub proof fn lemma_no_outputs_rejected(ts: Seq<Target>, r: Result<DependencyGraph, GraphError>)
    requires
        construction_outcome(ts, r),
        !has_duplicate(ts),
        !has_unknown(names_of(ts), deps_of(ts)),
        acyclic(names_of(ts), deps_of(ts)),
        has_empty_outputs(ts),
    ensures
        r matches Err(GraphError::NoOutputs { .. }),
{
}

/// A manifest whose names are distinct and that names an unknown dependency
/// is rejected for that.
pub proof fn lemma_unknown_rejected(ts: Seq<Target>, r: Result<DependencyGraph, GraphError>)
    requires
        construction_outcome(ts, r),
        !has_duplicate(ts),
        has_unknown(names_of(ts), deps_of(ts)),
    ensures
        r matches Err(GraphError::UnknownDependency { .. }),
{
}

/// A manifest with distinct names and known dependencies whose edges hold a
/// cycle is rejected as cyclic, naming a target that lies on a cycle.
pub proof fn lemma_cycle_rejected(ts: Seq<Target>, r: Result<DependencyGraph, GraphError>)
    requires
        construction_outcome(ts, r),
        !has_duplicate(ts),
        !has_unknown(names_of(ts), deps_of(ts)),
        !acyclic(names_of(ts), deps_of(ts)),
    ensures
        r matches Err(GraphError::Cycle { .. }),
        r matches Err(GraphError::Cycle { node }) ==> exists|i: int|
            0 <= i < ts.len() && ts[i].spec_name() == node@ && #[trigger] on_cycle(names_of(ts), deps_of(ts), i),
{
}

/// A target that lists itself among its dependencies makes a cycle.
pub proof fn lemma_self_loop_cyclic(ts: Seq<Target>, i: int, k: int)
    requires
        0 <= i < ts.len(),
        0 <= k < ts[i].spec_deps().len(),
        ts[i].spec_deps()[k]@ == ts[i].spec_name(),
    ensures
        !acyclic(names_of(ts), deps_of(ts)),
{
    let names = names_of(ts);
    let deps = deps_of(ts);
    assert(deps[i][k] == names[i]);
    assert(depends(names, deps, i, i));
}

} // verus!
