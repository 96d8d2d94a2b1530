use vstd::prelude::*;
use crate::config::texts;
use crate::graph::{clone_strings, clone_text, node_names, resolves, DependencyGraph};
use crate::order::{index_ranks, indices_wf, lemma_stuck_unranked, lists, stuck};

verus! {

/// What the executor returns on success: each node's name with the outputs its
/// action produced, in the manifest's order.
pub struct ExecutionResult {
    pub produced: Vec<(String, Vec<String>)>,
}

/// How many actions may run at once.
#[derive(Debug, Clone, Copy)]
pub struct BuildExecutor {
    workers: usize,
}

/// Relies on `num_cpus::get`: the number of logical CPUs, which its
/// documentation says is always at least 1.
#[verifier::external_body]
fn logical_cpus() -> (r: usize)
    ensures
        r >= 1,
{
    num_cpus::get()
}

impl BuildExecutor {
    pub closed spec fn spec_workers(&self) -> usize {
        self.workers
    }

    /// `parallelism` workers, or one per logical CPU when it is `None`.
    pub fn new(parallelism: Option<usize>) -> (r: BuildExecutor)
        requires
            parallelism != Some(0usize),
        ensures
            r.spec_workers() >= 1,
            parallelism.is_some() ==> r.spec_workers() == parallelism.unwrap(),
    {
        let workers = match parallelism {
            Some(w) => w,
            None => {
                let c = logical_cpus();
                if c < 1 { 1 } else { c }
            },
        };
        BuildExecutor { workers }
    }

    pub fn workers(&self) -> (r: usize)
        ensures
            r == self.spec_workers(),
    {
        self.workers
    }
}

/// Where a node stands during one run of the executor.
#[derive(Debug, Clone, Copy, PartialEq, Eq, Structural)]
pub enum NodeState {
    Pending,
    Queued,
    Done,
    Failed,
}

/// One step of a run, as the scheduler records it.
pub enum RunEvent {
    /// The node was handed out to run.
    Dispatched(usize),
    /// The node's action returned outputs.
    Succeeded(usize),
    /// The node's action returned an error.
    Failed(usize),
}

/// One dispatch event for each listed node, in order.
pub open spec fn dispatch_events(r: Seq<usize>) -> Seq<RunEvent> {
    r.map_values(|j: usize| RunEvent::Dispatched(j))
}

/// The log holds a dispatch of node `j`.
pub open spec fn was_dispatched(log: Seq<RunEvent>, j: int) -> bool {
    exists|p: int| 0 <= p < log.len() && log[p] == RunEvent::Dispatched(j as usize)
}

/// The scheduler as a value: each node's dependencies (as positions), its
/// state, the outputs it produced, and whether some action has failed.
pub struct ScheduleView {
    pub names: Seq<Seq<char>>,
    pub deps: Seq<Vec<usize>>,
    pub state: Seq<NodeState>,
    pub produced: Seq<Seq<Seq<char>>>,
    pub failed: bool,
    pub log: Seq<RunEvent>,
}

/// Every dependency of node `i` is done.
pub open spec fn deps_done(v: ScheduleView, i: int) -> bool {
    forall|k: int| 0 <= k < v.deps[i]@.len() ==> v.state[#[trigger] v.deps[i]@[k] as int] == NodeState::Done
}

/// The outputs of the listed nodes, concatenated in the order listed.
pub open spec fn gathered(deps: Seq<usize>, produced: Seq<Seq<Seq<char>>>) -> Seq<Seq<char>>
    decreases deps.len(),
{
    if deps.len() == 0 {
        seq![]
    } else {
        gathered(deps.drop_last(), produced) + produced[deps.last() as int]
    }
}

/// The coordinator's bookkeeping for one run: which nodes may be handed to a
/// worker, and what the finished ones produced.
pub struct Scheduler {
    names: Vec<String>,
    deps: Vec<Vec<usize>>,
    state: Vec<NodeState>,
    produced: Vec<Vec<String>>,
    failed: bool,
    log: Ghost<Seq<RunEvent>>,
    dispatched_at: Ghost<Seq<int>>,
    done_at: Ghost<Seq<int>>,
}

impl View for Scheduler {
    type V = ScheduleView;

    closed spec fn view(&self) -> ScheduleView {
        ScheduleView {
            names: texts(self.names@),
            deps: self.deps@,
            state: self.state@,
            produced: self.produced@.map_values(|v: Vec<String>| texts(v@)),
            failed: self.failed,
            log: self.log@,
        }
    }
}

impl Scheduler {
    closed spec fn core_wf(&self) -> bool {
        let n = self.deps@.len();
        &&& self.names@.len() == n
        &&& self.state@.len() == n
        &&& self.produced@.len() == n
        &&& indices_wf(self.deps@)
        &&& exists|rank: spec_fn(int) -> nat| index_ranks(self.deps@, rank)
        &&& forall|i: int| 0 <= i < n && #[trigger] self.state@[i] != NodeState::Pending ==> deps_done(self@, i)
        &&& !self.failed ==> forall|i: int| 0 <= i < n ==> #[trigger] self.state@[i] != NodeState::Failed
        &&& self.failed ==> exists|i: int| 0 <= i < n && #[trigger] self.state@[i] == NodeState::Failed
        &&& self.log_wf()
    }

    /// The log records the run: a node has a dispatch event exactly when it
    /// has left the pending state, a done node has a success event, each
    /// dependency succeeded before its dependent was dispatched, and nothing
    /// was dispatched after a failure.
    #[verifier::opaque]
    closed spec fn log_wf(&self) -> bool {
        let n = self.deps@.len();
        let log = self.log@;
        &&& self.dispatched_at@.len() == n
        &&& self.done_at@.len() == n
        &&& forall|i: int| 0 <= i < n && #[trigger] self.state@[i] != NodeState::Pending ==> 0 <= self.dispatched_at@[i] < log.len()
            && log[self.dispatched_at@[i]] == RunEvent::Dispatched(i as usize)
        &&& forall|p: int| 0 <= p < log.len() && (#[trigger] log[p]) is Dispatched ==> {
            let i = log[p]->Dispatched_0 as int;
            i < n && self.state@[i] != NodeState::Pending && self.dispatched_at@[i] == p
        }
        &&& forall|i: int| 0 <= i < n && #[trigger] self.state@[i] == NodeState::Done ==> 0 <= self.done_at@[i] < log.len()
            && log[self.done_at@[i]] == RunEvent::Succeeded(i as usize)
        &&& forall|i: int, k: int| 0 <= i < n && self.state@[i] != NodeState::Pending && 0 <= k < self.deps@[i]@.len()
            ==> self.done_at@[#[trigger] self.deps@[i]@[k] as int] < self.dispatched_at@[i]
        &&& !self.failed ==> forall|p: int| 0 <= p < log.len() ==> !((#[trigger] log[p]) is Failed)
        &&& forall|p: int, q: int| 0 <= p < q < log.len() && (#[trigger] log[p]) is Failed ==> !((#[trigger] log[q]) is Dispatched)
    }

    fn mark_done(&mut self, i: usize, outputs: Vec<String>)
        requires
            old(self).core_wf(),
            i < old(self)@.deps.len(),
            old(self)@.state[i as int] == NodeState::Queued,
        ensures
            final(self).core_wf(),
            final(self)@.names == old(self)@.names,
            final(self)@.deps == old(self)@.deps,
            final(self)@.produced == old(self)@.produced.update(i as int, texts(outputs@)),
            final(self)@.failed == old(self)@.failed,
            final(self)@.state == old(self)@.state.update(i as int, NodeState::Done),
            final(self)@.log == old(self)@.log.push(RunEvent::Succeeded(i)),
    {
        let ghost before = *self;
        proof { reveal(Scheduler::log_wf); }
        self.state.set(i, NodeState::Done);
        self.produced.set(i, outputs);
        proof {
            assert(self@.produced =~= before@.produced.update(i as int, texts(outputs@)));
            let pos = before.log@.len() as int;
            self.log = Ghost(before.log@.push(RunEvent::Succeeded(i)));
            self.done_at = Ghost(before.done_at@.update(i as int, pos));
            let n = self.deps@.len();
            assert forall|j: int| 0 <= j < n && #[trigger] self.state@[j] != NodeState::Pending implies deps_done(self@, j) by {
                assert(before.state@[j] != NodeState::Pending);
                assert(deps_done(before@, j));
                assert forall|k: int| 0 <= k < self@.deps[j]@.len() implies self@.state[#[trigger] self@.deps[j]@[k] as int] == NodeState::Done by {
                    assert(before@.state[before@.deps[j]@[k] as int] == NodeState::Done);
                }
            }
            if self.failed {
                let w = choose|w: int| 0 <= w < n && #[trigger] before.state@[w] == NodeState::Failed;
                assert(self.state@[w] == NodeState::Failed);
            }
            assert forall|j: int| 0 <= j < n && #[trigger] self.state@[j] != NodeState::Pending implies 0 <= self.dispatched_at@[j] < self.log@.len()
                && self.log@[self.dispatched_at@[j]] == RunEvent::Dispatched(j as usize) by {
                assert(before.state@[j] != NodeState::Pending);
            }
            assert forall|p: int| 0 <= p < self.log@.len() && (#[trigger] self.log@[p]) is Dispatched implies {
                let j = self.log@[p]->Dispatched_0 as int;
                j < n && self.state@[j] != NodeState::Pending && self.dispatched_at@[j] == p
            } by {
                assert(self.log@[p] == before.log@[p]);
                let j = before.log@[p]->Dispatched_0 as int;
                assert(before.state@[j] != NodeState::Pending);
            }
            assert forall|j: int| 0 <= j < n && #[trigger] self.state@[j] == NodeState::Done implies 0 <= self.done_at@[j] < self.log@.len()
                && self.log@[self.done_at@[j]] == RunEvent::Succeeded(j as usize) by {
                if j != i {
                    assert(before.state@[j] == NodeState::Done);
                }
            }
            assert forall|j: int, k: int| 0 <= j < n && self.state@[j] != NodeState::Pending && 0 <= k < self.deps@[j]@.len()
                implies self.done_at@[#[trigger] self.deps@[j]@[k] as int] < self.dispatched_at@[j] by {
                assert(before.state@[j] != NodeState::Pending);
                assert(deps_done(before@, j));
                let u = self.deps@[j]@[k] as int;
                assert(before.state@[u] == NodeState::Done);
            }
            if !self.failed {
                assert forall|p: int| 0 <= p < self.log@.len() implies !((#[trigger] self.log@[p]) is Failed) by {
                    if p < pos {
                        assert(self.log@[p] == before.log@[p]);
                    }
                }
            }
            assert forall|p: int, q: int| 0 <= p < q < self.log@.len() && (#[trigger] self.log@[p]) is Failed implies !((#[trigger] self.log@[q]) is Dispatched) by {
                assert(self.log@[p] == before.log@[p]);
                if q < pos {
                    assert(self.log@[q] == before.log@[q]);
                }
            }
        }
    }

    fn mark_failed(&mut self, i: usize)
        requires
            old(self).core_wf(),
            i < old(self)@.deps.len(),
            old(self)@.state[i as int] == NodeState::Queued,
        ensures
            final(self).core_wf(),
            final(self)@.names == old(self)@.names,
            final(self)@.deps == old(self)@.deps,
            final(self)@.produced == old(self)@.produced,
            final(self)@.failed,
            final(self)@.state == old(self)@.state.update(i as int, NodeState::Failed),
            final(self)@.log == old(self)@.log.push(RunEvent::Failed(i)),
    {
        let ghost before = *self;
        proof { reveal(Scheduler::log_wf); }
        self.state.set(i, NodeState::Failed);
        self.failed = true;
        proof {
            let pos = before.log@.len() as int;
            self.log = Ghost(before.log@.push(RunEvent::Failed(i)));
            let n = self.deps@.len();
            assert(self.state@[i as int] == NodeState::Failed);
            assert forall|j: int| 0 <= j < n && #[trigger] self.state@[j] != NodeState::Pending implies deps_done(self@, j) by {
                assert(before.state@[j] != NodeState::Pending);
                assert(deps_done(before@, j));
                assert forall|k: int| 0 <= k < self@.deps[j]@.len() implies self@.state[#[trigger] self@.deps[j]@[k] as int] == NodeState::Done by {
                    assert(before@.state[before@.deps[j]@[k] as int] == NodeState::Done);
                }
            }
            assert forall|j: int| 0 <= j < n && #[trigger] self.state@[j] != NodeState::Pending implies 0 <= self.dispatched_at@[j] < self.log@.len()
                && self.log@[self.dispatched_at@[j]] == RunEvent::Dispatched(j as usize) by {
                assert(before.state@[j] != NodeState::Pending);
            }
            assert forall|p: int| 0 <= p < self.log@.len() && (#[trigger] self.log@[p]) is Dispatched implies {
                let j = self.log@[p]->Dispatched_0 as int;
                j < n && self.state@[j] != NodeState::Pending && self.dispatched_at@[j] == p
            } by {
                assert(self.log@[p] == before.log@[p]);
                let j = before.log@[p]->Dispatched_0 as int;
                assert(before.state@[j] != NodeState::Pending);
            }
            assert forall|j: int| 0 <= j < n && #[trigger] self.state@[j] == NodeState::Done implies 0 <= self.done_at@[j] < self.log@.len()
                && self.log@[self.done_at@[j]] == RunEvent::Succeeded(j as usize) by {
                assert(before.state@[j] == NodeState::Done);
            }
            assert forall|j: int, k: int| 0 <= j < n && self.state@[j] != NodeState::Pending && 0 <= k < self.deps@[j]@.len()
                implies self.done_at@[#[trigger] self.deps@[j]@[k] as int] < self.dispatched_at@[j] by {
                assert(before.state@[j] != NodeState::Pending);
            }
            assert forall|p: int, q: int| 0 <= p < q < self.log@.len() && (#[trigger] self.log@[p]) is Failed implies !((#[trigger] self.log@[q]) is Dispatched) by {
                assert(self.log@[p] == before.log@[p]);
                if q < pos {
                    assert(self.log@[q] == before.log@[q]);
                }
            }
        }
    }

    fn mark_queued(&mut self, i: usize)
        requires
            old(self).core_wf(),
            !old(self).failed,
            i < old(self)@.deps.len(),
            old(self)@.state[i as int] == NodeState::Pending,
            deps_done(old(self)@, i as int),
        ensures
            final(self).core_wf(),
            final(self)@.names == old(self)@.names,
            final(self)@.deps == old(self)@.deps,
            final(self)@.produced == old(self)@.produced,
            final(self)@.failed == old(self)@.failed,
            final(self)@.state == old(self)@.state.update(i as int, NodeState::Queued),
            final(self)@.log == old(self)@.log.push(RunEvent::Dispatched(i)),
    {
        let ghost before = *self;
        proof { reveal(Scheduler::log_wf); }
        self.state.set(i, NodeState::Queued);
        proof {
            let pos = before.log@.len() as int;
            self.log = Ghost(before.log@.push(RunEvent::Dispatched(i)));
            self.dispatched_at = Ghost(before.dispatched_at@.update(i as int, pos));
            let n = self.deps@.len();
            assert forall|j: int| 0 <= j < n && #[trigger] self.state@[j] != NodeState::Pending implies deps_done(self@, j) by {
                if j != i {
                    assert(deps_done(before@, j));
                }
                assert forall|k: int| 0 <= k < self@.deps[j]@.len() implies self@.state[#[trigger] self@.deps[j]@[k] as int] == NodeState::Done by {
                    assert(before@.state[before@.deps[j]@[k] as int] == NodeState::Done);
                }
            }
            assert forall|j: int| 0 <= j < n && #[trigger] self.state@[j] != NodeState::Pending implies 0 <= self.dispatched_at@[j] < self.log@.len()
                && self.log@[self.dispatched_at@[j]] == RunEvent::Dispatched(j as usize) by {
                if j != i {
                    assert(before.state@[j] != NodeState::Pending);
                }
            }
            assert forall|p: int| 0 <= p < self.log@.len() && (#[trigger] self.log@[p]) is Dispatched implies {
                let j = self.log@[p]->Dispatched_0 as int;
                j < n && self.state@[j] != NodeState::Pending && self.dispatched_at@[j] == p
            } by {
                if p < pos {
                    assert(self.log@[p] == before.log@[p]);
                    let j = before.log@[p]->Dispatched_0 as int;
                    assert(before.state@[j] != NodeState::Pending);
                }
            }
            assert forall|j: int| 0 <= j < n && #[trigger] self.state@[j] == NodeState::Done implies 0 <= self.done_at@[j] < self.log@.len()
                && self.log@[self.done_at@[j]] == RunEvent::Succeeded(j as usize) by {
                assert(before.state@[j] == NodeState::Done);
            }
            assert forall|j: int, k: int| 0 <= j < n && self.state@[j] != NodeState::Pending && 0 <= k < self.deps@[j]@.len()
                implies self.done_at@[#[trigger] self.deps@[j]@[k] as int] < self.dispatched_at@[j] by {
                let u = self.deps@[j]@[k] as int;
                if j == i {
                    assert(before.state@[u] == NodeState::Done);
                } else {
                    assert(before.state@[j] != NodeState::Pending);
                }
            }
            assert forall|p: int| 0 <= p < self.log@.len() implies !((#[trigger] self.log@[p]) is Failed) by {
                if p < pos {
                    assert(self.log@[p] == before.log@[p]);
                }
            }
            assert forall|p: int, q: int| 0 <= p < q < self.log@.len() && (#[trigger] self.log@[p]) is Failed implies !((#[trigger] self.log@[q]) is Dispatched) by {
                assert(self.log@[p] == before.log@[p]);
            }
        }
    }

    /// Bookkeeping is consistent: a node left pending has an unfinished
    /// dependency, unless the run has failed.
    pub closed spec fn wf(&self) -> bool {
        &&& self.core_wf()
        &&& !self.failed ==> forall|i: int|
            0 <= i < self.deps@.len() && #[trigger] self.state@[i] == NodeState::Pending ==> !deps_done(self@, i)
    }

    fn all_deps_done(&self, i: usize) -> (r: bool)
        requires
            self.core_wf(),
            i < self@.deps.len(),
        ensures
            r == deps_done(self@, i as int),
    {
        let di = &self.deps[i];
        let mut k: usize = 0;
        while k < di.len()
            invariant
                self.core_wf(),
                i < self@.deps.len(),
                *di == self@.deps[i as int],
                k <= di@.len(),
                forall|q: int| 0 <= q < k ==> self@.state[#[trigger] di@[q] as int] == NodeState::Done,
            decreases di@.len() - k,
        {
            assert(di@[k as int] < self@.deps.len());
            if self.state[di[k]] != NodeState::Done {
                return false;
            }
            k += 1;
        }
        true
    }

    /// Queues every pending node whose dependencies are all done.
    fn dispatch(&mut self) -> (r: Vec<usize>)
        requires
            old(self).core_wf(),
            !old(self)@.failed,
        ensures
            final(self).wf(),
            final(self)@.names == old(self)@.names,
            final(self)@.deps == old(self)@.deps,
            final(self)@.produced == old(self)@.produced,
            final(self)@.failed == old(self)@.failed,
            final(self)@.log == old(self)@.log + dispatch_events(r@),
            forall|j: int| 0 <= j < old(self)@.deps.len() ==> #[trigger] final(self)@.state[j] == if old(self)@.state[j]
                == NodeState::Pending && deps_done(old(self)@, j) {
                NodeState::Queued
            } else {
                old(self)@.state[j]
            },
            forall|p: int| 0 <= p < r@.len() ==> #[trigger] r@[p] < old(self)@.deps.len()
                && old(self)@.state[r@[p] as int] == NodeState::Pending && deps_done(old(self)@, r@[p] as int),
            forall|j: int| 0 <= j < old(self)@.deps.len() && old(self)@.state[j] == NodeState::Pending && deps_done(old(self)@, j)
                ==> #[trigger] lists(r@, j),
            forall|p: int, q: int| 0 <= p < q < r@.len() ==> #[trigger] r@[p] < #[trigger] r@[q],
    {
        let ghost start = self@;
        assert(start.log + dispatch_events(Seq::<usize>::empty()) =~= start.log);
        let n = self.deps.len();
        let mut r: Vec<usize> = Vec::new();
        let mut i: usize = 0;
        while i < n
            invariant
                n == self@.deps.len(),
                i <= n,
                self.core_wf(),
                !self.failed,
                self@.names == start.names,
                self@.deps == start.deps,
                self@.produced == start.produced,
                self@.failed == start.failed,
                self@.log == start.log + dispatch_events(r@),
                forall|j: int| 0 <= j < n ==> (#[trigger] self@.state[j] == NodeState::Done) == (start.state[j] == NodeState::Done),
                forall|j: int| 0 <= j < n ==> deps_done(self@, j) == deps_done(start, j),
                forall|j: int| 0 <= j < i ==> #[trigger] self@.state[j] == if start.state[j] == NodeState::Pending && deps_done(start, j) {
                    NodeState::Queued
                } else {
                    start.state[j]
                },
                forall|j: int| i <= j < n ==> #[trigger] self@.state[j] == start.state[j],
                forall|p: int| 0 <= p < r@.len() ==> #[trigger] r@[p] < i
                    && start.state[r@[p] as int] == NodeState::Pending && deps_done(start, r@[p] as int),
                forall|j: int| 0 <= j < i && start.state[j] == NodeState::Pending && deps_done(start, j) ==> #[trigger] lists(r@, j),
                forall|p: int, q: int| 0 <= p < q < r@.len() ==> #[trigger] r@[p] < #[trigger] r@[q],
            decreases n - i,
        {
            if self.state[i] == NodeState::Pending && self.all_deps_done(i) {
                let ghost before = self@;
                self.mark_queued(i);
                proof {
                    assert(self@.deps == before.deps);
                    assert forall|j: int| 0 <= j < n implies deps_done(self@, j) == deps_done(before, j) by {
                        if deps_done(before, j) {
                            assert forall|k: int| 0 <= k < self@.deps[j]@.len() implies self@.state[#[trigger] self@.deps[j]@[k] as int] == NodeState::Done by {
                                assert(before.state[before.deps[j]@[k] as int] == NodeState::Done);
                            }
                        }
                        if deps_done(self@, j) {
                            assert forall|k: int| 0 <= k < before.deps[j]@.len() implies before.state[#[trigger] before.deps[j]@[k] as int] == NodeState::Done by {
                                assert(self@.state[self@.deps[j]@[k] as int] == NodeState::Done);
                            }
                        }
                    }
                }
                let ghost rb = r@;
                r.push(i);
                proof {
                    assert(self@.log =~= start.log + dispatch_events(r@));
                    assert(r@[rb.len() as int] == i);
                    assert forall|j: int| 0 <= j <= i && start.state[j] == NodeState::Pending && deps_done(start, j) implies #[trigger] lists(r@, j) by {
                        if j < i {
                            assert(lists(rb, j));
                            let p = choose|p: int| 0 <= p < rb.len() && rb[p] == j;
                            assert(r@[p] == j);
                        }
                    }
                }
            } else {
                proof {
                    assert forall|j: int| 0 <= j <= i && start.state[j] == NodeState::Pending && deps_done(start, j) implies #[trigger] lists(r@, j) by {
                        if j < i {
                            assert(lists(r@, j));
                        }
                    }
                }
            }
            i += 1;
        }
        r
    }
}

impl Scheduler {
    /// Starts a run over `graph`: every node is pending, and those without
    /// dependencies are queued at once and returned, in the manifest's order.
    pub fn new(graph: &DependencyGraph) -> (r: (Scheduler, Vec<usize>))
        ensures
            r.0.wf(),
            r.0@.names == node_names(graph@),
            resolves(graph@, r.0@.deps),
            !r.0@.failed,
            forall|j: int| 0 <= j < graph@.len() ==> #[trigger] r.0@.state[j] == if graph@[j].dependencies@.len() == 0 {
                NodeState::Queued
            } else {
                NodeState::Pending
            },
            forall|p: int| 0 <= p < r.1@.len() ==> #[trigger] r.1@[p] < graph@.len()
                && graph@[r.1@[p] as int].dependencies@.len() == 0,
            forall|j: int| 0 <= j < graph@.len() && graph@[j].dependencies@.len() == 0 ==> #[trigger] lists(r.1@, j),
            forall|p: int, q: int| 0 <= p < q < r.1@.len() ==> #[trigger] r.1@[p] < #[trigger] r.1@[q],
            r.0@.log == dispatch_events(r.1@),
    {
        let nodes = graph.nodes();
        let deps = graph.dependency_indices();
        let n = nodes.len();
        let mut names: Vec<String> = Vec::new();
        let mut state: Vec<NodeState> = Vec::new();
        let mut produced: Vec<Vec<String>> = Vec::new();
        let mut i: usize = 0;
        while i < n
            invariant
                n == nodes@.len(),
                i <= n,
                names@.len() == i,
                state@.len() == i,
                produced@.len() == i,
                forall|j: int| 0 <= j < i ==> #[trigger] names@[j]@ == nodes@[j].name@,
                forall|j: int| 0 <= j < i ==> #[trigger] state@[j] == NodeState::Pending,
                forall|j: int| 0 <= j < i ==> (#[trigger] produced@[j])@.len() == 0,
            decreases n - i,
        {
            names.push(clone_text(&nodes[i].name));
            state.push(NodeState::Pending);
            produced.push(Vec::new());
            i += 1;
        }
        let mut s = Scheduler {
            names,
            deps,
            state,
            produced,
            failed: false,
            log: Ghost(Seq::empty()),
            dispatched_at: Ghost(Seq::new(n as nat, |i: int| 0int)),
            done_at: Ghost(Seq::new(n as nat, |i: int| 0int)),
        };
        proof {
            assert(s@.names =~= node_names(graph@));
        }
        proof { reveal(Scheduler::log_wf); }
        let ghost start = s@;
        let ready = s.dispatch();
        proof {
            assert forall|j: int| 0 <= j < n implies deps_done(start, j) == (graph@[j].dependencies@.len() == 0) by {
                if graph@[j].dependencies@.len() > 0 {
                    assert(start.state[start.deps[j]@[0] as int] == NodeState::Pending);
                }
            }
        }
        assert(s@.log =~= dispatch_events(ready@));
        (s, ready)
    }

    /// The outputs of node `i`'s dependencies, concatenated in declared order.
    pub fn dep_outputs(&self, i: usize) -> (r: Vec<String>)
        requires
            self.wf(),
            i < self@.deps.len(),
            self@.state[i as int] != NodeState::Pending,
        ensures
            texts(r@) == gathered(self@.deps[i as int]@, self@.produced),
    {
        let di = &self.deps[i];
        let mut r: Vec<String> = Vec::new();
        let mut k: usize = 0;
        while k < di.len()
            invariant
                self.wf(),
                i < self@.deps.len(),
                *di == self@.deps[i as int],
                k <= di@.len(),
                texts(r@) == gathered(di@.subrange(0, k as int), self@.produced),
            decreases di@.len() - k,
        {
            let d = di[k];
            assert(d < self@.deps.len());
            let mut part = clone_strings(&self.produced[d]);
            let ghost before = r@;
            r.append(&mut part);
            proof {
                assert(di@.subrange(0, k + 1).drop_last() =~= di@.subrange(0, k as int));
                assert(texts(r@) =~= texts(before) + texts(self.produced@[d as int]@));
            }
            k += 1;
        }
        assert(di@.subrange(0, di@.len() as int) =~= di@);
        r
    }

    /// Records that node `i`'s action succeeded with `outputs`. Unless the run
    /// has failed, queues and returns the nodes that this makes ready.
    pub fn complete(&mut self, i: usize, outputs: Vec<String>) -> (r: Vec<usize>)
        requires
            old(self).wf(),
            i < old(self)@.deps.len(),
            old(self)@.state[i as int] == NodeState::Queued,
        ensures
            final(self).wf(),
            final(self)@.names == old(self)@.names,
            final(self)@.deps == old(self)@.deps,
            final(self)@.failed == old(self)@.failed,
            final(self)@.produced == old(self)@.produced.update(i as int, texts(outputs@)),
            final(self)@.state[i as int] == NodeState::Done,
            final(self)@.log == old(self)@.log.push(RunEvent::Succeeded(i)) + dispatch_events(r@),
            forall|p: int, q: int| 0 <= p < q < r@.len() ==> #[trigger] r@[p] < #[trigger] r@[q],
            forall|j: int| 0 <= j < old(self)@.deps.len() && j != i ==> #[trigger] final(self)@.state[j] == if !old(self)@.failed
                && old(self)@.state[j] == NodeState::Pending && deps_done(final(self)@, j) {
                NodeState::Queued
            } else {
                old(self)@.state[j]
            },
            old(self)@.failed ==> r@.len() == 0,
            forall|p: int| 0 <= p < r@.len() ==> #[trigger] r@[p] < old(self)@.deps.len()
                && old(self)@.state[r@[p] as int] == NodeState::Pending && final(self)@.state[r@[p] as int] == NodeState::Queued,
            forall|j: int| 0 <= j < old(self)@.deps.len() && old(self)@.state[j] == NodeState::Pending
                && final(self)@.state[j] == NodeState::Queued ==> #[trigger] lists(r@, j),
    {
        let ghost before = self@;
        self.mark_done(i, outputs);
        proof {
            assert(self@.produced =~= before.produced.update(i as int, texts(outputs@)));
            assert forall|j: int| 0 <= j < before.deps.len() && deps_done(before, j) implies deps_done(self@, j) by {
                assert forall|k: int| 0 <= k < self@.deps[j]@.len() implies self@.state[#[trigger] self@.deps[j]@[k] as int] == NodeState::Done by {
                    assert(before.state[before.deps[j]@[k] as int] == NodeState::Done);
                }
            }
        }
        if self.failed {
            proof {
                let j = choose|j: int| 0 <= j < before.deps.len() && #[trigger] before.state[j] == NodeState::Failed;
                assert(self@.state[j] == NodeState::Failed);
            }
            let r: Vec<usize> = Vec::new();
            assert(self@.log =~= self@.log + dispatch_events(r@));
            return r;
        }
        let ghost mid = self@;
        let r = self.dispatch();
        proof {
            assert forall|j: int| 0 <= j < before.deps.len() && j != i implies deps_done(self@, j) == deps_done(mid, j) by {
                if deps_done(mid, j) {
                    assert forall|k: int| 0 <= k < self@.deps[j]@.len() implies self@.state[#[trigger] self@.deps[j]@[k] as int] == NodeState::Done by {
                        assert(mid.state[mid.deps[j]@[k] as int] == NodeState::Done);
                    }
                }
                if deps_done(self@, j) {
                    assert forall|k: int| 0 <= k < mid.deps[j]@.len() implies mid.state[#[trigger] mid.deps[j]@[k] as int] == NodeState::Done by {
                        let d = mid.deps[j]@[k] as int;
                        assert(self@.state[d] == NodeState::Done);
                        if mid.state[d] == NodeState::Pending {
                            assert(deps_done(mid, d));
                        }
                    }
                }
            }
            assert forall|j: int| 0 <= j < before.deps.len() && before.state[j] == NodeState::Pending
                && self@.state[j] == NodeState::Queued implies #[trigger] lists(r@, j) by {
                assert(mid.state[j] == NodeState::Pending);
            }
        }
        r
    }

    /// Records that node `i`'s action failed: the run is failed from now on.
    pub fn fail(&mut self, i: usize)
        requires
            old(self).wf(),
            i < old(self)@.deps.len(),
            old(self)@.state[i as int] == NodeState::Queued,
        ensures
            final(self).wf(),
            final(self)@.failed,
            final(self)@.names == old(self)@.names,
            final(self)@.deps == old(self)@.deps,
            final(self)@.produced == old(self)@.produced,
            final(self)@.state == old(self)@.state.update(i as int, NodeState::Failed),
            final(self)@.log == old(self)@.log.push(RunEvent::Failed(i)),
    {
        let ghost before = self@;
        self.mark_failed(i);
        proof {
            assert(self@.state[i as int] == NodeState::Failed);
            assert forall|j: int| 0 <= j < before.deps.len() && deps_done(before, j) implies deps_done(self@, j) by {
                assert forall|k: int| 0 <= k < self@.deps[j]@.len() implies self@.state[#[trigger] self@.deps[j]@[k] as int] == NodeState::Done by {
                    assert(before.state[before.deps[j]@[k] as int] == NodeState::Done);
                }
            }
        }
    }

    /// Some node is queued and has not reported back.
    pub fn in_flight(&self) -> (r: bool)
        requires
            self.wf(),
        ensures
            r == exists|j: int| 0 <= j < self@.deps.len() && #[trigger] self@.state[j] == NodeState::Queued,
    {
        let mut j: usize = 0;
        while j < self.state.len()
            invariant
                self.wf(),
                j <= self@.deps.len(),
                forall|q: int| 0 <= q < j ==> #[trigger] self@.state[q] != NodeState::Queued,
            decreases self@.deps.len() - j,
        {
            if self.state[j] == NodeState::Queued {
                return true;
            }
            j += 1;
        }
        false
    }

    /// The outputs of every node, once every node is done.
    pub fn result(&self) -> (r: Option<ExecutionResult>)
        requires
            self.wf(),
        ensures
            r.is_some() == forall|j: int| 0 <= j < self@.deps.len() ==> #[trigger] self@.state[j] == NodeState::Done,
            match r {
                Some(res) => {
                    &&& res.produced@.len() == self@.deps.len()
                    &&& forall|j: int| 0 <= j < self@.deps.len() ==> (#[trigger] res.produced@[j]).0@ == self@.names[j]
                        && texts(res.produced@[j].1@) == self@.produced[j]
                },
                None => true,
            },
    {
        let n = self.state.len();
        let mut out: Vec<(String, Vec<String>)> = Vec::new();
        let mut j: usize = 0;
        while j < n
            invariant
                self.wf(),
                n == self@.deps.len(),
                j <= n,
                out@.len() == j,
                forall|q: int| 0 <= q < j ==> #[trigger] self@.state[q] == NodeState::Done,
                forall|q: int| 0 <= q < j ==> (#[trigger] out@[q]).0@ == self@.names[q]
                    && texts(out@[q].1@) == self@.produced[q],
            decreases n - j,
        {
            if self.state[j] != NodeState::Done {
                return None;
            }
            out.push((clone_text(&self.names[j]), clone_strings(&self.produced[j])));
            j += 1;
        }
        Some(ExecutionResult { produced: out })
    }

    /// A node leaves the pending state only once all of its dependencies
    /// are done: no action starts before its dependencies have finished.
    pub proof fn lemma_started_after_deps(&self, i: int)
        requires
            self.wf(),
            0 <= i < self@.deps.len(),
            self@.state[i] != NodeState::Pending,
        ensures
            deps_done(self@, i),
    {
    }

    /// No node is dispatched twice in a run.
    pub proof fn lemma_dispatched_at_most_once(&self, p: int, q: int)
        requires
            self.wf(),
            0 <= p < self@.log.len(),
            0 <= q < self@.log.len(),
            self@.log[p] is Dispatched,
            self@.log[q] == self@.log[p],
        ensures
            p == q,
    {
        reveal(Scheduler::log_wf);
        assert(self.log@[q] is Dispatched);
    }

    /// A node is dispatched only after the action of each of its
    /// dependencies has succeeded.
    pub proof fn lemma_dispatched_after_deps(&self, p: int, k: int)
        requires
            self.wf(),
            0 <= p < self@.log.len(),
            self@.log[p] is Dispatched,
            0 <= k < self@.deps[self@.log[p]->Dispatched_0 as int]@.len(),
        ensures
            exists|q: int| 0 <= q < p && self@.log[q] == RunEvent::Succeeded(#[trigger] self@.deps[self@.log[p]->Dispatched_0 as int]@[k]),
    {
        reveal(Scheduler::log_wf);
        let v = self.log@[p]->Dispatched_0 as int;
        assert(self.log@[p] is Dispatched);
        let u = self.deps@[v]@[k] as int;
        assert(deps_done(self@, v));
        assert(self.state@[u] == NodeState::Done);
        assert(self.log@[self.done_at@[u]] == RunEvent::Succeeded(u as usize));
    }

    /// After an action has failed, no node is dispatched.
    pub proof fn lemma_no_dispatch_after_failure(&self, p: int, q: int)
        requires
            self.wf(),
            0 <= p < q < self@.log.len(),
            self@.log[p] is Failed,
        ensures
            !(self@.log[q] is Dispatched),
    {
        reveal(Scheduler::log_wf);
        assert(self.log@[p] is Failed);
    }

    /// When every node is done, every node was dispatched; with
    /// `lemma_dispatched_at_most_once`, each exactly once.
    pub proof fn lemma_every_node_dispatched(&self)
        requires
            self.wf(),
            forall|j: int| 0 <= j < self@.deps.len() ==> #[trigger] self@.state[j] == NodeState::Done,
        ensures
            forall|j: int| 0 <= j < self@.deps.len() ==> #[trigger] was_dispatched(self@.log, j),
    {
        reveal(Scheduler::log_wf);
        assert forall|j: int| 0 <= j < self@.deps.len() implies #[trigger] was_dispatched(self@.log, j) by {
            assert(self.state@[j] != NodeState::Pending);
            assert(self.log@[self.dispatched_at@[j]] == RunEvent::Dispatched(j as usize));
        }
    }

    /// Once an action has failed, the run has no result: the outputs gathered
    /// so far are never handed out.
    pub proof fn lemma_failed_run_has_no_result(&self)
        requires
            self.wf(),
            self@.failed,
        ensures
            !forall|j: int| 0 <= j < self@.deps.len() ==> #[trigger] self@.state[j] == NodeState::Done,
    {
        let j = choose|j: int| 0 <= j < self@.deps.len() && #[trigger] self@.state[j] == NodeState::Failed;
        assert(self@.state[j] != NodeState::Done);
    }

    /// With no failure and nothing in flight, every node is done: a run that
    /// does not fail runs every action.
    pub proof fn lemma_quiescent_all_done(&self)
        requires
            self.wf(),
            !self@.failed,
            forall|j: int| 0 <= j < self@.deps.len() ==> #[trigger] self@.state[j] != NodeState::Queued,
        ensures
            forall|j: int| 0 <= j < self@.deps.len() ==> #[trigger] self@.state[j] == NodeState::Done,
    {
        let v = self@;
        let done = v.state.map_values(|x: NodeState| x == NodeState::Done);
        assert forall|i: int| 0 <= i < v.deps.len() && !#[trigger] done[i] implies exists|k: int|
            0 <= k < v.deps[i]@.len() && !done[#[trigger] v.deps[i]@[k] as int] by {
            assert(v.state[i] != NodeState::Failed);
            assert(v.state[i] == NodeState::Pending);
            assert(!deps_done(v, i));
            let k = choose|k: int| 0 <= k < v.deps[i]@.len() && v.state[#[trigger] v.deps[i]@[k] as int] != NodeState::Done;
            assert(!done[v.deps[i]@[k] as int]);
        }
        assert(stuck(v.deps, done));
        assert forall|j: int| 0 <= j < v.deps.len() implies #[trigger] v.state[j] == NodeState::Done by {
            if v.state[j] != NodeState::Done {
                assert(!done[j]);
                lemma_stuck_unranked(v.deps, done, j);
            }
        }
    }
}

} // verus!
