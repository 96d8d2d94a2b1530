use vstd::prelude::*;

verus! {

/// Every dependency index names a node.
pub open spec fn indices_wf(d: Seq<Vec<usize>>) -> bool {
    forall|i: int, k: int| 0 <= i < d.len() && 0 <= k < d[i]@.len() ==> #[trigger] d[i]@[k] < d.len()
}

/// `rank` strictly grows from each node's dependencies to the node.
pub open spec fn index_ranks(d: Seq<Vec<usize>>, rank: spec_fn(int) -> nat) -> bool {
    forall|i: int, k: int|
        0 <= i < d.len() && 0 <= k < d[i]@.len() ==> rank(#[trigger] d[i]@[k] as int) < rank(i)
}

/// Node `i` stands somewhere in `order`.
pub open spec fn lists(order: Seq<usize>, i: int) -> bool {
    exists|p: int| 0 <= p < order.len() && order[p] == i
}

/// `order` lists every node once, each after all of its dependencies.
pub open spec fn is_topo(d: Seq<Vec<usize>>, order: Seq<usize>) -> bool {
    &&& forall|p: int| 0 <= p < order.len() ==> #[trigger] order[p] < d.len()
    &&& forall|p: int, q: int| 0 <= p < q < order.len() ==> #[trigger] order[p] != #[trigger] order[q]
    &&& forall|i: int| 0 <= i < d.len() ==> #[trigger] lists(order, i)
    &&& forall|p: int, q: int, k: int|
        0 <= p < order.len() && 0 <= q < order.len() && 0 <= k < d[order[p] as int]@.len()
            && #[trigger] order[q] == #[trigger] d[order[p] as int]@[k] ==> q < p
}

/// Every node not done has a dependency that is not done.
pub open spec fn stuck(d: Seq<Vec<usize>>, done: Seq<bool>) -> bool {
    forall|i: int|
        0 <= i < d.len() && !#[trigger] done[i] ==> exists|k: int|
            0 <= k < d[i]@.len() && !done[#[trigger] d[i]@[k] as int]
}

/// Node `i` lists node `j` among its dependencies.
pub open spec fn index_edge(d: Seq<Vec<usize>>, i: int, j: int) -> bool {
    exists|k: int| 0 <= k < d[i]@.len() && d[i]@[k] as int == j
}

/// `path` follows dependency edges and comes back to where it started.
pub open spec fn is_index_cycle(d: Seq<Vec<usize>>, path: Seq<int>) -> bool {
    &&& path.len() >= 2
    &&& path[0] == path.last()
    &&& forall|p: int| 0 <= p < path.len() ==> 0 <= #[trigger] path[p] < d.len()
    &&& forall|p: int| 0 <= p < path.len() - 1 ==> #[trigger] index_edge(d, path[p], path[p + 1])
}

/// Node `i` lies on a cycle of dependency edges.
pub open spec fn on_index_cycle(d: Seq<Vec<usize>>, i: int) -> bool {
    exists|path: Seq<int>| #[trigger] is_index_cycle(d, path) && path[0] == i
}

pub open spec fn count_true(s: Seq<bool>) -> nat
    decreases s.len(),
{
    if s.len() == 0 {
        0
    } else {
        count_true(s.drop_last()) + if s.last() { 1nat } else { 0nat }
    }
}

proof fn lemma_count_le(s: Seq<bool>)
    ensures
        count_true(s) <= s.len(),
    decreases s.len(),
{
    if s.len() > 0 {
        lemma_count_le(s.drop_last());
    }
}

proof fn lemma_count_set(s: Seq<bool>, i: int)
    requires
        0 <= i < s.len(),
        !s[i],
    ensures
        count_true(s.update(i, true)) == count_true(s) + 1,
    decreases s.len(),
{
    let t = s.update(i, true);
    if i == s.len() - 1 {
        assert(t.drop_last() =~= s.drop_last());
    } else {
        assert(t.drop_last() =~= s.drop_last().update(i, true));
        lemma_count_set(s.drop_last(), i);
    }
}

proof fn lemma_rank_above(d: Seq<Vec<usize>>, done: Seq<bool>, rank: spec_fn(int) -> nat, m: nat)
    requires
        indices_wf(d),
        done.len() == d.len(),
        index_ranks(d, rank),
        stuck(d, done),
    ensures
        forall|i: int| 0 <= i < d.len() && !done[i] ==> rank(i) > m,
    decreases m,
{
    if m > 0 {
        lemma_rank_above(d, done, rank, (m - 1) as nat);
    }
    assert forall|i: int| 0 <= i < d.len() && !done[i] implies rank(i) > m by {
        let k = choose|k: int| 0 <= k < d[i]@.len() && !done[#[trigger] d[i]@[k] as int];
        let j = d[i]@[k] as int;
        assert(rank(j) < rank(i));
    }
}

/// A stuck set of nodes that is not empty rules out every ranking.
pub proof fn lemma_stuck_unranked(d: Seq<Vec<usize>>, done: Seq<bool>, i0: int)
    requires
        indices_wf(d),
        done.len() == d.len(),
        stuck(d, done),
        0 <= i0 < d.len(),
        !done[i0],
    ensures
        !exists|rank: spec_fn(int) -> nat| index_ranks(d, rank),
{
    if exists|rank: spec_fn(int) -> nat| index_ranks(d, rank) {
        let rank = choose|rank: spec_fn(int) -> nat| index_ranks(d, rank);
        lemma_rank_above(d, done, rank, rank(i0));
    }
}

/// A dependency of `di` that is not done, given that one exists.
fn undone_dep(di: &Vec<usize>, done: &Vec<bool>) -> (r: usize)
    requires
        forall|k: int| 0 <= k < di@.len() ==> di@[k] < done@.len(),
        exists|k: int| 0 <= k < di@.len() && !done@[#[trigger] di@[k] as int],
    ensures
        exists|k: int| 0 <= k < di@.len() && di@[k] == r,
        r < done@.len(),
        !done@[r as int],
{
    let mut k: usize = 0;
    while k < di.len()
        invariant
            k <= di@.len(),
            forall|k: int| 0 <= k < di@.len() ==> di@[k] < done@.len(),
            forall|q: int| 0 <= q < k ==> done@[#[trigger] di@[q] as int],
        decreases di@.len() - k,
    {
        if !done[di[k]] {
            return di[k];
        }
        k += 1;
    }
    proof {
        let k = choose|k: int| 0 <= k < di@.len() && !done@[#[trigger] di@[k] as int];
        assert(done@[di@[k] as int]);
    }
    0
}

/// Starting from a node that is not done, follows undone dependencies until
/// the walk meets itself, and returns the node where it does: a node on a cycle.
fn cycle_node(d: &Vec<Vec<usize>>, done: &Vec<bool>, start: usize) -> (r: usize)
    requires
        indices_wf(d@),
        done@.len() == d@.len(),
        stuck(d@, done@),
        start < d@.len(),
        !done@[start as int],
    ensures
        r < d@.len(),
        on_index_cycle(d@, r as int),
{
    let n = d.len();
    let mut seen: Vec<bool> = Vec::new();
    while seen.len() < n
        invariant
            seen@.len() <= n,
            forall|i: int| 0 <= i < seen@.len() ==> !seen@[i],
        decreases n - seen@.len(),
    {
        seen.push(false);
    }
    proof {
        lemma_all_false(seen@);
        lemma_count_set(seen@, start as int);
    }
    seen.set(start, true);
    let ghost mut walk: Seq<int> = seq![start as int];
    let ghost mut at: Seq<int> = Seq::new(n as nat, |i: int| 0int);
    let mut cur = start;
    loop
        invariant
            n == d@.len(),
            indices_wf(d@),
            done@.len() == n,
            stuck(d@, done@),
            seen@.len() == n,
            at.len() == n,
            walk.len() >= 1,
            walk.last() == cur as int,
            cur < n,
            !done@[cur as int],
            count_true(seen@) == walk.len(),
            forall|p: int| 0 <= p < walk.len() ==> 0 <= #[trigger] walk[p] < n && seen@[walk[p]] && at[walk[p]] == p,
            forall|v: int| 0 <= v < n && #[trigger] seen@[v] ==> 0 <= at[v] < walk.len() && walk[at[v]] == v,
            forall|p: int| 0 <= p < walk.len() - 1 ==> #[trigger] index_edge(d@, walk[p], walk[p + 1]),
        decreases n - walk.len(),
    {
        proof { lemma_count_le(seen@); }
        assert(forall|k: int| 0 <= k < d@[cur as int]@.len() ==> #[trigger] d@[cur as int]@[k] < n);
        let next = undone_dep(&d[cur], done);
        assert(index_edge(d@, cur as int, next as int));
        if seen[next] {
            proof {
                let p0 = at[next as int];
                let path = walk.subrange(p0, walk.len() as int).push(next as int);
                assert forall|p: int| 0 <= p < path.len() - 1 implies #[trigger] index_edge(d@, path[p], path[p + 1]) by {
                    if p < walk.len() - p0 - 1 {
                        assert(path[p] == walk[p0 + p]);
                        assert(path[p + 1] == walk[p0 + p + 1]);
                        assert(index_edge(d@, walk[p0 + p], walk[p0 + p + 1]));
                    } else {
                        assert(path[p] == walk[walk.len() - 1]);
                    }
                }
                assert forall|p: int| 0 <= p < path.len() implies 0 <= #[trigger] path[p] < d@.len() by {
                    if p < walk.len() - p0 {
                        assert(path[p] == walk[p0 + p]);
                    }
                }
                assert(is_index_cycle(d@, path));
            }
            return next;
        }
        proof {
            lemma_count_set(seen@, next as int);
            at = at.update(next as int, walk.len() as int);
            walk = walk.push(next as int);
        }
        seen.set(next, true);
        cur = next;
        proof { lemma_count_le(seen@); }
    }
}

fn deps_done(di: &Vec<usize>, done: &Vec<bool>) -> (r: bool)
    requires
        forall|k: int| 0 <= k < di@.len() ==> di@[k] < done@.len(),
    ensures
        r == forall|k: int| 0 <= k < di@.len() ==> done@[#[trigger] di@[k] as int],
{
    let mut k: usize = 0;
    while k < di.len()
        invariant
            k <= di@.len(),
            forall|k: int| 0 <= k < di@.len() ==> di@[k] < done@.len(),
            forall|q: int| 0 <= q < k ==> done@[#[trigger] di@[q] as int],
        decreases di@.len() - k,
    {
        if !done[di[k]] {
            return false;
        }
        k += 1;
    }
    true
}

/// Orders the nodes so that each follows its dependencies, or returns a node that
/// lies on or behind a cycle.
pub fn topo_indices(d: &Vec<Vec<usize>>) -> (r: Result<Vec<usize>, usize>)
    requires
        indices_wf(d@),
    ensures
        match r {
            Ok(order) => is_topo(d@, order@),
            Err(i) => i < d@.len() && on_index_cycle(d@, i as int) && !exists|rank: spec_fn(int) -> nat| index_ranks(d@, rank),
        },
{
    let n = d.len();
    let mut done: Vec<bool> = Vec::new();
    while done.len() < n
        invariant
            done@.len() <= n,
            forall|i: int| 0 <= i < done@.len() ==> !done@[i],
        decreases n - done@.len(),
    {
        done.push(false);
    }
    proof {
        assert(count_true(done@) == 0) by {
            let s = done@;
            assert(forall|i: int| 0 <= i < s.len() ==> !s[i]);
            lemma_all_false(s);
        }
    }
    let mut order: Vec<usize> = Vec::new();
    let ghost mut pos: Seq<int> = Seq::new(n as nat, |i: int| 0int);
    loop
        invariant
            n == d@.len(),
            indices_wf(d@),
            done@.len() == n,
            pos.len() == n,
            order@.len() == count_true(done@),
            forall|p: int| 0 <= p < order@.len() ==> #[trigger] order@[p] < n && done@[order@[p] as int] && pos[order@[p] as int] == p,
            forall|i: int| 0 <= i < n && #[trigger] done@[i] ==> 0 <= pos[i] < order@.len() && order@[pos[i]] == i,
            forall|i: int, k: int| 0 <= i < n && done@[i] && 0 <= k < d@[i]@.len() ==> done@[#[trigger] d@[i]@[k] as int] && pos[d@[i]@[k] as int] < pos[i],
        decreases n - order@.len(),
    {
        proof { lemma_count_le(done@); }
        let mut progress = false;
        let ghost start = done@;
        let ghost start_len = order@.len();
        let mut i: usize = 0;
        while i < n
            invariant
                n == d@.len(),
                indices_wf(d@),
                i <= n,
                done@.len() == n,
                pos.len() == n,
                order@.len() == count_true(done@),
                order@.len() >= start_len,
                progress ==> order@.len() > start_len,
                !progress ==> done@ == start && forall|i2: int| 0 <= i2 < i && !#[trigger] done@[i2] ==> exists|k: int|
                    0 <= k < d@[i2]@.len() && !done@[#[trigger] d@[i2]@[k] as int],
                forall|p: int| 0 <= p < order@.len() ==> #[trigger] order@[p] < n && done@[order@[p] as int] && pos[order@[p] as int] == p,
                forall|i: int| 0 <= i < n && #[trigger] done@[i] ==> 0 <= pos[i] < order@.len() && order@[pos[i]] == i,
                forall|i: int, k: int| 0 <= i < n && done@[i] && 0 <= k < d@[i]@.len() ==> done@[#[trigger] d@[i]@[k] as int] && pos[d@[i]@[k] as int] < pos[i],
            decreases n - i,
        {
            assert(forall|k: int| 0 <= k < d@[i as int]@.len() ==> #[trigger] d@[i as int]@[k] < n);
            if !done[i] && deps_done(&d[i], &done) {
                proof { lemma_count_set(done@, i as int); }
                done.set(i, true);
                proof { pos = pos.update(i as int, order@.len() as int); }
                order.push(i);
                progress = true;
            }
            i += 1;
        }
        proof { lemma_count_le(done@); }
        if !progress {
            assert(stuck(d@, done@));
            let mut j: usize = 0;
            while j < n
                invariant
                    n == d@.len(),
                    indices_wf(d@),
                    stuck(d@, done@),
                    pos.len() == n,
                    forall|i: int| 0 <= i < n && #[trigger] done@[i] ==> 0 <= pos[i] < order@.len() && order@[pos[i]] == i,
                    j <= n,
                    done@.len() == n,
                    forall|q: int| 0 <= q < j ==> done@[q],
                decreases n - j,
            {
                if !done[j] {
                    proof { lemma_stuck_unranked(d@, done@, j as int); }
                    return Err(cycle_node(d, &done, j));
                }
                j += 1;
            }
            proof {
                assert forall|q: int| 0 <= q < n implies #[trigger] lists(order@, q) by {
                    assert(done@[q]);
                    assert(order@[pos[q]] == q);
                }
                assert forall|p: int, q: int| 0 <= p < q < order@.len() implies #[trigger] order@[p] != #[trigger] order@[q] by {
                    assert(pos[order@[p] as int] == p);
                    assert(pos[order@[q] as int] == q);
                }
                assert forall|p: int, q: int, k: int|
                    0 <= p < order@.len() && 0 <= q < order@.len() && 0 <= k < d@[order@[p] as int]@.len()
                        && #[trigger] order@[q] == #[trigger] d@[order@[p] as int]@[k] implies q < p by {
                    assert(pos[order@[q] as int] == q);
                    assert(pos[order@[p] as int] == p);
                }
            }
            return Ok(order);
        }
    }
}

proof fn lemma_all_false(s: Seq<bool>)
    requires
        forall|i: int| 0 <= i < s.len() ==> !s[i],
    ensures
        count_true(s) == 0,
    decreases s.len(),
{
    if s.len() > 0 {
        lemma_all_false(s.drop_last());
    }
}

} // verus!
