use vstd::prelude::*;

verus! {

// A modification time is given in nanoseconds since the Unix epoch; `None`
// stands for a path that does not exist.

/// The latest of `init` and the times of the paths that exist.
pub open spec fn latest(ts: Seq<Option<u128>>, init: u128) -> u128
    decreases ts.len(),
{
    if ts.len() == 0 {
        init
    } else {
        let m = latest(ts.drop_last(), init);
        match ts.last() {
            Some(t) => if t > m { t } else { m },
            None => m,
        }
    }
}

pub open spec fn all_present(ts: Seq<Option<u128>>) -> bool {
    forall|i: int| 0 <= i < ts.len() ==> (#[trigger] ts[i]).is_some()
}

/// The earliest of the times, all of which are present.
pub open spec fn oldest(ts: Seq<Option<u128>>) -> u128
    decreases ts.len(),
{
    if ts.len() <= 1 {
        if ts.len() == 1 { ts[0].unwrap() } else { 0 }
    } else {
        let m = oldest(ts.drop_last());
        let t = ts.last().unwrap();
        if t < m { t } else { m }
    }
}

/// Outputs are stale when there are none, when one is missing, or when the
/// latest input is strictly newer than the oldest output.
pub open spec fn stale(init: u128, inputs: Seq<Option<u128>>, outputs: Seq<Option<u128>>) -> bool {
    outputs.len() == 0 || !all_present(outputs) || latest(inputs, init) > oldest(outputs)
}

fn latest_time(ts: &[Option<u128>], init: u128) -> (r: u128)
    ensures
        r == latest(ts@, init),
{
    let mut m = init;
    let mut i: usize = 0;
    while i < ts.len()
        invariant
            i <= ts@.len(),
            m == latest(ts@.subrange(0, i as int), init),
        decreases ts@.len() - i,
    {
        proof {
            assert(ts@.subrange(0, i + 1).drop_last() =~= ts@.subrange(0, i as int));
        }
        if let Some(t) = ts[i] {
            if t > m {
                m = t;
            }
        }
        i += 1;
    }
    assert(ts@.subrange(0, ts@.len() as int) =~= ts@);
    m
}

fn oldest_time(ts: &[Option<u128>]) -> (r: u128)
    requires
        ts@.len() > 0,
        all_present(ts@),
    ensures
        r == oldest(ts@),
{
    let mut m = ts[0].unwrap();
    assert(ts@.subrange(0, 1).len() == 1);
    let mut i: usize = 1;
    while i < ts.len()
        invariant
            1 <= i <= ts@.len(),
            all_present(ts@),
            m == oldest(ts@.subrange(0, i as int)),
        decreases ts@.len() - i,
    {
        proof {
            assert(ts@.subrange(0, i + 1).drop_last() =~= ts@.subrange(0, i as int));
            assert(ts@[i as int].is_some());
        }
        let t = ts[i].unwrap();
        if t < m {
            m = t;
        }
        i += 1;
    }
    assert(ts@.subrange(0, ts@.len() as int) =~= ts@);
    m
}

/// Decides staleness of `outputs` against `inputs`, starting from the time `init`.
pub fn is_stale(init: u128, inputs: &[Option<u128>], outputs: &[Option<u128>]) -> (r: bool)
    ensures
        r == stale(init, inputs@, outputs@),
{
    if outputs.len() == 0 {
        return true;
    }
    let mut i: usize = 0;
    while i < outputs.len()
        invariant
            i <= outputs@.len(),
            forall|j: int| 0 <= j < i ==> (#[trigger] outputs@[j]).is_some(),
        decreases outputs@.len() - i,
    {
        if outputs[i].is_none() {
            return true;
        }
        i += 1;
    }
    latest_time(inputs, init) > oldest_time(outputs)
}

proof fn lemma_latest_bounds(ts: Seq<Option<u128>>, init: u128, i: int)
    requires
        0 <= i < ts.len(),
        ts[i].is_some(),
    ensures
        latest(ts, init) >= ts[i].unwrap(),
    decreases ts.len(),
{
    if i < ts.len() - 1 {
        lemma_latest_bounds(ts.drop_last(), init, i);
    }
}

proof fn lemma_oldest_le_first(ts: Seq<Option<u128>>)
    requires
        ts.len() > 0,
        all_present(ts),
    ensures
        oldest(ts) <= ts[0].unwrap(),
    decreases ts.len(),
{
    if ts.len() > 1 {
        lemma_oldest_le_first(ts.drop_last());
        assert(ts.drop_last()[0] == ts[0]);
    }
}

/// The verdict depends on the times alone: two calls on an unchanged
/// snapshot agree.
pub proof fn lemma_stale_idempotent(
    init: u128,
    inputs: Seq<Option<u128>>,
    outputs: Seq<Option<u128>>,
    init2: u128,
    inputs2: Seq<Option<u128>>,
    outputs2: Seq<Option<u128>>,
)
    requires
        init == init2,
        inputs == inputs2,
        outputs == outputs2,
    ensures
        stale(init, inputs, outputs) == stale(init2, inputs2, outputs2),
{
}

/// Touching one input to a time later than every output makes current
/// outputs stale.
pub proof fn lemma_stale_after_touch(
    init: u128,
    inputs: Seq<Option<u128>>,
    outputs: Seq<Option<u128>>,
    i: int,
    t: u128,
)
    requires
        !stale(init, inputs, outputs),
        0 <= i < inputs.len(),
        forall|j: int| 0 <= j < outputs.len() ==> (#[trigger] outputs[j]).unwrap() < t,
    ensures
        stale(init, inputs.update(i, Some(t)), outputs),
{
    let touched = inputs.update(i, Some(t));
    lemma_latest_bounds(touched, init, i);
    lemma_oldest_le_first(outputs);
}

/// A missing output is stale whatever the times.
pub proof fn lemma_missing_output_stale(
    init: u128,
    inputs: Seq<Option<u128>>,
    outputs: Seq<Option<u128>>,
    j: int,
)
    requires
        0 <= j < outputs.len(),
        outputs[j].is_none(),
    ensures
        stale(init, inputs, outputs),
{
}

} // verus!
