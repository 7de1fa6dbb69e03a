//! The order in which tasks are scheduled, as a function of the registry.
//!
//! The order is built from a frontier of ready tasks that is served first in,
//! first out. It starts with the tasks that wait for nothing, in registration
//! order. Serving a task releases the tasks whose last missing dependency it
//! was; they join the back of the frontier, again in registration order.

use crate::graph::depends_on;
use crate::graph::names_distinct;
use crate::graph::TaskSpec;
use vstd::prelude::*;

verus! {

/// The names of the tasks at the positions listed in `done`.
pub open spec fn names_in(tasks: Seq<TaskSpec>, done: Seq<int>) -> Set<Seq<char>> {
    Set::new(
        |name: Seq<char>| exists|k: int| 0 <= k < done.len() && tasks[#[trigger] done[k]].name == name,
    )
}

/// Every dependency of task `j` is the name of a task listed in `done`.
pub open spec fn is_ready(tasks: Seq<TaskSpec>, j: int, done: Seq<int>) -> bool {
    forall|p: int|
        0 <= p < tasks[j].dependencies.len() ==> names_in(tasks, done).contains(
            #[trigger] tasks[j].dependencies[p],
        )
}

/// The positions below `n` that satisfy `pred`, in increasing order.
pub open spec fn positions_where(n: nat, pred: spec_fn(int) -> bool) -> Seq<int>
    decreases n,
{
    if n == 0 {
        Seq::empty()
    } else if pred(n - 1) {
        positions_where((n - 1) as nat, pred).push(n - 1)
    } else {
        positions_where((n - 1) as nat, pred)
    }
}

/// Task `j` waits for nothing.
pub open spec fn is_seed(tasks: Seq<TaskSpec>) -> spec_fn(int) -> bool {
    |j: int| tasks[j].dependencies.len() == 0
}

/// Task `j` waits for task `t`, and with `done`, which lists `t`, all its
/// dependencies are met.
pub open spec fn is_released(tasks: Seq<TaskSpec>, done: Seq<int>, t: int) -> spec_fn(int) -> bool {
    |j: int| depends_on(tasks, j, t) && is_ready(tasks, j, done)
}

/// The initial frontier: the tasks without dependencies, in registration
/// order.
pub open spec fn seeds(tasks: Seq<TaskSpec>) -> Seq<int> {
    positions_where(tasks.len(), is_seed(tasks))
}

/// The tasks that become ready when `t` is served as the last entry of
/// `done`, in registration order.
pub open spec fn released_by(tasks: Seq<TaskSpec>, done: Seq<int>, t: int) -> Seq<int> {
    positions_where(tasks.len(), is_released(tasks, done, t))
}

/// Serves the frontier until it is empty and returns the tasks in the order
/// in which they were served, `done` first. A run from a state that meets
/// `run_invariant` has an empty frontier by the time every task is served,
/// so the bound on `done` only makes the definition well founded.
pub open spec fn run_frontier(tasks: Seq<TaskSpec>, done: Seq<int>, frontier: Seq<int>) -> Seq<int>
    decreases tasks.len() - done.len(),
{
    if frontier.len() == 0 || done.len() >= tasks.len() {
        done
    } else {
        let t = frontier[0];
        let served = done.push(t);
        run_frontier(tasks, served, frontier.drop_first() + released_by(tasks, served, t))
    }
}

/// The positions of the tasks that can be scheduled, in scheduling order.
pub open spec fn schedule_order(tasks: Seq<TaskSpec>) -> Seq<int> {
    run_frontier(tasks, Seq::empty(), seeds(tasks))
}

/// The time that the tasks listed in `order` take when run back to back.
pub open spec fn elapsed(tasks: Seq<TaskSpec>, order: Seq<int>) -> nat
    decreases order.len(),
{
    if order.len() == 0 {
        0
    } else {
        elapsed(tasks, order.drop_last()) + tasks[order.last()].duration
    }
}

/// The timeline of `order`: for each task its name, the time at which it
/// starts, which is when all tasks before it have finished, and its duration.
pub open spec fn timeline(tasks: Seq<TaskSpec>, order: Seq<int>) -> Seq<(Seq<char>, nat, nat)> {
    Seq::new(
        order.len(),
        |k: int| (tasks[order[k]].name, elapsed(tasks, order.take(k)), tasks[order[k]].duration),
    )
}

/// `s` lists positions below `n`, none of them twice.
pub open spec fn distinct_positions(s: Seq<int>, n: nat) -> bool {
    &&& forall|k: int| 0 <= k < s.len() ==> 0 <= #[trigger] s[k] < n
    &&& s.no_duplicates()
}

/// What holds of the served tasks and the frontier throughout a run: no task
/// is listed twice, each served task was ready when it was served, and the
/// listed tasks are exactly the ready ones.
pub open spec fn run_invariant(tasks: Seq<TaskSpec>, done: Seq<int>, frontier: Seq<int>) -> bool {
    &&& distinct_positions(done + frontier, tasks.len())
    &&& forall|p: int| 0 <= p < done.len() ==> is_ready(tasks, #[trigger] done[p], done.take(p))
    &&& forall|j: int|
        0 <= j < tasks.len() ==> (is_ready(tasks, j, done) <==> #[trigger] (done + frontier).contains(
            j,
        ))
}

/// Serving one more task appends its entry to the timeline; it starts when
/// the tasks before it have finished.
pub proof fn lemma_timeline_push(tasks: Seq<TaskSpec>, done: Seq<int>, t: int)
    ensures
        elapsed(tasks, done.push(t)) == elapsed(tasks, done) + tasks[t].duration,
        timeline(tasks, done.push(t)) == timeline(tasks, done).push(
            (tasks[t].name, elapsed(tasks, done), tasks[t].duration),
        ),
{
    let served = done.push(t);
    assert(served.drop_last() =~= done);
    assert forall|k: int| 0 <= k <= done.len() implies #[trigger] served.take(k) == done.take(k) by {
        assert(served.take(k) =~= done.take(k));
    }
    assert(done.take(done.len() as int) =~= done);
    assert(timeline(tasks, served) =~= timeline(tasks, done).push(
        (tasks[t].name, elapsed(tasks, done), tasks[t].duration),
    ));
}

/// What `positions_where` holds, and in which order.
pub proof fn lemma_positions_where(n: nat, pred: spec_fn(int) -> bool)
    ensures
        forall|j: int| #[trigger]
            positions_where(n, pred).contains(j) <==> 0 <= j < n && pred(j),
        forall|k: int, l: int|
            0 <= k < l < positions_where(n, pred).len() ==> positions_where(n, pred)[k]
                < positions_where(n, pred)[l],
        positions_where(n, pred).len() <= n,
    decreases n,
{
    let s = positions_where(n, pred);
    if n > 0 {
        let rest = positions_where((n - 1) as nat, pred);
        lemma_positions_where((n - 1) as nat, pred);
        assert forall|j: int| #[trigger] s.contains(j) <==> 0 <= j < n && pred(j) by {
            if s.contains(j) {
                let k = choose|k: int| 0 <= k < s.len() && s[k] == j;
                if k < rest.len() {
                    assert(rest[k] == j);
                    assert(rest.contains(j));
                }
            }
            if 0 <= j < n && pred(j) {
                if j == n - 1 {
                    assert(s[s.len() - 1] == j);
                } else {
                    assert(rest.contains(j));
                    let k = choose|k: int| 0 <= k < rest.len() && rest[k] == j;
                    assert(s[k] == j);
                }
            }
        }
        assert forall|k: int, l: int| 0 <= k < l < s.len() implies s[k] < s[l] by {
            if l == rest.len() {
                assert(rest.contains(rest[k]));
            }
        }
    }
}

/// A list of distinct positions below `n` has at most `n` entries, and with
/// `n` entries it lists every position.
pub proof fn lemma_distinct_positions_len(s: Seq<int>, n: nat)
    requires
        distinct_positions(s, n),
    ensures
        s.len() <= n,
        s.len() == n ==> forall|j: int| 0 <= j < n ==> s.contains(j),
{
    let range = vstd::set_lib::set_int_range(0, n as int);
    vstd::set_lib::lemma_int_range(0, n as int);
    s.unique_seq_to_set();
    assert(s.to_set().subset_of(range)) by {
        assert forall|j: int| s.to_set().contains(j) implies range.contains(j) by {
            let k = choose|k: int| 0 <= k < s.len() && s[k] == j;
        }
    }
    vstd::set_lib::lemma_len_subset(s.to_set(), range);
    if s.len() == n {
        vstd::set_lib::lemma_subset_equality(s.to_set(), range);
        assert forall|j: int| 0 <= j < n implies s.contains(j) by {
            assert(range.contains(j));
            assert(s.to_set().contains(j));
        }
    }
}

/// Serving one more task adds its name to the names that are met.
pub proof fn lemma_names_in_push(tasks: Seq<TaskSpec>, done: Seq<int>, t: int)
    ensures
        names_in(tasks, done.push(t)) == names_in(tasks, done).insert(tasks[t].name),
{
    let served = done.push(t);
    assert forall|name: Seq<char>|
        names_in(tasks, served).contains(name) <==> names_in(tasks, done).insert(
            tasks[t].name,
        ).contains(name) by {
        if names_in(tasks, served).contains(name) {
            let k = choose|k: int| 0 <= k < served.len() && tasks[#[trigger] served[k]].name == name;
            if k < done.len() {
                assert(tasks[done[k]].name == name);
            }
        }
        if names_in(tasks, done).contains(name) {
            let k = choose|k: int| 0 <= k < done.len() && tasks[#[trigger] done[k]].name == name;
            assert(tasks[served[k]].name == name);
        }
        if name == tasks[t].name {
            assert(tasks[served[done.len() as int]].name == name);
        }
    }
    assert(names_in(tasks, served) =~= names_in(tasks, done).insert(tasks[t].name));
}

/// The name of a task is met exactly when the task itself is listed.
pub proof fn lemma_names_in_contains(tasks: Seq<TaskSpec>, done: Seq<int>, i: int)
    requires
        names_distinct(tasks),
        0 <= i < tasks.len(),
        forall|k: int| 0 <= k < done.len() ==> 0 <= #[trigger] done[k] < tasks.len(),
    ensures
        names_in(tasks, done).contains(tasks[i].name) <==> done.contains(i),
{
    if names_in(tasks, done).contains(tasks[i].name) {
        let k = choose|k: int| 0 <= k < done.len() && tasks[#[trigger] done[k]].name == tasks[i].name;
        assert(done[k] == i);
    }
    if done.contains(i) {
        let k = choose|k: int| 0 <= k < done.len() && done[k] == i;
        assert(tasks[done[k]].name == tasks[i].name);
    }
}

/// The initial frontier meets the run invariant.
pub proof fn lemma_seeds_invariant(tasks: Seq<TaskSpec>)
    ensures
        run_invariant(tasks, Seq::empty(), seeds(tasks)),
{
    let empty = Seq::<int>::empty();
    lemma_positions_where(tasks.len(), is_seed(tasks));
    assert(empty + seeds(tasks) =~= seeds(tasks));
    assert forall|j: int| 0 <= j < tasks.len() implies (is_ready(tasks, j, empty) <==> seeds(
        tasks,
    ).contains(j)) by {
        if is_ready(tasks, j, empty) && tasks[j].dependencies.len() > 0 {
            assert(names_in(tasks, empty).contains(tasks[j].dependencies[0]));
        }
    }
    assert forall|k: int| 0 <= k < seeds(tasks).len() implies 0 <= #[trigger] seeds(tasks)[k]
        < tasks.len() by {
        assert(seeds(tasks).contains(seeds(tasks)[k]));
    }
}

/// Serving the front of the frontier keeps the run invariant.
pub proof fn lemma_serve_invariant(tasks: Seq<TaskSpec>, done: Seq<int>, frontier: Seq<int>)
    requires
        names_distinct(tasks),
        run_invariant(tasks, done, frontier),
        frontier.len() > 0,
    ensures
        run_invariant(
            tasks,
            done.push(frontier[0]),
            frontier.drop_first() + released_by(tasks, done.push(frontier[0]), frontier[0]),
        ),
{
    let n = tasks.len();
    let t = frontier[0];
    let served = done.push(t);
    let released = released_by(tasks, served, t);
    let listed = done + frontier;
    let after = served + (frontier.drop_first() + released);
    lemma_positions_where(n, is_released(tasks, served, t));
    lemma_names_in_push(tasks, done, t);
    assert(after =~= listed + released);
    assert(listed[done.len() as int] == t);
    assert(listed.contains(t));
    assert(0 <= t < n);
    assert(forall|k: int| 0 <= k < done.len() ==> done[k] == listed[k]);
    // the served task was not served before, so its name was not met
    assert(!done.contains(t)) by {
        if done.contains(t) {
            let k = choose|k: int| 0 <= k < done.len() && done[k] == t;
            assert(listed[k] == listed[done.len() as int]);
        }
    }
    lemma_names_in_contains(tasks, done, t);
    assert forall|j: int| released.contains(j) implies !listed.contains(j) by {
        let p = choose|p: int|
            0 <= p < tasks[j].dependencies.len() && tasks[j].dependencies[p] == tasks[t].name;
        assert(!names_in(tasks, done).contains(tasks[j].dependencies[p]));
        assert(!is_ready(tasks, j, done));
    }
    assert(distinct_positions(after, n)) by {
        assert forall|k: int| 0 <= k < after.len() implies 0 <= #[trigger] after[k] < n by {
            if k >= listed.len() {
                assert(released.contains(released[k - listed.len()]));
            } else {
                assert(after[k] == listed[k]);
            }
        }
        assert forall|k: int, l: int|
            0 <= k < after.len() && 0 <= l < after.len() && k != l implies after[k] != after[l] by {
            if k < listed.len() && l < listed.len() {
                assert(after[k] == listed[k] && after[l] == listed[l]);
            } else if k >= listed.len() && l >= listed.len() {
                assert(after[k] == released[k - listed.len()]);
                assert(after[l] == released[l - listed.len()]);
            } else if k < listed.len() {
                assert(released.contains(released[l - listed.len()]));
                assert(listed.contains(listed[k]));
            } else {
                assert(released.contains(released[k - listed.len()]));
                assert(listed.contains(listed[l]));
            }
        }
    }
    assert forall|p: int| 0 <= p < served.len() implies is_ready(
        tasks,
        #[trigger] served[p],
        served.take(p),
    ) by {
        if p < done.len() {
            assert(served.take(p) =~= done.take(p));
            assert(is_ready(tasks, done[p], done.take(p)));
        } else {
            assert(served.take(p) =~= done);
            assert(is_ready(tasks, t, done));
        }
    }
    assert forall|j: int| 0 <= j < n implies (is_ready(tasks, j, served) <==> #[trigger] after.contains(
        j,
    )) by {
        if after.contains(j) {
            let k = choose|k: int| 0 <= k < after.len() && after[k] == j;
            if k < listed.len() {
                assert(listed[k] == j);
                assert(listed.contains(j));
                assert(is_ready(tasks, j, done));
            } else {
                assert(released[k - listed.len()] == j);
                assert(released.contains(j));
            }
        }
        if is_ready(tasks, j, served) {
            if is_ready(tasks, j, done) {
                assert(listed.contains(j));
                let k = choose|k: int| 0 <= k < listed.len() && listed[k] == j;
                assert(after[k] == j);
            } else {
                let p = choose|p: int|
                    0 <= p < tasks[j].dependencies.len() && !names_in(tasks, done).contains(
                        #[trigger] tasks[j].dependencies[p],
                    );
                assert(names_in(tasks, served).contains(tasks[j].dependencies[p]));
                assert(tasks[j].dependencies[p] == tasks[t].name);
                assert(depends_on(tasks, j, t));
                assert(released.contains(j));
                let k = choose|k: int| 0 <= k < released.len() && released[k] == j;
                assert(after[listed.len() + k] == j);
            }
        }
    }
}

/// A run that starts from a state that meets the run invariant ends in one
/// that meets it with an empty frontier, and keeps what was served before.
pub proof fn lemma_run_frontier(tasks: Seq<TaskSpec>, done: Seq<int>, frontier: Seq<int>)
    requires
        names_distinct(tasks),
        run_invariant(tasks, done, frontier),
    ensures
        run_invariant(tasks, run_frontier(tasks, done, frontier), Seq::empty()),
        done.is_prefix_of(run_frontier(tasks, done, frontier)),
    decreases tasks.len() - done.len(),
{
    lemma_distinct_positions_len(done + frontier, tasks.len());
    if frontier.len() == 0 || done.len() >= tasks.len() {
        assert(frontier =~= Seq::empty());
    } else {
        let t = frontier[0];
        let served = done.push(t);
        let next = frontier.drop_first() + released_by(tasks, served, t);
        lemma_serve_invariant(tasks, done, frontier);
        lemma_run_frontier(tasks, served, next);
        let result = run_frontier(tasks, served, next);
        assert(done =~= result.subrange(0, done.len() as int)) by {
            assert(served =~= result.subrange(0, served.len() as int));
            assert forall|k: int| 0 <= k < done.len() implies done[k] == result[k] by {
                assert(served[k] == result.subrange(0, served.len() as int)[k]);
            }
        }
    }
}

} // verus!
