//! What holds of the scheduling order and its timeline for every registry.

use crate::graph::dependencies_registered;
use crate::graph::depends_on;
use crate::graph::has_cycle;
use crate::graph::has_name;
use crate::graph::is_cycle;
use crate::graph::is_dependency_path;
use crate::graph::is_schedulable;
use crate::graph::names_distinct;
use crate::graph::total_duration;
use crate::graph::TaskSpec;
use crate::order::distinct_positions;
use crate::order::elapsed;
use crate::order::is_ready;
use crate::order::lemma_distinct_positions_len;
use crate::order::lemma_names_in_contains;
use crate::order::lemma_run_frontier;
use crate::order::lemma_seeds_invariant;
use crate::order::names_in;
use crate::order::run_invariant;
use crate::order::schedule_order;
use crate::order::seeds;
use crate::order::timeline;
use vstd::prelude::*;

verus! {

/// The scheduling order meets the run invariant with nothing left in the
/// frontier.
pub proof fn lemma_order_invariant(tasks: Seq<TaskSpec>)
    requires
        names_distinct(tasks),
    ensures
        run_invariant(tasks, schedule_order(tasks), Seq::empty()),
        distinct_positions(schedule_order(tasks), tasks.len()),
        schedule_order(tasks).len() <= tasks.len(),
{
    let order = schedule_order(tasks);
    lemma_seeds_invariant(tasks);
    lemma_run_frontier(tasks, Seq::empty(), seeds(tasks));
    assert(order + Seq::<int>::empty() =~= order);
    lemma_distinct_positions_len(order, tasks.len());
}

/// A task that is served at position `p` has each of its dependencies served
/// at an earlier position.
proof fn lemma_dependency_position(tasks: Seq<TaskSpec>, p: int, d: int) -> (q: int)
    requires
        names_distinct(tasks),
        0 <= p < schedule_order(tasks).len(),
        0 <= d < tasks[schedule_order(tasks)[p]].dependencies.len(),
    ensures
        0 <= q < p,
        tasks[schedule_order(tasks)[q]].name == tasks[schedule_order(tasks)[p]].dependencies[d],
{
    let order = schedule_order(tasks);
    lemma_order_invariant(tasks);
    let name = tasks[order[p]].dependencies[d];
    assert(is_ready(tasks, order[p], order.take(p)));
    assert(names_in(tasks, order.take(p)).contains(name));
    let q = choose|q: int|
        0 <= q < order.take(p).len() && tasks[#[trigger] order.take(p)[q]].name == name;
    q
}

/// Adding tasks at the end of an order adds their durations to its time.
proof fn lemma_elapsed_take(tasks: Seq<TaskSpec>, order: Seq<int>, k: int, l: int)
    requires
        0 <= k < l <= order.len(),
    ensures
        elapsed(tasks, order.take(k)) + tasks[order[k]].duration <= elapsed(tasks, order.take(l)),
    decreases l - k,
{
    assert(order.take(l).drop_last() =~= order.take(l - 1));
    if k < l - 1 {
        lemma_elapsed_take(tasks, order, k, l - 1);
    }
}

/// The first tasks of an order take no longer than the whole order.
pub proof fn lemma_elapsed_prefix(tasks: Seq<TaskSpec>, first: Seq<int>, order: Seq<int>)
    requires
        first.is_prefix_of(order),
    ensures
        elapsed(tasks, first) <= elapsed(tasks, order),
{
    assert(order.take(first.len() as int) =~= first);
    assert(order.take(order.len() as int) =~= order);
    if first.len() < order.len() {
        lemma_elapsed_take(tasks, order, first.len() as int, order.len() as int);
    }
}

/// The time of an order is that of the order without one entry plus the
/// duration of the task at that entry.
proof fn lemma_elapsed_remove(tasks: Seq<TaskSpec>, order: Seq<int>, p: int)
    requires
        0 <= p < order.len(),
    ensures
        elapsed(tasks, order) == elapsed(tasks, order.remove(p)) + tasks[order[p]].duration,
    decreases order.len(),
{
    if p == order.len() - 1 {
        assert(order.remove(p) =~= order.drop_last());
    } else {
        lemma_elapsed_remove(tasks, order.drop_last(), p);
        assert(order.drop_last().remove(p) =~= order.remove(p).drop_last());
        assert(order.remove(p).last() == order.last());
    }
}

/// The time of an order depends only on the tasks that it lists.
proof fn lemma_elapsed_drop_last_task(tasks: Seq<TaskSpec>, order: Seq<int>)
    requires
        forall|k: int| 0 <= k < order.len() ==> 0 <= #[trigger] order[k] < tasks.len() - 1,
    ensures
        elapsed(tasks, order) == elapsed(tasks.drop_last(), order),
    decreases order.len(),
{
    if order.len() > 0 {
        lemma_elapsed_drop_last_task(tasks, order.drop_last());
    }
}

/// An order that lists no task twice takes no longer than all tasks
/// together, and exactly as long when it lists every task.
pub proof fn lemma_elapsed_bound(tasks: Seq<TaskSpec>, order: Seq<int>)
    requires
        distinct_positions(order, tasks.len()),
    ensures
        elapsed(tasks, order) <= total_duration(tasks),
        order.len() == tasks.len() ==> elapsed(tasks, order) == total_duration(tasks),
    decreases tasks.len(),
{
    lemma_distinct_positions_len(order, tasks.len());
    if tasks.len() > 0 {
        let last = tasks.len() - 1;
        if order.contains(last) {
            let p = choose|p: int| 0 <= p < order.len() && order[p] == last;
            let rest = order.remove(p);
            assert forall|k: int| 0 <= k < rest.len() implies 0 <= #[trigger] rest[k] < last by {
                if k < p {
                    assert(rest[k] == order[k]);
                } else {
                    assert(rest[k] == order[k + 1]);
                }
            }
            assert(rest.no_duplicates()) by {
                assert forall|k: int, l: int|
                    0 <= k < rest.len() && 0 <= l < rest.len() && k != l implies rest[k] != rest[l] by {
                    let ok = if k < p { k } else { k + 1 };
                    let ol = if l < p { l } else { l + 1 };
                    assert(rest[k] == order[ok] && rest[l] == order[ol]);
                }
            }
            lemma_elapsed_remove(tasks, order, p);
            lemma_elapsed_drop_last_task(tasks, rest);
            lemma_elapsed_bound(tasks.drop_last(), rest);
        } else {
            assert forall|k: int| 0 <= k < order.len() implies 0 <= #[trigger] order[k] < last by {
                assert(order.contains(order[k]));
            }
            lemma_elapsed_drop_last_task(tasks, order);
            lemma_elapsed_bound(tasks.drop_last(), order);
            lemma_distinct_positions_len(order, last as nat);
        }
    }
}

/// The tasks registered first take no longer than all tasks together.
pub proof fn lemma_total_duration_take(tasks: Seq<TaskSpec>, k: int)
    requires
        0 <= k <= tasks.len(),
    ensures
        total_duration(tasks.take(k)) <= total_duration(tasks),
    decreases tasks.len(),
{
    if k < tasks.len() {
        lemma_total_duration_take(tasks.drop_last(), k);
        assert(tasks.drop_last().take(k) =~= tasks.take(k));
    } else {
        assert(tasks.take(k) =~= tasks);
    }
}

/// In a complete schedule every registered task has exactly one entry, under
/// its name and with its duration.
pub proof fn lemma_each_task_once(tasks: Seq<TaskSpec>)
    requires
        names_distinct(tasks),
        is_schedulable(tasks),
    ensures
        timeline(tasks, schedule_order(tasks)).len() == tasks.len(),
        forall|j: int|
            0 <= j < tasks.len() ==> exists|k: int|
                0 <= k < tasks.len() && (#[trigger] timeline(tasks, schedule_order(tasks))[k]).0
                    == (#[trigger] tasks[j]).name && timeline(tasks, schedule_order(tasks))[k].2
                    == tasks[j].duration,
        forall|k: int, l: int|
            0 <= k < tasks.len() && 0 <= l < tasks.len() && k != l ==> (#[trigger] timeline(
                tasks,
                schedule_order(tasks),
            )[k]).0 != (#[trigger] timeline(tasks, schedule_order(tasks))[l]).0,
{
    let order = schedule_order(tasks);
    let entries = timeline(tasks, order);
    lemma_complete_iff_schedulable(tasks);
    assert forall|j: int| 0 <= j < tasks.len() implies exists|k: int|
        0 <= k < tasks.len() && (#[trigger] entries[k]).0 == (#[trigger] tasks[j]).name
            && entries[k].2 == tasks[j].duration by {
        assert(order.contains(j));
        let k = choose|k: int| 0 <= k < order.len() && order[k] == j;
        assert(entries[k].0 == tasks[j].name && entries[k].2 == tasks[j].duration);
    }
    assert forall|k: int, l: int|
        0 <= k < tasks.len() && 0 <= l < tasks.len() && k != l implies (#[trigger] entries[k]).0
        != (#[trigger] entries[l]).0 by {
        assert(order[k] != order[l]);
    }
}

/// Along a dependency path that starts at a served task, every task was
/// served, each before the one that waits for it.
proof fn lemma_path_descends(tasks: Seq<TaskSpec>, path: Seq<int>, start: int, k: int) -> (q: int)
    requires
        names_distinct(tasks),
        is_dependency_path(tasks, path),
        0 <= start < schedule_order(tasks).len(),
        schedule_order(tasks)[start] == path[0],
        0 <= k < path.len(),
    ensures
        0 <= q <= start - k,
        schedule_order(tasks)[q] == path[k],
    decreases k,
{
    let order = schedule_order(tasks);
    lemma_order_invariant(tasks);
    if k == 0 {
        start
    } else {
        let before = lemma_path_descends(tasks, path, start, k - 1);
        assert(depends_on(tasks, path[k - 1], path[k]));
        let waiting = path[k - 1];
        let d = choose|d: int|
            0 <= d < tasks[waiting].dependencies.len() && tasks[waiting].dependencies[d]
                == tasks[path[k]].name;
        let q = lemma_dependency_position(tasks, before, d);
        assert(order[q] == path[k]);
        q
    }
}

/// No task on a cycle is ever served.
proof fn lemma_cycle_never_served(tasks: Seq<TaskSpec>, path: Seq<int>)
    requires
        names_distinct(tasks),
        is_cycle(tasks, path),
    ensures
        !schedule_order(tasks).contains(path[0]),
{
    let order = schedule_order(tasks);
    lemma_order_invariant(tasks);
    if order.contains(path[0]) {
        let start = choose|p: int| 0 <= p < order.len() && order[p] == path[0];
        let q = lemma_path_descends(tasks, path, start, path.len() - 1);
        assert(order[q] == order[start] && q != start);
    }
}

/// A task that waits for a name that no task has is never served.
proof fn lemma_unregistered_never_served(tasks: Seq<TaskSpec>, j: int, d: int)
    requires
        names_distinct(tasks),
        0 <= j < tasks.len(),
        0 <= d < tasks[j].dependencies.len(),
        !has_name(tasks, tasks[j].dependencies[d]),
    ensures
        !schedule_order(tasks).contains(j),
{
    let order = schedule_order(tasks);
    lemma_order_invariant(tasks);
    if order.contains(j) {
        let p = choose|p: int| 0 <= p < order.len() && order[p] == j;
        let q = lemma_dependency_position(tasks, p, d);
        assert(0 <= order[q] < tasks.len());
    }
}

/// From a walk through tasks that were never served, each waiting for the
/// next, a cycle can be reached: the last task waits for another one that was
/// never served, and the walk cannot visit new tasks for ever.
proof fn lemma_walk_closes(tasks: Seq<TaskSpec>, walk: Seq<int>)
    requires
        names_distinct(tasks),
        dependencies_registered(tasks),
        walk.len() >= 1,
        distinct_positions(walk, tasks.len()),
        forall|k: int| 0 <= k < walk.len() ==> !schedule_order(tasks).contains(#[trigger] walk[k]),
        forall|k: int| 0 <= k < walk.len() - 1 ==> depends_on(tasks, #[trigger] walk[k], walk[k + 1]),
    ensures
        has_cycle(tasks),
    decreases tasks.len() - walk.len(),
{
    let order = schedule_order(tasks);
    lemma_order_invariant(tasks);
    lemma_distinct_positions_len(walk, tasks.len());
    let j = walk[walk.len() - 1];
    assert(!(order + Seq::<int>::empty()).contains(j)) by {
        assert(order + Seq::<int>::empty() =~= order);
    }
    assert(!is_ready(tasks, j, order));
    let d = choose|d: int|
        0 <= d < tasks[j].dependencies.len() && !names_in(tasks, order).contains(
            #[trigger] tasks[j].dependencies[d],
        );
    assert(has_name(tasks, tasks[j].dependencies[d]));
    let i = choose|i: int| 0 <= i < tasks.len() && #[trigger] tasks[i].name == tasks[j].dependencies[d];
    lemma_names_in_contains(tasks, order, i);
    assert(depends_on(tasks, j, i));
    if walk.contains(i) {
        let k = choose|k: int| 0 <= k < walk.len() && walk[k] == i;
        let path = walk.subrange(k, walk.len() as int).push(i);
        assert forall|m: int| 0 <= m < path.len() - 1 implies depends_on(
            tasks,
            #[trigger] path[m],
            path[m + 1],
        ) by {
            assert(path[m] == walk[k + m]);
            if m < path.len() - 2 {
                assert(path[m + 1] == walk[k + m + 1]);
            }
        }
        assert forall|m: int| 0 <= m < path.len() implies 0 <= #[trigger] path[m] < tasks.len() by {
            if m < path.len() - 1 {
                assert(path[m] == walk[k + m]);
            }
        }
        assert(path[0] == walk[k]);
        assert(is_cycle(tasks, path));
    } else {
        let longer = walk.push(i);
        assert forall|k: int, l: int|
            0 <= k < longer.len() && 0 <= l < longer.len() && k != l implies longer[k]
            != longer[l] by {
            if k < walk.len() {
                assert(walk.contains(walk[k]));
            }
            if l < walk.len() {
                assert(walk.contains(walk[l]));
            }
        }
        assert forall|k: int| 0 <= k < longer.len() - 1 implies depends_on(
            tasks,
            #[trigger] longer[k],
            longer[k + 1],
        ) by {
            if k < walk.len() - 1 {
                assert(depends_on(tasks, walk[k], walk[k + 1]));
            }
        }
        lemma_distinct_positions_len(longer, tasks.len());
        lemma_walk_closes(tasks, longer);
    }
}

/// Each task is scheduled at most once; every task is scheduled exactly when
/// all dependencies are registered and none of them closes a cycle.
pub proof fn lemma_complete_iff_schedulable(tasks: Seq<TaskSpec>)
    requires
        names_distinct(tasks),
    ensures
        distinct_positions(schedule_order(tasks), tasks.len()),
        schedule_order(tasks).len() <= tasks.len(),
        schedule_order(tasks).len() == tasks.len() <==> is_schedulable(tasks),
        is_schedulable(tasks) ==> forall|j: int|
            0 <= j < tasks.len() ==> schedule_order(tasks).contains(j),
{
    let order = schedule_order(tasks);
    let n = tasks.len();
    lemma_order_invariant(tasks);
    lemma_distinct_positions_len(order, n);
    if order.len() == n {
        if has_cycle(tasks) {
            let path = choose|path: Seq<int>| is_cycle(tasks, path);
            lemma_cycle_never_served(tasks, path);
            assert(0 <= path[0] < n);
        }
        assert forall|j: int, d: int|
            0 <= j < n && 0 <= d < tasks[j].dependencies.len() implies has_name(
            tasks,
            #[trigger] tasks[j].dependencies[d],
        ) by {
            if !has_name(tasks, tasks[j].dependencies[d]) {
                lemma_unregistered_never_served(tasks, j, d);
            }
        }
    } else if dependencies_registered(tasks) {
        // some task was never served; walk from it along unmet dependencies
        vstd::set_lib::lemma_int_range(0, n as int);
        vstd::seq_lib::seq_to_set_is_finite(order);
        order.unique_seq_to_set();
        if forall|j: int| 0 <= j < n ==> order.contains(j) {
            assert(vstd::set_lib::set_int_range(0, n as int).subset_of(order.to_set()));
            vstd::set_lib::lemma_len_subset(
                vstd::set_lib::set_int_range(0, n as int),
                order.to_set(),
            );
        }
        let j = choose|j: int| 0 <= j < n && !order.contains(j);
        let walk = seq![j];
        lemma_walk_closes(tasks, walk);
    }
}

/// A task starts no earlier than each task that it waits for has finished.
pub proof fn lemma_dependencies_finish_first(tasks: Seq<TaskSpec>, p: int, d: int)
    requires
        names_distinct(tasks),
        0 <= p < schedule_order(tasks).len(),
        0 <= d < tasks[schedule_order(tasks)[p]].dependencies.len(),
    ensures
        exists|q: int|
            0 <= q < p && (#[trigger] timeline(tasks, schedule_order(tasks))[q]).0
                == tasks[schedule_order(tasks)[p]].dependencies[d] && timeline(
                tasks,
                schedule_order(tasks),
            )[q].1 + timeline(tasks, schedule_order(tasks))[q].2 <= timeline(
                tasks,
                schedule_order(tasks),
            )[p].1,
{
    let order = schedule_order(tasks);
    let q = lemma_dependency_position(tasks, p, d);
    lemma_elapsed_take(tasks, order, q, p);
    assert(timeline(tasks, order)[q].0 == tasks[order[p]].dependencies[d]);
}

/// On the timeline of any order each task starts when the one before it
/// ends, so no task starts before an earlier one has finished.
pub proof fn lemma_timeline_is_cumulative(tasks: Seq<TaskSpec>, order: Seq<int>)
    ensures
        order.len() > 0 ==> timeline(tasks, order)[0].1 == 0,
        forall|k: int|
            0 <= k < order.len() - 1 ==> (#[trigger] timeline(tasks, order)[k]).1 + timeline(
                tasks,
                order,
            )[k].2 == timeline(tasks, order)[k + 1].1,
        forall|k: int, l: int|
            0 <= k < l < order.len() ==> (#[trigger] timeline(tasks, order)[k]).1 + timeline(
                tasks,
                order,
            )[k].2 <= (#[trigger] timeline(tasks, order)[l]).1,
        order.len() > 0 ==> timeline(tasks, order).last().1 + timeline(tasks, order).last().2
            == elapsed(tasks, order),
{
    assert(order.take(0) =~= Seq::empty());
    assert forall|k: int| 0 <= k < order.len() implies (#[trigger] timeline(tasks, order)[k]).1
        + timeline(tasks, order)[k].2 == elapsed(tasks, order.take(k + 1)) by {
        assert(order.take(k + 1).drop_last() =~= order.take(k));
    }
    assert(order.take(order.len() as int) =~= order);
    assert forall|k: int, l: int| 0 <= k < l < order.len() implies (#[trigger] timeline(
        tasks,
        order,
    )[k]).1 + timeline(tasks, order)[k].2 <= (#[trigger] timeline(tasks, order)[l]).1 by {
        lemma_elapsed_take(tasks, order, k, l);
    }
}

/// The scheduled tasks take no longer than all registered tasks together.
pub proof fn lemma_schedule_within_total(tasks: Seq<TaskSpec>)
    requires
        names_distinct(tasks),
    ensures
        elapsed(tasks, schedule_order(tasks)) <= total_duration(tasks),
{
    lemma_order_invariant(tasks);
    lemma_elapsed_bound(tasks, schedule_order(tasks));
}

/// When every task is scheduled, the last one ends after the sum of all
/// durations.
pub proof fn lemma_timeline_spans_total(tasks: Seq<TaskSpec>)
    requires
        names_distinct(tasks),
        is_schedulable(tasks),
        tasks.len() > 0,
    ensures
        timeline(tasks, schedule_order(tasks)).len() == tasks.len(),
        timeline(tasks, schedule_order(tasks)).last().1 + timeline(
            tasks,
            schedule_order(tasks),
        ).last().2 == total_duration(tasks),
{
    lemma_complete_iff_schedulable(tasks);
    lemma_timeline_is_cumulative(tasks, schedule_order(tasks));
    lemma_elapsed_bound(tasks, schedule_order(tasks));
}

} // verus!
