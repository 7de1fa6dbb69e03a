//! In-degree bookkeeping: how the counters that a scheduling run keeps relate
//! to the dependencies that are met, and which tasks a walk over a reverse
//! adjacency list sets free.

use crate::graph::dependents_of;
use crate::graph::depends_on;
use crate::graph::names_distinct;
use crate::graph::occurrences;
use crate::graph::repeated;
use crate::graph::TaskSpec;
use crate::order::is_ready;
use crate::order::is_released;
use crate::order::lemma_names_in_push;
use crate::order::names_in;
use crate::order::positions_where;
use crate::order::released_by;
use vstd::prelude::*;

verus! {

/// The remaining in-degree: how many entries of `dependencies` are not among
/// the names in `met`.
pub open spec fn unmet(dependencies: Seq<Seq<char>>, met: Set<Seq<char>>) -> nat
    decreases dependencies.len(),
{
    if dependencies.len() == 0 {
        0
    } else {
        unmet(dependencies.drop_last(), met) + if met.contains(dependencies.last()) {
            0nat
        } else {
            1nat
        }
    }
}

/// How many entries of `list` equal `j`.
pub open spec fn times_listed(list: Seq<int>, j: int) -> nat
    decreases list.len(),
{
    if list.len() == 0 {
        0
    } else {
        times_listed(list.drop_last(), j) + if list.last() == j {
            1nat
        } else {
            0nat
        }
    }
}

/// The tasks whose counter reaches zero while `list` is walked from the
/// front and each entry takes one off its task's counter, which stood at the
/// number of its dependencies outside `met`. They come in the order in which
/// they reach zero.
pub open spec fn completed(tasks: Seq<TaskSpec>, met: Set<Seq<char>>, list: Seq<int>) -> Seq<int>
    decreases list.len(),
{
    if list.len() == 0 {
        Seq::empty()
    } else {
        let j = list.last();
        let before = completed(tasks, met, list.drop_last());
        if times_listed(list, j) == unmet(tasks[j].dependencies, met) {
            before.push(j)
        } else {
            before
        }
    }
}

/// While none of the dependencies is met, all of them count.
pub proof fn lemma_unmet_all(dependencies: Seq<Seq<char>>, met: Set<Seq<char>>)
    requires
        forall|p: int| 0 <= p < dependencies.len() ==> !met.contains(#[trigger] dependencies[p]),
    ensures
        unmet(dependencies, met) == dependencies.len(),
    decreases dependencies.len(),
{
    if dependencies.len() > 0 {
        lemma_unmet_all(dependencies.drop_last(), met);
    }
}

/// The counter is zero exactly when every dependency is met.
pub proof fn lemma_unmet_zero(dependencies: Seq<Seq<char>>, met: Set<Seq<char>>)
    ensures
        unmet(dependencies, met) == 0 <==> forall|p: int|
            0 <= p < dependencies.len() ==> met.contains(#[trigger] dependencies[p]),
    decreases dependencies.len(),
{
    if dependencies.len() > 0 {
        let front = dependencies.drop_last();
        lemma_unmet_zero(front, met);
        if unmet(dependencies, met) == 0 {
            assert forall|p: int| 0 <= p < dependencies.len() implies met.contains(
                #[trigger] dependencies[p],
            ) by {
                if p < front.len() {
                    assert(front[p] == dependencies[p]);
                }
            }
        }
        if forall|p: int| 0 <= p < dependencies.len() ==> met.contains(#[trigger] dependencies[p]) {
            assert forall|p: int| 0 <= p < front.len() implies met.contains(#[trigger] front[p]) by {
                assert(front[p] == dependencies[p]);
            }
            assert(met.contains(dependencies[dependencies.len() - 1]));
        }
    }
}

/// A name that becomes met takes its occurrences off the counter.
pub proof fn lemma_unmet_insert(dependencies: Seq<Seq<char>>, met: Set<Seq<char>>, name: Seq<char>)
    requires
        !met.contains(name),
    ensures
        unmet(dependencies, met.insert(name)) + occurrences(dependencies, name) == unmet(
            dependencies,
            met,
        ),
    decreases dependencies.len(),
{
    if dependencies.len() > 0 {
        lemma_unmet_insert(dependencies.drop_last(), met, name);
    }
}

/// A name occurs among the dependencies exactly when it is counted at least
/// once.
pub proof fn lemma_occurrences_contains(dependencies: Seq<Seq<char>>, name: Seq<char>)
    ensures
        occurrences(dependencies, name) > 0 <==> dependencies.contains(name),
    decreases dependencies.len(),
{
    if dependencies.len() > 0 {
        let front = dependencies.drop_last();
        lemma_occurrences_contains(front, name);
        if dependencies.contains(name) {
            let p = choose|p: int| 0 <= p < dependencies.len() && dependencies[p] == name;
            if p < front.len() {
                assert(front[p] == name);
            }
        }
        if front.contains(name) {
            let p = choose|p: int| 0 <= p < front.len() && front[p] == name;
            assert(dependencies[p] == name);
        }
        if dependencies.last() == name {
            assert(dependencies[dependencies.len() - 1] == name);
        }
    }
}

/// Counting over two lists in a row adds up.
pub proof fn lemma_times_listed_concat(a: Seq<int>, b: Seq<int>, j: int)
    ensures
        times_listed(a + b, j) == times_listed(a, j) + times_listed(b, j),
    decreases b.len(),
{
    if b.len() == 0 {
        assert(a + b =~= a);
    } else {
        lemma_times_listed_concat(a, b.drop_last(), j);
        assert((a + b).drop_last() =~= a + b.drop_last());
    }
}

/// A prefix of a list holds a task no more often than the list, and one
/// entry more holds the task at that entry once more.
pub proof fn lemma_times_listed_take(list: Seq<int>, k: int, j: int)
    requires
        0 <= k <= list.len(),
    ensures
        times_listed(list.take(k), j) <= times_listed(list, j),
        k < list.len() ==> times_listed(list.take(k + 1), j) == times_listed(list.take(k), j) + if list[k]
            == j {
            1nat
        } else {
            0nat
        },
{
    lemma_times_listed_concat(list.take(k), list.skip(k), j);
    assert(list.take(k) + list.skip(k) =~= list);
    if k < list.len() {
        assert(list.take(k + 1).drop_last() =~= list.take(k));
    }
}

/// A list of equal entries holds that entry as often as it is long, and
/// nothing else.
pub proof fn lemma_times_listed_repeated(x: int, count: nat, j: int)
    ensures
        times_listed(repeated(x, count), j) == if j == x {
            count
        } else {
            0
        },
    decreases count,
{
    if count > 0 {
        lemma_times_listed_repeated(x, (count - 1) as nat, j);
        assert(repeated(x, count).drop_last() =~= repeated(x, (count - 1) as nat));
    }
}

/// A list without `j` holds it zero times.
pub proof fn lemma_times_listed_absent(list: Seq<int>, j: int)
    requires
        forall|k: int| 0 <= k < list.len() ==> #[trigger] list[k] != j,
    ensures
        times_listed(list, j) == 0,
    decreases list.len(),
{
    if list.len() > 0 {
        lemma_times_listed_absent(list.drop_last(), j);
    }
}

/// The reverse adjacency of a name lists registered tasks only.
pub proof fn lemma_dependents_below(tasks: Seq<TaskSpec>, name: Seq<char>)
    ensures
        forall|k: int|
            0 <= k < dependents_of(tasks, name).len() ==> 0 <= #[trigger] dependents_of(
                tasks,
                name,
            )[k] < tasks.len(),
    decreases tasks.len(),
{
    if tasks.len() > 0 {
        let front = dependents_of(tasks.drop_last(), name);
        let whole = dependents_of(tasks, name);
        lemma_dependents_below(tasks.drop_last(), name);
        assert forall|k: int| 0 <= k < whole.len() implies 0 <= #[trigger] whole[k] < tasks.len() by {
            if k < front.len() {
                assert(whole[k] == front[k]);
            } else {
                assert(whole[k] == tasks.len() - 1);
            }
        }
    }
}

/// The reverse adjacency of a name lists each task as often as the task
/// lists the name.
pub proof fn lemma_dependents_count(tasks: Seq<TaskSpec>, name: Seq<char>, j: int)
    requires
        0 <= j < tasks.len(),
    ensures
        times_listed(dependents_of(tasks, name), j) == occurrences(tasks[j].dependencies, name),
    decreases tasks.len(),
{
    let front = tasks.drop_last();
    let last = tasks.len() - 1;
    let count = occurrences(tasks.last().dependencies, name);
    lemma_times_listed_concat(dependents_of(front, name), repeated(last, count), j);
    lemma_times_listed_repeated(last, count, j);
    if j < last {
        lemma_dependents_count(front, name, j);
    } else {
        lemma_dependents_below(front, name);
        lemma_times_listed_absent(dependents_of(front, name), j);
    }
}

/// Walking on over `count` entries for a task that the list did not hold
/// before completes that task if its counter stood between one and `count`,
/// and no other.
proof fn lemma_completed_repeated(
    tasks: Seq<TaskSpec>,
    met: Set<Seq<char>>,
    list: Seq<int>,
    j: int,
    count: nat,
)
    requires
        forall|k: int| 0 <= k < list.len() ==> #[trigger] list[k] != j,
    ensures
        completed(tasks, met, list + repeated(j, count)) == if 1 <= unmet(tasks[j].dependencies, met)
            <= count {
            completed(tasks, met, list).push(j)
        } else {
            completed(tasks, met, list)
        },
    decreases count,
{
    let whole = list + repeated(j, count);
    if count == 0 {
        assert(whole =~= list);
    } else {
        let shorter = list + repeated(j, (count - 1) as nat);
        lemma_completed_repeated(tasks, met, list, j, (count - 1) as nat);
        assert(whole.drop_last() =~= shorter);
        assert(whole.last() == j);
        lemma_times_listed_concat(list, repeated(j, count), j);
        lemma_times_listed_repeated(j, count, j);
        lemma_times_listed_absent(list, j);
        assert(times_listed(whole, j) == count);
    }
}

/// Walking the reverse adjacency of a task that is being served, over the
/// tasks registered first, completes those among them that the task sets
/// free, in registration order.
proof fn lemma_completed_prefix(tasks: Seq<TaskSpec>, done: Seq<int>, t: int, m: nat)
    requires
        0 <= t < tasks.len(),
        m <= tasks.len(),
        !names_in(tasks, done).contains(tasks[t].name),
    ensures
        completed(tasks, names_in(tasks, done), dependents_of(tasks.take(m as int), tasks[t].name))
            == positions_where(m, is_released(tasks, done.push(t), t)),
    decreases m,
{
    let met = names_in(tasks, done);
    let name = tasks[t].name;
    let served = done.push(t);
    if m > 0 {
        let j = m - 1;
        let front = tasks.take(j);
        let count = occurrences(tasks[j].dependencies, name);
        lemma_completed_prefix(tasks, done, t, j as nat);
        assert(tasks.take(m as int).drop_last() =~= front);
        assert(tasks.take(m as int).last() == tasks[j]);
        lemma_dependents_below(front, name);
        lemma_completed_repeated(tasks, met, dependents_of(front, name), j, count);
        lemma_unmet_insert(tasks[j].dependencies, met, name);
        lemma_names_in_push(tasks, done, t);
        lemma_unmet_zero(tasks[j].dependencies, names_in(tasks, served));
        lemma_occurrences_contains(tasks[j].dependencies, name);
        assert(is_released(tasks, served, t)(j) <==> depends_on(tasks, j, t) && is_ready(
            tasks,
            j,
            served,
        ));
    } else {
        assert(tasks.take(0) =~= Seq::empty());
    }
}

/// Serving a task and walking its reverse adjacency completes exactly the
/// tasks that it sets free, in registration order, and leaves every counter
/// at the number of dependencies that are still unmet.
pub proof fn lemma_serve_counters(tasks: Seq<TaskSpec>, done: Seq<int>, t: int)
    requires
        names_distinct(tasks),
        0 <= t < tasks.len(),
        !names_in(tasks, done).contains(tasks[t].name),
    ensures
        completed(tasks, names_in(tasks, done), dependents_of(tasks, tasks[t].name)) == released_by(
            tasks,
            done.push(t),
            t,
        ),
        forall|j: int|
            0 <= j < tasks.len() ==> #[trigger] unmet(
                tasks[j].dependencies,
                names_in(tasks, done.push(t)),
            ) + times_listed(dependents_of(tasks, tasks[t].name), j) == unmet(
                tasks[j].dependencies,
                names_in(tasks, done),
            ),
{
    lemma_completed_prefix(tasks, done, t, tasks.len());
    assert(tasks.take(tasks.len() as int) =~= tasks);
    lemma_names_in_push(tasks, done, t);
    assert forall|j: int| 0 <= j < tasks.len() implies #[trigger] unmet(
        tasks[j].dependencies,
        names_in(tasks, done.push(t)),
    ) + times_listed(dependents_of(tasks, tasks[t].name), j) == unmet(
        tasks[j].dependencies,
        names_in(tasks, done),
    ) by {
        lemma_dependents_count(tasks, tasks[t].name, j);
        lemma_unmet_insert(tasks[j].dependencies, names_in(tasks, done), tasks[t].name);
    }
}

} // verus!
