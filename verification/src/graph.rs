//! The mathematical model of a set of registered tasks.
//!
//! A registry is a sequence of [`TaskSpec`] values in registration order. A
//! task is identified inside the model by its position in that sequence.

use vstd::prelude::*;

verus! {

/// What a registered task is: its name, the names it waits for, and how long
/// it runs.
pub struct TaskSpec {
    pub name: Seq<char>,
    pub dependencies: Seq<Seq<char>>,
    pub duration: nat,
}

/// No two registered tasks share a name.
pub open spec fn names_distinct(tasks: Seq<TaskSpec>) -> bool {
    forall|i: int, j: int|
        0 <= i < tasks.len() && 0 <= j < tasks.len() && i != j ==> #[trigger] tasks[i].name
            != #[trigger] tasks[j].name
}

/// Some registered task is called `name`.
pub open spec fn has_name(tasks: Seq<TaskSpec>, name: Seq<char>) -> bool {
    exists|i: int| 0 <= i < tasks.len() && #[trigger] tasks[i].name == name
}

/// Task `j` names task `i` among its dependencies.
pub open spec fn depends_on(tasks: Seq<TaskSpec>, j: int, i: int) -> bool {
    tasks[j].dependencies.contains(tasks[i].name)
}

/// Every name that a task waits for is the name of a registered task.
pub open spec fn dependencies_registered(tasks: Seq<TaskSpec>) -> bool {
    forall|j: int, p: int|
        0 <= j < tasks.len() && 0 <= p < tasks[j].dependencies.len() ==> has_name(
            tasks,
            #[trigger] tasks[j].dependencies[p],
        )
}

/// `path` walks along dependency edges: each task on it depends on the next.
pub open spec fn is_dependency_path(tasks: Seq<TaskSpec>, path: Seq<int>) -> bool {
    &&& path.len() >= 2
    &&& forall|k: int| 0 <= k < path.len() ==> 0 <= #[trigger] path[k] < tasks.len()
    &&& forall|k: int|
        0 <= k < path.len() - 1 ==> depends_on(tasks, #[trigger] path[k], path[k + 1])
}

/// `path` is a dependency path that returns to the task it started from. A
/// task that names itself gives the shortest one.
pub open spec fn is_cycle(tasks: Seq<TaskSpec>, path: Seq<int>) -> bool {
    is_dependency_path(tasks, path) && path[0] == path[path.len() - 1]
}

/// The dependency graph contains at least one cycle.
pub open spec fn has_cycle(tasks: Seq<TaskSpec>) -> bool {
    exists|path: Seq<int>| is_cycle(tasks, path)
}

/// Every dependency is registered and no dependency path returns to the
/// task it started from. These are the registries that have a schedule.
pub open spec fn is_schedulable(tasks: Seq<TaskSpec>) -> bool {
    dependencies_registered(tasks) && !has_cycle(tasks)
}

/// The sum of the durations of all registered tasks.
pub open spec fn total_duration(tasks: Seq<TaskSpec>) -> nat
    decreases tasks.len(),
{
    if tasks.len() == 0 {
        0
    } else {
        total_duration(tasks.drop_last()) + tasks.last().duration
    }
}

/// How many entries of `names` equal `name`.
pub open spec fn occurrences(names: Seq<Seq<char>>, name: Seq<char>) -> nat
    decreases names.len(),
{
    if names.len() == 0 {
        0
    } else {
        occurrences(names.drop_last(), name) + if names.last() == name {
            1nat
        } else {
            0nat
        }
    }
}

/// The sequence that holds `x` `count` times.
pub open spec fn repeated(x: int, count: nat) -> Seq<int> {
    Seq::new(count, |k: int| x)
}

/// The reverse adjacency of `name`: the positions of the tasks that wait for
/// it, in registration order, each once for every time it lists `name`.
pub open spec fn dependents_of(tasks: Seq<TaskSpec>, name: Seq<char>) -> Seq<int>
    decreases tasks.len(),
{
    if tasks.len() == 0 {
        Seq::empty()
    } else {
        dependents_of(tasks.drop_last(), name) + repeated(
            tasks.len() - 1,
            occurrences(tasks.last().dependencies, name),
        )
    }
}

} // verus!
