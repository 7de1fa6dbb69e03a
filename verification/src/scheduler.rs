//! The scheduler: task registry, dependency index and the scheduling run.

use crate::degree::completed;
use crate::degree::lemma_dependents_below;
use crate::degree::lemma_serve_counters;
use crate::degree::lemma_times_listed_take;
use crate::degree::lemma_unmet_all;
use crate::degree::times_listed;
use crate::degree::unmet;
use crate::graph::dependents_of;
use crate::graph::has_name;
use crate::graph::is_schedulable;
use crate::graph::names_distinct;
use crate::graph::occurrences;
use crate::graph::repeated;
use crate::graph::total_duration;
use crate::graph::TaskSpec;
use crate::index::positions;
use crate::index::ReverseIndex;
use crate::laws::lemma_complete_iff_schedulable;
use crate::laws::lemma_elapsed_prefix;
use crate::laws::lemma_total_duration_take;
use crate::order::elapsed;
use crate::order::is_seed;
use crate::order::lemma_distinct_positions_len;
use crate::order::lemma_names_in_contains;
use crate::order::lemma_run_frontier;
use crate::order::lemma_seeds_invariant;
use crate::order::lemma_serve_invariant;
use crate::order::lemma_timeline_push;
use crate::order::names_in;
use crate::order::positions_where;
use crate::order::released_by;
use crate::order::run_frontier;
use crate::order::run_invariant;
use crate::order::schedule_order;
use crate::order::timeline;
use std::collections::VecDeque;
use vstd::hash_map::StringHashMap;
use vstd::prelude::*;

verus! {

/// A unit of work, as its caller declared it.
#[derive(Debug)]
pub struct Task {
    pub name: String,
    pub dependencies: Vec<String>,
    pub duration: u32,
}

impl View for Task {
    type V = TaskSpec;

    open spec fn view(&self) -> TaskSpec {
        TaskSpec {
            name: self.name@,
            dependencies: self.dependencies@.map_values(|d: String| d@),
            duration: self.duration as nat,
        }
    }
}

/// Why no schedule could be produced.
#[derive(Debug, PartialEq, Eq, Structural)]
pub enum ScheduleError {
    NoTaskFound,
    CycleDetected,
}

/// The entries of a schedule as plain values: name, start and duration.
pub open spec fn entries(list: Seq<(String, u32, u32)>) -> Seq<(Seq<char>, nat, nat)> {
    list.map_values(|entry: (String, u32, u32)| (entry.0@, entry.1 as nat, entry.2 as nat))
}

/// What a scheduling run hands back, as plain values.
pub open spec fn outcome(result: Result<Vec<(String, u32, u32)>, ScheduleError>) -> Result<
    Seq<(Seq<char>, nat, nat)>,
    ScheduleError,
> {
    match result {
        Ok(list) => Ok(entries(list@)),
        Err(error) => Err(error),
    }
}

/// The schedule of a registry: the timeline of its scheduling order when
/// every dependency is registered and there is no cycle, and the cycle error
/// otherwise.
pub open spec fn schedule_of(tasks: Seq<TaskSpec>) -> Result<
    Seq<(Seq<char>, nat, nat)>,
    ScheduleError,
> {
    if is_schedulable(tasks) {
        Ok(timeline(tasks, schedule_order(tasks)))
    } else {
        Err(ScheduleError::CycleDetected)
    }
}

/// The task that `add_task` registers for its arguments.
pub open spec fn declared(name: &str, dependencies: Seq<&str>, duration: u32) -> TaskSpec {
    TaskSpec {
        name: name@,
        dependencies: dependencies.map_values(|d: &str| d@),
        duration: duration as nat,
    }
}

/// Two runs on the same registry hand back the same schedule or the same
/// error.
pub proof fn lemma_schedule_repeatable(
    tasks: Seq<TaskSpec>,
    first: Result<Vec<(String, u32, u32)>, ScheduleError>,
    second: Result<Vec<(String, u32, u32)>, ScheduleError>,
)
    requires
        outcome(first) == schedule_of(tasks),
        outcome(second) == schedule_of(tasks),
    ensures
        outcome(first) == outcome(second),
{
}

/// Registers tasks and derives their schedule.
pub struct TaskScheduler {
    /// The registered tasks, in registration order.
    tasks: Vec<Task>,
    /// Where in `tasks` the task of a name stands.
    registry: StringHashMap<usize>,
    /// For each task the number of dependencies it declared.
    first_level_dep: Vec<usize>,
    /// For each name the tasks that wait for it.
    dependents: ReverseIndex,
}

impl View for TaskScheduler {
    type V = Seq<TaskSpec>;

    closed spec fn view(&self) -> Seq<TaskSpec> {
        self.tasks@.map_values(|task: Task| task@)
    }
}

impl TaskScheduler {
    /// The registry holds each name once, and the lookup table, the in-degree
    /// table and the reverse index agree with it.
    pub closed spec fn wf(&self) -> bool {
        &&& names_distinct(self@)
        &&& forall|name: Seq<char>| #[trigger]
            self.registry@.contains_key(name) <==> has_name(self@, name)
        &&& forall|i: int|
            0 <= i < self@.len() ==> self.registry@[(#[trigger] self@[i]).name] == i
        &&& self.first_level_dep@.len() == self@.len()
        &&& forall|i: int|
            0 <= i < self@.len() ==> #[trigger] self.first_level_dep@[i]
                == self@[i].dependencies.len()
        &&& self.dependents.wf()
        &&& forall|name: Seq<char>| #[trigger]
            self.dependents.dependents(name) == dependents_of(self@, name)
    }

    /// In a well-formed scheduler no two tasks share a name.
    pub proof fn lemma_names_distinct(&self)
        requires
            self.wf(),
        ensures
            names_distinct(self@),
    {
    }

    /// A new empty scheduler.
    pub fn new() -> (scheduler: Self)
        ensures
            scheduler.wf(),
            scheduler@ == Seq::<TaskSpec>::empty(),
    {
        let scheduler = TaskScheduler {
            tasks: Vec::new(),
            registry: StringHashMap::new(),
            first_level_dep: Vec::new(),
            dependents: ReverseIndex::new(),
        };
        assert(scheduler@ =~= Seq::<TaskSpec>::empty());
        scheduler
    }

    /// Whether a task of this name is registered.
    pub fn contains_task(&self, name: &str) -> (found: bool)
        requires
            self.wf(),
        ensures
            found == has_name(self@, name@),
    {
        self.registry.contains_key(name)
    }

    /// The sum of the durations of all registered tasks, unless it exceeds
    /// what a start time can hold.
    pub fn total_duration(&self) -> (total: Option<u32>)
        ensures
            match total {
                Some(sum) => sum == total_duration(self@),
                None => total_duration(self@) > u32::MAX,
            },
    {
        let ghost tasks = self@;
        let mut sum: u32 = 0;
        for i in 0..self.tasks.len()
            invariant
                tasks == self@,
                sum == total_duration(tasks.take(i as int)),
        {
            proof {
                assert(tasks.take(i + 1).drop_last() =~= tasks.take(i as int));
                lemma_total_duration_take(tasks, i + 1);
            }
            match sum.checked_add(self.tasks[i].duration) {
                Some(longer) => {
                    sum = longer;
                },
                None => {
                    return None;
                },
            }
        }
        assert(tasks.take(tasks.len() as int) =~= tasks);
        Some(sum)
    }

    /// Registers a task under a name that is not taken yet. The dependencies
    /// need not be registered, now or ever.
    #[verifier::loop_isolation(false)]
    pub fn add_task(&mut self, name: &str, dependencies: Vec<&str>, duration: u32)
        requires
            old(self).wf(),
            !has_name(old(self)@, name@),
        ensures
            final(self).wf(),
            final(self)@ == old(self)@.push(declared(name, dependencies@, duration)),
    {
        broadcast use vstd::string::group_string_axioms;

        let ghost before = self@;
        let ghost wanted = declared(name, dependencies@, duration);
        let position: usize = self.tasks.len();
        let mut owned: Vec<String> = Vec::new();
        for i in 0..dependencies.len()
            invariant
                self.tasks == old(self).tasks,
                self.registry == old(self).registry,
                self.first_level_dep == old(self).first_level_dep,
                self.dependents.wf(),
                owned@.len() == i,
                forall|k: int| 0 <= k < i ==> (#[trigger] owned@[k])@ == dependencies@[k]@,
                forall|other: Seq<char>| #[trigger]
                    self.dependents.dependents(other) == dependents_of(before, other) + repeated(
                        position as int,
                        occurrences(wanted.dependencies.take(i as int), other),
                    ),
        {
            let dependency: &str = dependencies[i];
            let ghost recorded = self.dependents;
            owned.push(dependency.to_string());
            self.dependents.record(dependency, position);
            proof {
                let sooner = wanted.dependencies.take(i as int);
                let later = wanted.dependencies.take(i + 1);
                assert(later.drop_last() =~= sooner);
                assert(later.last() == dependency@);
                assert forall|other: Seq<char>| #[trigger]
                    self.dependents.dependents(other) == dependents_of(before, other) + repeated(
                        position as int,
                        occurrences(later, other),
                    ) by {
                    assert(recorded.dependents(other) == dependents_of(before, other) + repeated(
                        position as int,
                        occurrences(sooner, other),
                    ));
                    if other == dependency@ {
                        assert(repeated(position as int, occurrences(sooner, other)).push(
                            position as int,
                        ) =~= repeated(position as int, occurrences(later, other)));
                        assert(self.dependents.dependents(other) =~= dependents_of(before, other)
                            + repeated(position as int, occurrences(later, other)));
                    }
                }
            }
        }
        self.first_level_dep.push(dependencies.len());
        self.registry.insert(name.to_string(), position);
        self.tasks.push(Task { name: name.to_string(), dependencies: owned, duration });
        proof {
            let after = self@;
            assert(self.tasks@.last()@.dependencies =~= wanted.dependencies);
            assert(after =~= before.push(wanted));
            assert(after.drop_last() =~= before);
            assert(wanted.dependencies.take(dependencies@.len() as int) =~= wanted.dependencies);
            assert forall|other: Seq<char>| #[trigger]
                self.registry@.contains_key(other) <==> has_name(after, other) by {
                if has_name(after, other) {
                    let i = choose|i: int| 0 <= i < after.len() && #[trigger] after[i].name == other;
                    if i < before.len() {
                        assert(before[i].name == other);
                    }
                }
                if has_name(before, other) {
                    let i = choose|i: int| 0 <= i < before.len() && #[trigger] before[i].name == other;
                    assert(after[i].name == other);
                }
                if other == name@ {
                    assert(after[position as int].name == other);
                }
            }
            assert forall|i: int| 0 <= i < after.len() implies self.registry@[(#[trigger] after[i]).name]
                == i by {
                if i < before.len() {
                    assert(before[i].name == after[i].name);
                }
            }
            assert(names_distinct(after)) by {
                assert forall|i: int, j: int|
                    0 <= i < after.len() && 0 <= j < after.len() && i != j implies #[trigger] after[i].name
                    != #[trigger] after[j].name by {
                    if i < before.len() {
                        assert(before[i].name == after[i].name);
                    }
                    if j < before.len() {
                        assert(before[j].name == after[j].name);
                    }
                }
            }
        }
    }

    /// Derives the schedule: every task after all tasks that it waits for,
    /// one after the other on a single timeline. Tasks that are ready at the
    /// same time run in the order in which they became ready, and among
    /// those in registration order. Where a task waits for an unregistered
    /// name or for itself, directly or through others, no schedule exists
    /// and the cycle error is returned. The tasks that are scheduled must
    /// not run for longer together than a start time can hold; that is so
    /// whenever `total_duration` returns a sum.
    #[verifier::loop_isolation(false)]
    pub fn schedule_tasks(&self) -> (result: Result<Vec<(String, u32, u32)>, ScheduleError>)
        requires
            self.wf(),
            elapsed(self@, schedule_order(self@)) <= u32::MAX,
        ensures
            outcome(result) == schedule_of(self@),
    {
        let ghost tasks = self@;
        let count: usize = self.tasks.len();
        let mut in_degree: Vec<usize> = Vec::new();
        let mut frontier: VecDeque<usize> = VecDeque::new();
        for i in 0..count
            invariant
                in_degree@.len() == i,
                forall|j: int| 0 <= j < i ==> #[trigger] in_degree@[j] == tasks[j].dependencies.len(),
                positions(frontier@) == positions_where(i as nat, is_seed(tasks)),
        {
            let degree: usize = self.first_level_dep[i];
            in_degree.push(degree);
            if degree == 0 {
                let ghost waiting = positions(frontier@);
                frontier.push_back(i);
                assert(positions(frontier@) =~= waiting.push(i as int));
            }
        }
        let mut order: Vec<(String, u32, u32)> = Vec::new();
        let mut time: u32 = 0;
        let ghost mut done: Seq<int> = Seq::empty();
        proof {
            lemma_seeds_invariant(tasks);
            assert(entries(order@) =~= timeline(tasks, done));
            assert forall|j: int| 0 <= j < count implies in_degree@[j] == unmet(
                tasks[j].dependencies,
                names_in(tasks, done),
            ) by {
                lemma_unmet_all(tasks[j].dependencies, names_in(tasks, done));
            }
        }
        while frontier.len() > 0
            invariant
                run_invariant(tasks, done, positions(frontier@)),
                run_frontier(tasks, done, positions(frontier@)) == schedule_order(tasks),
                in_degree@.len() == count,
                forall|j: int|
                    0 <= j < count ==> #[trigger] in_degree@[j] == unmet(
                        tasks[j].dependencies,
                        names_in(tasks, done),
                    ),
                entries(order@) == timeline(tasks, done),
                time == elapsed(tasks, done),
            decreases count - done.len(),
        {
            let ghost waiting = positions(frontier@);
            let ghost met = names_in(tasks, done);
            let served_task: usize = frontier.pop_front().unwrap();
            let ghost t = served_task as int;
            let ghost served = done.push(t);
            let ghost rest = positions(frontier@);
            let ghost list = dependents_of(tasks, tasks[t].name);
            proof {
                assert(rest =~= waiting.drop_first());
                assert(waiting[0] == t);
                lemma_distinct_positions_len(done + waiting, tasks.len());
                assert((done + waiting)[done.len() as int] == t);
                assert(!done.contains(t)) by {
                    if done.contains(t) {
                        let k = choose|k: int| 0 <= k < done.len() && done[k] == t;
                        assert((done + waiting)[k] == t);
                    }
                }
                assert forall|k: int| 0 <= k < done.len() implies 0 <= #[trigger] done[k]
                    < tasks.len() by {
                    assert((done + waiting)[k] == done[k]);
                }
                lemma_names_in_contains(tasks, done, t);
                lemma_serve_invariant(tasks, done, waiting);
                lemma_serve_counters(tasks, done, t);
                lemma_timeline_push(tasks, done, t);
                lemma_dependents_below(tasks, tasks[t].name);
                let next = rest + released_by(tasks, served, t);
                lemma_run_frontier(tasks, served, next);
                lemma_elapsed_prefix(tasks, served, schedule_order(tasks));
            }
            let task = &self.tasks[served_task];
            assert(task@ == tasks[t]);
            order.push((task.name.clone(), time, task.duration));
            time = time + task.duration;
            proof {
                assert(entries(order@) =~= timeline(tasks, served));
                assert(list.take(0) =~= Seq::empty());
                assert(rest + completed(tasks, met, list.take(0)) =~= rest);
            }
            match self.dependents.get(task.name.as_str()) {
                Some(neighbors) => {
                    for k in 0..neighbors.len()
                        invariant
                            positions(neighbors@) == list,
                            in_degree@.len() == count,
                            forall|j: int|
                                0 <= j < count ==> #[trigger] in_degree@[j] + times_listed(
                                    list.take(k as int),
                                    j,
                                ) == unmet(tasks[j].dependencies, met),
                            positions(frontier@) == rest + completed(tasks, met, list.take(k as int)),
                    {
                        let neighbor: usize = neighbors[k];
                        let ghost j = neighbor as int;
                        let ghost queued = positions(frontier@);
                        proof {
                            assert(list[k as int] == j);
                            lemma_times_listed_take(list, k as int, j);
                            lemma_times_listed_take(list, k + 1, j);
                            assert(unmet(tasks[j].dependencies, names_in(tasks, served))
                                + times_listed(list, j) == unmet(tasks[j].dependencies, met));
                            assert(in_degree@[j] + times_listed(list.take(k as int), j) == unmet(
                                tasks[j].dependencies,
                                met,
                            ));
                        }
                        let remaining: usize = in_degree[neighbor] - 1;
                        in_degree.set(neighbor, remaining);
                        if remaining == 0 {
                            frontier.push_back(neighbor);
                            assert(positions(frontier@) =~= queued.push(j));
                        }
                        proof {
                            let walked_list = list.take(k + 1);
                            assert(walked_list.drop_last() =~= list.take(k as int));
                            assert(walked_list.last() == j);
                            assert forall|other: int| 0 <= other < count implies #[trigger] in_degree@[other]
                                + times_listed(walked_list, other) == unmet(
                                tasks[other].dependencies,
                                met,
                            ) by {
                                lemma_times_listed_take(list, k as int, other);
                            }
                            assert(positions(frontier@) =~= rest + completed(tasks, met, walked_list));
                        }
                    }
                    assert(list.take(list.len() as int) =~= list);
                },
                None => {
                    assert(list.take(0) =~= list);
                },
            }
            proof {
                done = served;
                assert forall|j: int| 0 <= j < count implies #[trigger] in_degree@[j] == unmet(
                    tasks[j].dependencies,
                    names_in(tasks, done),
                ) by {
                    assert(in_degree@[j] + times_listed(list, j) == unmet(tasks[j].dependencies, met));
                    assert(unmet(tasks[j].dependencies, names_in(tasks, served)) + times_listed(
                        list,
                        j,
                    ) == unmet(tasks[j].dependencies, met));
                }
            }
        }
        proof {
            assert(positions(frontier@) =~= Seq::<int>::empty());
            assert(done == schedule_order(tasks));
            lemma_complete_iff_schedulable(tasks);
        }
        if order.len() < count {
            Err(ScheduleError::CycleDetected)
        } else {
            Ok(order)
        }
    }
}

} // verus!
