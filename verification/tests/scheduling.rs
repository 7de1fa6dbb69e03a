use task_scheduler::ScheduleError;
use task_scheduler::Task;
use task_scheduler::TaskScheduler;

fn entry(name: &str, start: u32, duration: u32) -> (String, u32, u32) {
    (name.to_string(), start, duration)
}

/// Registers the tasks in the given order and schedules them.
fn schedule(tasks: &[(&str, &[&str], u32)]) -> Result<Vec<(String, u32, u32)>, ScheduleError> {
    let mut scheduler = TaskScheduler::new();
    for (name, dependencies, duration) in tasks {
        assert!(!scheduler.contains_task(name));
        scheduler.add_task(name, dependencies.to_vec(), *duration);
    }
    assert!(scheduler.total_duration().is_some());
    scheduler.schedule_tasks()
}

#[test]
fn test_non_cylce() {
    let mut scheduler = TaskScheduler::new();
    scheduler.add_task("D", vec!["B", "C"], 4);
    scheduler.add_task("A", vec![], 3);
    scheduler.add_task("B", vec!["A"], 2);
    scheduler.add_task("C", vec!["A"], 1);

    let schedule = scheduler.schedule_tasks();
    assert_eq!(
        schedule,
        Ok(vec![
            ("A".to_string(), 0, 3),
            ("B".to_string(), 3, 2),
            ("C".to_string(), 5, 1),
            ("D".to_string(), 6, 4),
        ])
    );
}

#[test]
fn test_cycle_detection() {
    let mut scheduler = TaskScheduler::new();
    scheduler.add_task("A", vec!["B"], 1);
    scheduler.add_task("B", vec!["C"], 1);
    scheduler.add_task("C", vec!["A"], 1);

    let schedule = scheduler.schedule_tasks();
    assert_eq!(schedule, Err(ScheduleError::CycleDetected));
}

#[test]
fn empty_scheduler_has_empty_schedule() {
    let scheduler = TaskScheduler::new();
    assert_eq!(scheduler.total_duration(), Some(0));
    assert_eq!(scheduler.schedule_tasks(), Ok(vec![]));
}

#[test]
fn single_task_of_no_duration() {
    let schedule = schedule(&[("A", &[], 0)]);
    assert_eq!(schedule, Ok(vec![entry("A", 0, 0)]));
}

#[test]
fn diamond_in_declaration_order() {
    let schedule = schedule(&[("A", &[], 3), ("B", &["A"], 2), ("C", &["A"], 1), ("D", &["B", "C"], 4)]);
    assert_eq!(
        schedule,
        Ok(vec![entry("A", 0, 3), entry("B", 3, 2), entry("C", 5, 1), entry("D", 6, 4)])
    );
}

#[test]
fn diamond_with_join_declared_between() {
    let schedule = schedule(&[("B", &["A"], 2), ("D", &["C", "B"], 4), ("C", &["A"], 1), ("A", &[], 3)]);
    assert_eq!(
        schedule,
        Ok(vec![entry("A", 0, 3), entry("B", 3, 2), entry("C", 5, 1), entry("D", 6, 4)])
    );
}

#[test]
fn tasks_released_together_run_in_registration_order() {
    let schedule = schedule(&[("A", &[], 3), ("C", &["A"], 1), ("B", &["A"], 2), ("D", &["B", "C"], 4)]);
    assert_eq!(
        schedule,
        Ok(vec![entry("A", 0, 3), entry("C", 3, 1), entry("B", 4, 2), entry("D", 6, 4)])
    );
}

#[test]
fn independent_tasks_run_in_registration_order() {
    let schedule = schedule(&[("A", &[], 5), ("B", &[], 2)]);
    assert_eq!(schedule, Ok(vec![entry("A", 0, 5), entry("B", 5, 2)]));
    let reversed = self::schedule(&[("B", &[], 2), ("A", &[], 5)]);
    assert_eq!(reversed, Ok(vec![entry("B", 0, 2), entry("A", 2, 5)]));
    let last = &reversed.unwrap()[1];
    assert_eq!(last.1 + last.2, 7);
}

#[test]
fn frontier_is_served_first_in_first_out() {
    // X and Y are ready at once; X releases P, Y releases Q, and P was
    // released first although Q was registered first.
    let schedule = schedule(&[
        ("Q", &["Y"], 1),
        ("P", &["X"], 2),
        ("X", &[], 3),
        ("Y", &[], 4),
    ]);
    assert_eq!(
        schedule,
        Ok(vec![entry("X", 0, 3), entry("Y", 3, 4), entry("P", 7, 2), entry("Q", 9, 1)])
    );
}

#[test]
fn task_waits_for_its_last_dependency() {
    let schedule = schedule(&[
        ("A", &[], 1),
        ("B", &[], 2),
        ("J", &["A", "C"], 4),
        ("C", &["B"], 8),
        ("K", &["A"], 16),
    ]);
    assert_eq!(
        schedule,
        Ok(vec![
            entry("A", 0, 1),
            entry("B", 1, 2),
            entry("K", 3, 16),
            entry("C", 19, 8),
            entry("J", 27, 4),
        ])
    );
}

#[test]
fn dependency_listed_twice_counts_twice_and_is_met_twice() {
    let schedule = schedule(&[("B", &["A", "A"], 2), ("A", &[], 1), ("C", &["A"], 3)]);
    assert_eq!(schedule, Ok(vec![entry("A", 0, 1), entry("B", 1, 2), entry("C", 3, 3)]));
}

#[test]
fn task_that_waits_for_itself_is_a_cycle() {
    assert_eq!(schedule(&[("A", &["A"], 1)]), Err(ScheduleError::CycleDetected));
}

#[test]
fn cycle_hides_the_tasks_that_could_run() {
    let schedule = schedule(&[("Free", &[], 1), ("A", &["B"], 1), ("B", &["A"], 1), ("After", &["Free"], 1)]);
    assert_eq!(schedule, Err(ScheduleError::CycleDetected));
}

#[test]
fn task_behind_a_cycle_is_never_ready() {
    let schedule = schedule(&[("A", &["B"], 1), ("B", &["A"], 1), ("C", &["A"], 1)]);
    assert_eq!(schedule, Err(ScheduleError::CycleDetected));
}

#[test]
fn unregistered_dependency_blocks_the_schedule() {
    let schedule = schedule(&[("A", &[], 1), ("B", &["Missing"], 1)]);
    assert_eq!(schedule, Err(ScheduleError::CycleDetected));
}

#[test]
fn dependency_may_be_registered_later() {
    let mut scheduler = TaskScheduler::new();
    scheduler.add_task("B", vec!["A"], 2);
    assert_eq!(scheduler.schedule_tasks(), Err(ScheduleError::CycleDetected));
    scheduler.add_task("A", vec![], 1);
    assert_eq!(scheduler.schedule_tasks(), Ok(vec![entry("A", 0, 1), entry("B", 1, 2)]));
}

#[test]
fn scheduling_twice_gives_the_same_schedule() {
    let mut scheduler = TaskScheduler::new();
    scheduler.add_task("D", vec!["B", "C"], 4);
    scheduler.add_task("A", vec![], 3);
    scheduler.add_task("B", vec!["A"], 2);
    scheduler.add_task("C", vec!["A"], 1);
    let first = scheduler.schedule_tasks();
    let second = scheduler.schedule_tasks();
    assert!(first.is_ok());
    assert_eq!(first, second);

    let mut cyclic = TaskScheduler::new();
    cyclic.add_task("A", vec!["B"], 1);
    cyclic.add_task("B", vec!["A"], 1);
    assert_eq!(cyclic.schedule_tasks(), cyclic.schedule_tasks());
}

#[test]
fn every_task_once_and_after_its_dependencies() {
    let tasks: Vec<(&str, Vec<&str>, u32)> = vec![
        ("deploy", vec!["package", "migrate"], 7),
        ("package", vec!["build", "test"], 3),
        ("test", vec!["build"], 11),
        ("lint", vec![], 2),
        ("build", vec!["fetch"], 13),
        ("migrate", vec!["fetch"], 5),
        ("fetch", vec![], 1),
    ];
    let mut scheduler = TaskScheduler::new();
    for (name, dependencies, duration) in &tasks {
        scheduler.add_task(name, dependencies.clone(), *duration);
    }
    let schedule = scheduler.schedule_tasks().unwrap();
    assert_eq!(schedule.len(), tasks.len());
    for (name, dependencies, duration) in &tasks {
        let found: Vec<&(String, u32, u32)> = schedule.iter().filter(|e| e.0 == *name).collect();
        assert_eq!(found.len(), 1);
        assert_eq!(found[0].2, *duration);
        for dependency in dependencies {
            let before = schedule.iter().find(|e| e.0 == *dependency).unwrap();
            assert!(before.1 + before.2 <= found[0].1);
        }
    }
    assert_eq!(
        schedule,
        vec![
            entry("lint", 0, 2),
            entry("fetch", 2, 1),
            entry("build", 3, 13),
            entry("migrate", 16, 5),
            entry("test", 21, 11),
            entry("package", 32, 3),
            entry("deploy", 35, 7),
        ]
    );
}

#[test]
fn timeline_is_cumulative_and_spans_all_durations() {
    let mut scheduler = TaskScheduler::new();
    scheduler.add_task("c", vec!["a", "b"], 30);
    scheduler.add_task("a", vec![], 10);
    scheduler.add_task("b", vec!["a"], 0);
    scheduler.add_task("d", vec![], 2);
    let schedule = scheduler.schedule_tasks().unwrap();
    assert_eq!(schedule[0].1, 0);
    for k in 1..schedule.len() {
        assert_eq!(schedule[k].1, schedule[k - 1].1 + schedule[k - 1].2);
        assert!(schedule[k - 1].1 <= schedule[k].1);
    }
    let last = schedule.last().unwrap();
    assert_eq!(last.1 + last.2, 42);
    assert_eq!(scheduler.total_duration(), Some(42));
}

#[test]
fn contains_task_sees_registered_names_only() {
    let mut scheduler = TaskScheduler::new();
    assert!(!scheduler.contains_task("A"));
    scheduler.add_task("A", vec!["B"], 1);
    assert!(scheduler.contains_task("A"));
    assert!(!scheduler.contains_task("B"));
    assert!(!scheduler.contains_task(""));
    scheduler.add_task("", vec![], 1);
    assert!(scheduler.contains_task(""));
}

#[test]
fn total_duration_tells_when_the_timeline_is_too_long() {
    let mut scheduler = TaskScheduler::new();
    scheduler.add_task("A", vec![], u32::MAX - 1);
    scheduler.add_task("B", vec!["A"], 1);
    assert_eq!(scheduler.total_duration(), Some(u32::MAX));
    assert_eq!(
        scheduler.schedule_tasks(),
        Ok(vec![entry("A", 0, u32::MAX - 1), entry("B", u32::MAX - 1, 1)])
    );
    scheduler.add_task("C", vec![], 1);
    assert_eq!(scheduler.total_duration(), None);
}

#[test]
fn task_holds_what_was_declared() {
    let task = Task { name: "A".to_string(), dependencies: vec!["B".to_string()], duration: 3 };
    assert_eq!(task.name, "A");
    assert_eq!(task.dependencies, vec!["B".to_string()]);
    assert_eq!(task.duration, 3);
    assert_ne!(ScheduleError::NoTaskFound, ScheduleError::CycleDetected);
}
