use multiprocessor_scheduling::assignment::assign_tasks_to_core;
use multiprocessor_scheduling::scheduler::factory::{algorithm_for_choice, str_equal};
use multiprocessor_scheduling::scheduler::{
    Scheduler, SchedulerFactory, SchedulingStrategy, GlobalEDFScheduler, CFS, GlobalQueueScheduler,
    DynamicPriorityPartitionedScheduler, MultiLevelQueueScheduler, WorkStealingScheduler,
    FixedPriorityScheduler,
};
use multiprocessor_scheduling::sorting::{sort_tasks, task_goes_after, TaskKey};
use multiprocessor_scheduling::task::{create_tasks, Task};
use std::cmp::Ordering;

fn task(name: &str, deadline: u128, priority: u8, executed_time: u128, dynamic_priority: u32, core_id: usize) -> Task {
    Task {
        name: String::from(name),
        wcet: 1,
        deadline,
        priority,
        executed_time,
        dynamic_priority,
        core_id,
    }
}

fn names(tasks: &[Task]) -> Vec<String> {
    tasks.iter().map(|t| t.name.clone()).collect()
}

fn name_of(t: Option<Task>) -> Option<String> {
    t.map(|t| t.name)
}

#[test]
fn create_tasks_adds_each_offset_to_its_clock_reading() {
    let readings: [u128; 8] = [1000, 1001, 1002, 1003, 1004, 1005, 1006, 1007];
    let tasks = create_tasks(&readings);
    let deadlines: Vec<u128> = tasks.iter().map(|t| t.deadline).collect();
    assert_eq!(
        deadlines,
        vec![50_001_000, 110_001_001, 30_001_002, 70_001_003, 150_001_004, 180_001_005, 210_001_006, 240_001_007]
    );
}

fn demo_tasks() -> Vec<Task> {
    create_tasks(&[0; 8])
}

#[test]
fn create_tasks_gives_the_demonstration_set() {
    let tasks = demo_tasks();
    assert_eq!(tasks.len(), 8);
    assert_eq!(tasks[0].name, "Task 1");
    assert_eq!(tasks[0].deadline, 50_000_000);
    assert_eq!(tasks[0].executed_time, 1_000_000_000);
    assert_eq!(tasks[0].dynamic_priority, 3);
    assert_eq!(tasks[2].name, "Task 3");
    assert_eq!(tasks[2].deadline, 30_000_000);
    assert_eq!(tasks[2].priority, 3);
    assert_eq!(tasks[7].name, "Task 8");
    assert_eq!(tasks[7].wcet, 8);
    assert_eq!(tasks[7].deadline, 240_000_000);
    assert_eq!(tasks[7].priority, 8);
    assert_eq!(tasks[7].executed_time, 8_000_000_000);
    assert_eq!(tasks[7].dynamic_priority, 9);
    assert_eq!(tasks[7].core_id, 7);
}

#[test]
fn tasks_are_equal_by_dynamic_priority() {
    let a = task("a", 10, 1, 0, 4, 0);
    let b = task("b", 99, 2, 5, 4, 1);
    let c = task("c", 10, 1, 0, 5, 0);
    assert!(a == b);
    assert!(a != c);
}

#[test]
fn task_order_puts_higher_dynamic_priority_first_then_earlier_deadline() {
    let high = task("high", 100, 0, 0, 9, 0);
    let low = task("low", 1, 0, 0, 2, 0);
    let early = task("early", 5, 0, 0, 9, 0);
    assert_eq!(high.partial_cmp(&low), Some(Ordering::Less));
    assert_eq!(low.partial_cmp(&high), Some(Ordering::Greater));
    assert_eq!(early.partial_cmp(&high), Some(Ordering::Less));
    assert_eq!(high.partial_cmp(&high.clone()), Some(Ordering::Equal));
    assert!(high < low);
}

#[test]
fn execution_ticks_are_ten_per_unit_of_wcet() {
    let mut t = task("t", 0, 0, 0, 0, 0);
    t.wcet = 7;
    assert_eq!(t.execution_ticks(), 70);
}

#[test]
fn clone_keeps_every_field() {
    let t = task("t", 3, 4, 5, 6, 7);
    let c = t.clone();
    assert_eq!(c.name, "t");
    assert_eq!((c.deadline, c.priority, c.executed_time, c.dynamic_priority, c.core_id), (3, 4, 5, 6, 7));
}

#[test]
fn sort_by_deadline_is_stable_and_ordered() {
    let mut v = vec![
        task("a", 30, 0, 0, 0, 0),
        task("b", 10, 0, 0, 0, 0),
        task("c", 30, 0, 0, 0, 0),
        task("d", 20, 0, 0, 0, 0),
        task("e", 10, 0, 0, 0, 0),
    ];
    sort_tasks(TaskKey::Deadline, &mut v);
    assert_eq!(names(&v), vec!["b", "e", "d", "a", "c"]);
}

#[test]
fn sort_by_task_order_matches_the_order_of_tasks() {
    let mut v = vec![
        task("a", 30, 0, 0, 1, 0),
        task("b", 10, 0, 0, 5, 0),
        task("c", 5, 0, 0, 1, 0),
        task("d", 20, 0, 0, 5, 0),
    ];
    sort_tasks(TaskKey::TaskOrder, &mut v);
    assert_eq!(names(&v), vec!["b", "d", "c", "a"]);
}

#[test]
fn sort_of_an_ordered_list_leaves_it_alone() {
    let mut v = vec![task("a", 1, 0, 0, 0, 0), task("b", 2, 0, 0, 0, 0), task("c", 3, 0, 0, 0, 0)];
    sort_tasks(TaskKey::Deadline, &mut v);
    assert_eq!(names(&v), vec!["a", "b", "c"]);
}

#[test]
fn partition_comparison_compares_static_with_dynamic_priority() {
    let a = task("a", 0, 1, 0, 3, 0);
    let b = task("b", 0, 4, 0, 2, 0);
    assert!(task_goes_after(TaskKey::PartitionPriority, &a, &b));
    assert!(!task_goes_after(TaskKey::PartitionPriority, &b, &a));
}

#[test]
fn partition_sort_with_consistent_priorities_is_descending() {
    let mut v = vec![task("p2", 0, 2, 0, 2, 0), task("p7", 0, 7, 0, 7, 0), task("p4", 0, 4, 0, 4, 0)];
    sort_tasks(TaskKey::PartitionPriority, &mut v);
    assert_eq!(names(&v), vec!["p7", "p4", "p2"]);
}

#[test]
fn global_edf_keeps_its_queue_sorted_and_serves_earliest_deadline() {
    let mut s = GlobalEDFScheduler::new();
    s.add_task(task("late", 90, 0, 0, 0, 0));
    s.add_task(task("soon", 10, 0, 0, 0, 0));
    s.add_task(task("mid", 50, 0, 0, 0, 0));
    assert_eq!(name_of(s.schedule()).as_deref(), Some("soon"));
    assert_eq!(name_of(s.schedule()).as_deref(), Some("mid"));
    assert_eq!(name_of(s.schedule()).as_deref(), Some("late"));
    assert_eq!(name_of(s.schedule()), None);
}

#[test]
fn global_edf_removes_the_first_task_with_the_earliest_tasks_name() {
    let mut s = GlobalEDFScheduler::new();
    s.add_task(task("x", 5, 0, 0, 0, 0));
    s.add_task(task("y", 1, 0, 0, 0, 0));
    let mut dup = task("y", 9, 0, 0, 0, 0);
    dup.core_id = 3;
    SchedulingStrategy::add_task(&mut s, dup);
    let first = s.schedule().unwrap();
    assert_eq!((first.name.as_str(), first.deadline), ("y", 1));
    let second = s.schedule().unwrap();
    assert_eq!((second.name.as_str(), second.deadline), ("x", 5));
}

#[test]
fn global_edf_strategy_takes_earliest_deadline_of_the_given_list() {
    let mut s = GlobalEDFScheduler::new();
    let mut list = vec![
        task("a", 20, 0, 0, 0, 0),
        task("b", 70, 0, 0, 0, 0),
        task("c", 40, 0, 0, 0, 0),
        task("d", 20, 0, 0, 0, 0),
    ];
    let r = SchedulingStrategy::schedule(&mut s, &mut list);
    assert_eq!(name_of(r).as_deref(), Some("a"));
    assert_eq!(names(&list), vec!["d", "c", "b"]);
    let r = SchedulingStrategy::schedule(&mut s, &mut list);
    assert_eq!(name_of(r).as_deref(), Some("d"));
    let mut empty: Vec<Task> = Vec::new();
    assert!(SchedulingStrategy::schedule(&mut s, &mut empty).is_none());
    assert!(s.schedule().is_none());
}

#[test]
fn global_edf_strategy_add_appends_without_sorting() {
    let mut s = GlobalEDFScheduler::new();
    SchedulingStrategy::add_task(&mut s, task("late", 90, 0, 0, 0, 0));
    SchedulingStrategy::add_task(&mut s, task("soon", 10, 0, 0, 0, 0));
    assert_eq!(name_of(s.schedule()).as_deref(), Some("soon"));
}

#[test]
fn cfs_serves_the_task_that_ran_least() {
    let mut s = CFS::new();
    assert!(s.internal_schedule().is_none());
    s.add_task(task("a", 0, 0, 3000, 0, 0));
    s.add_task(task("b", 0, 0, 1000, 0, 0));
    s.add_task(task("c", 0, 0, 1000, 0, 0));
    s.add_task(task("d", 0, 0, 2000, 0, 0));
    assert_eq!(name_of(s.internal_schedule()).as_deref(), Some("b"));
    let mut list = vec![task("ignored", 0, 0, 0, 0, 0)];
    assert_eq!(name_of(SchedulingStrategy::schedule(&mut s, &mut list)).as_deref(), Some("c"));
    assert_eq!(list.len(), 1);
    assert_eq!(name_of(s.internal_schedule()).as_deref(), Some("d"));
    assert_eq!(name_of(s.internal_schedule()).as_deref(), Some("a"));
    assert!(s.internal_schedule().is_none());
}

#[test]
fn global_queue_is_last_in_first_out() {
    let mut s = GlobalQueueScheduler::new();
    s.add_task(task("first", 0, 0, 0, 0, 0));
    s.add_task(task("second", 0, 0, 0, 0, 0));
    SchedulingStrategy::add_task(&mut s, task("third", 0, 0, 0, 0, 0));
    let mut list: Vec<Task> = Vec::new();
    assert_eq!(name_of(SchedulingStrategy::schedule(&mut s, &mut list)).as_deref(), Some("third"));
    assert_eq!(name_of(s.schedule()).as_deref(), Some("second"));
    assert_eq!(name_of(s.schedule()).as_deref(), Some("first"));
    assert!(s.schedule().is_none());
}

#[test]
fn partitioned_queues_are_per_core() {
    let mut s = DynamicPriorityPartitionedScheduler::new(3);
    s.add_task(task("a", 0, 2, 0, 2, 0), 1);
    s.add_task(task("b", 0, 5, 0, 5, 0), 1);
    s.add_task(task("c", 0, 1, 0, 1, 0), 2);
    assert!(s.schedule(0).is_none());
    assert_eq!(name_of(s.schedule(2)).as_deref(), Some("c"));
    assert_eq!(name_of(s.schedule(1)).as_deref(), Some("a"));
    assert_eq!(name_of(s.schedule(1)).as_deref(), Some("b"));
    assert!(s.schedule(1).is_none());
}

#[test]
fn partitioned_strategy_add_uses_the_tasks_core() {
    let mut s = DynamicPriorityPartitionedScheduler::new(2);
    SchedulingStrategy::add_task(&mut s, task("on1", 0, 3, 0, 3, 1));
    assert!(s.schedule(0).is_none());
    assert_eq!(name_of(s.schedule(1)).as_deref(), Some("on1"));
}

#[test]
fn partitioned_strategy_takes_the_last_in_task_order() {
    let mut s = DynamicPriorityPartitionedScheduler::new(1);
    let mut list = vec![
        task("low_late", 90, 0, 0, 1, 0),
        task("high", 10, 0, 0, 8, 0),
        task("low_early", 20, 0, 0, 1, 0),
    ];
    let r = SchedulingStrategy::schedule(&mut s, &mut list);
    assert_eq!(name_of(r).as_deref(), Some("low_late"));
    assert_eq!(names(&list), vec!["high", "low_early"]);
}

#[test]
fn multilevel_serves_high_priority_first_then_fifo() {
    let mut s = MultiLevelQueueScheduler::new();
    assert!(s.schedule().is_none());
    s.add_task(task("low1", 0, 5, 0, 0, 0));
    s.add_task(task("high1", 0, 6, 0, 0, 0));
    SchedulingStrategy::add_task(&mut s, task("low2", 0, 1, 0, 0, 0));
    s.add_task(task("high2", 0, 9, 0, 0, 0));
    assert_eq!(name_of(s.schedule()).as_deref(), Some("high1"));
    let mut list: Vec<Task> = Vec::new();
    assert_eq!(name_of(SchedulingStrategy::schedule(&mut s, &mut list)).as_deref(), Some("high2"));
    assert_eq!(name_of(s.schedule()).as_deref(), Some("low1"));
    assert_eq!(name_of(s.schedule()).as_deref(), Some("low2"));
    assert!(s.schedule().is_none());
}

#[test]
fn work_stealing_serves_own_queue_then_steals() {
    let mut s = WorkStealingScheduler::new(3);
    s.add_task(task("on0", 0, 0, 0, 0, 3));
    s.add_task(task("on2a", 0, 0, 0, 0, 2));
    s.add_task(task("on2b", 0, 0, 0, 0, 5));
    assert_eq!(name_of(s.schedule(0)).as_deref(), Some("on0"));
    assert_eq!(name_of(s.schedule(1)).as_deref(), Some("on2a"));
    assert_eq!(name_of(s.schedule(0)).as_deref(), Some("on2b"));
    assert!(s.schedule(2).is_none());
}

#[test]
fn work_stealing_strategy_serves_core_zero() {
    let mut s = WorkStealingScheduler::new(2);
    SchedulingStrategy::add_task(&mut s, task("on1", 0, 0, 0, 0, 1));
    SchedulingStrategy::add_task(&mut s, task("on0", 0, 0, 0, 0, 0));
    let mut list: Vec<Task> = Vec::new();
    assert_eq!(name_of(SchedulingStrategy::schedule(&mut s, &mut list)).as_deref(), Some("on0"));
    assert_eq!(name_of(SchedulingStrategy::schedule(&mut s, &mut list)).as_deref(), Some("on1"));
    assert!(SchedulingStrategy::schedule(&mut s, &mut list).is_none());
}

#[test]
fn factory_builds_each_named_strategy() {
    assert!(matches!(SchedulerFactory::create_scheduler("GlobalEDF", 4), Scheduler::GlobalEDF(_)));
    assert!(matches!(SchedulerFactory::create_scheduler("CFS", 4), Scheduler::Cfs(_)));
    assert!(matches!(SchedulerFactory::create_scheduler("GlobalQueue", 4), Scheduler::GlobalQueue(_)));
    assert!(matches!(
        SchedulerFactory::create_scheduler("DynamicPriorityPartitioned", 4),
        Scheduler::DynamicPriorityPartitioned(_)
    ));
    assert!(matches!(SchedulerFactory::create_scheduler("MultiLevelQueue", 4), Scheduler::MultiLevelQueue(_)));
    assert!(matches!(SchedulerFactory::create_scheduler("WorkStealing", 4), Scheduler::WorkStealing(_)));
}

#[test]
fn factory_scheduler_runs_its_strategy() {
    let mut s = SchedulerFactory::create_scheduler("MultiLevelQueue", 2);
    let mut list: Vec<Task> = Vec::new();
    assert!(s.schedule(&mut list).is_none());
    s.add_task(task("low", 0, 2, 0, 0, 0));
    s.add_task(task("high", 0, 8, 0, 0, 1));
    assert_eq!(name_of(s.schedule(&mut list)).as_deref(), Some("high"));
    let mut w = SchedulerFactory::create_scheduler("WorkStealing", 2);
    w.add_task(task("on1", 0, 0, 0, 0, 1));
    assert_eq!(name_of(w.schedule(&mut list)).as_deref(), Some("on1"));
}

#[test]
fn menu_choices_map_to_algorithm_names() {
    assert_eq!(algorithm_for_choice("1"), "GlobalEDF");
    assert_eq!(algorithm_for_choice("2"), "CFS");
    assert_eq!(algorithm_for_choice("3"), "GlobalQueue");
    assert_eq!(algorithm_for_choice("4"), "DynamicPriorityPartitioned");
    assert_eq!(algorithm_for_choice("5"), "MultiLevelQueue");
    assert_eq!(algorithm_for_choice("6"), "WorkStealing");
    assert_eq!(algorithm_for_choice("7"), "");
    assert_eq!(algorithm_for_choice(""), "");
}

#[test]
fn str_equal_compares_characters() {
    assert!(str_equal("CFS", "CFS"));
    assert!(!str_equal("CFS", "CFs"));
    assert!(!str_equal("CFS", "CFSX"));
    assert!(str_equal("", ""));
}

#[test]
fn assignment_gives_one_task_per_core_for_eight_tasks() {
    let tasks = demo_tasks();
    for core in 0..8 {
        let share = assign_tasks_to_core(core, &tasks, 8).unwrap();
        assert_eq!(share.len(), 1);
        assert_eq!(share[0].core_id, core);
    }
}

#[test]
fn assignment_gives_the_rest_to_the_last_core() {
    let tasks: Vec<Task> = (0..10).map(|i| task(&format!("t{}", i), 0, 0, 0, 0, 0)).collect();
    assert_eq!(names(&assign_tasks_to_core(0, &tasks, 3).unwrap()), vec!["t0", "t1", "t2"]);
    assert_eq!(names(&assign_tasks_to_core(1, &tasks, 3).unwrap()), vec!["t3", "t4", "t5"]);
    assert_eq!(names(&assign_tasks_to_core(2, &tasks, 3).unwrap()), vec!["t6", "t7", "t8", "t9"]);
}

#[test]
fn assignment_with_fewer_tasks_than_cores() {
    let tasks = vec![task("a", 0, 0, 0, 0, 0), task("b", 0, 0, 0, 0, 0)];
    assert!(assign_tasks_to_core(0, &tasks, 4).is_none());
    assert!(assign_tasks_to_core(2, &tasks, 4).is_none());
    assert_eq!(names(&assign_tasks_to_core(3, &tasks, 4).unwrap()), vec!["a", "b"]);
}

#[test]
fn fixed_priority_scheduler_holds_a_list() {
    let f = FixedPriorityScheduler { tasks: vec![task("a", 0, 0, 0, 0, 0)] };
    assert_eq!(f.tasks.len(), 1);
}

#[test]
fn every_strategy_hands_back_each_added_task_once() {
    for name in ["GlobalEDF", "CFS", "GlobalQueue", "DynamicPriorityPartitioned", "MultiLevelQueue", "WorkStealing"] {
        let mut s = SchedulerFactory::create_scheduler(name, 8);
        for t in demo_tasks() {
            s.add_task(t);
        }
        let mut out: Vec<String> = Vec::new();
        let mut list: Vec<Task> = Vec::new();
        while let Some(t) = s.schedule(&mut list) {
            out.push(t.name);
        }
        if name == "GlobalEDF" || name == "DynamicPriorityPartitioned" {
            // These strategies draw on the caller's list, which is empty here.
            assert!(out.is_empty());
        } else {
            out.sort();
            assert_eq!(out, names(&demo_tasks()));
        }
    }
}

#[test]
fn shares_joined_in_core_order_give_back_the_list() {
    for (total, cores) in [(10usize, 3usize), (2, 4), (8, 8), (0, 2), (7, 1)] {
        let tasks: Vec<Task> = (0..total).map(|i| task(&format!("t{}", i), 0, 0, 0, 0, 0)).collect();
        let mut joined: Vec<Task> = Vec::new();
        for core in 0..cores {
            joined.extend(assign_tasks_to_core(core, &tasks, cores).unwrap_or_default());
        }
        assert_eq!(names(&joined), names(&tasks));
    }
}

#[test]
fn deadlines_a_nanosecond_apart_are_served_in_deadline_order() {
    let mut s = GlobalEDFScheduler::new();
    s.add_task(task("later", 1_000_001, 0, 0, 0, 0));
    s.add_task(task("sooner", 1_000_000, 0, 0, 0, 0));
    assert_eq!(name_of(s.schedule()).as_deref(), Some("sooner"));
}

#[test]
fn sort_keeps_tied_tasks_in_their_order() {
    let mut v = vec![
        task("a1", 0, 0, 5, 0, 0),
        task("b1", 0, 0, 2, 0, 0),
        task("a2", 0, 0, 5, 0, 0),
        task("b2", 0, 0, 2, 0, 0),
        task("a3", 0, 0, 5, 0, 0),
    ];
    sort_tasks(TaskKey::ExecutedTime, &mut v);
    assert_eq!(names(&v), vec!["b1", "b2", "a1", "a2", "a3"]);
}
