use vstd::prelude::*;
use core::cmp::Ordering;

verus! {

/// A schedulable unit of work.
///
/// Time is held as plain integers: `deadline` counts nanoseconds after the
/// instant at which the run started, and `executed_time` counts the
/// nanoseconds the task has already run.
#[derive(Debug, Eq)]
pub struct Task {
    pub name: String,
    pub wcet: u32,
    pub deadline: u128,
    pub priority: u8,
    pub executed_time: u128,
    pub dynamic_priority: u32,
    pub core_id: usize,
}

impl Clone for Task {
    fn clone(&self) -> (r: Self)
        ensures
            r == *self,
    {
        Task {
            name: self.name.clone(),
            wcet: self.wcet,
            deadline: self.deadline,
            priority: self.priority,
            executed_time: self.executed_time,
            dynamic_priority: self.dynamic_priority,
            core_id: self.core_id,
        }
    }
}

/// Two tasks compare equal when their dynamic priorities are equal.
impl PartialEq for Task {
    fn eq(&self, other: &Self) -> (r: bool) {
        self.dynamic_priority == other.dynamic_priority
    }
}

impl vstd::std_specs::cmp::PartialEqSpecImpl for Task {
    open spec fn obeys_eq_spec() -> bool {
        true
    }

    open spec fn eq_spec(&self, other: &Self) -> bool {
        self.dynamic_priority == other.dynamic_priority
    }
}

/// The order of tasks: a higher dynamic priority comes first, and among
/// equal dynamic priorities the earlier deadline comes first.
pub open spec fn task_order(a: Task, b: Task) -> Ordering {
    if a.dynamic_priority > b.dynamic_priority {
        Ordering::Less
    } else if a.dynamic_priority < b.dynamic_priority {
        Ordering::Greater
    } else if a.deadline < b.deadline {
        Ordering::Less
    } else if a.deadline > b.deadline {
        Ordering::Greater
    } else {
        Ordering::Equal
    }
}

impl PartialOrd for Task {
    fn partial_cmp(&self, other: &Self) -> (r: Option<Ordering>) {
        if self.dynamic_priority > other.dynamic_priority {
            Some(Ordering::Less)
        } else if self.dynamic_priority < other.dynamic_priority {
            Some(Ordering::Greater)
        } else if self.deadline < other.deadline {
            Some(Ordering::Less)
        } else if self.deadline > other.deadline {
            Some(Ordering::Greater)
        } else {
            Some(Ordering::Equal)
        }
    }
}

impl vstd::std_specs::cmp::PartialOrdSpecImpl for Task {
    open spec fn obeys_partial_cmp_spec() -> bool {
        true
    }

    open spec fn partial_cmp_spec(&self, other: &Self) -> Option<Ordering> {
        Some(task_order(*self, *other))
    }
}

} // verus!

verus! {

/// Whether `a` is placed after `b` by the order of tasks: a lower dynamic
/// priority, or an equal one with a later deadline.
pub open spec fn follows_in_task_order(a: Task, b: Task) -> bool {
    a.dynamic_priority < b.dynamic_priority || (a.dynamic_priority == b.dynamic_priority
        && a.deadline > b.deadline)
}

/// The order of tasks places `a` after `b` exactly when it compares them
/// as greater.
pub proof fn lemma_task_order_follows(a: Task, b: Task)
    ensures
        (task_order(a, b) == Ordering::Greater) == follows_in_task_order(a, b),
        (task_order(a, b) == Ordering::Less) == follows_in_task_order(b, a),
{
}

impl Task {
    /// How many progress ticks running the task takes: ten per unit of its
    /// worst-case execution time.
    pub fn execution_ticks(&self) -> (r: u32)
        requires
            self.wcet * 10 <= u32::MAX,
        ensures
            r == self.wcet * 10,
    {
        self.wcet * 10
    }
}

/// `t` holds exactly the given fields.
pub open spec fn task_has(
    t: Task,
    name: Seq<char>,
    wcet: u32,
    deadline: int,
    priority: u8,
    executed_time: u128,
    dynamic_priority: u32,
    core_id: usize,
) -> bool {
    &&& t.name@ == name
    &&& t.wcet == wcet
    &&& t.deadline == deadline
    &&& t.priority == priority
    &&& t.executed_time == executed_time
    &&& t.dynamic_priority == dynamic_priority
    &&& t.core_id == core_id
}

fn make_task(
    name: &str,
    wcet: u32,
    deadline: u128,
    priority: u8,
    executed_time: u128,
    dynamic_priority: u32,
    core_id: usize,
) -> (r: Task)
    ensures
        task_has(r, name@, wcet, deadline as int, priority, executed_time, dynamic_priority, core_id),
{
    Task {
        name: name.to_owned(),
        wcet,
        deadline,
        priority,
        executed_time,
        dynamic_priority,
        core_id,
    }
}

/// How long after its creation each task of the demonstration set is due,
/// in nanoseconds.
pub open spec fn deadline_offset(i: int) -> u128 {
    if i == 0 {
        50_000_000
    } else if i == 1 {
        110_000_000
    } else if i == 2 {
        30_000_000
    } else if i == 3 {
        70_000_000
    } else if i == 4 {
        150_000_000
    } else if i == 5 {
        180_000_000
    } else if i == 6 {
        210_000_000
    } else {
        240_000_000
    }
}

/// The demonstration task set: eight tasks, one per core. Task `i` is due
/// `deadline_offset(i)` nanoseconds after `clock_readings[i]`, the clock
/// reading taken when it is made; its executed time is `i + 1` whole
/// seconds, given in nanoseconds.
pub fn create_tasks(clock_readings: &[u128]) -> (r: Vec<Task>)
    requires
        clock_readings@.len() == 8,
        forall|i: int| 0 <= i < 8 ==> #[trigger] clock_readings@[i] + deadline_offset(i) <= u128::MAX,
    ensures
        r@.len() == 8,
        task_has(r@[0], "Task 1"@, 1, clock_readings@[0] + 50_000_000, 2, 1_000_000_000, 3, 0),
        task_has(r@[1], "Task 2"@, 2, clock_readings@[1] + 110_000_000, 1, 2_000_000_000, 1, 1),
        task_has(r@[2], "Task 3"@, 3, clock_readings@[2] + 30_000_000, 3, 3_000_000_000, 5, 2),
        task_has(r@[3], "Task 4"@, 4, clock_readings@[3] + 70_000_000, 4, 4_000_000_000, 2, 3),
        task_has(r@[4], "Task 5"@, 5, clock_readings@[4] + 150_000_000, 5, 5_000_000_000, 6, 4),
        task_has(r@[5], "Task 6"@, 6, clock_readings@[5] + 180_000_000, 6, 6_000_000_000, 7, 5),
        task_has(r@[6], "Task 7"@, 7, clock_readings@[6] + 210_000_000, 7, 7_000_000_000, 8, 6),
        task_has(r@[7], "Task 8"@, 8, clock_readings@[7] + 240_000_000, 8, 8_000_000_000, 9, 7),
        forall|i: int| 0 <= i < 8 ==> (#[trigger] r@[i]).deadline == clock_readings@[i] + deadline_offset(i),
{
    assert(clock_readings@[0] + deadline_offset(0) <= u128::MAX);
    assert(clock_readings@[1] + deadline_offset(1) <= u128::MAX);
    assert(clock_readings@[2] + deadline_offset(2) <= u128::MAX);
    assert(clock_readings@[3] + deadline_offset(3) <= u128::MAX);
    assert(clock_readings@[4] + deadline_offset(4) <= u128::MAX);
    assert(clock_readings@[5] + deadline_offset(5) <= u128::MAX);
    assert(clock_readings@[6] + deadline_offset(6) <= u128::MAX);
    assert(clock_readings@[7] + deadline_offset(7) <= u128::MAX);
    let mut r: Vec<Task> = Vec::new();
    r.push(make_task("Task 1", 1, clock_readings[0] + 50_000_000, 2, 1_000_000_000, 3, 0));
    r.push(make_task("Task 2", 2, clock_readings[1] + 110_000_000, 1, 2_000_000_000, 1, 1));
    r.push(make_task("Task 3", 3, clock_readings[2] + 30_000_000, 3, 3_000_000_000, 5, 2));
    r.push(make_task("Task 4", 4, clock_readings[3] + 70_000_000, 4, 4_000_000_000, 2, 3));
    r.push(make_task("Task 5", 5, clock_readings[4] + 150_000_000, 5, 5_000_000_000, 6, 4));
    r.push(make_task("Task 6", 6, clock_readings[5] + 180_000_000, 6, 6_000_000_000, 7, 5));
    r.push(make_task("Task 7", 7, clock_readings[6] + 210_000_000, 7, 7_000_000_000, 8, 6));
    r.push(make_task("Task 8", 8, clock_readings[7] + 240_000_000, 8, 8_000_000_000, 9, 7));
    r
}

/// The order of tasks looks at the dynamic priority first, the higher one
/// coming first, and at the deadline only between equal dynamic priorities,
/// the earlier one coming first; no other field counts.
pub proof fn lemma_task_order_by_dynamic_priority_then_deadline(a: Task, b: Task)
    ensures
        a.dynamic_priority > b.dynamic_priority ==> task_order(a, b) == Ordering::Less,
        a.dynamic_priority < b.dynamic_priority ==> task_order(a, b) == Ordering::Greater,
        a.dynamic_priority == b.dynamic_priority && a.deadline < b.deadline ==> task_order(a, b)
            == Ordering::Less,
        a.dynamic_priority == b.dynamic_priority && a.deadline > b.deadline ==> task_order(a, b)
            == Ordering::Greater,
        a.dynamic_priority == b.dynamic_priority && a.deadline == b.deadline ==> task_order(a, b)
            == Ordering::Equal,
        follows_in_task_order(a, b) <==> (a.dynamic_priority < b.dynamic_priority || (
        a.dynamic_priority == b.dynamic_priority && a.deadline > b.deadline)),
{
}

} // verus!
