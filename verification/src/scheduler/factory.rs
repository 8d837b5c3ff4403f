use vstd::prelude::*;
use vstd::multiset::Multiset;
use vstd::string::StrSliceExecFns;
use crate::task::Task;
use crate::scheduler::strategy::{SchedulingStrategy, lemma_queue_pool_empty};
use crate::scheduler::edf::GlobalEDFScheduler;
use crate::scheduler::fair::CFS;
use crate::scheduler::global_queue::GlobalQueueScheduler;
use crate::scheduler::partitioned::DynamicPriorityPartitionedScheduler;
use crate::scheduler::multilevel::MultiLevelQueueScheduler;
use crate::scheduler::work_stealing::WorkStealingScheduler;

verus! {

broadcast use {
    vstd::seq_lib::group_to_multiset_ensures,
    vstd::multiset::group_multiset_axioms,
    vstd::multiset::lemma_multiset_empty_len,
};

/// Builds schedulers by the name of their algorithm.
pub struct SchedulerFactory;

/// A scheduler of any of the strategies, as the factory builds it.
pub enum Scheduler {
    GlobalEDF(GlobalEDFScheduler),
    Cfs(CFS),
    GlobalQueue(GlobalQueueScheduler),
    DynamicPriorityPartitioned(DynamicPriorityPartitionedScheduler),
    MultiLevelQueue(MultiLevelQueueScheduler),
    WorkStealing(WorkStealingScheduler),
}

/// The names the factory knows.
pub open spec fn is_algorithm_name(name: Seq<char>) -> bool {
    ||| name == "GlobalEDF"@
    ||| name == "CFS"@
    ||| name == "GlobalQueue"@
    ||| name == "DynamicPriorityPartitioned"@
    ||| name == "MultiLevelQueue"@
    ||| name == "WorkStealing"@
}

/// Whether two strings hold the same characters.
pub fn str_equal(a: &str, b: &str) -> (r: bool)
    ensures
        r == (a@ == b@),
{
    let n = a.unicode_len();
    if n != b.unicode_len() {
        return false;
    }
    let mut i: usize = 0;
    while i < n
        invariant
            n == a@.len(),
            n == b@.len(),
            i <= n,
            forall|k: int| 0 <= k < i ==> a@[k] == b@[k],
        decreases n - i,
    {
        if a.get_char(i) != b.get_char(i) {
            return false;
        }
        i = i + 1;
    }
    assert(a@ =~= b@);
    true
}

impl SchedulerFactory {
    /// A new, empty scheduler of the named algorithm; the partitioned and
    /// work-stealing ones get `core_count` queues.
    pub fn create_scheduler(algorithm: &str, core_count: usize) -> (r: Scheduler)
        requires
            is_algorithm_name(algorithm@),
        ensures
            algorithm@ == "GlobalEDF"@ <==> r is GlobalEDF,
            algorithm@ == "CFS"@ <==> r is Cfs,
            algorithm@ == "GlobalQueue"@ <==> r is GlobalQueue,
            algorithm@ == "DynamicPriorityPartitioned"@ <==> r is DynamicPriorityPartitioned,
            algorithm@ == "MultiLevelQueue"@ <==> r is MultiLevelQueue,
            algorithm@ == "WorkStealing"@ <==> r is WorkStealing,
            r.is_empty(),
            r matches Scheduler::DynamicPriorityPartitioned(s) ==> s@.len() == core_count,
            r matches Scheduler::WorkStealing(s) ==> s@.len() == core_count,
    {
        proof {
            reveal_strlit("GlobalEDF");
            reveal_strlit("CFS");
            reveal_strlit("GlobalQueue");
            reveal_strlit("DynamicPriorityPartitioned");
            reveal_strlit("MultiLevelQueue");
            reveal_strlit("WorkStealing");
            assert("GlobalEDF"@.len() == 9);
            assert("CFS"@.len() == 3);
            assert("GlobalQueue"@.len() == 11);
            assert("DynamicPriorityPartitioned"@.len() == 26);
            assert("MultiLevelQueue"@.len() == 15);
            assert("WorkStealing"@.len() == 12);
        }
        let r = if str_equal(algorithm, "GlobalEDF") {
            Scheduler::GlobalEDF(GlobalEDFScheduler::new())
        } else if str_equal(algorithm, "CFS") {
            Scheduler::Cfs(CFS::new())
        } else if str_equal(algorithm, "GlobalQueue") {
            Scheduler::GlobalQueue(GlobalQueueScheduler::new())
        } else if str_equal(algorithm, "DynamicPriorityPartitioned") {
            Scheduler::DynamicPriorityPartitioned(DynamicPriorityPartitionedScheduler::new(core_count))
        } else if str_equal(algorithm, "MultiLevelQueue") {
            Scheduler::MultiLevelQueue(MultiLevelQueueScheduler::new())
        } else {
            Scheduler::WorkStealing(WorkStealingScheduler::new(core_count))
        };
        proof {
            assert(Seq::<Task>::empty().to_multiset() =~= Multiset::<Task>::empty());
            if r is MultiLevelQueue {
                let m = r->MultiLevelQueue_0;
                assert(m.pool() =~= Multiset::<Task>::empty());
            }
            if r is DynamicPriorityPartitioned {
                lemma_queue_pool_empty(r->DynamicPriorityPartitioned_0@);
            }
            if r is WorkStealing {
                lemma_queue_pool_empty(r->WorkStealing_0@);
            }
        }
        r
    }
}

/// Whether the factory knows the algorithm `name`.
pub fn is_known_algorithm(name: &str) -> (r: bool)
    ensures
        r == is_algorithm_name(name@),
{
    str_equal(name, "GlobalEDF") || str_equal(name, "CFS") || str_equal(name, "GlobalQueue")
        || str_equal(name, "DynamicPriorityPartitioned") || str_equal(name, "MultiLevelQueue")
        || str_equal(name, "WorkStealing")
}

impl Scheduler {
    /// The scheduler holds no task.
    pub open spec fn is_empty(&self) -> bool {
        self.pool() == Multiset::<Task>::empty()
    }

    /// Whether `schedule` may run now: the work-stealing strategy needs a
    /// queue for its current core.
    pub fn can_schedule_now(&self) -> (r: bool)
        ensures
            r == self.can_schedule(),
    {
        match self {
            Scheduler::WorkStealing(s) => s.current_core_index() < s.queue_count(),
            _ => true,
        }
    }

    /// Whether `add_task` may take `task`: the partitioned strategy needs a
    /// queue for the task's core, and work stealing needs some queue.
    pub fn can_add_task(&self, task: &Task) -> (r: bool)
        ensures
            r == self.can_add(*task),
    {
        match self {
            Scheduler::DynamicPriorityPartitioned(s) => task.core_id < s.queue_count(),
            Scheduler::WorkStealing(s) => s.queue_count() > 0,
            _ => true,
        }
    }
}

impl SchedulingStrategy for Scheduler {
    open spec fn pool(&self) -> Multiset<Task> {
        match *self {
            Scheduler::GlobalEDF(s) => s.pool(),
            Scheduler::Cfs(s) => s.pool(),
            Scheduler::GlobalQueue(s) => s.pool(),
            Scheduler::DynamicPriorityPartitioned(s) => s.pool(),
            Scheduler::MultiLevelQueue(s) => s.pool(),
            Scheduler::WorkStealing(s) => s.pool(),
        }
    }

    open spec fn can_schedule(&self) -> bool {
        match *self {
            Scheduler::GlobalEDF(s) => s.can_schedule(),
            Scheduler::Cfs(s) => s.can_schedule(),
            Scheduler::GlobalQueue(s) => s.can_schedule(),
            Scheduler::DynamicPriorityPartitioned(s) => s.can_schedule(),
            Scheduler::MultiLevelQueue(s) => s.can_schedule(),
            Scheduler::WorkStealing(s) => s.can_schedule(),
        }
    }

    open spec fn can_add(&self, task: Task) -> bool {
        match *self {
            Scheduler::GlobalEDF(s) => s.can_add(task),
            Scheduler::Cfs(s) => s.can_add(task),
            Scheduler::GlobalQueue(s) => s.can_add(task),
            Scheduler::DynamicPriorityPartitioned(s) => s.can_add(task),
            Scheduler::MultiLevelQueue(s) => s.can_add(task),
            Scheduler::WorkStealing(s) => s.can_add(task),
        }
    }

    /// The step of the strategy that the scheduler holds; the strategy does
    /// not change.
    open spec fn schedule_step(
        &self,
        after: Self,
        tasks: Seq<Task>,
        tasks_after: Seq<Task>,
        picked: Option<Task>,
    ) -> bool {
        match (*self, after) {
            (Scheduler::GlobalEDF(s), Scheduler::GlobalEDF(a)) => s.schedule_step(a, tasks, tasks_after, picked),
            (Scheduler::Cfs(s), Scheduler::Cfs(a)) => s.schedule_step(a, tasks, tasks_after, picked),
            (Scheduler::GlobalQueue(s), Scheduler::GlobalQueue(a)) => s.schedule_step(a, tasks, tasks_after, picked),
            (Scheduler::DynamicPriorityPartitioned(s), Scheduler::DynamicPriorityPartitioned(a)) => s.schedule_step(a, tasks, tasks_after, picked),
            (Scheduler::MultiLevelQueue(s), Scheduler::MultiLevelQueue(a)) => s.schedule_step(a, tasks, tasks_after, picked),
            (Scheduler::WorkStealing(s), Scheduler::WorkStealing(a)) => s.schedule_step(a, tasks, tasks_after, picked),
            _ => false,
        }
    }

    /// The step of the strategy that the scheduler holds; the strategy does
    /// not change.
    open spec fn add_step(&self, after: Self, task: Task) -> bool {
        match (*self, after) {
            (Scheduler::GlobalEDF(s), Scheduler::GlobalEDF(a)) => s.add_step(a, task),
            (Scheduler::Cfs(s), Scheduler::Cfs(a)) => s.add_step(a, task),
            (Scheduler::GlobalQueue(s), Scheduler::GlobalQueue(a)) => s.add_step(a, task),
            (Scheduler::DynamicPriorityPartitioned(s), Scheduler::DynamicPriorityPartitioned(a)) => s.add_step(a, task),
            (Scheduler::MultiLevelQueue(s), Scheduler::MultiLevelQueue(a)) => s.add_step(a, task),
            (Scheduler::WorkStealing(s), Scheduler::WorkStealing(a)) => s.add_step(a, task),
            _ => false,
        }
    }

    fn schedule(&mut self, tasks: &mut Vec<Task>) -> (r: Option<Task>) {
        match self {
            Scheduler::GlobalEDF(s) => SchedulingStrategy::schedule(s, tasks),
            Scheduler::Cfs(s) => SchedulingStrategy::schedule(s, tasks),
            Scheduler::GlobalQueue(s) => SchedulingStrategy::schedule(s, tasks),
            Scheduler::DynamicPriorityPartitioned(s) => SchedulingStrategy::schedule(s, tasks),
            Scheduler::MultiLevelQueue(s) => SchedulingStrategy::schedule(s, tasks),
            Scheduler::WorkStealing(s) => SchedulingStrategy::schedule(s, tasks),
        }
    }

    fn add_task(&mut self, task: Task) {
        match self {
            Scheduler::GlobalEDF(s) => SchedulingStrategy::add_task(s, task),
            Scheduler::Cfs(s) => SchedulingStrategy::add_task(s, task),
            Scheduler::GlobalQueue(s) => SchedulingStrategy::add_task(s, task),
            Scheduler::DynamicPriorityPartitioned(s) => SchedulingStrategy::add_task(s, task),
            Scheduler::MultiLevelQueue(s) => SchedulingStrategy::add_task(s, task),
            Scheduler::WorkStealing(s) => SchedulingStrategy::add_task(s, task),
        }
    }
}

/// The algorithm that a menu choice selects; any other input selects the
/// empty name.
pub open spec fn algorithm_for(choice: Seq<char>) -> Seq<char> {
    if choice == "1"@ {
        "GlobalEDF"@
    } else if choice == "2"@ {
        "CFS"@
    } else if choice == "3"@ {
        "GlobalQueue"@
    } else if choice == "4"@ {
        "DynamicPriorityPartitioned"@
    } else if choice == "5"@ {
        "MultiLevelQueue"@
    } else if choice == "6"@ {
        "WorkStealing"@
    } else {
        ""@
    }
}

/// The name of the algorithm that a (trimmed) menu choice selects.
pub fn algorithm_for_choice(choice: &str) -> (r: &'static str)
    ensures
        r@ == algorithm_for(choice@),
{
    if str_equal(choice, "1") {
        "GlobalEDF"
    } else if str_equal(choice, "2") {
        "CFS"
    } else if str_equal(choice, "3") {
        "GlobalQueue"
    } else if str_equal(choice, "4") {
        "DynamicPriorityPartitioned"
    } else if str_equal(choice, "5") {
        "MultiLevelQueue"
    } else if str_equal(choice, "6") {
        "WorkStealing"
    } else {
        ""
    }
}

/// The menu and the factory agree: a choice selects an algorithm that the
/// factory can build exactly when it is one of the six menu entries.
pub proof fn lemma_menu_choices_name_algorithms(choice: Seq<char>)
    ensures
        is_algorithm_name(algorithm_for(choice)) <==> (choice == "1"@ || choice == "2"@ || choice
            == "3"@ || choice == "4"@ || choice == "5"@ || choice == "6"@),
{
    reveal_strlit("");
    reveal_strlit("GlobalEDF");
    reveal_strlit("CFS");
    reveal_strlit("GlobalQueue");
    reveal_strlit("DynamicPriorityPartitioned");
    reveal_strlit("MultiLevelQueue");
    reveal_strlit("WorkStealing");
    assert(""@.len() == 0);
    assert("GlobalEDF"@.len() == 9);
    assert("CFS"@.len() == 3);
    assert("GlobalQueue"@.len() == 11);
    assert("DynamicPriorityPartitioned"@.len() == 26);
    assert("MultiLevelQueue"@.len() == 15);
    assert("WorkStealing"@.len() == 12);
}

} // verus!
