use vstd::prelude::*;
use vstd::multiset::Multiset;
use crate::task::Task;
use crate::sorting::{
    TaskKey, sort_by, sort_tasks, lemma_sort_is_permutation, lemma_sort_last_is_greatest,
    lemma_sort_of_sorted, is_sorted_by, goes_after,
};
use crate::scheduler::strategy::{
    SchedulingStrategy, queue_pool, lemma_queue_pool_replace,
};

verus! {

broadcast use {vstd::seq_lib::group_to_multiset_ensures, vstd::multiset::group_multiset_axioms};

/// Partitioned scheduling: one run queue per core.
pub struct DynamicPriorityPartitionedScheduler {
    queues: Vec<Vec<Task>>,
}

impl View for DynamicPriorityPartitionedScheduler {
    type V = Seq<Seq<Task>>;

    closed spec fn view(&self) -> Seq<Seq<Task>> {
        Seq::new(self.queues@.len(), |i: int| self.queues@[i]@)
    }
}

/// One step on a single run queue: the queue is sorted stably by `key`
/// and its last task leaves it.
pub open spec fn sorted_pop_step(key: TaskKey, q: Seq<Task>, after: Seq<Task>, picked: Option<Task>) -> bool {
    let sorted = sort_by(key, q);
    &&& sorted.len() == 0 ==> picked is None && after == sorted
    &&& sorted.len() > 0 ==> picked == Some(sorted.last()) && after == sorted.drop_last()
}

/// Sorts the list stably by `key` and takes its last task.
fn sort_and_pop(key: TaskKey, tasks: &mut Vec<Task>) -> (r: Option<Task>)
    ensures
        sorted_pop_step(key, old(tasks)@, final(tasks)@, r),
        old(tasks)@.to_multiset() == match r {
            Some(t) => final(tasks)@.to_multiset().insert(t),
            None => final(tasks)@.to_multiset(),
        },
{
    proof {
        lemma_sort_is_permutation(key, tasks@);
    }
    sort_tasks(key, tasks);
    let ghost sorted = tasks@;
    let r = tasks.pop();
    proof {
        if sorted.len() > 0 {
            assert(sorted =~= tasks@.push(sorted.last()));
        }
    }
    r
}

impl DynamicPriorityPartitionedScheduler {
    /// One empty run queue for each of `core_count` cores.
    pub fn new(core_count: usize) -> (r: Self)
        ensures
            r@.len() == core_count,
            forall|i: int| 0 <= i < core_count ==> (#[trigger] r@[i]).len() == 0,
    {
        let mut queues: Vec<Vec<Task>> = Vec::new();
        let mut i: usize = 0;
        while i < core_count
            invariant
                i <= core_count,
                queues@.len() == i,
                forall|k: int| 0 <= k < i ==> (#[trigger] queues@[k])@.len() == 0,
            decreases core_count - i,
        {
            queues.push(Vec::new());
            i = i + 1;
        }
        DynamicPriorityPartitionedScheduler { queues }
    }

    /// The number of run queues.
    pub fn queue_count(&self) -> (r: usize)
        ensures
            r == self@.len(),
    {
        self.queues.len()
    }

    /// Appends the task to the run queue of core `core_id`.
    pub fn add_task(&mut self, task: Task, core_id: usize)
        requires
            core_id < old(self)@.len(),
        ensures
            final(self)@ == old(self)@.update(core_id as int, old(self)@[core_id as int].push(task)),
    {
        self.queues[core_id].push(task);
        assert(self@ =~= old(self)@.update(core_id as int, old(self)@[core_id as int].push(task)));
    }

    /// Sorts the run queue of core `core_id` by the partition comparison
    /// and takes its last task; the queue stays sorted.
    pub fn schedule(&mut self, core_id: usize) -> (r: Option<Task>)
        requires
            core_id < old(self)@.len(),
        ensures
            final(self)@.len() == old(self)@.len(),
            forall|i: int| 0 <= i < old(self)@.len() && i != core_id ==> #[trigger] final(self)@[i] == old(self)@[i],
            sorted_pop_step(TaskKey::PartitionPriority, old(self)@[core_id as int], final(self)@[core_id as int], r),
            queue_pool(old(self)@) == match r {
                Some(t) => queue_pool(final(self)@).insert(t),
                None => queue_pool(final(self)@),
            },
    {
        let ghost before = self@;
        let r = sort_and_pop(TaskKey::PartitionPriority, &mut self.queues[core_id]);
        proof {
            let c = core_id as int;
            assert(self@ =~= before.update(c, self@[c]));
            let extra = if r is Some {
                Multiset::singleton(r->0)
            } else {
                Multiset::empty()
            };
            assert(self@[c].to_multiset().add(extra) =~= before[c].to_multiset());
            lemma_queue_pool_replace(before, c, self@[c], extra);
            assert(queue_pool(self@).add(extra) =~= match r {
                Some(t) => queue_pool(self@).insert(t),
                None => queue_pool(self@),
            });
        }
        r
    }
}

impl SchedulingStrategy for DynamicPriorityPartitionedScheduler {
    open spec fn pool(&self) -> Multiset<Task> {
        queue_pool(self@)
    }

    open spec fn can_schedule(&self) -> bool {
        true
    }

    /// The task names a core that has a run queue.
    open spec fn can_add(&self, task: Task) -> bool {
        task.core_id < self@.len()
    }

    /// Sorts the caller's list stably by the order of tasks and takes its
    /// last task; the run queues are left alone.
    open spec fn schedule_step(
        &self,
        after: Self,
        tasks: Seq<Task>,
        tasks_after: Seq<Task>,
        picked: Option<Task>,
    ) -> bool {
        &&& after@ == self@
        &&& sorted_pop_step(TaskKey::TaskOrder, tasks, tasks_after, picked)
    }

    /// Appends the task to the run queue of the core it names.
    open spec fn add_step(&self, after: Self, task: Task) -> bool {
        after@ == self@.update(task.core_id as int, self@[task.core_id as int].push(task))
    }

    fn schedule(&mut self, tasks: &mut Vec<Task>) -> (r: Option<Task>) {
        let r = sort_and_pop(TaskKey::TaskOrder, tasks);
        proof {
            let p = queue_pool(self@);
            assert(p.add(old(tasks)@.to_multiset()) =~= match r {
                Some(t) => p.add(tasks@.to_multiset()).insert(t),
                None => p.add(tasks@.to_multiset()),
            });
        }
        r
    }

    fn add_task(&mut self, task: Task) {
        let ghost before = self@;
        let c = task.core_id;
        let ghost t = task;
        self.queues[c].push(task);
        proof {
            assert(self@ =~= before.update(c as int, before[c as int].push(t)));
            assert(before[c as int].to_multiset().add(Multiset::singleton(t)) =~= self@[c as int].to_multiset());
            lemma_queue_pool_replace(self@, c as int, before[c as int], Multiset::singleton(t));
            assert(self@.update(c as int, before[c as int]) =~= before);
            assert(queue_pool(self@) =~= queue_pool(before).insert(t));
        }
    }
}

/// The strategy's `schedule` hands out a task of the caller's list with the
/// lowest dynamic priority, and the latest deadline among those: the last
/// task in the order of tasks.
pub proof fn lemma_partitioned_strategy_hands_out_lowest_dynamic_priority(
    s0: DynamicPriorityPartitionedScheduler,
    s1: DynamicPriorityPartitionedScheduler,
    tasks: Seq<Task>,
    tasks_after: Seq<Task>,
    picked: Option<Task>,
)
    requires
        tasks.len() > 0,
        s0.schedule_step(s1, tasks, tasks_after, picked),
    ensures
        picked matches Some(t) && tasks.contains(t) && forall|k: int|
            0 <= k < tasks.len() ==> t.dynamic_priority <= #[trigger] tasks[k].dynamic_priority && (
            t.dynamic_priority == tasks[k].dynamic_priority ==> t.deadline >= tasks[k].deadline),
{
    lemma_sort_last_is_greatest(TaskKey::TaskOrder, tasks);
}

/// On a run queue already in order for the partition comparison (no task's
/// static priority exceeds the dynamic priority of a task queued before it,
/// so that tasks the comparison ties keep their places), `schedule` hands
/// out the last-queued task and leaves the others as they were.
pub proof fn lemma_partitioned_ordered_queue_hands_out_last(
    q: Seq<Task>,
    after: Seq<Task>,
    picked: Option<Task>,
)
    requires
        q.len() > 0,
        forall|i: int, j: int| 0 <= i < j < q.len() ==> (#[trigger] q[j]).priority as int
            <= (#[trigger] q[i]).dynamic_priority as int,
        sorted_pop_step(TaskKey::PartitionPriority, q, after, picked),
    ensures
        picked == Some(q.last()),
        after == q.drop_last(),
{
    assert(is_sorted_by(TaskKey::PartitionPriority, q)) by {
        assert forall|i: int, j: int| 0 <= i < j < q.len() implies !goes_after(
            TaskKey::PartitionPriority,
            #[trigger] q[i],
            #[trigger] q[j],
        ) by {}
    }
    lemma_sort_of_sorted(TaskKey::PartitionPriority, q);
}

} // verus!
