use vstd::prelude::*;
use vstd::multiset::Multiset;
use crate::task::Task;
use crate::scheduler::strategy::SchedulingStrategy;

verus! {

broadcast use vstd::seq_lib::group_to_multiset_ensures;

/// One shared queue, served last in, first out.
pub struct GlobalQueueScheduler {
    tasks: Vec<Task>,
}

impl View for GlobalQueueScheduler {
    type V = Seq<Task>;

    closed spec fn view(&self) -> Seq<Task> {
        self.tasks@
    }
}

/// One step of the global queue: the most recently added task leaves it.
pub open spec fn last_in_step(s: Seq<Task>, after: Seq<Task>, picked: Option<Task>) -> bool {
    &&& s.len() == 0 ==> picked is None && after == s
    &&& s.len() > 0 ==> picked == Some(s.last()) && after == s.drop_last()
}

impl GlobalQueueScheduler {
    /// An empty queue.
    pub fn new() -> (r: Self)
        ensures
            r@ == Seq::<Task>::empty(),
    {
        GlobalQueueScheduler { tasks: Vec::new() }
    }

    /// Appends the task to the queue.
    pub fn add_task(&mut self, task: Task)
        ensures
            final(self)@ == old(self)@.push(task),
    {
        self.tasks.push(task);
    }

    /// Removes and returns the most recently added task.
    pub fn schedule(&mut self) -> (r: Option<Task>)
        ensures
            last_in_step(old(self)@, final(self)@, r),
    {
        self.tasks.pop()
    }
}

impl SchedulingStrategy for GlobalQueueScheduler {
    open spec fn pool(&self) -> Multiset<Task> {
        self@.to_multiset()
    }

    open spec fn can_schedule(&self) -> bool {
        true
    }

    open spec fn can_add(&self, task: Task) -> bool {
        true
    }

    /// A last-in step on the queue; the caller's list is left alone.
    open spec fn schedule_step(
        &self,
        after: Self,
        tasks: Seq<Task>,
        tasks_after: Seq<Task>,
        picked: Option<Task>,
    ) -> bool {
        &&& tasks_after == tasks
        &&& last_in_step(self@, after@, picked)
    }

    open spec fn add_step(&self, after: Self, task: Task) -> bool {
        after@ == self@.push(task)
    }

    fn schedule(&mut self, tasks: &mut Vec<Task>) -> (r: Option<Task>) {
        let ghost before = self@;
        let r = self.tasks.pop();
        proof {
            if before.len() > 0 {
                assert(before =~= self@.push(before.last()));
                assert(before.to_multiset().add(tasks@.to_multiset()) =~= self@.to_multiset().add(
                    tasks@.to_multiset(),
                ).insert(before.last()));
            }
        }
        r
    }

    fn add_task(&mut self, task: Task) {
        self.tasks.push(task);
    }
}

/// Last in, first out: scheduling right after adding a task hands that task
/// back and leaves the queue as it was before.
pub proof fn lemma_global_queue_undoes_add(
    q0: GlobalQueueScheduler,
    q1: GlobalQueueScheduler,
    q2: GlobalQueueScheduler,
    task: Task,
    tasks: Seq<Task>,
    tasks_after: Seq<Task>,
    picked: Option<Task>,
)
    requires
        q0.add_step(q1, task),
        q1.schedule_step(q2, tasks, tasks_after, picked),
    ensures
        picked == Some(task),
        q2@ == q0@,
        tasks_after == tasks,
{
    assert(q1@.drop_last() =~= q0@);
}

} // verus!
