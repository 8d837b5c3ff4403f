use vstd::prelude::*;
use vstd::multiset::Multiset;
use crate::task::Task;
use crate::sorting::{
    TaskKey, sort_by, sort_tasks, is_sorted_by, goes_after, lemma_sort_is_permutation, lemma_sort_is_sorted,
    lemma_sort_first_is_least,
};
use crate::scheduler::strategy::{
    SchedulingStrategy, is_earliest_deadline_at, is_first_named_at,
    earliest_deadline_index, first_named_index, has_distinct_names,
};

verus! {

broadcast use vstd::seq_lib::group_to_multiset_ensures;

/// Global earliest-deadline-first: one queue, served by least deadline.
pub struct GlobalEDFScheduler {
    tasks: Vec<Task>,
}

impl View for GlobalEDFScheduler {
    type V = Seq<Task>;

    closed spec fn view(&self) -> Seq<Task> {
        self.tasks@
    }
}

impl GlobalEDFScheduler {
    /// An empty queue.
    pub fn new() -> (r: Self)
        ensures
            r@ == Seq::<Task>::empty(),
    {
        GlobalEDFScheduler { tasks: Vec::new() }
    }

    /// Appends the task and sorts the queue stably by deadline.
    pub fn add_task(&mut self, task: Task)
        ensures
            final(self)@ == sort_by(TaskKey::Deadline, old(self)@.push(task)),
            is_sorted_by(TaskKey::Deadline, final(self)@),
            final(self)@.to_multiset() == old(self)@.to_multiset().insert(task),
    {
        self.tasks.push(task);
        proof {
            lemma_sort_is_permutation(TaskKey::Deadline, self.tasks@);
            lemma_sort_is_sorted(TaskKey::Deadline, self.tasks@);
        }
        sort_tasks(TaskKey::Deadline, &mut self.tasks);
    }

    /// Removes and returns the task with the least deadline: it takes the
    /// first task whose deadline is least, and removes the first task that
    /// bears its name.
    pub fn schedule(&mut self) -> (r: Option<Task>)
        ensures
            old(self)@.len() == 0 ==> r is None && final(self)@ == old(self)@,
            old(self)@.len() > 0 ==> exists|m: int, i: int|
                {
                    &&& is_earliest_deadline_at(old(self)@, m)
                    &&& is_first_named_at(old(self)@, i, old(self)@[m].name@)
                    &&& r == Some(old(self)@[i])
                    &&& final(self)@ == old(self)@.remove(i)
                },
            has_distinct_names(old(self)@) ==> (r matches Some(t) ==> forall|k: int|
                0 <= k < old(self)@.len() ==> t.deadline <= #[trigger] old(self)@[k].deadline),
            is_sorted_by(TaskKey::Deadline, old(self)@) && old(self)@.len() > 0 ==> r == Some(
                old(self)@[0],
            ) && final(self)@ == old(self)@.drop_first(),
    {
        if self.tasks.len() == 0 {
            return None;
        }
        let m = earliest_deadline_index(&self.tasks);
        let name = self.tasks[m].name.clone();
        let i = first_named_index(&self.tasks, &name);
        proof {
            if has_distinct_names(self.tasks@) && i != m {
                if i < m {
                    assert(self.tasks@[i as int].name@ != self.tasks@[m as int].name@);
                } else {
                    assert(self.tasks@[m as int].name@ != name@);
                }
            }
            if is_sorted_by(TaskKey::Deadline, self.tasks@) {
                if m > 0 {
                    assert(!goes_after(TaskKey::Deadline, self.tasks@[0], self.tasks@[m as int]));
                }
                if i > 0 {
                    assert(self.tasks@[0].name@ != name@);
                }
                assert(self.tasks@.remove(0) =~= self.tasks@.drop_first());
            }
        }
        let t = self.tasks.remove(i);
        Some(t)
    }
}

impl SchedulingStrategy for GlobalEDFScheduler {
    open spec fn pool(&self) -> Multiset<Task> {
        self@.to_multiset()
    }

    open spec fn can_schedule(&self) -> bool {
        true
    }

    open spec fn can_add(&self, task: Task) -> bool {
        true
    }

    /// Sorts the caller's list stably by deadline and takes its first task,
    /// one whose deadline is no later than that of any task in the list; the
    /// queue is left alone.
    open spec fn schedule_step(
        &self,
        after: Self,
        tasks: Seq<Task>,
        tasks_after: Seq<Task>,
        picked: Option<Task>,
    ) -> bool {
        let sorted = sort_by(TaskKey::Deadline, tasks);
        &&& after@ == self@
        &&& sorted.len() == 0 ==> picked is None && tasks_after == sorted
        &&& sorted.len() > 0 ==> picked == Some(sorted[0]) && tasks_after == sorted.drop_first()
        &&& sorted.len() > 0 ==> forall|k: int|
            0 <= k < tasks.len() ==> sorted[0].deadline <= #[trigger] tasks[k].deadline
    }

    /// Appends the task without reordering the queue.
    open spec fn add_step(&self, after: Self, task: Task) -> bool {
        after@ == self@.push(task)
    }

    fn schedule(&mut self, tasks: &mut Vec<Task>) -> (r: Option<Task>) {
        proof {
            lemma_sort_is_permutation(TaskKey::Deadline, old(tasks)@);
            if old(tasks)@.len() > 0 {
                lemma_sort_first_is_least(TaskKey::Deadline, old(tasks)@);
            }
        }
        sort_tasks(TaskKey::Deadline, tasks);
        if tasks.len() == 0 {
            return None;
        }
        let ghost sorted = tasks@;
        let t = tasks.remove(0);
        proof {
            assert(sorted.remove(0) =~= sorted.drop_first());
            assert(self.pool().add(sorted.to_multiset()) =~= self.pool().add(
                tasks@.to_multiset(),
            ).insert(sorted[0]));
        }
        Some(t)
    }

    fn add_task(&mut self, task: Task) {
        self.tasks.push(task);
    }
}

} // verus!
