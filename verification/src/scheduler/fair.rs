use vstd::prelude::*;
use vstd::multiset::Multiset;
use crate::task::Task;
use crate::sorting::{
    TaskKey, sort_by, is_first_least_at, lemma_sort_takes_first_least, lemma_sort_is_permutation,
};
use crate::scheduler::strategy::{
    SchedulingStrategy, is_least_executed_at, least_executed_index,
};

verus! {

broadcast use vstd::seq_lib::group_to_multiset_ensures;

/// Completely fair scheduling: the task that has run least goes next.
pub struct CFS {
    tasks: Vec<Task>,
}

impl View for CFS {
    type V = Seq<Task>;

    closed spec fn view(&self) -> Seq<Task> {
        self.tasks@
    }
}

/// One step of fair scheduling on the queue `s`: the first task with the
/// least executed time leaves it.
pub open spec fn fair_step(s: Seq<Task>, after: Seq<Task>, picked: Option<Task>) -> bool {
    &&& s.len() == 0 ==> picked is None && after == s
    &&& s.len() > 0 ==> exists|m: int|
        {
            &&& is_least_executed_at(s, m)
            &&& picked == Some(s[m])
            &&& after == s.remove(m)
        }
}

impl CFS {
    /// An empty queue.
    pub fn new() -> (r: Self)
        ensures
            r@ == Seq::<Task>::empty(),
    {
        CFS { tasks: Vec::new() }
    }

    /// Appends the task to the queue.
    pub fn add_task(&mut self, task: Task)
        ensures
            final(self)@ == old(self)@.push(task),
    {
        self.tasks.push(task);
    }

    /// Removes and returns the first task with the least executed time.
    pub fn internal_schedule(&mut self) -> (r: Option<Task>)
        ensures
            fair_step(old(self)@, final(self)@, r),
            r matches Some(t) ==> forall|k: int|
                0 <= k < old(self)@.len() ==> t.executed_time <= #[trigger] old(self)@[k].executed_time,
    {
        if self.tasks.is_empty() {
            return None;
        }
        let m = least_executed_index(&self.tasks);
        let t = self.tasks.remove(m);
        Some(t)
    }
}

impl SchedulingStrategy for CFS {
    open spec fn pool(&self) -> Multiset<Task> {
        self@.to_multiset()
    }

    open spec fn can_schedule(&self) -> bool {
        true
    }

    open spec fn can_add(&self, task: Task) -> bool {
        true
    }

    /// A fair step on the queue; the caller's list is left alone.
    open spec fn schedule_step(
        &self,
        after: Self,
        tasks: Seq<Task>,
        tasks_after: Seq<Task>,
        picked: Option<Task>,
    ) -> bool {
        &&& tasks_after == tasks
        &&& fair_step(self@, after@, picked)
    }

    open spec fn add_step(&self, after: Self, task: Task) -> bool {
        after@ == self@.push(task)
    }

    fn schedule(&mut self, tasks: &mut Vec<Task>) -> (r: Option<Task>) {
        let ghost before = self@;
        let r = self.internal_schedule();
        proof {
            if before.len() > 0 {
                let m = choose|m: int|
                    {
                        &&& is_least_executed_at(before, m)
                        &&& r == Some(before[m])
                        &&& self@ == before.remove(m)
                    };
                assert(before.to_multiset() =~= self@.to_multiset().insert(before[m]));
                assert(before.to_multiset().add(tasks@.to_multiset()) =~= self@.to_multiset().add(
                    tasks@.to_multiset(),
                ).insert(before[m]));
            }
        }
        r
    }

    fn add_task(&mut self, task: Task) {
        self.tasks.push(task);
    }
}

/// Fair scheduling serves the queue in its stable order by executed time:
/// along any run of fair steps that each hand out a task, the tasks handed
/// out are the front of the stable sort of the first queue by executed
/// time, in order, and what is left sorts to the rest of it. So once every
/// task has been handed out, the queue is empty and the next step hands out
/// nothing.
pub proof fn lemma_fair_serves_in_executed_time_order(queues: Seq<Seq<Task>>, picks: Seq<Task>)
    requires
        queues.len() == picks.len() + 1,
        forall|i: int| 0 <= i < picks.len() ==> fair_step(#[trigger] queues[i], queues[i + 1], Some(picks[i])),
    ensures
        picks.len() <= queues[0].len(),
        picks == sort_by(TaskKey::ExecutedTime, queues[0]).take(picks.len() as int),
        sort_by(TaskKey::ExecutedTime, queues.last()) == sort_by(TaskKey::ExecutedTime, queues[0]).skip(
            picks.len() as int,
        ),
    decreases picks.len(),
{
    let key = TaskKey::ExecutedTime;
    let sorted = sort_by(key, queues[0]);
    lemma_sort_is_permutation(key, queues[0]);
    if picks.len() == 0 {
        assert(picks =~= sorted.take(0));
        assert(sorted.skip(0) =~= sorted);
    } else {
        let n = picks.len() as int;
        let qs = queues.drop_last();
        let ps = picks.drop_last();
        assert forall|i: int| 0 <= i < ps.len() implies fair_step(#[trigger] qs[i], qs[i + 1], Some(ps[i])) by {
            assert(fair_step(queues[i], queues[i + 1], Some(picks[i])));
        }
        lemma_fair_serves_in_executed_time_order(qs, ps);
        let q = queues[n - 1];
        assert(fair_step(queues[n - 1], queues[n], Some(picks[n - 1])));
        let m = choose|m: int|
            {
                &&& is_least_executed_at(q, m)
                &&& Some(picks[n - 1]) == Some(q[m])
                &&& queues[n] == q.remove(m)
            };
        assert(is_first_least_at(key, q, m));
        lemma_sort_takes_first_least(key, q, m);
        lemma_sort_is_permutation(key, q);
        assert(sort_by(key, q) == sorted.skip(n - 1));
        assert(sorted.skip(n - 1)[0] == sorted[n - 1]);
        assert(picks =~= sorted.take(n));
        let rest = sort_by(key, q.remove(m));
        assert((seq![q[m]] + rest).drop_first() =~= rest);
        assert(sort_by(key, queues[n]) == sort_by(key, q).drop_first());
        assert(sorted.skip(n - 1).drop_first() =~= sorted.skip(n));
    }
}

} // verus!
