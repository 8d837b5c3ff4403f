use vstd::prelude::*;
use vstd::multiset::Multiset;
use crate::task::Task;

verus! {

broadcast use vstd::multiset::group_multiset_axioms;

/// A list of tasks kept for fixed-priority scheduling.
pub struct FixedPriorityScheduler {
    pub tasks: Vec<Task>,
}

/// Nothing is lost or made up: the tasks held before a step, in the
/// scheduler's pool and in the caller's list, are those held after it plus
/// the task handed out, if any.
pub open spec fn conserves(
    pool_before: Multiset<Task>,
    tasks_before: Seq<Task>,
    pool_after: Multiset<Task>,
    tasks_after: Seq<Task>,
    picked: Option<Task>,
) -> bool {
    let after = pool_after.add(tasks_after.to_multiset());
    pool_before.add(tasks_before.to_multiset()) == match picked {
        Some(t) => after.insert(t),
        None => after,
    }
}

/// A scheduler that hands out the next task to run and accepts new ones.
///
/// `schedule` may draw on the scheduler's own queues or on the list the
/// caller passes, depending on the strategy.
pub trait SchedulingStrategy: Sized {
    /// The tasks the scheduler holds.
    spec fn pool(&self) -> Multiset<Task>;

    /// What `schedule` needs of the scheduler.
    spec fn can_schedule(&self) -> bool;

    /// What `add_task` needs of the scheduler and the task.
    spec fn can_add(&self, task: Task) -> bool;

    /// The outcome of one `schedule` step of this strategy, from `self` and
    /// the caller's `tasks` to `after`, `tasks_after` and the task `picked`.
    spec fn schedule_step(
        &self,
        after: Self,
        tasks: Seq<Task>,
        tasks_after: Seq<Task>,
        picked: Option<Task>,
    ) -> bool;

    /// The outcome of one `add_task` step of this strategy.
    spec fn add_step(&self, after: Self, task: Task) -> bool;

    /// Hands out the next task, if there is one.
    fn schedule(&mut self, tasks: &mut Vec<Task>) -> (r: Option<Task>)
        requires
            old(self).can_schedule(),
        ensures
            old(self).schedule_step(*final(self), old(tasks)@, final(tasks)@, r),
            conserves(old(self).pool(), old(tasks)@, final(self).pool(), final(tasks)@, r),
            final(self).can_schedule(),
            forall|t: Task| final(self).can_add(t) == old(self).can_add(t),
    ;

    /// Takes a task into the scheduler's queues.
    fn add_task(&mut self, task: Task)
        requires
            old(self).can_add(task),
        ensures
            old(self).add_step(*final(self), task),
            final(self).pool() == old(self).pool().insert(task),
            final(self).can_schedule() == old(self).can_schedule(),
            forall|t: Task| final(self).can_add(t) == old(self).can_add(t),
    ;
}

/// `m` is the position of the first task with the least deadline in `s`.
pub open spec fn is_earliest_deadline_at(s: Seq<Task>, m: int) -> bool {
    &&& 0 <= m < s.len()
    &&& forall|k: int| 0 <= k < s.len() ==> s[m].deadline <= #[trigger] s[k].deadline
    &&& forall|k: int| 0 <= k < m ==> #[trigger] s[k].deadline > s[m].deadline
}

/// `m` is the position of the first task with the least executed time in `s`.
pub open spec fn is_least_executed_at(s: Seq<Task>, m: int) -> bool {
    &&& 0 <= m < s.len()
    &&& forall|k: int| 0 <= k < s.len() ==> s[m].executed_time <= #[trigger] s[k].executed_time
    &&& forall|k: int| 0 <= k < m ==> #[trigger] s[k].executed_time > s[m].executed_time
}

/// `i` is the position of the first task in `s` named `name`.
pub open spec fn is_first_named_at(s: Seq<Task>, i: int, name: Seq<char>) -> bool {
    &&& 0 <= i < s.len()
    &&& s[i].name@ == name
    &&& forall|k: int| 0 <= k < i ==> (#[trigger] s[k]).name@ != name
}

/// No two tasks of `s` share a name.
pub open spec fn has_distinct_names(s: Seq<Task>) -> bool {
    forall|i: int, j: int| 0 <= i < j < s.len() ==> (#[trigger] s[i]).name@ != (#[trigger] s[j]).name@
}

/// Finds the first task with the least deadline in a non-empty list.
pub fn earliest_deadline_index(tasks: &Vec<Task>) -> (m: usize)
    requires
        tasks.len() > 0,
    ensures
        is_earliest_deadline_at(tasks@, m as int),
{
    let mut m: usize = 0;
    let mut i: usize = 1;
    while i < tasks.len()
        invariant
            0 < i <= tasks.len(),
            m < i,
            forall|k: int| 0 <= k < i ==> tasks@[m as int].deadline <= #[trigger] tasks@[k].deadline,
            forall|k: int| 0 <= k < m ==> #[trigger] tasks@[k].deadline > tasks@[m as int].deadline,
        decreases tasks.len() - i,
    {
        if tasks[i].deadline < tasks[m].deadline {
            m = i;
        }
        i = i + 1;
    }
    m
}

/// Finds the first task with the least executed time in a non-empty list.
pub fn least_executed_index(tasks: &Vec<Task>) -> (m: usize)
    requires
        tasks.len() > 0,
    ensures
        is_least_executed_at(tasks@, m as int),
{
    let mut m: usize = 0;
    let mut i: usize = 1;
    while i < tasks.len()
        invariant
            0 < i <= tasks.len(),
            m < i,
            forall|k: int|
                0 <= k < i ==> tasks@[m as int].executed_time <= #[trigger] tasks@[k].executed_time,
            forall|k: int|
                0 <= k < m ==> #[trigger] tasks@[k].executed_time > tasks@[m as int].executed_time,
        decreases tasks.len() - i,
    {
        if tasks[i].executed_time < tasks[m].executed_time {
            m = i;
        }
        i = i + 1;
    }
    m
}

/// Finds the first task named `name`, which the list must hold.
pub fn first_named_index(tasks: &Vec<Task>, name: &String) -> (i: usize)
    requires
        exists|k: int| 0 <= k < tasks.len() && (#[trigger] tasks@[k]).name@ == name@,
    ensures
        is_first_named_at(tasks@, i as int, name@),
{
    let mut i: usize = 0;
    while i < tasks.len()
        invariant
            i <= tasks.len(),
            forall|k: int| 0 <= k < i ==> (#[trigger] tasks@[k]).name@ != name@,
            exists|k: int| 0 <= k < tasks.len() && (#[trigger] tasks@[k]).name@ == name@,
        decreases tasks.len() - i,
    {
        if tasks[i].name == *name {
            return i;
        }
        i = i + 1;
    }
    i
}

/// All the tasks held in a list of queues.
pub open spec fn queue_pool(qs: Seq<Seq<Task>>) -> Multiset<Task>
    decreases qs.len(),
{
    if qs.len() == 0 {
        Multiset::empty()
    } else {
        queue_pool(qs.drop_last()).add(qs.last().to_multiset())
    }
}

proof fn lemma_queue_pool_update(qs: Seq<Seq<Task>>, i: int, q: Seq<Task>)
    requires
        0 <= i < qs.len(),
    ensures
        queue_pool(qs.update(i, q)).add(qs[i].to_multiset()) == queue_pool(qs).add(q.to_multiset()),
    decreases qs.len(),
{
    let u = qs.update(i, q);
    if i == qs.len() - 1 {
        assert(u.drop_last() =~= qs.drop_last());
        assert(u.last() == q);
        assert(qs[i] == qs.last());
        assert(queue_pool(u) == queue_pool(qs.drop_last()).add(q.to_multiset()));
        assert(queue_pool(qs) == queue_pool(qs.drop_last()).add(qs[i].to_multiset()));
        assert(queue_pool(u).add(qs[i].to_multiset()) =~= queue_pool(qs).add(q.to_multiset()));
    } else {
        lemma_queue_pool_update(qs.drop_last(), i, q);
        assert(u.drop_last() =~= qs.drop_last().update(i, q));
        assert(u.last() == qs.last());
        let d = qs.drop_last();
        assert(queue_pool(u) == queue_pool(d.update(i, q)).add(qs.last().to_multiset()));
        assert(queue_pool(qs) == queue_pool(d).add(qs.last().to_multiset()));
        assert(d[i] == qs[i]);
        let x = queue_pool(d.update(i, q));
        assert forall|t: Task|
            #[trigger] queue_pool(u).add(qs[i].to_multiset()).count(t) == queue_pool(qs).add(
                q.to_multiset(),
            ).count(t) by {
            assert(x.add(qs[i].to_multiset()).count(t) == queue_pool(d).add(q.to_multiset()).count(
                t,
            ));
        }
        assert(queue_pool(u).add(qs[i].to_multiset()) =~= queue_pool(qs).add(q.to_multiset()));
    }
}

/// Replacing queue `i` by `q`, where `q` and `extra` together hold the tasks
/// of the old queue, leaves the pool short of exactly `extra`.
pub proof fn lemma_queue_pool_replace(qs: Seq<Seq<Task>>, i: int, q: Seq<Task>, extra: Multiset<Task>)
    requires
        0 <= i < qs.len(),
        q.to_multiset().add(extra) == qs[i].to_multiset(),
    ensures
        queue_pool(qs.update(i, q)).add(extra) == queue_pool(qs),
{
    lemma_queue_pool_update(qs, i, q);
    let x = queue_pool(qs.update(i, q));
    assert forall|t: Task| #[trigger] x.add(extra).count(t) == queue_pool(qs).count(t) by {
        assert(x.add(qs[i].to_multiset()).count(t) == queue_pool(qs).add(q.to_multiset()).count(t));
        assert(q.to_multiset().add(extra).count(t) == qs[i].to_multiset().count(t));
    }
    assert(queue_pool(qs.update(i, q)).add(extra) =~= queue_pool(qs));
}

/// Queues that are all empty hold no task.
pub proof fn lemma_queue_pool_empty(qs: Seq<Seq<Task>>)
    requires
        forall|i: int| 0 <= i < qs.len() ==> (#[trigger] qs[i]).len() == 0,
    ensures
        queue_pool(qs) == Multiset::<Task>::empty(),
    decreases qs.len(),
{
    broadcast use vstd::seq_lib::group_to_multiset_ensures;

    if qs.len() > 0 {
        let d = qs.drop_last();
        assert forall|i: int| 0 <= i < d.len() implies (#[trigger] d[i]).len() == 0 by {
            assert(d[i] == qs[i]);
        }
        lemma_queue_pool_empty(d);
        assert(qs[qs.len() - 1].len() == 0);
        assert(qs.last().to_multiset().len() == 0);
        assert(queue_pool(qs) =~= Multiset::<Task>::empty());
    }
}

} // verus!
