use vstd::prelude::*;
use vstd::multiset::Multiset;
use std::collections::VecDeque;
use crate::task::Task;
use crate::scheduler::strategy::SchedulingStrategy;

verus! {

broadcast use {vstd::seq_lib::group_to_multiset_ensures, vstd::multiset::group_multiset_axioms};

/// Two first-in, first-out queues: tasks of priority above five wait in the
/// high queue, which is always served before the low one.
pub struct MultiLevelQueueScheduler {
    high_priority_queue: VecDeque<Task>,
    low_priority_queue: VecDeque<Task>,
}

/// Whether a task belongs in the high queue.
pub open spec fn is_high_priority(task: Task) -> bool {
    task.priority > 5
}

/// Adding `task` to `s` gives `after`: the task joins the back of the queue
/// of its level.
pub open spec fn multilevel_add(s: MultiLevelQueueScheduler, after: MultiLevelQueueScheduler, task: Task) -> bool {
    &&& task.priority > 5 ==> after.high() == s.high().push(task) && after.low() == s.low()
    &&& task.priority <= 5 ==> after.low() == s.low().push(task) && after.high() == s.high()
}

/// One step of `s` to `after`: the front of the high queue leaves, or else
/// the front of the low one, or else nothing.
pub open spec fn multilevel_step(
    s: MultiLevelQueueScheduler,
    after: MultiLevelQueueScheduler,
    picked: Option<Task>,
) -> bool {
    &&& s.high().len() > 0 ==> picked == Some(s.high()[0]) && after.high() == s.high().drop_first()
        && after.low() == s.low()
    &&& s.high().len() == 0 && s.low().len() > 0 ==> picked == Some(s.low()[0]) && after.low()
        == s.low().drop_first() && after.high() == s.high()
    &&& s.high().len() == 0 && s.low().len() == 0 ==> picked is None && after.high() == s.high()
        && after.low() == s.low()
}

impl MultiLevelQueueScheduler {
    /// The tasks waiting in the high queue, front first.
    pub closed spec fn high(&self) -> Seq<Task> {
        self.high_priority_queue@
    }

    /// The tasks waiting in the low queue, front first.
    pub closed spec fn low(&self) -> Seq<Task> {
        self.low_priority_queue@
    }

    /// Each task waits in the queue of its level.
    pub open spec fn wf(&self) -> bool {
        &&& forall|k: int| 0 <= k < self.high().len() ==> is_high_priority(#[trigger] self.high()[k])
        &&& forall|k: int| 0 <= k < self.low().len() ==> !is_high_priority(#[trigger] self.low()[k])
    }

    /// Two empty queues.
    pub fn new() -> (r: Self)
        ensures
            r.high() == Seq::<Task>::empty(),
            r.low() == Seq::<Task>::empty(),
            r.wf(),
    {
        MultiLevelQueueScheduler {
            high_priority_queue: VecDeque::new(),
            low_priority_queue: VecDeque::new(),
        }
    }

    /// Appends the task to the back of the queue of its level.
    pub fn add_task(&mut self, task: Task)
        ensures
            multilevel_add(*old(self), *final(self), task),
            old(self).wf() ==> final(self).wf(),
    {
        if task.priority > 5 {
            self.high_priority_queue.push_back(task);
        } else {
            self.low_priority_queue.push_back(task);
        }
    }

    /// Takes the front of the high queue, or else the front of the low one.
    pub fn schedule(&mut self) -> (r: Option<Task>)
        ensures
            multilevel_step(*old(self), *final(self), r),
            old(self).wf() ==> final(self).wf(),
            old(self).wf() && (r matches Some(t) && !is_high_priority(t)) ==> old(self).high().len()
                == 0,
    {
        let h = self.high_priority_queue.pop_front();
        if h.is_some() {
            h
        } else {
            self.low_priority_queue.pop_front()
        }
    }
}

impl SchedulingStrategy for MultiLevelQueueScheduler {
    open spec fn pool(&self) -> Multiset<Task> {
        self.high().to_multiset().add(self.low().to_multiset())
    }

    open spec fn can_schedule(&self) -> bool {
        true
    }

    open spec fn can_add(&self, task: Task) -> bool {
        true
    }

    /// Takes the front of the high queue, or else the front of the low one;
    /// the caller's list is left alone.
    open spec fn schedule_step(
        &self,
        after: Self,
        tasks: Seq<Task>,
        tasks_after: Seq<Task>,
        picked: Option<Task>,
    ) -> bool {
        &&& tasks_after == tasks
        &&& multilevel_step(*self, after, picked)
    }

    /// Appends the task to the back of the queue of its level.
    open spec fn add_step(&self, after: Self, task: Task) -> bool {
        multilevel_add(*self, after, task)
    }

    fn schedule(&mut self, tasks: &mut Vec<Task>) -> (r: Option<Task>) {
        let ghost h0 = self.high();
        let ghost l0 = self.low();
        let r = MultiLevelQueueScheduler::schedule(self);
        proof {
            if h0.len() > 0 {
                assert(h0 =~= seq![h0[0]] + self.high());
                assert(h0.to_multiset() =~= self.high().to_multiset().insert(h0[0])) by {
                    assert(h0.remove(0) =~= self.high());
                }
            } else if l0.len() > 0 {
                assert(l0.to_multiset() =~= self.low().to_multiset().insert(l0[0])) by {
                    assert(l0.remove(0) =~= self.low());
                }
            }
            let before = h0.to_multiset().add(l0.to_multiset()).add(tasks@.to_multiset());
            assert(before =~= match r {
                Some(t) => self.pool().add(tasks@.to_multiset()).insert(t),
                None => self.pool().add(tasks@.to_multiset()),
            });
        }
        r
    }

    fn add_task(&mut self, task: Task) {
        let ghost t = task;
        MultiLevelQueueScheduler::add_task(self, task);
        assert(self.pool() =~= old(self).pool().insert(t));
    }
}

/// On an empty scheduler, the task just added is the one handed out next,
/// and the scheduler is empty again afterwards.
pub proof fn lemma_multilevel_add_then_schedule(
    s0: MultiLevelQueueScheduler,
    s1: MultiLevelQueueScheduler,
    s2: MultiLevelQueueScheduler,
    task: Task,
    tasks: Seq<Task>,
    tasks_after: Seq<Task>,
    picked: Option<Task>,
)
    requires
        s0.high().len() == 0,
        s0.low().len() == 0,
        s0.add_step(s1, task),
        s1.schedule_step(s2, tasks, tasks_after, picked),
    ensures
        picked == Some(task),
        s2.high().len() == 0,
        s2.low().len() == 0,
{
}

/// First in, first out within a level: of two tasks of the same level added
/// one after the other to an empty scheduler, the earlier one comes out
/// first.
pub proof fn lemma_multilevel_first_in_first_out(
    s0: MultiLevelQueueScheduler,
    s1: MultiLevelQueueScheduler,
    s2: MultiLevelQueueScheduler,
    s3: MultiLevelQueueScheduler,
    a: Task,
    b: Task,
    tasks: Seq<Task>,
    tasks_after: Seq<Task>,
    picked: Option<Task>,
)
    requires
        s0.high().len() == 0,
        s0.low().len() == 0,
        is_high_priority(a) == is_high_priority(b),
        s0.add_step(s1, a),
        s1.add_step(s2, b),
        s2.schedule_step(s3, tasks, tasks_after, picked),
    ensures
        picked == Some(a),
{
}

/// The high level goes first: a task of high priority added to a
/// scheduler whose high queue is empty is handed out next, however many
/// low-priority tasks wait.
pub proof fn lemma_multilevel_high_goes_first(
    s0: MultiLevelQueueScheduler,
    s1: MultiLevelQueueScheduler,
    s2: MultiLevelQueueScheduler,
    task: Task,
    tasks: Seq<Task>,
    tasks_after: Seq<Task>,
    picked: Option<Task>,
)
    requires
        s0.high().len() == 0,
        is_high_priority(task),
        s0.add_step(s1, task),
        s1.schedule_step(s2, tasks, tasks_after, picked),
    ensures
        picked == Some(task),
        s2.low() == s0.low(),
{
}

/// Adding tasks one after the other to an empty scheduler sorts them into
/// the two levels, each in the order of adding: the high queue holds the
/// tasks of high priority and the low queue the others.
pub proof fn lemma_multilevel_adds_partition(states: Seq<MultiLevelQueueScheduler>, ts: Seq<Task>)
    requires
        states.len() == ts.len() + 1,
        states[0].high().len() == 0,
        states[0].low().len() == 0,
        forall|i: int| 0 <= i < ts.len() ==> multilevel_add(#[trigger] states[i], states[i + 1], ts[i]),
    ensures
        states.last().high() == ts.filter(|t: Task| is_high_priority(t)),
        states.last().low() == ts.filter(|t: Task| !is_high_priority(t)),
    decreases ts.len(),
{
    reveal(Seq::filter);
    let n = ts.len() as int;
    if n == 0 {
        assert(states.last().high() =~= ts.filter(|t: Task| is_high_priority(t)));
        assert(states.last().low() =~= ts.filter(|t: Task| !is_high_priority(t)));
    } else {
        let ss = states.drop_last();
        let us = ts.drop_last();
        assert forall|i: int| 0 <= i < us.len() implies multilevel_add(#[trigger] ss[i], ss[i + 1], us[i]) by {
            assert(multilevel_add(states[i], states[i + 1], ts[i]));
        }
        lemma_multilevel_adds_partition(ss, us);
        assert(multilevel_add(states[n - 1], states[n], ts[n - 1]));
        assert(ss.last() == states[n - 1]);
    }
}

/// The high level is emptied before the low one, each first in, first out:
/// along any run of steps that each hand out a task, the tasks handed out
/// are the front of the high queue followed by the low queue, as they
/// stood at the start, and what is left is the rest of it. So once every
/// task has been handed out, both queues are empty and the next step hands
/// out nothing.
pub proof fn lemma_multilevel_serves_high_then_low(states: Seq<MultiLevelQueueScheduler>, picks: Seq<Task>)
    requires
        states.len() == picks.len() + 1,
        forall|i: int| 0 <= i < picks.len() ==> multilevel_step(#[trigger] states[i], states[i + 1], Some(picks[i])),
    ensures
        picks.len() <= states[0].high().len() + states[0].low().len(),
        picks == (states[0].high() + states[0].low()).take(picks.len() as int),
        states.last().high() + states.last().low() == (states[0].high() + states[0].low()).skip(
            picks.len() as int,
        ),
    decreases picks.len(),
{
    let all = states[0].high() + states[0].low();
    let n = picks.len() as int;
    if n == 0 {
        assert(picks =~= all.take(0));
        assert(all.skip(0) =~= all);
    } else {
        let ss = states.drop_last();
        let ps = picks.drop_last();
        assert forall|i: int| 0 <= i < ps.len() implies multilevel_step(#[trigger] ss[i], ss[i + 1], Some(ps[i])) by {
            assert(multilevel_step(states[i], states[i + 1], Some(picks[i])));
        }
        lemma_multilevel_serves_high_then_low(ss, ps);
        let s = states[n - 1];
        assert(ss.last() == s);
        assert(multilevel_step(s, states[n], Some(picks[n - 1])));
        let cur = s.high() + s.low();
        assert(cur == all.skip(n - 1));
        assert(cur.len() > 0);
        assert(picks[n - 1] == cur[0]);
        assert(picks =~= all.take(n));
        if s.high().len() > 0 {
            assert(states[n].high() + states[n].low() =~= cur.drop_first());
        } else {
            assert(states[n].high() + states[n].low() =~= cur.drop_first());
        }
        assert(cur.drop_first() =~= all.skip(n));
    }
}

/// A task is of high priority exactly when its static priority is above
/// five, whatever its other fields.
pub proof fn lemma_high_priority_is_static_priority_above_five(task: Task)
    ensures
        is_high_priority(task) <==> task.priority > 5,
{
}

/// Adding a task sends it to the back of the high queue exactly when its
/// static priority is above five, and to the back of the low queue
/// otherwise; the other queue is left alone.
pub proof fn lemma_multilevel_add_by_static_priority(
    s0: MultiLevelQueueScheduler,
    s1: MultiLevelQueueScheduler,
    task: Task,
)
    requires
        s0.add_step(s1, task),
    ensures
        task.priority > 5 ==> s1.high().last() == task && s1.high().drop_last() == s0.high()
            && s1.low() == s0.low(),
        task.priority <= 5 ==> s1.low().last() == task && s1.low().drop_last() == s0.low()
            && s1.high() == s0.high(),
{
    if task.priority > 5 {
        assert(s1.high().drop_last() =~= s0.high());
    } else {
        assert(s1.low().drop_last() =~= s0.low());
    }
}

} // verus!
