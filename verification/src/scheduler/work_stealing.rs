use vstd::prelude::*;
use vstd::multiset::Multiset;
use std::collections::VecDeque;
use crate::task::Task;
use crate::scheduler::strategy::{
    SchedulingStrategy, queue_pool, lemma_queue_pool_replace,
};

verus! {

broadcast use {vstd::seq_lib::group_to_multiset_ensures, vstd::multiset::group_multiset_axioms};

/// Work stealing: one first-in, first-out queue per core; a core whose own
/// queue is empty takes the front task of the first other queue that has
/// one.
pub struct WorkStealingScheduler {
    core_queues: Vec<VecDeque<Task>>,
    current_core_id: usize,
}

impl View for WorkStealingScheduler {
    type V = Seq<Seq<Task>>;

    closed spec fn view(&self) -> Seq<Seq<Task>> {
        Seq::new(self.core_queues@.len(), |i: int| self.core_queues@[i]@)
    }
}

/// The queue that receives `task` among `n` queues.
pub open spec fn home_queue(task: Task, n: nat) -> int {
    task.core_id as int % n as int
}

/// `v` is the first queue other than `c` that holds a task.
pub open spec fn is_first_victim(qs: Seq<Seq<Task>>, c: int, v: int) -> bool {
    &&& 0 <= v < qs.len()
    &&& v != c
    &&& qs[v].len() > 0
    &&& forall|u: int| 0 <= u < v && u != c ==> (#[trigger] qs[u]).len() == 0
}

/// Takes the front task of queue `v`.
pub open spec fn take_front(qs: Seq<Seq<Task>>, v: int, after: Seq<Seq<Task>>, picked: Option<Task>) -> bool {
    &&& picked == Some(qs[v][0])
    &&& after == qs.update(v, qs[v].drop_first())
}

/// One step of core `c`: the front of its own queue, or else the front of
/// the first other queue that holds a task, or else nothing.
pub open spec fn steal_step(qs: Seq<Seq<Task>>, c: int, after: Seq<Seq<Task>>, picked: Option<Task>) -> bool {
    if qs[c].len() > 0 {
        take_front(qs, c, after, picked)
    } else if exists|v: int| is_first_victim(qs, c, v) {
        take_front(qs, choose|v: int| is_first_victim(qs, c, v), after, picked)
    } else {
        picked is None && after == qs
    }
}

proof fn lemma_take_front_pool(qs: Seq<Seq<Task>>, v: int)
    requires
        0 <= v < qs.len(),
        qs[v].len() > 0,
    ensures
        queue_pool(qs) == queue_pool(qs.update(v, qs[v].drop_first())).insert(qs[v][0]),
{
    let q = qs[v].drop_first();
    assert(qs[v].remove(0) =~= q);
    let extra = Multiset::singleton(qs[v][0]);
    assert(q.to_multiset().add(extra) =~= qs[v].to_multiset());
    lemma_queue_pool_replace(qs, v, q, extra);
    assert(queue_pool(qs.update(v, q)).add(extra) =~= queue_pool(qs.update(v, q)).insert(qs[v][0]));
}

impl WorkStealingScheduler {
    /// The current core never moves from core 0.
    #[verifier::type_invariant]
    spec fn serves_core_zero(self) -> bool {
        self.current_core_id == 0
    }

    /// The number of queues.
    pub fn queue_count(&self) -> (r: usize)
        ensures
            r == self@.len(),
    {
        self.core_queues.len()
    }

    /// The core whose queue the strategy's `schedule` serves first: always
    /// core 0.
    pub fn current_core_index(&self) -> (r: usize)
        ensures
            r == 0,
    {
        proof {
            use_type_invariant(self);
        }
        self.current_core_id
    }

    /// One empty queue for each of `core_count` cores; core 0 is current.
    pub fn new(core_count: usize) -> (r: Self)
        ensures
            r@.len() == core_count,
            forall|i: int| 0 <= i < core_count ==> (#[trigger] r@[i]).len() == 0,
    {
        let mut core_queues: Vec<VecDeque<Task>> = Vec::new();
        let mut i: usize = 0;
        while i < core_count
            invariant
                i <= core_count,
                core_queues@.len() == i,
                forall|k: int| 0 <= k < i ==> (#[trigger] core_queues@[k])@.len() == 0,
            decreases core_count - i,
        {
            core_queues.push(VecDeque::new());
            i = i + 1;
        }
        let r = WorkStealingScheduler { core_queues, current_core_id: 0 };
        assert forall|k: int| 0 <= k < core_count implies (#[trigger] r@[k]).len() == 0 by {
            assert(r@[k] == r.core_queues@[k]@);
        }
        r
    }

    /// Appends the task to the back of the queue of core
    /// `task.core_id % n`, for `n` queues.
    pub fn add_task(&mut self, task: Task)
        requires
            old(self)@.len() > 0,
        ensures
            final(self)@ == old(self)@.update(
                task.core_id as int % old(self)@.len() as int,
                old(self)@[task.core_id as int % old(self)@.len() as int].push(task),
            ),
    {
        proof {
            use_type_invariant(&*self);
        }
        let core_id = task.core_id % self.core_queues.len();
        let ghost t = task;
        self.core_queues[core_id].push_back(task);
        assert(self@ =~= old(self)@.update(core_id as int, old(self)@[core_id as int].push(t)));
    }

    /// Core `core_id` takes the front of its own queue, or else steals the
    /// front of the first other queue that holds a task.
    pub fn schedule(&mut self, core_id: usize) -> (r: Option<Task>)
        requires
            core_id < old(self)@.len(),
        ensures
            steal_step(old(self)@, core_id as int, final(self)@, r),
            r is None <==> forall|i: int| 0 <= i < old(self)@.len() ==> (#[trigger] old(self)@[i]).len() == 0,
            queue_pool(old(self)@) == match r {
                Some(t) => queue_pool(final(self)@).insert(t),
                None => queue_pool(final(self)@),
            },
    {
        proof {
            use_type_invariant(&*self);
        }
        let ghost qs = self@;
        assert(qs[core_id as int] == self.core_queues@[core_id as int]@);
        let own = self.core_queues[core_id].pop_front();
        if own.is_some() {
            proof {
                assert(self@ =~= qs.update(core_id as int, qs[core_id as int].drop_first()));
                lemma_take_front_pool(qs, core_id as int);
            }
            return own;
        }
        assert(self@ =~= qs);
        let n = self.core_queues.len();
        let mut v: usize = 0;
        while v < n
            invariant
                n == qs.len(),
                self@ == qs,
                old(self)@ == qs,
                core_id < n,
                qs[core_id as int].len() == 0,
                v <= n,
                forall|u: int| 0 <= u < v && u != core_id ==> (#[trigger] qs[u]).len() == 0,
                self.current_core_id == 0,
            decreases n - v,
        {
            if v != core_id {
                assert(qs[v as int] == self.core_queues@[v as int]@);
                let stolen = self.core_queues[v].pop_front();
                if stolen.is_some() {
                    proof {
                        assert(is_first_victim(qs, core_id as int, v as int));
                        let w = choose|w: int| is_first_victim(qs, core_id as int, w);
                        if w < v as int {
                            assert(qs[w].len() == 0);
                        } else if w > v as int {
                            assert(qs[v as int].len() == 0);
                        }
                        assert(self@ =~= qs.update(v as int, qs[v as int].drop_first()));
                        lemma_take_front_pool(qs, v as int);
                        assert(old(self)@[v as int].len() > 0);
                        assert(take_front(qs, v as int, self@, stolen));
                    }
                    return stolen;
                }
                assert(self@ =~= qs);
            }
            v = v + 1;
        }
        proof {
            assert forall|w: int| !is_first_victim(qs, core_id as int, w) by {
                if 0 <= w < qs.len() && w != core_id {
                    assert(qs[w].len() == 0);
                }
            }
        }
        None
    }
}

impl SchedulingStrategy for WorkStealingScheduler {
    open spec fn pool(&self) -> Multiset<Task> {
        queue_pool(self@)
    }

    /// Core 0, the current core, has a queue.
    open spec fn can_schedule(&self) -> bool {
        self@.len() > 0
    }

    /// There is at least one queue.
    open spec fn can_add(&self, task: Task) -> bool {
        self@.len() > 0
    }

    /// A step of core 0, the current core, which never changes; the
    /// caller's list is left alone.
    open spec fn schedule_step(
        &self,
        after: Self,
        tasks: Seq<Task>,
        tasks_after: Seq<Task>,
        picked: Option<Task>,
    ) -> bool {
        &&& tasks_after == tasks
        &&& steal_step(self@, 0, after@, picked)
    }

    open spec fn add_step(&self, after: Self, task: Task) -> bool {
        &&& after@ == self@.update(
            task.core_id as int % self@.len() as int,
            self@[task.core_id as int % self@.len() as int].push(task),
        )
    }

    fn schedule(&mut self, tasks: &mut Vec<Task>) -> (r: Option<Task>) {
        let c = self.current_core_index();
        let r = WorkStealingScheduler::schedule(self, c);
        proof {
            let p = queue_pool(self@);
            assert(old(self).pool().add(tasks@.to_multiset()) =~= match r {
                Some(t) => p.add(tasks@.to_multiset()).insert(t),
                None => p.add(tasks@.to_multiset()),
            });
        }
        r
    }

    fn add_task(&mut self, task: Task) {
        let ghost t = task;
        let ghost before = self@;
        WorkStealingScheduler::add_task(self, task);
        proof {
            let c = t.core_id as int % before.len() as int;
            let extra = Multiset::singleton(t);
            assert(before[c].to_multiset().add(extra) =~= self@[c].to_multiset());
            lemma_queue_pool_replace(self@, c, before[c], extra);
            assert(self@.update(c, before[c]) =~= before);
            assert(queue_pool(self@) =~= queue_pool(before).insert(t));
        }
    }
}

proof fn lemma_first_victim_exists(qs: Seq<Seq<Task>>, c: int, i: int)
    requires
        0 <= i < qs.len(),
        i != c,
        qs[i].len() > 0,
    ensures
        exists|v: int| is_first_victim(qs, c, v),
    decreases i,
{
    if exists|u: int| 0 <= u < i && u != c && (#[trigger] qs[u]).len() > 0 {
        let u = choose|u: int| 0 <= u < i && u != c && (#[trigger] qs[u]).len() > 0;
        lemma_first_victim_exists(qs, c, u);
    } else {
        assert(is_first_victim(qs, c, i));
    }
}

/// A task is lost to no core: scheduling hands out nothing only when every
/// queue is empty.
pub proof fn lemma_work_stealing_is_work_conserving(
    s0: WorkStealingScheduler,
    s1: WorkStealingScheduler,
    tasks: Seq<Task>,
    tasks_after: Seq<Task>,
    picked: Option<Task>,
)
    requires
        s0.can_schedule(),
        s0.schedule_step(s1, tasks, tasks_after, picked),
    ensures
        picked is None <==> forall|i: int| 0 <= i < s0@.len() ==> (#[trigger] s0@[i]).len() == 0,
{
    let qs = s0@;
    let c = 0int;
    if picked is None {
        assert(qs[c].len() == 0);
        assert forall|i: int| 0 <= i < qs.len() implies (#[trigger] qs[i]).len() == 0 by {
            if i != c && qs[i].len() > 0 {
                lemma_first_victim_exists(qs, c, i);
            }
        }
    }
}

/// The queue that receives a task is its core number taken modulo the number
/// of queues: a task naming a core past the last queue wraps around.
pub proof fn lemma_home_queue_wraps(task: Task, n: nat)
    requires
        n > 0,
    ensures
        home_queue(task, n) == task.core_id as int % n as int,
        0 <= home_queue(task, n) < n,
        task.core_id < n ==> home_queue(task, n) == task.core_id,
        task.core_id == n ==> home_queue(task, n) == 0,
{
    if task.core_id < n {
        vstd::arithmetic::div_mod::lemma_small_mod(task.core_id as nat, n);
    }
    if task.core_id == n {
        vstd::arithmetic::div_mod::lemma_mod_self_0(n as int);
    }
}

/// Adding a task puts it at the back of queue `core_id % n`, for `n` queues,
/// and leaves every other queue alone.
pub proof fn lemma_work_stealing_add_targets_remainder_queue(
    s0: WorkStealingScheduler,
    s1: WorkStealingScheduler,
    task: Task,
)
    requires
        s0@.len() > 0,
        s0.add_step(s1, task),
    ensures
        s1@.len() == s0@.len(),
        s1@[task.core_id as int % s0@.len() as int].last() == task,
        s1@[task.core_id as int % s0@.len() as int].drop_last() == s0@[task.core_id as int
            % s0@.len() as int],
        forall|i: int|
            0 <= i < s0@.len() && i != task.core_id as int % s0@.len() as int ==> #[trigger] s1@[i]
                == s0@[i],
        task.core_id == s0@.len() ==> s1@[0].last() == task,
{
    let c = task.core_id as int % s0@.len() as int;
    assert(s1@[c].drop_last() =~= s0@[c]);
    lemma_home_queue_wraps(task, s0@.len());
}

} // verus!
