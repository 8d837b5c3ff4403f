use vstd::prelude::*;
use crate::task::Task;

verus! {

/// The first position of the share of core `core_id` when `total` tasks
/// are split over `core_count` cores: each core gets `total / core_count`
/// tasks in turn.
pub open spec fn share_start(core_id: int, total: int, core_count: int) -> int {
    core_id * (total / core_count)
}

/// The end of the share of core `core_id`: the last core also takes what is
/// left over.
pub open spec fn share_end(core_id: int, total: int, core_count: int) -> int {
    if core_id == core_count - 1 {
        total
    } else {
        share_start(core_id, total, core_count) + total / core_count
    }
}

/// The tasks of `tasks` that core `core_id` runs: its share, or nothing
/// when the share is empty.
pub open spec fn share_of(tasks: Seq<Task>, core_id: int, core_count: int) -> Seq<Task> {
    let start = share_start(core_id, tasks.len() as int, core_count);
    let end = share_end(core_id, tasks.len() as int, core_count);
    if start < end {
        tasks.subrange(start, end)
    } else {
        Seq::empty()
    }
}

/// The shares of cores `0 .. n`, joined in core order.
pub open spec fn joined_shares(tasks: Seq<Task>, core_count: int, n: nat) -> Seq<Task>
    decreases n,
{
    if n == 0 {
        Seq::empty()
    } else {
        joined_shares(tasks, core_count, (n - 1) as nat) + share_of(tasks, n - 1, core_count)
    }
}

/// The contiguous share of `tasks` that core `core_id` runs, when the tasks
/// are split over `core_count` cores; `None` when that share is empty.
pub fn assign_tasks_to_core(core_id: usize, tasks: &[Task], core_count: usize) -> (r: Option<Vec<Task>>)
    requires
        core_count > 0,
        share_end(core_id as int, tasks@.len() as int, core_count as int) <= usize::MAX,
        share_start(core_id as int, tasks@.len() as int, core_count as int) <= usize::MAX,
        share_start(core_id as int, tasks@.len() as int, core_count as int) < share_end(
            core_id as int,
            tasks@.len() as int,
            core_count as int,
        ) ==> share_end(core_id as int, tasks@.len() as int, core_count as int) <= tasks@.len(),
    ensures
        ({
            let start = share_start(core_id as int, tasks@.len() as int, core_count as int);
            let end = share_end(core_id as int, tasks@.len() as int, core_count as int);
            &&& start < end ==> (r matches Some(v) && v@ == tasks@.subrange(start, end))
            &&& end <= start ==> r is None
        }),
        (match r {
            Some(v) => v@,
            None => Seq::<Task>::empty(),
        }) == share_of(tasks@, core_id as int, core_count as int),
{
    let total_tasks = tasks.len();
    let tasks_per_core = total_tasks / core_count;
    assert(tasks_per_core == tasks@.len() as int / core_count as int);
    let start = core_id * tasks_per_core;
    let end = if core_id == core_count - 1 {
        total_tasks
    } else {
        start + tasks_per_core
    };
    if start < end {
        let mut v: Vec<Task> = Vec::new();
        let mut i: usize = start;
        while i < end
            invariant
                start <= i <= end,
                end <= tasks@.len(),
                v@ == tasks@.subrange(start as int, i as int),
            decreases end - i,
        {
            v.push(tasks[i].clone());
            assert(v@ =~= tasks@.subrange(start as int, i + 1));
            i = i + 1;
        }
        Some(v)
    } else {
        None
    }
}

/// The shares of the cores tile the task list: the first starts at the
/// front, each ends where the next starts, the last ends at the back, and
/// each lies within the list.
pub proof fn lemma_shares_tile(total: int, core_count: int)
    requires
        total >= 0,
        core_count > 0,
    ensures
        share_start(0, total, core_count) == 0,
        share_end(core_count - 1, total, core_count) == total,
        forall|c: int|
            0 <= c < core_count - 1 ==> #[trigger] share_end(c, total, core_count) == share_start(
                c + 1,
                total,
                core_count,
            ),
        forall|c: int|
            0 <= c < core_count ==> 0 <= #[trigger] share_start(c, total, core_count) <= share_end(
                c,
                total,
                core_count,
            ) <= total,
{
    let per = total / core_count;
    assert(0 <= per);
    assert(per * core_count <= total) by (nonlinear_arith)
        requires
            per == total / core_count,
            core_count > 0,
            total >= 0,
    ;
    assert forall|c: int| 0 <= c < core_count - 1 implies #[trigger] share_end(c, total, core_count)
        == share_start(c + 1, total, core_count) by {
        assert(c * per + per == (c + 1) * per) by (nonlinear_arith);
    }
    assert forall|c: int| 0 <= c < core_count implies 0 <= #[trigger] share_start(
        c,
        total,
        core_count,
    ) <= share_end(c, total, core_count) <= total by {
        assert(0 <= c * per) by (nonlinear_arith)
            requires
                0 <= c,
                0 <= per,
        ;
        assert((c + 1) * per <= core_count * per) by (nonlinear_arith)
            requires
                c + 1 <= core_count,
                0 <= per,
        ;
        assert(c * per + per == (c + 1) * per) by (nonlinear_arith);
        assert(c * per <= (core_count - 1) * per) by (nonlinear_arith)
            requires
                c <= core_count - 1,
                0 <= per,
        ;
        assert((core_count - 1) * per + per == core_count * per) by (nonlinear_arith);
    }
}

/// Every task goes to exactly one core: each position of the list lies in
/// the share of one core and in no other.
pub proof fn lemma_each_task_has_one_core(total: int, core_count: int, k: int)
    requires
        core_count > 0,
        0 <= k < total,
    ensures
        exists|c: int|
            0 <= c < core_count && share_start(c, total, core_count) <= k < #[trigger] share_end(
                c,
                total,
                core_count,
            ),
        forall|c: int, d: int|
            #![trigger share_end(c, total, core_count), share_end(d, total, core_count)]
            0 <= c < core_count && 0 <= d < core_count && share_start(c, total, core_count) <= k
                < share_end(c, total, core_count) && share_start(d, total, core_count) <= k
                < share_end(d, total, core_count) ==> c == d,
{
    lemma_shares_tile(total, core_count);
    lemma_covered_up_to(total, core_count, k, core_count - 1);
    assert forall|c: int, d: int|
        #![trigger share_end(c, total, core_count), share_end(d, total, core_count)]
        0 <= c < core_count && 0 <= d < core_count && share_start(c, total, core_count) <= k
            < share_end(c, total, core_count) && share_start(d, total, core_count) <= k < share_end(
            d,
            total,
            core_count,
        ) implies c == d by {
        if c < d {
            lemma_share_ends_ordered(total, core_count, c, d - 1);
        } else if d < c {
            lemma_share_ends_ordered(total, core_count, d, c - 1);
        }
    }
}

proof fn lemma_share_ends_ordered(total: int, core_count: int, c: int, d: int)
    requires
        total >= 0,
        core_count > 0,
        0 <= c <= d < core_count - 1,
    ensures
        share_end(c, total, core_count) <= share_start(d + 1, total, core_count),
    decreases d - c,
{
    lemma_shares_tile(total, core_count);
    if c < d {
        lemma_share_ends_ordered(total, core_count, c, d - 1);
        assert(share_end(d, total, core_count) == share_start(d + 1, total, core_count));
    } else {
        assert(share_end(c, total, core_count) == share_start(c + 1, total, core_count));
    }
}

proof fn lemma_covered_up_to(total: int, core_count: int, k: int, c: int)
    requires
        core_count > 0,
        0 <= k < total,
        0 <= c < core_count,
        k < share_end(c, total, core_count),
    ensures
        exists|d: int|
            0 <= d <= c && share_start(d, total, core_count) <= k < #[trigger] share_end(
                d,
                total,
                core_count,
            ),
    decreases c,
{
    lemma_shares_tile(total, core_count);
    if share_start(c, total, core_count) <= k {
        assert(share_end(c, total, core_count) > k);
    } else {
        assert(c > 0);
        assert(share_end(c - 1, total, core_count) == share_start(c, total, core_count));
        lemma_covered_up_to(total, core_count, k, c - 1);
    }
}

proof fn lemma_joined_prefix(tasks: Seq<Task>, core_count: int, n: nat)
    requires
        core_count > 0,
        1 <= n <= core_count,
    ensures
        joined_shares(tasks, core_count, n) == tasks.subrange(
            0,
            share_end(n - 1, tasks.len() as int, core_count),
        ),
    decreases n,
{
    let total = tasks.len() as int;
    lemma_shares_tile(total, core_count);
    let c = n - 1;
    assert(0 <= share_start(c, total, core_count) <= share_end(c, total, core_count) <= total);
    if n == 1 {
        assert(joined_shares(tasks, core_count, 0) == Seq::<Task>::empty());
        assert(joined_shares(tasks, core_count, n) =~= tasks.subrange(0, share_end(c, total, core_count)));
    } else {
        lemma_joined_prefix(tasks, core_count, (n - 1) as nat);
        assert(share_end(c - 1, total, core_count) == share_start(c, total, core_count));
        assert(joined_shares(tasks, core_count, n) =~= tasks.subrange(0, share_end(c, total, core_count)));
    }
}

/// No task is lost or repeated: the shares of all cores, joined in core
/// order, are the task list itself.
pub proof fn lemma_shares_join_to_list(tasks: Seq<Task>, core_count: int)
    requires
        core_count > 0,
    ensures
        joined_shares(tasks, core_count, core_count as nat) == tasks,
{
    lemma_joined_prefix(tasks, core_count, core_count as nat);
    lemma_shares_tile(tasks.len() as int, core_count);
    assert(tasks.subrange(0, tasks.len() as int) =~= tasks);
}

} // verus!
