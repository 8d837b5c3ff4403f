use vstd::prelude::*;
use crate::task::{Task, follows_in_task_order};

verus! {

broadcast use vstd::seq_lib::group_to_multiset_ensures;

/// The keys by which the schedulers order a run queue.
#[derive(Clone, Copy, Debug, PartialEq, Eq, Structural)]
pub enum TaskKey {
    /// Earlier deadline first.
    Deadline,
    /// The partitioned scheduler's comparison: `a` is placed after `b`
    /// when `b`'s static priority exceeds `a`'s dynamic priority.
    PartitionPriority,
    /// The order of tasks: higher dynamic priority first, then earlier
    /// deadline.
    TaskOrder,
    /// Least executed time first.
    ExecutedTime,
}

/// Whether a stable sort by `key` places `a` after `b`.
pub open spec fn goes_after(key: TaskKey, a: Task, b: Task) -> bool {
    match key {
        TaskKey::Deadline => a.deadline > b.deadline,
        TaskKey::PartitionPriority => b.priority > a.dynamic_priority,
        TaskKey::TaskOrder => follows_in_task_order(a, b),
        TaskKey::ExecutedTime => a.executed_time > b.executed_time,
    }
}

/// Inserts `x` into `s` behind every element that does not go after it,
/// scanning from the back: the step of a stable insertion sort.
pub open spec fn insert_by(key: TaskKey, s: Seq<Task>, x: Task) -> Seq<Task>
    decreases s.len(),
{
    if s.len() == 0 || !goes_after(key, s.last(), x) {
        s.push(x)
    } else {
        insert_by(key, s.drop_last(), x).push(s.last())
    }
}

/// The stable sort of `s` by `key`.
pub open spec fn sort_by(key: TaskKey, s: Seq<Task>) -> Seq<Task>
    decreases s.len(),
{
    if s.len() == 0 {
        s
    } else {
        insert_by(key, sort_by(key, s.drop_last()), s.last())
    }
}

/// `s` is ordered by `key`: no element goes after a later one.
pub open spec fn is_sorted_by(key: TaskKey, s: Seq<Task>) -> bool {
    forall|i: int, j: int| 0 <= i < j < s.len() ==> !goes_after(key, #[trigger] s[i], #[trigger] s[j])
}

/// A key whose comparison is a total preorder, so that its stable sort is
/// the one ordered permutation that keeps equal elements in place.
pub open spec fn is_total_key(key: TaskKey) -> bool {
    key != TaskKey::PartitionPriority
}

/// Whether `a` goes after `b` when sorting by `key`.
pub fn task_goes_after(key: TaskKey, a: &Task, b: &Task) -> (r: bool)
    ensures
        r == goes_after(key, *a, *b),
{
    match key {
        TaskKey::Deadline => a.deadline > b.deadline,
        TaskKey::PartitionPriority => (b.priority as u32) > a.dynamic_priority,
        TaskKey::TaskOrder => a.dynamic_priority < b.dynamic_priority || (a.dynamic_priority
            == b.dynamic_priority && a.deadline > b.deadline),
        TaskKey::ExecutedTime => a.executed_time > b.executed_time,
    }
}

proof fn lemma_insert_by_at(key: TaskKey, s: Seq<Task>, x: Task, j: int)
    requires
        0 <= j <= s.len(),
        forall|k: int| j <= k < s.len() ==> goes_after(key, #[trigger] s[k], x),
        j == 0 || !goes_after(key, s[j - 1], x),
    ensures
        insert_by(key, s, x) == s.take(j).push(x) + s.skip(j),
    decreases s.len(),
{
    if j == s.len() {
        assert(s.take(j) == s);
        assert(s.skip(j) =~= Seq::<Task>::empty());
        assert(s.take(j).push(x) + s.skip(j) =~= s.push(x));
    } else {
        let d = s.drop_last();
        assert(goes_after(key, s[s.len() - 1], x));
        assert forall|k: int| j <= k < d.len() implies goes_after(key, #[trigger] d[k], x) by {
            assert(d[k] == s[k]);
        }
        lemma_insert_by_at(key, d, x, j);
        assert(d.take(j) =~= s.take(j));
        assert(d.skip(j).push(s.last()) =~= s.skip(j));
        assert((d.take(j).push(x) + d.skip(j)).push(s.last()) =~= s.take(j).push(x) + s.skip(j));
    }
}

/// Sorts `tasks` stably by `key`, in place.
pub fn sort_tasks(key: TaskKey, tasks: &mut Vec<Task>)
    ensures
        final(tasks)@ == sort_by(key, old(tasks)@),
{
    let ghost orig = tasks@;
    let n = tasks.len();
    let mut i: usize = 0;
    while i < n
        invariant
            n == tasks.len(),
            n == orig.len(),
            i <= n,
            tasks@.take(i as int) == sort_by(key, orig.take(i as int)),
            tasks@.skip(i as int) == orig.skip(i as int),
        decreases n - i,
    {
        let ghost prefix = tasks@.take(i as int);
        let ghost before = tasks@;
        assert(before =~= prefix + orig.skip(i as int));
        assert(tasks@[i as int] == tasks@.skip(i as int)[0]);
        let x = tasks.remove(i);
        assert(x == orig[i as int]);
        assert(before.remove(i as int) =~= prefix + orig.skip(i as int + 1));
        let mut j: usize = i;
        while j > 0 && task_goes_after(key, &tasks[j - 1], &x)
            invariant
                j <= i,
                i < n,
                tasks.len() == n - 1,
                tasks@ == prefix + orig.skip(i as int + 1),
                prefix.len() == i,
                forall|k: int| j <= k < i ==> goes_after(key, #[trigger] prefix[k], x),
            decreases j,
        {
            j = j - 1;
        }
        proof {
            lemma_insert_by_at(key, prefix, x, j as int);
            assert(orig.take(i as int + 1).drop_last() =~= orig.take(i as int));
            assert(orig.take(i as int + 1).last() == x);
        }
        tasks.insert(j, x);
        assert(tasks@ =~= (prefix.take(j as int).push(x) + prefix.skip(j as int)) + orig.skip(
            i as int + 1,
        ));
        assert(tasks@.take(i as int + 1) =~= prefix.take(j as int).push(x) + prefix.skip(j as int));
        assert(tasks@.skip(i as int + 1) =~= orig.skip(i as int + 1));
        i = i + 1;
    }
    assert(tasks@ =~= tasks@.take(n as int));
    assert(orig =~= orig.take(n as int));
}


proof fn lemma_insert_by_len_and_multiset(key: TaskKey, s: Seq<Task>, x: Task)
    ensures
        insert_by(key, s, x).len() == s.len() + 1,
        insert_by(key, s, x).to_multiset() == s.to_multiset().insert(x),
    decreases s.len(),
{
    if s.len() == 0 || !goes_after(key, s.last(), x) {
    } else {
        let d = s.drop_last();
        lemma_insert_by_len_and_multiset(key, d, x);
        assert(d.push(s.last()) =~= s);
        assert(insert_by(key, s, x).to_multiset() =~= s.to_multiset().insert(x));
    }
}

proof fn lemma_insert_by_all(key: TaskKey, s: Seq<Task>, x: Task, p: spec_fn(Task) -> bool)
    requires
        forall|k: int| 0 <= k < s.len() ==> p(#[trigger] s[k]),
        p(x),
    ensures
        forall|k: int| 0 <= k < insert_by(key, s, x).len() ==> p(#[trigger] insert_by(key, s, x)[k]),
    decreases s.len(),
{
    lemma_insert_by_len_and_multiset(key, s, x);
    if s.len() == 0 || !goes_after(key, s.last(), x) {
    } else {
        let d = s.drop_last();
        lemma_insert_by_all(key, d, x, p);
        lemma_insert_by_len_and_multiset(key, d, x);
        assert(p(s[s.len() - 1]));
    }
}

proof fn lemma_total_key(key: TaskKey, a: Task, b: Task, c: Task)
    requires
        is_total_key(key),
    ensures
        goes_after(key, a, b) ==> !goes_after(key, b, a),
        !goes_after(key, a, b) && !goes_after(key, b, c) ==> !goes_after(key, a, c),
{
}

proof fn lemma_insert_by_sorted(key: TaskKey, s: Seq<Task>, x: Task)
    requires
        is_total_key(key),
        is_sorted_by(key, s),
    ensures
        is_sorted_by(key, insert_by(key, s, x)),
    decreases s.len(),
{
    lemma_insert_by_len_and_multiset(key, s, x);
    let r = insert_by(key, s, x);
    if s.len() == 0 {
    } else if !goes_after(key, s.last(), x) {
        assert forall|i: int, j: int| 0 <= i < j < r.len() implies !goes_after(
            key,
            #[trigger] r[i],
            #[trigger] r[j],
        ) by {
            if j == s.len() {
                lemma_total_key(key, s[i], s.last(), x);
            }
        }
    } else {
        let d = s.drop_last();
        let last = s.last();
        lemma_insert_by_sorted(key, d, x);
        lemma_insert_by_len_and_multiset(key, d, x);
        lemma_total_key(key, last, x, x);
        let p = |t: Task| !goes_after(key, t, last);
        lemma_insert_by_all(key, d, x, p);
        let inner = insert_by(key, d, x);
        assert forall|i: int, j: int| 0 <= i < j < r.len() implies !goes_after(
            key,
            #[trigger] r[i],
            #[trigger] r[j],
        ) by {
            if j == r.len() - 1 {
                assert(r[i] == inner[i]);
                assert(p(inner[i]));
            } else {
                assert(r[i] == inner[i]);
                assert(r[j] == inner[j]);
            }
        }
    }
}

/// Sorting rearranges: the stable sort of `s` holds exactly the tasks of `s`.
pub proof fn lemma_sort_is_permutation(key: TaskKey, s: Seq<Task>)
    ensures
        sort_by(key, s).len() == s.len(),
        sort_by(key, s).to_multiset() == s.to_multiset(),
    decreases s.len(),
{
    if s.len() > 0 {
        let d = s.drop_last();
        lemma_sort_is_permutation(key, d);
        lemma_insert_by_len_and_multiset(key, sort_by(key, d), s.last());
        assert(d.push(s.last()) =~= s);
    }
}

/// For a key that totally preorders tasks, the stable sort is ordered.
pub proof fn lemma_sort_is_sorted(key: TaskKey, s: Seq<Task>)
    requires
        is_total_key(key),
    ensures
        is_sorted_by(key, sort_by(key, s)),
    decreases s.len(),
{
    if s.len() > 0 {
        lemma_sort_is_sorted(key, s.drop_last());
        lemma_insert_by_sorted(key, sort_by(key, s.drop_last()), s.last());
    }
}

/// Sorting a sequence that is already ordered leaves it unchanged.
pub proof fn lemma_sort_of_sorted(key: TaskKey, s: Seq<Task>)
    requires
        is_sorted_by(key, s),
    ensures
        sort_by(key, s) == s,
    decreases s.len(),
{
    if s.len() > 0 {
        let d = s.drop_last();
        assert(is_sorted_by(key, d)) by {
            assert forall|i: int, j: int| 0 <= i < j < d.len() implies !goes_after(
                key,
                #[trigger] d[i],
                #[trigger] d[j],
            ) by {
                assert(d[i] == s[i] && d[j] == s[j]);
            }
        }
        lemma_sort_of_sorted(key, d);
        if d.len() > 0 {
            assert(d.last() == s[s.len() - 2]);
        }
        assert(d.push(s.last()) =~= s);
    }
}

/// For a key that totally preorders tasks, the first task of the stable
/// sort goes after no task of the input.
pub proof fn lemma_sort_first_is_least(key: TaskKey, s: Seq<Task>)
    requires
        is_total_key(key),
        s.len() > 0,
    ensures
        forall|k: int| 0 <= k < s.len() ==> !goes_after(key, sort_by(key, s)[0], #[trigger] s[k]),
{
    let sorted = sort_by(key, s);
    lemma_sort_is_permutation(key, s);
    lemma_sort_is_sorted(key, s);
    assert forall|k: int| 0 <= k < s.len() implies !goes_after(key, sorted[0], #[trigger] s[k]) by {
        assert(s.to_multiset().count(s[k]) > 0);
        assert(sorted.contains(s[k]));
        let j = choose|j: int| 0 <= j < sorted.len() && sorted[j] == s[k];
        if j > 0 {
            assert(!goes_after(key, sorted[0], sorted[j]));
        }
    }
}

/// `m` is the position of the first task of `s` that goes after no task of
/// `s`: every earlier task goes after it.
pub open spec fn is_first_least_at(key: TaskKey, s: Seq<Task>, m: int) -> bool {
    &&& 0 <= m < s.len()
    &&& forall|k: int| 0 <= k < s.len() ==> !goes_after(key, s[m], #[trigger] s[k])
    &&& forall|k: int| 0 <= k < m ==> goes_after(key, #[trigger] s[k], s[m])
}

proof fn lemma_insert_by_behind_front(key: TaskKey, a: Task, r: Seq<Task>, x: Task)
    requires
        !goes_after(key, a, x),
    ensures
        insert_by(key, seq![a] + r, x) == seq![a] + insert_by(key, r, x),
    decreases r.len(),
{
    let ar = seq![a] + r;
    if r.len() == 0 {
        assert(ar =~= seq![a]);
        assert(ar.last() == a);
        assert(ar.push(x) =~= seq![a] + r.push(x));
    } else {
        assert(ar.last() == r.last());
        if !goes_after(key, r.last(), x) {
            assert(ar.push(x) =~= seq![a] + r.push(x));
        } else {
            assert(ar.drop_last() =~= seq![a] + r.drop_last());
            lemma_insert_by_behind_front(key, a, r.drop_last(), x);
            assert((seq![a] + insert_by(key, r.drop_last(), x)).push(r.last()) =~= seq![a]
                + insert_by(key, r.drop_last(), x).push(r.last()));
        }
    }
}

/// Taking out the first least task and sorting the rest gives the stable
/// sort without its front: for a total key, the stable sort starts with the
/// first least task.
pub proof fn lemma_sort_takes_first_least(key: TaskKey, s: Seq<Task>, m: int)
    requires
        is_total_key(key),
        is_first_least_at(key, s, m),
    ensures
        sort_by(key, s) == seq![s[m]] + sort_by(key, s.remove(m)),
    decreases s.len(),
{
    let n = s.len() as int;
    let d = s.drop_last();
    let x = s.last();
    if m == n - 1 {
        let sd = sort_by(key, d);
        lemma_sort_is_permutation(key, d);
        assert forall|k: int| 0 <= k < sd.len() implies goes_after(key, #[trigger] sd[k], x) by {
            assert(sd.to_multiset().count(sd[k]) > 0);
            assert(d.contains(sd[k]));
            let j = choose|j: int| 0 <= j < d.len() && d[j] == sd[k];
            assert(s[j] == d[j]);
        }
        lemma_insert_by_at(key, sd, x, 0);
        assert(sd.take(0).push(x) + sd.skip(0) =~= seq![x] + sd);
        assert(s.remove(m) =~= d);
    } else {
        assert(is_first_least_at(key, d, m)) by {
            assert forall|k: int| 0 <= k < d.len() implies !goes_after(key, d[m], #[trigger] d[k]) by {
                assert(s[k] == d[k]);
            }
            assert forall|k: int| 0 <= k < m implies goes_after(key, #[trigger] d[k], d[m]) by {
                assert(s[k] == d[k]);
            }
        }
        lemma_sort_takes_first_least(key, d, m);
        assert(!goes_after(key, s[m], s[n - 1]));
        lemma_insert_by_behind_front(key, d[m], sort_by(key, d.remove(m)), x);
        let t = d.remove(m).push(x);
        assert(t.drop_last() =~= d.remove(m));
        assert(s.remove(m) =~= t);
    }
}

/// Neither of `a` and `b` goes after the other: the sort treats them as
/// equal.
pub open spec fn ties(key: TaskKey, a: Task, b: Task) -> bool {
    !goes_after(key, a, b) && !goes_after(key, b, a)
}

proof fn lemma_filter_push(r: Seq<Task>, y: Task, p: spec_fn(Task) -> bool)
    ensures
        r.push(y).filter(p) == if p(y) {
            r.filter(p).push(y)
        } else {
            r.filter(p)
        },
{
    reveal(Seq::filter);
    assert(r.push(y).drop_last() =~= r);
}

proof fn lemma_insert_by_stable(key: TaskKey, r: Seq<Task>, y: Task, x: Task)
    requires
        is_total_key(key),
    ensures
        insert_by(key, r, y).filter(|t: Task| ties(key, t, x)) == r.push(y).filter(
            |t: Task| ties(key, t, x),
        ),
    decreases r.len(),
{
    let p = |t: Task| ties(key, t, x);
    if r.len() == 0 || !goes_after(key, r.last(), y) {
    } else {
        let d = r.drop_last();
        let a = r.last();
        lemma_insert_by_stable(key, d, y, x);
        lemma_filter_push(insert_by(key, d, y), a, p);
        lemma_filter_push(d, y, p);
        lemma_filter_push(d.push(y), a, p);
        lemma_filter_push(d, a, p);
        lemma_filter_push(r, y, p);
        assert(d.push(a) =~= r);
        lemma_total_key(key, a, y, x);
        lemma_total_key(key, y, x, a);
        lemma_total_key(key, a, x, y);
        lemma_total_key(key, x, a, y);
        assert(!(p(y) && p(a)));
    }
}

/// The sort is stable: for a key that totally preorders tasks, the tasks
/// that tie with any task `x` come out in the order they went in.
pub proof fn lemma_sort_is_stable(key: TaskKey, s: Seq<Task>, x: Task)
    requires
        is_total_key(key),
    ensures
        sort_by(key, s).filter(|t: Task| ties(key, t, x)) == s.filter(|t: Task| ties(key, t, x)),
    decreases s.len(),
{
    let p = |t: Task| ties(key, t, x);
    if s.len() > 0 {
        let d = s.drop_last();
        lemma_sort_is_stable(key, d, x);
        lemma_insert_by_stable(key, sort_by(key, d), s.last(), x);
        lemma_filter_push(sort_by(key, d), s.last(), p);
        lemma_filter_push(d, s.last(), p);
        assert(d.push(s.last()) =~= s);
    }
}

/// What each key compares, field by field.
pub proof fn lemma_goes_after_by_fields(key: TaskKey, a: Task, b: Task)
    ensures
        key == TaskKey::Deadline ==> (goes_after(key, a, b) <==> a.deadline > b.deadline),
        key == TaskKey::PartitionPriority ==> (goes_after(key, a, b) <==> b.priority as int
            > a.dynamic_priority as int),
        key == TaskKey::TaskOrder ==> (goes_after(key, a, b) <==> (a.dynamic_priority
            < b.dynamic_priority || (a.dynamic_priority == b.dynamic_priority && a.deadline
            > b.deadline))),
        key == TaskKey::ExecutedTime ==> (goes_after(key, a, b) <==> a.executed_time
            > b.executed_time),
{
}

/// For a key that totally preorders tasks, no task of the input goes after
/// the last task of the stable sort, which is itself a task of the input.
pub proof fn lemma_sort_last_is_greatest(key: TaskKey, s: Seq<Task>)
    requires
        is_total_key(key),
        s.len() > 0,
    ensures
        sort_by(key, s).len() == s.len(),
        s.contains(sort_by(key, s).last()),
        forall|k: int| 0 <= k < s.len() ==> !goes_after(key, #[trigger] s[k], sort_by(key, s).last()),
{
    let sorted = sort_by(key, s);
    lemma_sort_is_permutation(key, s);
    lemma_sort_is_sorted(key, s);
    let n = sorted.len() as int;
    assert(sorted.to_multiset().count(sorted[n - 1]) > 0);
    assert forall|k: int| 0 <= k < s.len() implies !goes_after(key, #[trigger] s[k], sorted.last()) by {
        assert(s.to_multiset().count(s[k]) > 0);
        assert(sorted.contains(s[k]));
        let j = choose|j: int| 0 <= j < sorted.len() && sorted[j] == s[k];
        if j < n - 1 {
            assert(!goes_after(key, sorted[j], sorted[n - 1]));
        } else {
            lemma_total_key(key, s[k], s[k], s[k]);
        }
    }
}

} // verus!
