//! The task collection: an ordered list of tasks and the three operations that change it.

use crate::task::{views, Task, TaskView};
use vstd::prelude::*;

verus! {

/// The largest id in `tasks`, and zero where there is none.
pub open spec fn max_id(tasks: Seq<TaskView>) -> nat
    decreases tasks.len(),
{
    if tasks.len() == 0 {
        0
    } else {
        let m = max_id(tasks.drop_last());
        if tasks.last().id > m {
            tasks.last().id
        } else {
            m
        }
    }
}

/// Whether some task of `tasks` has the id `id`.
pub open spec fn has_id(tasks: Seq<TaskView>, id: nat) -> bool {
    exists|i: int| 0 <= i < tasks.len() && (#[trigger] tasks[i]).id == id
}

/// Whether no two tasks of `tasks` share an id.
pub open spec fn unique_ids(tasks: Seq<TaskView>) -> bool {
    forall|i: int, j: int|
        0 <= i < j < tasks.len() ==> (#[trigger] tasks[i]).id != (#[trigger] tasks[j]).id
}

/// The collection after a task with the text `text` was added: the new task stands last, is
/// open, and has the id after the largest one in use.
pub open spec fn added(tasks: Seq<TaskView>, text: Seq<char>) -> Seq<TaskView> {
    tasks.push(TaskView { id: max_id(tasks) + 1, text, done: false })
}

/// The index of the first task with the id `id`, or the length of `tasks` where none has it.
pub open spec fn index_of_id(tasks: Seq<TaskView>, id: nat) -> int
    decreases tasks.len(),
{
    if tasks.len() == 0 || tasks[0].id == id {
        0
    } else {
        1 + index_of_id(tasks.drop_first(), id)
    }
}

/// The collection after the first task with the id `id` was completed; unchanged where no task
/// has that id.
pub open spec fn marked(tasks: Seq<TaskView>, id: nat) -> Seq<TaskView> {
    let i = index_of_id(tasks, id);
    if i < tasks.len() {
        tasks.update(i, TaskView { done: true, ..tasks[i] })
    } else {
        tasks
    }
}

/// The collection without the tasks that have the id `id`, the others in their order.
pub open spec fn removed(tasks: Seq<TaskView>, id: nat) -> Seq<TaskView> {
    tasks.filter(|t: TaskView| t.id != id)
}

/// No id in a collection is larger than its largest.
pub proof fn lemma_max_id_bounds(tasks: Seq<TaskView>)
    ensures
        forall|i: int| 0 <= i < tasks.len() ==> (#[trigger] tasks[i]).id <= max_id(tasks),
        tasks.len() > 0 ==> has_id(tasks, max_id(tasks)),
    decreases tasks.len(),
{
    if tasks.len() > 0 {
        let front = tasks.drop_last();
        lemma_max_id_bounds(front);
        assert forall|i: int| 0 <= i < tasks.len() implies (#[trigger] tasks[i]).id <= max_id(
            tasks,
        ) by {
            if i < front.len() {
                assert(tasks[i] == front[i]);
            }
        }
        if tasks.last().id > max_id(front) || front.len() == 0 {
            assert(tasks[tasks.len() - 1].id == max_id(tasks));
        } else {
            let k = choose|k: int| 0 <= k < front.len() && (#[trigger] front[k]).id == max_id(front);
            assert(tasks[k].id == max_id(tasks));
        }
    }
}

/// `index_of_id` finds the first task with the id.
pub proof fn lemma_index_of_id(tasks: Seq<TaskView>, id: nat)
    ensures
        0 <= index_of_id(tasks, id) <= tasks.len(),
        forall|k: int| 0 <= k < index_of_id(tasks, id) ==> (#[trigger] tasks[k]).id != id,
        index_of_id(tasks, id) < tasks.len() ==> tasks[index_of_id(tasks, id)].id == id,
        index_of_id(tasks, id) < tasks.len() <==> has_id(tasks, id),
    decreases tasks.len(),
{
    if tasks.len() == 0 {
    } else if tasks[0].id == id {
    } else {
        let rest = tasks.drop_first();
        lemma_index_of_id(rest, id);
        let i = index_of_id(tasks, id);
        assert forall|k: int| 0 <= k < i implies (#[trigger] tasks[k]).id != id by {
            if k > 0 {
                assert(tasks[k] == rest[k - 1]);
            }
        }
        if i < tasks.len() {
            assert(tasks[i] == rest[i - 1]);
        }
        if has_id(tasks, id) {
            let k = choose|k: int| 0 <= k < tasks.len() && (#[trigger] tasks[k]).id == id;
            assert(rest[k - 1].id == id);
        }
    }
}

/// The largest id in `tasks`, and zero where there is none.
pub fn largest_id(tasks: &[Task]) -> (m: u64)
    ensures
        m == max_id(views(tasks@)),
{
    let mut m: u64 = 0;
    let mut i: usize = 0;
    while i < tasks.len()
        invariant
            0 <= i <= tasks.len(),
            m == max_id(views(tasks@.subrange(0, i as int))),
        decreases tasks.len() - i,
    {
        assert(views(tasks@.subrange(0, i + 1)).drop_last() =~= views(
            tasks@.subrange(0, i as int),
        ));
        if tasks[i].id > m {
            m = tasks[i].id;
        }
        i += 1;
    }
    assert(tasks@.subrange(0, tasks.len() as int) =~= tasks@);
    m
}

/// Adds a task with the text `text` and returns a copy of it. The largest id in use must leave
/// room for one more.
pub fn add_task(tasks: &mut Vec<Task>, text: String) -> (task: Task)
    requires
        max_id(views(old(tasks)@)) < u64::MAX,
    ensures
        task@ == (TaskView { id: max_id(views(old(tasks)@)) + 1, text: text@, done: false }),
        views(final(tasks)@) == added(views(old(tasks)@), text@),
        final(tasks)@.len() == old(tasks)@.len() + 1,
        final(tasks)@.subrange(0, old(tasks)@.len() as int) == old(tasks)@,
        unique_ids(views(old(tasks)@)) ==> unique_ids(views(final(tasks)@)),
{
    let next_id: u64 = largest_id(tasks.as_slice()) + 1;
    let copy = text.clone();
    let task = Task { id: next_id, text, done: false };
    tasks.push(Task { id: next_id, text: copy, done: false });
    proof {
        assert(views(tasks@) =~= added(views(old(tasks)@), text@));
        assert(tasks@.subrange(0, old(tasks)@.len() as int) =~= old(tasks)@);
        if unique_ids(views(old(tasks)@)) {
            lemma_added_keeps_unique(views(old(tasks)@), text@);
        }
    }
    task
}

/// Adding a task to a collection without shared ids gives one without shared ids.
pub proof fn lemma_added_keeps_unique(tasks: Seq<TaskView>, text: Seq<char>)
    requires
        unique_ids(tasks),
    ensures
        unique_ids(added(tasks, text)),
{
    lemma_max_id_bounds(tasks);
    let after = added(tasks, text);
    assert forall|i: int, j: int| 0 <= i < j < after.len() implies (#[trigger] after[i]).id != (
    #[trigger] after[j]).id by {
        assert(after[i] == tasks[i]);
        if j < tasks.len() {
            assert(after[j] == tasks[j]);
        }
    }
}

/// Completing a task changes no id, so a collection without shared ids stays one.
pub proof fn lemma_marked_keeps_ids(tasks: Seq<TaskView>, id: nat)
    ensures
        marked(tasks, id).len() == tasks.len(),
        forall|k: int| 0 <= k < tasks.len() ==> (#[trigger] marked(tasks, id)[k]).id == tasks[k].id,
        unique_ids(tasks) ==> unique_ids(marked(tasks, id)),
{
    lemma_index_of_id(tasks, id);
    let after = marked(tasks, id);
    assert forall|k: int| 0 <= k < tasks.len() implies (#[trigger] after[k]).id == tasks[k].id by {}
    if unique_ids(tasks) {
        assert forall|i: int, j: int| 0 <= i < j < after.len() implies (#[trigger] after[i]).id != (
        #[trigger] after[j]).id by {
            assert(after[i].id == tasks[i].id);
            assert(after[j].id == tasks[j].id);
        }
    }
}

/// What is left after a removal was there before, so a collection without shared ids stays
/// one, and the removed id is gone.
pub proof fn lemma_removed_keeps_unique(tasks: Seq<TaskView>, id: nat)
    requires
        unique_ids(tasks),
    ensures
        unique_ids(removed(tasks, id)),
        !has_id(removed(tasks, id), id),
    decreases tasks.len(),
{
    reveal(Seq::filter);
    let keep = |t: TaskView| t.id != id;
    if tasks.len() > 0 {
        let front = tasks.drop_last();
        let last = tasks.last();
        assert forall|i: int, j: int| 0 <= i < j < front.len() implies (#[trigger] front[i]).id != (
        #[trigger] front[j]).id by {
            assert(front[i] == tasks[i] && front[j] == tasks[j]);
        }
        lemma_removed_keeps_unique(front, id);
        let kept = removed(front, id);
        let after = removed(tasks, id);
        if keep(last) {
            assert(after =~= kept.push(last));
            assert forall|i: int, j: int| 0 <= i < j < after.len() implies (#[trigger] after[i]).id
                != (#[trigger] after[j]).id by {
                if j < kept.len() {
                    assert(after[i] == kept[i] && after[j] == kept[j]);
                } else {
                    assert(after[i] == kept[i]);
                    front.lemma_filter_contains_rev(keep, kept[i]);
                    let k = choose|k: int| 0 <= k < front.len() && front[k] == kept[i];
                    assert(tasks[k] == kept[i]);
                    assert(tasks[tasks.len() - 1] == last);
                }
            }
            assert forall|i: int| 0 <= i < after.len() implies (#[trigger] after[i]).id != id by {
                if i < kept.len() {
                    assert(after[i] == kept[i]);
                }
            }
        } else {
            assert(after =~= kept);
        }
    }
}

/// Completes the first task with the id `id`. The result says whether there is one; where
/// there is none, nothing changes. A task that was completed already stays so.
pub fn mark_done(tasks: &mut [Task], id: u64) -> (found: bool)
    ensures
        found <==> has_id(views(old(tasks)@), id as nat),
        views(final(tasks)@) == marked(views(old(tasks)@), id as nat),
        !found ==> final(tasks)@ == old(tasks)@,
        unique_ids(views(old(tasks)@)) ==> unique_ids(views(final(tasks)@)),
{
    proof {
        lemma_marked_keeps_ids(views(old(tasks)@), id as nat);
    }
    let mut i: usize = 0;
    while i < tasks.len()
        invariant
            0 <= i <= tasks.len(),
            tasks@ == old(tasks)@,
            forall|k: int| 0 <= k < i ==> (#[trigger] views(tasks@)[k]).id != id,
        decreases tasks.len() - i,
    {
        if tasks[i].id == id {
            tasks[i].done = true;
            proof {
                lemma_index_of_id(views(old(tasks)@), id as nat);
                assert(views(old(tasks)@)[i as int].id == id);
                assert(views(tasks@) =~= marked(views(old(tasks)@), id as nat));
            }
            return true;
        }
        i += 1;
    }
    proof {
        lemma_index_of_id(views(old(tasks)@), id as nat);
        assert forall|k: int| 0 <= k < tasks.len() implies (#[trigger] views(old(tasks)@)[k]).id
            != id by {}
    }
    false
}

/// Removing an id that no task has changes nothing.
pub proof fn lemma_removed_absent(tasks: Seq<TaskView>, id: nat)
    requires
        !has_id(tasks, id),
    ensures
        removed(tasks, id) == tasks,
    decreases tasks.len(),
{
    reveal(Seq::filter);
    if tasks.len() > 0 {
        let front = tasks.drop_last();
        assert forall|i: int| 0 <= i < front.len() implies (#[trigger] front[i]).id != id by {
            assert(tasks[i].id != id);
        }
        lemma_removed_absent(front, id);
        assert(tasks[tasks.len() - 1].id != id);
        assert(front.push(tasks.last()) =~= tasks);
    }
}

/// Removes every task with the id `id`, the others keeping their order. The result says
/// whether any was removed; where none has the id, nothing changes.
pub fn remove_task(tasks: &mut Vec<Task>, id: u64) -> (found: bool)
    ensures
        found <==> has_id(views(old(tasks)@), id as nat),
        final(tasks)@ == old(tasks)@.filter(|t: Task| t.id != id),
        views(final(tasks)@) == removed(views(old(tasks)@), id as nat),
        !found ==> final(tasks)@ == old(tasks)@,
        unique_ids(views(old(tasks)@)) ==> unique_ids(views(final(tasks)@)),
{
    proof {
        if unique_ids(views(old(tasks)@)) {
            lemma_removed_keeps_unique(views(old(tasks)@), id as nat);
        }
    }
    let ghost orig = tasks@;
    let ghost keep = |t: Task| t.id != id;
    let ghost keep_view = |t: TaskView| t.id != id as nat;
    let before: usize = tasks.len();
    let mut i: usize = 0;
    let ghost mut k: int = 0;
    proof {
        reveal(Seq::filter);
        assert(orig.subrange(0, 0).filter(keep) =~= tasks@.subrange(0, 0));
        assert(tasks@.subrange(0, tasks.len() as int) =~= orig.subrange(0, orig.len() as int));
    }
    while i < tasks.len()
        invariant
            0 <= i <= tasks.len(),
            i <= k <= orig.len(),
            before == orig.len(),
            keep == |t: Task| t.id != id,
            tasks.len() - i == orig.len() - k,
            tasks@.subrange(0, i as int) == orig.subrange(0, k).filter(keep),
            tasks@.subrange(i as int, tasks.len() as int) == orig.subrange(k, orig.len() as int),
            i == k <==> forall|j: int| 0 <= j < k ==> (#[trigger] orig[j]).id != id,
            i == k ==> tasks@ == orig,
        decreases tasks.len() - i,
    {
        let ghost now = tasks@;
        proof {
            assert(now[i as int] == now.subrange(i as int, now.len() as int)[0]);
            assert(now[i as int] == orig[k]);
            assert(orig.subrange(0, k + 1) =~= orig.subrange(0, k).push(orig[k]));
            orig.subrange(0, k).lemma_filter_push(orig[k], keep);
        }
        if tasks[i].id == id {
            tasks.remove(i);
            proof {
                assert(tasks@.subrange(0, i as int) =~= now.subrange(0, i as int));
                assert(tasks@.subrange(i as int, tasks.len() as int) =~= now.subrange(
                    i as int,
                    now.len() as int,
                ).subrange(1, now.len() - i));
                assert(orig.subrange(k + 1, orig.len() as int) =~= orig.subrange(
                    k,
                    orig.len() as int,
                ).subrange(1, orig.len() - k));
            }
        } else {
            i += 1;
            proof {
                assert(tasks@.subrange(0, i as int) =~= now.subrange(0, i - 1).push(
                    now[i - 1],
                ));
                assert(tasks@.subrange(i as int, tasks.len() as int) =~= now.subrange(
                    i - 1,
                    now.len() as int,
                ).subrange(1, now.len() - (i - 1)));
                assert(orig.subrange(k + 1, orig.len() as int) =~= orig.subrange(
                    k,
                    orig.len() as int,
                ).subrange(1, orig.len() - k));
            }
        }
        proof {
            k = k + 1;
        }
    }
    proof {
        assert(orig.subrange(0, orig.len() as int) =~= orig);
        assert(tasks@.subrange(0, tasks.len() as int) =~= tasks@);
        vstd::seq_lib::lemma_filter_view_commute(orig, keep, keep_view);
        assert(views(tasks@) =~= tasks@.map_values(|x: Task| x.view()));
        assert(views(orig) =~= orig.map_values(|x: Task| x.view()));
        if has_id(views(orig), id as nat) {
            let j = choose|j: int| 0 <= j < orig.len() && (#[trigger] views(orig)[j]).id == id;
            assert(orig[j].id == id);
        } else {
            assert forall|j: int| 0 <= j < orig.len() implies (#[trigger] orig[j]).id != id by {
                assert(views(orig)[j].id != id);
            }
        }
    }
    before != tasks.len()
}

/// Adding a task and then removing the id it was given restores the collection: the same
/// tasks in the same order.
pub proof fn lemma_add_then_remove(tasks: Seq<TaskView>, text: Seq<char>)
    ensures
        removed(added(tasks, text), max_id(tasks) + 1) == tasks,
{
    let id = max_id(tasks) + 1;
    let task = TaskView { id, text, done: false };
    lemma_max_id_bounds(tasks);
    assert(!has_id(tasks, id));
    lemma_removed_absent(tasks, id);
    tasks.lemma_filter_push(task, |t: TaskView| t.id != id);
}

/// The collection after one task was added for each text of `texts`, in their order.
pub open spec fn added_all(tasks: Seq<TaskView>, texts: Seq<Seq<char>>) -> Seq<TaskView>
    decreases texts.len(),
{
    if texts.len() == 0 {
        tasks
    } else {
        added(added_all(tasks, texts.drop_last()), texts.last())
    }
}

/// Tasks that are added one after another keep what was there and get consecutive ids, which
/// start right after the largest id that was in use.
pub proof fn lemma_adds_count_upwards(tasks: Seq<TaskView>, texts: Seq<Seq<char>>)
    ensures
        added_all(tasks, texts).len() == tasks.len() + texts.len(),
        added_all(tasks, texts).subrange(0, tasks.len() as int) == tasks,
        max_id(added_all(tasks, texts)) == max_id(tasks) + texts.len(),
        forall|k: int|
            0 <= k < texts.len() ==> #[trigger] added_all(tasks, texts)[tasks.len() + k] == (
            TaskView { id: (max_id(tasks) + 1 + k) as nat, text: texts[k], done: false }),
    decreases texts.len(),
{
    let after = added_all(tasks, texts);
    if texts.len() == 0 {
        assert(after.subrange(0, tasks.len() as int) =~= tasks);
    } else {
        let front = texts.drop_last();
        let mid = added_all(tasks, front);
        lemma_adds_count_upwards(tasks, front);
        assert(after.drop_last() =~= mid);
        assert(after.subrange(0, tasks.len() as int) =~= mid.subrange(0, tasks.len() as int));
        assert forall|k: int| 0 <= k < texts.len() implies #[trigger] after[tasks.len() + k] == (
        TaskView { id: (max_id(tasks) + 1 + k) as nat, text: texts[k], done: false }) by {
            if k < front.len() {
                assert(after[tasks.len() + k] == mid[tasks.len() + k]);
                assert(front[k] == texts[k]);
            }
        }
    }
}

/// Whatever is added to an empty collection, the ids are 1, 2, 3 and so on: they start at one,
/// each is larger than the one before, and no two are equal.
pub proof fn lemma_adds_from_empty(texts: Seq<Seq<char>>)
    ensures
        added_all(Seq::empty(), texts).len() == texts.len(),
        forall|k: int|
            0 <= k < texts.len() ==> #[trigger] added_all(Seq::empty(), texts)[k] == (TaskView {
                id: (k + 1) as nat,
                text: texts[k],
                done: false,
            }),
        forall|i: int, j: int|
            0 <= i < j < texts.len() ==> (#[trigger] added_all(Seq::empty(), texts)[i]).id < (
            #[trigger] added_all(Seq::empty(), texts)[j]).id,
        unique_ids(added_all(Seq::empty(), texts)),
{
    let none = Seq::<TaskView>::empty();
    let after = added_all(none, texts);
    lemma_adds_count_upwards(none, texts);
    assert forall|k: int| 0 <= k < texts.len() implies #[trigger] after[k] == (TaskView {
        id: (k + 1) as nat,
        text: texts[k],
        done: false,
    }) by {
        assert(after[none.len() + k] == after[k]);
    }
}

} // verus!
