//! Loading and saving the data file: the steps that a save takes, in their order, and why a
//! crash at any point of a save leaves a data file that is whole.
//!
//! The steps are carried out by the caller. What is proved here is proved of a model of the
//! file system, in which a file that was not forced to stable storage may be lost or garbled
//! by a crash, and in which a rename takes place as a whole or not at all.

use crate::storage::{
    data_dir, data_dir_spec, data_path, data_path_spec, decode, decoded, encode, encoded, joined,
    lemma_round_trip, storable, temp_path, temp_path_spec,
};
use crate::task::{views, Task, TaskView};
use vstd::prelude::*;

verus! {

/// One step of a save, to be carried out on the file system.
#[derive(Clone, Debug, PartialEq, Eq)]
pub enum Step {
    /// Create the directory `path`, with the ancestors that are missing.
    CreateDir { path: String },
    /// Create the file `path`, or empty it, and write `bytes` to it.
    Write { path: String, bytes: Vec<u8> },
    /// Force what was written to the file `path` to stable storage.
    Sync { path: String },
    /// Put the file `from` in the place of `to`, as one indivisible change.
    Rename { from: String, to: String },
}

/// What a step is to the contracts.
pub enum StepView {
    CreateDir { path: Seq<char> },
    Write { path: Seq<char>, bytes: Seq<u8> },
    Sync { path: Seq<char> },
    Rename { from: Seq<char>, to: Seq<char> },
}

impl View for Step {
    type V = StepView;

    open spec fn view(&self) -> StepView {
        match *self {
            Step::CreateDir { path } => StepView::CreateDir { path: path@ },
            Step::Write { path, bytes } => StepView::Write { path: path@, bytes: bytes@ },
            Step::Sync { path } => StepView::Sync { path: path@ },
            Step::Rename { from, to } => StepView::Rename { from: from@, to: to@ },
        }
    }
}

/// The views of a sequence of steps, in the same order.
pub open spec fn step_views(steps: Seq<Step>) -> Seq<StepView> {
    steps.map_values(|s: Step| s@)
}

/// The steps that save `tasks` for the application in `app_dir`: make sure of the data
/// directory, write the whole file under the temporary name, force it to stable storage, and
/// only then put it in the place of the data file.
pub open spec fn save_steps(app_dir: Seq<char>, tasks: Seq<TaskView>) -> Seq<StepView> {
    seq![
        StepView::CreateDir { path: data_dir_spec(app_dir) },
        StepView::Write { path: temp_path_spec(app_dir), bytes: encoded(tasks) },
        StepView::Sync { path: temp_path_spec(app_dir) },
        StepView::Rename { from: temp_path_spec(app_dir), to: data_path_spec(app_dir) },
    ]
}

/// The collection that a data file holds. A data file that does not exist holds none: that
/// is how the first use begins.
pub open spec fn loaded_spec(file: Option<Seq<u8>>) -> Seq<TaskView> {
    match file {
        Some(bytes) => decoded(bytes),
        None => Seq::empty(),
    }
}

/// The steps that save `tasks` for the application in `app_dir`, in the order in which they
/// are to be carried out. A step that fails ends the save.
pub fn save_plan(app_dir: &str, tasks: &[Task]) -> (plan: Vec<Step>)
    ensures
        step_views(plan@) == save_steps(app_dir@, views(tasks@)),
{
    let mut plan: Vec<Step> = Vec::new();
    plan.push(Step::CreateDir { path: data_dir(app_dir) });
    plan.push(Step::Write { path: temp_path(app_dir), bytes: encode(tasks) });
    plan.push(Step::Sync { path: temp_path(app_dir) });
    plan.push(Step::Rename { from: temp_path(app_dir), to: data_path(app_dir) });
    assert(step_views(plan@) =~= save_steps(app_dir@, views(tasks@)));
    plan
}

/// The collection that was loaded, given the bytes of the data file, or `None` where the
/// data file does not exist.
pub fn loaded(file: Option<&[u8]>) -> (tasks: Vec<Task>)
    ensures
        file matches Some(bytes) ==> views(tasks@) == loaded_spec(Some(bytes@)),
        file is None ==> views(tasks@) == loaded_spec(None),
{
    match file {
        Some(bytes) => decode(bytes),
        None => {
            let tasks: Vec<Task> = Vec::new();
            assert(views(tasks@) =~= Seq::<TaskView>::empty());
            tasks
        },
    }
}

/// A file of the model: what it holds, and whether that has reached stable storage.
pub struct FileState {
    pub content: Seq<u8>,
    pub durable: bool,
}

/// The file system of the model: the files that exist, by their paths.
pub type Disk = Map<Seq<char>, FileState>;

/// The file system after a step was carried out in full.
pub open spec fn after_step(disk: Disk, step: StepView) -> Disk {
    match step {
        StepView::CreateDir { path } => disk,
        StepView::Write { path, bytes } => disk.insert(
            path,
            FileState { content: bytes, durable: false },
        ),
        StepView::Sync { path } => if disk.contains_key(path) {
            disk.insert(path, FileState { content: disk[path].content, durable: true })
        } else {
            disk
        },
        StepView::Rename { from, to } => if disk.contains_key(from) {
            disk.remove(from).insert(to, disk[from])
        } else {
            disk
        },
    }
}

/// The file system after the steps were carried out in full, one after another.
pub open spec fn after_steps(disk: Disk, steps: Seq<StepView>) -> Disk
    decreases steps.len(),
{
    if steps.len() == 0 {
        disk
    } else {
        after_step(after_steps(disk, steps.drop_last()), steps.last())
    }
}

/// Whether `found` may be what is there after a crash that struck the file system `disk`:
/// no file has appeared, and every file that had reached stable storage is there with what
/// it held. Of the other files nothing is known.
pub open spec fn may_survive(disk: Disk, found: Disk) -> bool {
    &&& forall|p: Seq<char>| #[trigger] found.contains_key(p) ==> disk.contains_key(p)
    &&& forall|p: Seq<char>| #[trigger]
        disk.contains_key(p) && disk[p].durable ==> found.contains_key(p) && found[p].content
            == disk[p].content
}

/// What the file `path` holds, or `None` where it does not exist.
pub open spec fn file_at(disk: Disk, path: Seq<char>) -> Option<Seq<u8>> {
    if disk.contains_key(path) {
        Some(disk[path].content)
    } else {
        None
    }
}

/// The temporary file is not the data file.
pub proof fn lemma_temp_path_differs(app_dir: Seq<char>)
    ensures
        temp_path_spec(app_dir) != data_path_spec(app_dir),
{
    reveal_strlit("tasks.txt");
    reveal_strlit("tasks.txt.tmp");
    let dir = data_dir_spec(app_dir);
    assert(joined(dir, "tasks.txt.tmp"@).len() == joined(dir, "tasks.txt"@).len() + 4);
}

/// A save is all or nothing. Take a file system whose data file, where there is one, has
/// reached stable storage, and let a crash strike after any number of the steps of a save.
/// While the rename has not taken place, the data file is found as it was before the save,
/// or missing as it was; once it has, the data file holds the new collection in full. At no
/// point is a data file found that is neither.
pub proof fn lemma_save_is_atomic(
    disk: Disk,
    app_dir: Seq<char>,
    tasks: Seq<TaskView>,
    done: int,
    found: Disk,
)
    requires
        disk.contains_key(data_path_spec(app_dir)) ==> disk[data_path_spec(app_dir)].durable,
        0 <= done <= save_steps(app_dir, tasks).len(),
        may_survive(after_steps(disk, save_steps(app_dir, tasks).take(done)), found),
    ensures
        done < save_steps(app_dir, tasks).len() ==> file_at(found, data_path_spec(app_dir))
            == file_at(disk, data_path_spec(app_dir)),
        done == save_steps(app_dir, tasks).len() ==> file_at(found, data_path_spec(app_dir))
            == Some(encoded(tasks)),
{
    let steps = save_steps(app_dir, tasks);
    let data = data_path_spec(app_dir);
    let temp = temp_path_spec(app_dir);
    lemma_temp_path_differs(app_dir);
    reveal_with_fuel(after_steps, 5);
    let d0 = disk;
    let d1 = after_step(d0, steps[0]);
    let d2 = after_step(d1, steps[1]);
    let d3 = after_step(d2, steps[2]);
    let d4 = after_step(d3, steps[3]);
    assert(steps.take(0) =~= Seq::<StepView>::empty());
    assert(steps.take(1).drop_last() =~= steps.take(0) && steps.take(1).last() == steps[0]);
    assert(steps.take(2).drop_last() =~= steps.take(1) && steps.take(2).last() == steps[1]);
    assert(steps.take(3).drop_last() =~= steps.take(2) && steps.take(3).last() == steps[2]);
    assert(steps.take(4).drop_last() =~= steps.take(3) && steps.take(4).last() == steps[3]);
    assert(after_steps(disk, steps.take(0)) == d0);
    assert(after_steps(disk, steps.take(1)) == d1);
    assert(after_steps(disk, steps.take(2)) == d2);
    assert(after_steps(disk, steps.take(3)) == d3);
    assert(after_steps(disk, steps.take(4)) == d4);
    assert(d1 == d0);
    assert(d2.contains_key(temp) && d2[temp].content == encoded(tasks));
    assert(d3.contains_key(temp) && d3[temp].content == encoded(tasks) && d3[temp].durable);
    assert(d4.contains_key(data) && d4[data].content == encoded(tasks) && d4[data].durable);
    let crashed = after_steps(disk, steps.take(done));
    if done < 4 {
        assert(crashed.contains_key(data) == disk.contains_key(data));
        if disk.contains_key(data) {
            assert(crashed[data] == disk[data]);
            assert(crashed.contains_key(data) && crashed[data].durable);
        } else {
            assert(!found.contains_key(data));
        }
    } else {
        assert(crashed.contains_key(data) && crashed[data].durable);
    }
}

/// Whatever the point of a save at which a crash strikes, the next load finds the
/// collection that was there before the save or the one that was saved, and after a save
/// that ran to its end it finds the one that was saved.
pub proof fn lemma_load_after_crash(
    disk: Disk,
    app_dir: Seq<char>,
    tasks: Seq<TaskView>,
    done: int,
    found: Disk,
)
    requires
        disk.contains_key(data_path_spec(app_dir)) ==> disk[data_path_spec(app_dir)].durable,
        0 <= done <= save_steps(app_dir, tasks).len(),
        may_survive(after_steps(disk, save_steps(app_dir, tasks).take(done)), found),
        forall|i: int| 0 <= i < tasks.len() ==> storable(#[trigger] tasks[i]),
    ensures
        loaded_spec(file_at(found, data_path_spec(app_dir))) == loaded_spec(
            file_at(disk, data_path_spec(app_dir)),
        ) || loaded_spec(file_at(found, data_path_spec(app_dir))) == tasks,
        done == save_steps(app_dir, tasks).len() ==> loaded_spec(
            file_at(found, data_path_spec(app_dir)),
        ) == tasks,
{
    lemma_save_is_atomic(disk, app_dir, tasks, done, found);
    lemma_round_trip(tasks);
}

} // verus!
