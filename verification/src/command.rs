//! The four commands of the tracker: what each does to the collection, whether the collection
//! is to be saved afterwards, and what is reported to the user.

use crate::decimal::{decimal, push_decimal};
use crate::store::{add_task, added, has_id, mark_done, marked, max_id, remove_task, removed};
use crate::task::{views, Task, TaskView};
use vstd::prelude::*;
use vstd::string::StringExecFns;

verus! {

/// A command of the user, with its arguments.
#[derive(Clone, Debug, PartialEq, Eq)]
pub enum Command {
    /// Create a task with this text.
    Add { text: String },
    /// Show all tasks.
    List,
    /// Complete the task with this id.
    Done { id: u64 },
    /// Remove the task with this id.
    Rm { id: u64 },
}

/// What a command is to the contracts.
pub enum CommandView {
    Add { text: Seq<char> },
    List,
    Done { id: nat },
    Rm { id: nat },
}

impl View for Command {
    type V = CommandView;

    open spec fn view(&self) -> CommandView {
        match *self {
            Command::Add { text } => CommandView::Add { text: text@ },
            Command::List => CommandView::List,
            Command::Done { id } => CommandView::Done { id: id as nat },
            Command::Rm { id } => CommandView::Rm { id: id as nat },
        }
    }
}

/// What follows a command: whether the collection is to be saved, and the lines to print, in
/// order and without line ends.
#[derive(Clone, Debug, PartialEq, Eq)]
pub struct Outcome {
    pub save: bool,
    pub lines: Vec<String>,
}

/// The texts of a sequence of strings, in the same order.
pub open spec fn texts(lines: Seq<String>) -> Seq<Seq<char>> {
    lines.map_values(|l: String| l@)
}

/// The collection after a command.
pub open spec fn applied(command: CommandView, tasks: Seq<TaskView>) -> Seq<TaskView> {
    match command {
        CommandView::Add { text } => added(tasks, text),
        CommandView::List => tasks,
        CommandView::Done { id } => marked(tasks, id),
        CommandView::Rm { id } => removed(tasks, id),
    }
}

/// Whether the collection is saved after a command: always after an addition, never after a
/// listing, and after the other two where a task had the id.
pub open spec fn saves(command: CommandView, tasks: Seq<TaskView>) -> bool {
    match command {
        CommandView::Add { text } => true,
        CommandView::List => false,
        CommandView::Done { id } => has_id(tasks, id),
        CommandView::Rm { id } => has_id(tasks, id),
    }
}

/// The line that confirms an addition.
pub open spec fn added_line(id: nat, text: Seq<char>) -> Seq<char> {
    "Added "@ + decimal(id) + ": "@ + text
}

/// The line that shows a task in a listing: its id, a box that is crossed where the task is
/// completed, and its text.
pub open spec fn listing_line(t: TaskView) -> Seq<char> {
    decimal(t.id) + (if t.done {
        " [x] "@
    } else {
        " [ ] "@
    }) + t.text
}

/// The line that confirms a completion.
pub open spec fn marked_line(id: nat) -> Seq<char> {
    "Marked "@ + decimal(id) + " done."@
}

/// The line that confirms a removal.
pub open spec fn removed_line(id: nat) -> Seq<char> {
    "Removed "@ + decimal(id) + "."@
}

/// The line that says that no task has the id.
pub open spec fn not_found_line(id: nat) -> Seq<char> {
    "Task "@ + decimal(id) + " not found."@
}

/// The lines of a listing: one for each task, in order, or a single line that says that
/// there are none.
pub open spec fn listing(tasks: Seq<TaskView>) -> Seq<Seq<char>> {
    if tasks.len() == 0 {
        seq!["No tasks yet."@]
    } else {
        tasks.map_values(|t: TaskView| listing_line(t))
    }
}

/// The lines that report a command that was given for the collection `tasks`.
pub open spec fn report(command: CommandView, tasks: Seq<TaskView>) -> Seq<Seq<char>> {
    match command {
        CommandView::Add { text } => seq![added_line(max_id(tasks) + 1, text)],
        CommandView::List => listing(tasks),
        CommandView::Done { id } => seq![
            if has_id(tasks, id) {
                marked_line(id)
            } else {
                not_found_line(id)
            },
        ],
        CommandView::Rm { id } => seq![
            if has_id(tasks, id) {
                removed_line(id)
            } else {
                not_found_line(id)
            },
        ],
    }
}

fn around_id(before: &str, id: u64, after: &str) -> (line: String)
    ensures
        line@ == before@ + decimal(id as nat) + after@,
{
    let mut line = String::from_str(before);
    push_decimal(&mut line, id);
    line.append(after);
    line
}

/// The line that shows `task` in a listing.
pub fn format_listing_line(task: &Task) -> (line: String)
    ensures
        line@ == listing_line(task@),
{
    let mut line = String::new();
    push_decimal(&mut line, task.id);
    line.append(
        if task.done {
            " [x] "
        } else {
            " [ ] "
        },
    );
    line.append(task.text.as_str());
    assert(line@ =~= listing_line(task@));
    line
}

/// The lines of a listing of `tasks`.
pub fn format_listing(tasks: &[Task]) -> (lines: Vec<String>)
    ensures
        texts(lines@) == listing(views(tasks@)),
{
    let mut lines: Vec<String> = Vec::new();
    if tasks.len() == 0 {
        lines.push(String::from_str("No tasks yet."));
        assert(texts(lines@) =~= listing(views(tasks@)));
        return lines;
    }
    let mut i: usize = 0;
    while i < tasks.len()
        invariant
            0 <= i <= tasks.len(),
            lines@.len() == i,
            forall|k: int| 0 <= k < i ==> (#[trigger] lines@[k])@ == listing_line(tasks@[k]@),
        decreases tasks.len() - i,
    {
        lines.push(format_listing_line(&tasks[i]));
        i += 1;
    }
    assert(texts(lines@) =~= listing(views(tasks@)));
    lines
}

/// Carries out a command on the collection. The result says whether the collection is to be
/// saved and what is to be printed. An addition needs room for one more id.
pub fn run(command: Command, tasks: &mut Vec<Task>) -> (outcome: Outcome)
    requires
        command is Add ==> max_id(views(old(tasks)@)) < u64::MAX,
    ensures
        views(final(tasks)@) == applied(command@, views(old(tasks)@)),
        outcome.save == saves(command@, views(old(tasks)@)),
        texts(outcome.lines@) == report(command@, views(old(tasks)@)),
        !outcome.save ==> final(tasks)@ == old(tasks)@,
{
    let mut lines: Vec<String> = Vec::new();
    let save: bool;
    match command {
        Command::Add { text } => {
            let task = add_task(tasks, text);
            let mut line = around_id("Added ", task.id, ": ");
            line.append(task.text.as_str());
            lines.push(line);
            save = true;
        },
        Command::List => {
            lines = format_listing(tasks.as_slice());
            save = false;
        },
        Command::Done { id } => {
            save = mark_done(tasks.as_mut_slice(), id);
            lines.push(
                if save {
                    around_id("Marked ", id, " done.")
                } else {
                    around_id("Task ", id, " not found.")
                },
            );
        },
        Command::Rm { id } => {
            save = remove_task(tasks, id);
            lines.push(
                if save {
                    around_id("Removed ", id, ".")
                } else {
                    around_id("Task ", id, " not found.")
                },
            );
        },
    }
    assert(texts(lines@) =~= report(command@, views(old(tasks)@)));
    Outcome { save, lines }
}

} // verus!
