//! A task, and the one line of text that stands for it in the data file.

use crate::decimal::{
    decimal, digits_value, is_digit, is_u64_notation, lemma_decimal_is_notation, parse_decimal,
    push_decimal,
};
use crate::text::{chars_of, find_char, first_index, lemma_first_index_unique, push_chars};
use vstd::prelude::*;
use vstd::slice::slice_subrange;
use vstd::string::StringExecFns;

verus! {

/// The character that separates the three fields of a line.
pub const DELIMITER: char = '|';

/// A single to-do entry.
#[derive(Clone, Debug, PartialEq, Eq)]
pub struct Task {
    /// Unique within a collection, and never changed once given.
    pub id: u64,
    /// Free-form text.
    pub text: String,
    /// Whether the task has been completed.
    pub done: bool,
}

/// What a task is to the contracts: its id, its text as characters, its flag.
pub struct TaskView {
    pub id: nat,
    pub text: Seq<char>,
    pub done: bool,
}

impl View for Task {
    type V = TaskView;

    open spec fn view(&self) -> TaskView {
        TaskView { id: self.id as nat, text: self.text@, done: self.done }
    }
}

/// The views of a sequence of tasks, in the same order.
pub open spec fn views(tasks: Seq<Task>) -> Seq<TaskView> {
    tasks.map_values(|t: Task| t@)
}

/// The character that writes the flag: `1` for a completed task and `0` for an open one.
pub open spec fn flag_char(done: bool) -> char {
    if done {
        '1'
    } else {
        '0'
    }
}

/// The line of a task: its id in decimal, the delimiter, the flag, the delimiter, and the text
/// as it stands. The text is not escaped.
pub open spec fn line_of(t: TaskView) -> Seq<char> {
    decimal(t.id) + seq![DELIMITER, flag_char(t.done), DELIMITER] + t.text
}

/// The three fields of a line: what stands before the first delimiter, what stands between the
/// first and the second, and all that follows the second, further delimiters included. A line
/// with fewer than two delimiters has no fields.
pub open spec fn fields(line: Seq<char>) -> Option<(Seq<char>, Seq<char>, Seq<char>)> {
    let i = first_index(line, DELIMITER);
    if i >= line.len() {
        None
    } else {
        let rest = line.subrange(i + 1, line.len() as int);
        let j = first_index(rest, DELIMITER);
        if j >= rest.len() {
            None
        } else {
            Some((line.subrange(0, i), rest.subrange(0, j), rest.subrange(j + 1, rest.len() as int)))
        }
    }
}

/// The task that a line stands for. There is none where the line has fewer than three fields,
/// where the first is not the notation of a `u64`, or where the second is not the single
/// character `0` or `1`.
pub open spec fn parse_spec(line: Seq<char>) -> Option<TaskView> {
    match fields(line) {
        Some((id, flag, text)) => {
            if is_u64_notation(id) && flag.len() == 1 && (flag[0] == '0' || flag[0] == '1') {
                Some(TaskView { id: digits_value(id), text, done: flag[0] == '1' })
            } else {
                None
            }
        },
        None => None,
    }
}

/// A line that was written for a task is read back as that task, whatever its text holds.
pub proof fn lemma_line_round_trip(t: TaskView)
    requires
        t.id <= u64::MAX,
    ensures
        parse_spec(line_of(t)) == Some(t),
{
    let id = decimal(t.id);
    let line = line_of(t);
    lemma_decimal_is_notation(t.id);
    let i = id.len() as int;
    assert forall|k: int| 0 <= k < i implies #[trigger] line[k] != DELIMITER by {
        assert(line[k] == id[k]);
        assert(is_digit(id[k]));
    }
    assert(line[i] == DELIMITER);
    lemma_first_index_unique(line, DELIMITER, i);
    let rest = line.subrange(i + 1, line.len() as int);
    assert(rest =~= seq![flag_char(t.done), DELIMITER] + t.text);
    assert(rest[0] != DELIMITER);
    assert(rest[1] == DELIMITER);
    lemma_first_index_unique(rest, DELIMITER, 1);
    assert(line.subrange(0, i) =~= id);
    assert(rest.subrange(0, 1) =~= seq![flag_char(t.done)]);
    assert(rest.subrange(2, rest.len() as int) =~= t.text);
}

impl Task {
    /// Writes the task as one line, without a line end.
    pub fn format_line(&self) -> (line: String)
        ensures
            line@ == line_of(self@),
    {
        let mut line = String::new();
        push_decimal(&mut line, self.id);
        line.push(DELIMITER);
        line.push(
            if self.done {
                '1'
            } else {
                '0'
            },
        );
        line.push(DELIMITER);
        line.append(self.text.as_str());
        assert(line@ =~= line_of(self@));
        line
    }

    /// Reads a line. The result is the task that the line stands for, and `None` where it
    /// stands for none.
    pub fn parse_line(line: &str) -> (r: Option<Task>)
        ensures
            match r {
                Some(t) => parse_spec(line@) == Some(t@),
                None => parse_spec(line@) is None,
            },
    {
        let chars = chars_of(line);
        let len: usize = chars.len();
        let i: usize = find_char(chars.as_slice(), 0, DELIMITER);
        assert(chars@.subrange(0, len as int) =~= chars@);
        if i >= len {
            return None;
        }
        let j: usize = find_char(chars.as_slice(), i + 1, DELIMITER);
        if j >= len {
            return None;
        }
        let ghost rest = chars@.subrange(i + 1, len as int);
        let ghost flag = rest.subrange(0, j - (i + 1));
        assert(rest.subrange(0, j - (i + 1)) =~= chars@.subrange(i + 1, j as int));
        assert(rest.subrange(j - (i + 1) + 1, rest.len() as int) =~= chars@.subrange(
            j + 1,
            len as int,
        ));
        let id: u64 = match parse_decimal(slice_subrange(chars.as_slice(), 0, i)) {
            Some(n) => n,
            None => {
                return None;
            },
        };
        if j != i + 2 {
            return None;
        }
        let c: char = chars[i + 1];
        assert(flag[0] == c);
        let done: bool = if c == '0' {
            false
        } else if c == '1' {
            true
        } else {
            return None;
        };
        let mut text = String::new();
        push_chars(&mut text, chars.as_slice(), j + 1, len);
        assert(text@ =~= chars@.subrange(j + 1, len as int));
        Some(Task { id, text, done })
    }
}

} // verus!
