//! The data file: every task on a line of its own, each line ended by a line feed.

use crate::decimal::{decimal, is_digit, lemma_decimal_is_notation};
use crate::task::{
    lemma_line_round_trip, line_of, parse_spec, views, Task, TaskView, DELIMITER,
};
use crate::text::{chars_of, find_byte, first_index, lemma_first_index, lemma_first_index_unique};
use crate::utf8::{
    lemma_encode_concat, lemma_encoded_last, lemma_encoded_without, lemma_scalar_bytes,
    text_of_bytes,
};
use vstd::prelude::*;
use vstd::slice::slice_subrange;
use vstd::string::{StrSliceExecFns, StringExecFns, StringSliceAdditionalSpecFns};
use vstd::utf8::{
    decode_utf8, encode_utf8, encode_utf8_decode_utf8, encode_utf8_valid_utf8, valid_utf8,
};

verus! {

/// The byte that ends a line.
pub const LINE_FEED: u8 = 10;

/// The byte that may stand before the line feed and then belongs to the line end.
pub const CARRIAGE_RETURN: u8 = 13;

/// The text of the data file for `tasks`: the line of each, in order, each followed by a line
/// feed.
pub open spec fn file_text(tasks: Seq<TaskView>) -> Seq<char>
    decreases tasks.len(),
{
    if tasks.len() == 0 {
        Seq::empty()
    } else {
        file_text(tasks.drop_last()) + line_of(tasks.last()) + seq!['\n']
    }
}

/// The bytes of the data file for `tasks`: its text in UTF-8.
pub open spec fn encoded(tasks: Seq<TaskView>) -> Seq<u8> {
    encode_utf8(file_text(tasks))
}

/// How many bytes the first line of `bytes` has, its line feed included. The last line of a
/// file may lack the line feed.
pub open spec fn first_line_len(bytes: Seq<u8>) -> int {
    let i = first_index(bytes, LINE_FEED);
    if i < bytes.len() {
        i + 1
    } else {
        i
    }
}

/// A line without its end: without the line feed that it ends with, and without the carriage
/// return before that line feed. A carriage return that no line feed follows stays.
pub open spec fn without_line_end(line: Seq<u8>) -> Seq<u8> {
    if line.len() > 0 && line.last() == LINE_FEED {
        let body = line.drop_last();
        if body.len() > 0 && body.last() == CARRIAGE_RETURN {
            body.drop_last()
        } else {
            body
        }
    } else {
        line
    }
}

/// The task that a line of bytes stands for. There is none where the line, taken without its
/// end, is not well-formed UTF-8 or is the line of no task.
pub open spec fn line_task(line: Seq<u8>) -> Option<TaskView> {
    let body = without_line_end(line);
    if valid_utf8(body) {
        parse_spec(decode_utf8(body))
    } else {
        None
    }
}

/// The tasks that the bytes of a data file stand for: those of its lines, in order, a line
/// that stands for no task being passed over.
pub open spec fn decoded(bytes: Seq<u8>) -> Seq<TaskView>
    decreases bytes.len(),
    via decoded_decreases
{
    if bytes.len() == 0 {
        Seq::empty()
    } else {
        let n = first_line_len(bytes);
        let rest = decoded(bytes.subrange(n, bytes.len() as int));
        match line_task(bytes.subrange(0, n)) {
            Some(t) => seq![t] + rest,
            None => rest,
        }
    }
}

#[via_fn]
proof fn decoded_decreases(bytes: Seq<u8>) {
    lemma_first_index(bytes, LINE_FEED);
}

/// Reads one line of the data file, with or without its line end. The result is the task that
/// the line stands for, and `None` where it stands for none.
pub fn decode_line(line: &[u8]) -> (r: Option<Task>)
    ensures
        match r {
            Some(t) => line_task(line@) == Some(t@),
            None => line_task(line@) is None,
        },
{
    let len: usize = line.len();
    let mut end: usize = len;
    if len > 0 && line[len - 1] == LINE_FEED {
        end = len - 1;
        if end > 0 && line[end - 1] == CARRIAGE_RETURN {
            end = end - 1;
        }
    }
    let body = slice_subrange(line, 0, end);
    assert(body@ =~= without_line_end(line@));
    match text_of_bytes(body) {
        Some(text) => {
            proof {
                encode_utf8_decode_utf8(text@);
            }
            Task::parse_line(text)
        },
        None => None,
    }
}

/// Reads the bytes of a data file. The result holds the task of every line that stands for
/// one, in the order of the lines; the other lines are passed over.
pub fn decode(bytes: &[u8]) -> (tasks: Vec<Task>)
    ensures
        views(tasks@) == decoded(bytes@),
{
    let len: usize = bytes.len();
    let mut tasks: Vec<Task> = Vec::new();
    let mut pos: usize = 0;
    assert(bytes@.subrange(0, len as int) =~= bytes@);
    assert(views(tasks@) + decoded(bytes@) =~= decoded(bytes@));
    while pos < len
        invariant
            len == bytes.len(),
            0 <= pos <= len,
            views(tasks@) + decoded(bytes@.subrange(pos as int, len as int)) == decoded(bytes@),
        decreases len - pos,
    {
        let ghost here = bytes@.subrange(pos as int, len as int);
        let ghost before = views(tasks@);
        let feed: usize = find_byte(bytes, pos, LINE_FEED);
        let next: usize = if feed < len {
            feed + 1
        } else {
            len
        };
        proof {
            assert(next - pos == first_line_len(here));
            assert(here.subrange(0, next - pos) =~= bytes@.subrange(pos as int, next as int));
            assert(here.subrange(next - pos, here.len() as int) =~= bytes@.subrange(
                next as int,
                len as int,
            ));
        }
        match decode_line(slice_subrange(bytes, pos, next)) {
            Some(task) => {
                tasks.push(task);
                assert(views(tasks@) =~= before.push(task@));
                assert(before.push(task@) + decoded(bytes@.subrange(next as int, len as int))
                    =~= before + decoded(here));
            },
            None => {},
        }
        pos = next;
    }
    assert(views(tasks@) + decoded(bytes@.subrange(len as int, len as int)) =~= views(tasks@));
    tasks
}

/// Writes the data file for `tasks`.
pub fn encode(tasks: &[Task]) -> (bytes: Vec<u8>)
    ensures
        bytes@ == encoded(views(tasks@)),
{
    let mut text = String::new();
    let mut i: usize = 0;
    assert(views(tasks@.subrange(0, 0)) =~= Seq::<TaskView>::empty());
    while i < tasks.len()
        invariant
            0 <= i <= tasks.len(),
            text@ == file_text(views(tasks@.subrange(0, i as int))),
        decreases tasks.len() - i,
    {
        let line = tasks[i].format_line();
        text.append(line.as_str());
        text.push('\n');
        proof {
            let upto = views(tasks@.subrange(0, i + 1));
            assert(upto.drop_last() =~= views(tasks@.subrange(0, i as int)));
            assert(upto.last() == tasks@[i as int]@);
            assert(text@ =~= file_text(upto.drop_last()) + line_of(upto.last()) + seq!['\n']);
        }
        i += 1;
    }
    assert(tasks@.subrange(0, tasks.len() as int) =~= tasks@);
    text.as_str().as_bytes_vec()
}

/// The path of the entry `name` in the directory `base`: the two joined by a slash, unless
/// `base` is empty or ends with one already.
pub open spec fn joined(base: Seq<char>, name: Seq<char>) -> Seq<char> {
    if base.len() == 0 || base.last() == '/' {
        base + name
    } else {
        base + seq!['/'] + name
    }
}

/// The directory that holds the data file of the application in `app_dir`.
pub open spec fn data_dir_spec(app_dir: Seq<char>) -> Seq<char> {
    joined(app_dir, ".data"@)
}

/// The path of the data file of the application in `app_dir`.
pub open spec fn data_path_spec(app_dir: Seq<char>) -> Seq<char> {
    joined(data_dir_spec(app_dir), "tasks.txt"@)
}

/// The path of the file that a new data file is written to before it takes the place of the
/// old one. It lies in the same directory as the data file.
pub open spec fn temp_path_spec(app_dir: Seq<char>) -> Seq<char> {
    joined(data_dir_spec(app_dir), "tasks.txt.tmp"@)
}

fn join(base: &str, name: &str) -> (path: String)
    ensures
        path@ == joined(base@, name@),
{
    let chars = chars_of(base);
    let mut path = String::from_str(base);
    if chars.len() > 0 && chars[chars.len() - 1] != '/' {
        path.push('/');
    }
    path.append(name);
    path
}

/// The directory that holds the data file of the application in `app_dir`.
pub fn data_dir(app_dir: &str) -> (path: String)
    ensures
        path@ == data_dir_spec(app_dir@),
{
    join(app_dir, ".data")
}

/// The path of the data file of the application in `app_dir`.
pub fn data_path(app_dir: &str) -> (path: String)
    ensures
        path@ == data_path_spec(app_dir@),
{
    let dir = data_dir(app_dir);
    join(dir.as_str(), "tasks.txt")
}

/// The path of the file that a new data file is written to before it takes the place of the
/// old one.
pub fn temp_path(app_dir: &str) -> (path: String)
    ensures
        path@ == temp_path_spec(app_dir@),
{
    let dir = data_dir(app_dir);
    join(dir.as_str(), "tasks.txt.tmp")
}

/// Whether a task comes back from the data file as it went in: its id fits 64 bits, and its
/// text holds no line feed and does not end with a carriage return.
pub open spec fn storable(t: TaskView) -> bool {
    &&& t.id <= u64::MAX
    &&& forall|i: int| 0 <= i < t.text.len() ==> #[trigger] t.text[i] != '\n'
    &&& t.text.len() > 0 ==> t.text.last() != '\r'
}

/// The text of a data file begins with the line of the first task.
pub proof fn lemma_file_text_front(tasks: Seq<TaskView>)
    requires
        tasks.len() > 0,
    ensures
        file_text(tasks) == line_of(tasks[0]) + seq!['\n'] + file_text(tasks.drop_first()),
    decreases tasks.len(),
{
    if tasks.len() == 1 {
        assert(tasks.drop_last() =~= Seq::<TaskView>::empty());
        assert(tasks.drop_first() =~= Seq::<TaskView>::empty());
        assert(file_text(tasks) =~= line_of(tasks[0]) + seq!['\n'] + file_text(
            tasks.drop_first(),
        ));
    } else {
        let front = tasks.drop_last();
        lemma_file_text_front(front);
        assert(front.drop_first() =~= tasks.drop_first().drop_last());
        assert(front[0] == tasks[0]);
        assert(tasks.drop_first().last() == tasks.last());
        assert(file_text(tasks) =~= line_of(tasks[0]) + seq!['\n'] + file_text(
            tasks.drop_first(),
        ));
    }
}

/// The line of a storable task holds no line feed, is not empty, and does not end with a
/// carriage return.
pub proof fn lemma_line_shape(t: TaskView)
    requires
        storable(t),
    ensures
        forall|i: int| 0 <= i < line_of(t).len() ==> #[trigger] line_of(t)[i] != '\n',
        line_of(t).len() > 0,
        line_of(t).last() != '\r',
{
    let id = decimal(t.id);
    let line = line_of(t);
    lemma_decimal_is_notation(t.id);
    assert forall|i: int| 0 <= i < line.len() implies #[trigger] line[i] != '\n' by {
        if i < id.len() {
            assert(line[i] == id[i]);
            assert(is_digit(id[i]));
        } else if i < id.len() + 3 {
        } else {
            assert(line[i] == t.text[i - id.len() - 3]);
        }
    }
    if t.text.len() > 0 {
        assert(line.last() == t.text.last());
    } else {
        assert(line.last() == DELIMITER);
    }
}

/// What is written for a collection is read back as that collection: the same tasks, with
/// the same ids, flags and texts, in the same order. This holds of every text without a line
/// feed that does not end with a carriage return, delimiters in it or not.
pub proof fn lemma_round_trip(tasks: Seq<TaskView>)
    requires
        forall|i: int| 0 <= i < tasks.len() ==> storable(#[trigger] tasks[i]),
    ensures
        decoded(encoded(tasks)) == tasks,
    decreases tasks.len(),
{
    if tasks.len() == 0 {
        assert(decoded(encoded(tasks)) =~= tasks);
    } else {
        let first = tasks[0];
        let rest = tasks.drop_first();
        let line = line_of(first);
        let body = encode_utf8(line);
        let tail = encode_utf8(file_text(rest));
        let bytes = encoded(tasks);
        assert(storable(first));
        assert forall|i: int| 0 <= i < rest.len() implies storable(#[trigger] rest[i]) by {
            assert(rest[i] == tasks[i + 1]);
        }
        lemma_round_trip(rest);
        lemma_file_text_front(tasks);
        lemma_encode_concat(line + seq!['\n'], file_text(rest));
        lemma_encode_concat(line, seq!['\n']);
        lemma_scalar_bytes('\n');
        assert(encode_utf8(seq!['\n']) =~= seq![LINE_FEED]) by {
            reveal_with_fuel(encode_utf8, 2);
            assert(seq!['\n'].drop_first() =~= Seq::<char>::empty());
        }
        assert(bytes =~= body + seq![LINE_FEED] + tail);
        lemma_line_shape(first);
        lemma_encoded_without(line, '\n');
        lemma_encoded_last(line, '\r');
        let n = body.len() as int;
        assert forall|k: int| 0 <= k < n implies #[trigger] bytes[k] != LINE_FEED by {
            assert(bytes[k] == body[k]);
        }
        assert(bytes[n] == LINE_FEED);
        lemma_first_index_unique(bytes, LINE_FEED, n);
        assert(first_line_len(bytes) == n + 1);
        let raw = bytes.subrange(0, n + 1);
        assert(raw =~= body + seq![LINE_FEED]);
        assert(raw.drop_last() =~= body);
        assert(without_line_end(raw) == body);
        encode_utf8_valid_utf8(line);
        encode_utf8_decode_utf8(line);
        lemma_line_round_trip(first);
        assert(line_task(raw) == Some(first));
        assert(bytes.subrange(n + 1, bytes.len() as int) =~= tail);
        assert(seq![first] + rest =~= tasks);
    }
}

} // verus!
