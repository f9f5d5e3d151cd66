use todo_demo::storage::{data_dir, data_path, decode, decode_line, encode, temp_path};
use todo_demo::task::Task;

fn task(id: u64, text: &str, done: bool) -> Task {
    Task { id, text: text.to_string(), done }
}

#[test]
fn encode_writes_one_line_per_task() {
    let tasks = vec![task(1, "buy milk", true), task(2, "call mom", false)];
    assert_eq!(encode(&tasks), b"1|1|buy milk\n2|0|call mom\n".to_vec());
}

#[test]
fn encode_of_no_tasks_is_empty() {
    assert_eq!(encode(&[]), Vec::<u8>::new());
}

#[test]
fn encode_writes_text_as_utf8() {
    assert_eq!(encode(&[task(3, "é", false)]), vec![b'3', b'|', b'0', b'|', 0xC3, 0xA9, b'\n']);
}

#[test]
fn decode_reads_every_line() {
    assert_eq!(
        decode(b"1|1|buy milk\n2|0|call mom\n"),
        vec![task(1, "buy milk", true), task(2, "call mom", false)]
    );
}

#[test]
fn decode_of_nothing_is_empty() {
    assert_eq!(decode(b""), Vec::<Task>::new());
}

#[test]
fn decode_passes_over_a_malformed_line() {
    assert_eq!(
        decode(b"1|0|first\nnot a task\n2|1|second\n"),
        vec![task(1, "first", false), task(2, "second", true)]
    );
    assert_eq!(
        decode(b"x|0|bad id\n1|0|first\n2|1|second\n"),
        vec![task(1, "first", false), task(2, "second", true)]
    );
    assert_eq!(
        decode(b"1|0|first\n2|1|second\n3|9|bad flag\n"),
        vec![task(1, "first", false), task(2, "second", true)]
    );
}

#[test]
fn decode_passes_over_empty_lines() {
    assert_eq!(decode(b"\n\n1|0|a\n\n"), vec![task(1, "a", false)]);
}

#[test]
fn decode_reads_a_last_line_without_line_feed() {
    assert_eq!(decode(b"1|0|a\n2|1|b"), vec![task(1, "a", false), task(2, "b", true)]);
}

#[test]
fn decode_takes_a_carriage_return_before_the_line_feed_as_line_end() {
    assert_eq!(decode(b"1|0|a\r\n2|1|b\r\n"), vec![task(1, "a", false), task(2, "b", true)]);
}

#[test]
fn decode_keeps_a_carriage_return_that_no_line_feed_follows() {
    assert_eq!(decode(b"1|0|a\rb\n2|1|c\r"), vec![task(1, "a\rb", false), task(2, "c\r", true)]);
}

#[test]
fn decode_strips_one_carriage_return_only() {
    assert_eq!(decode(b"1|0|a\r\r\n"), vec![task(1, "a\r", false)]);
}

#[test]
fn decode_passes_over_a_line_that_is_not_utf8() {
    assert_eq!(
        decode(b"1|0|first\n2|0|\xff\xfe\n3|1|third\n"),
        vec![task(1, "first", false), task(3, "third", true)]
    );
    assert_eq!(decode(b"1|0|cut \xc3\n2|0|ok\n"), vec![task(2, "ok", false)]);
}

#[test]
fn decode_does_not_check_ids() {
    assert_eq!(decode(b"5|0|a\n5|1|b\n0|0|c\n"), vec![
        task(5, "a", false),
        task(5, "b", true),
        task(0, "c", false)
    ]);
}

#[test]
fn decode_line_reads_a_line_with_or_without_its_end() {
    assert_eq!(decode_line(b"4|1|water plants"), Some(task(4, "water plants", true)));
    assert_eq!(decode_line(b"4|1|water plants\n"), Some(task(4, "water plants", true)));
    assert_eq!(decode_line(b"4|1|water plants\r\n"), Some(task(4, "water plants", true)));
    assert_eq!(decode_line("4|0|naïve".as_bytes()), Some(task(4, "naïve", false)));
}

#[test]
fn decode_line_rejects_bytes_that_are_not_utf8() {
    assert_eq!(decode_line(b"4|1|\x80"), None);
    assert_eq!(decode_line(b"4|1|\xed\xa0\x80"), None);
    assert_eq!(decode_line(b"4|1|\xc0\xaf"), None);
    assert_eq!(decode_line(b"\xff|1|x"), None);
}

#[test]
fn decode_reads_back_what_encode_wrote() {
    let tasks = vec![
        task(1, "buy milk", false),
        task(2, "", true),
        task(u64::MAX, "mañana ☀", true),
        task(7, "a|b|c", false),
        task(3, "in\rside", false),
        task(3, "twice the id", true),
    ];
    assert_eq!(decode(&encode(&tasks)), tasks);
}

#[test]
fn a_line_feed_in_a_text_breaks_the_line() {
    let tasks = vec![task(1, "two\nlines", false)];
    assert_eq!(decode(&encode(&tasks)), vec![task(1, "two", false)]);
}

#[test]
fn a_carriage_return_at_the_end_of_a_text_is_lost() {
    let tasks = vec![task(1, "text\r", false)];
    assert_eq!(decode(&encode(&tasks)), vec![task(1, "text", false)]);
}

#[test]
fn data_path_lies_in_the_data_directory() {
    assert_eq!(data_dir("/opt/todo"), "/opt/todo/.data");
    assert_eq!(data_path("/opt/todo"), "/opt/todo/.data/tasks.txt");
    assert_eq!(temp_path("/opt/todo"), "/opt/todo/.data/tasks.txt.tmp");
}

#[test]
fn data_path_adds_no_second_slash() {
    assert_eq!(data_path("/opt/todo/"), "/opt/todo/.data/tasks.txt");
    assert_eq!(data_path("/"), "/.data/tasks.txt");
    assert_eq!(data_path(""), ".data/tasks.txt");
    assert_eq!(temp_path(""), ".data/tasks.txt.tmp");
}
