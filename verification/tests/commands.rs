use todo_demo::command::{format_listing, format_listing_line, run, Command};
use todo_demo::task::Task;

fn task(id: u64, text: &str, done: bool) -> Task {
    Task { id, text: text.to_string(), done }
}

fn lines(expected: &[&str]) -> Vec<String> {
    expected.iter().map(|l| l.to_string()).collect()
}

#[test]
fn run_add_appends_saves_and_confirms() {
    let mut tasks = vec![task(4, "old", false)];
    let outcome = run(Command::Add { text: "buy milk".to_string() }, &mut tasks);
    assert!(outcome.save);
    assert_eq!(outcome.lines, lines(&["Added 5: buy milk"]));
    assert_eq!(tasks, vec![task(4, "old", false), task(5, "buy milk", false)]);
}

#[test]
fn run_list_shows_every_task_and_saves_nothing() {
    let before = vec![task(1, "buy milk", true), task(2, "call mom", false)];
    let mut tasks = before.clone();
    let outcome = run(Command::List, &mut tasks);
    assert!(!outcome.save);
    assert_eq!(outcome.lines, lines(&["1 [x] buy milk", "2 [ ] call mom"]));
    assert_eq!(tasks, before);
}

#[test]
fn run_list_of_no_tasks_says_so() {
    let mut tasks: Vec<Task> = Vec::new();
    let outcome = run(Command::List, &mut tasks);
    assert!(!outcome.save);
    assert_eq!(outcome.lines, lines(&["No tasks yet."]));
}

#[test]
fn run_done_marks_saves_and_confirms() {
    let mut tasks = vec![task(1, "a", false), task(2, "b", false)];
    let outcome = run(Command::Done { id: 2 }, &mut tasks);
    assert!(outcome.save);
    assert_eq!(outcome.lines, lines(&["Marked 2 done."]));
    assert_eq!(tasks, vec![task(1, "a", false), task(2, "b", true)]);
}

#[test]
fn run_done_of_an_absent_id_reports_it_and_saves_nothing() {
    let before = vec![task(1, "a", false)];
    let mut tasks = before.clone();
    let outcome = run(Command::Done { id: 12 }, &mut tasks);
    assert!(!outcome.save);
    assert_eq!(outcome.lines, lines(&["Task 12 not found."]));
    assert_eq!(tasks, before);
}

#[test]
fn run_rm_removes_saves_and_confirms() {
    let mut tasks = vec![task(1, "a", false), task(2, "b", false)];
    let outcome = run(Command::Rm { id: 1 }, &mut tasks);
    assert!(outcome.save);
    assert_eq!(outcome.lines, lines(&["Removed 1."]));
    assert_eq!(tasks, vec![task(2, "b", false)]);
}

#[test]
fn run_rm_of_an_absent_id_reports_it_and_saves_nothing() {
    let before = vec![task(1, "a", false)];
    let mut tasks = before.clone();
    let outcome = run(Command::Rm { id: 0 }, &mut tasks);
    assert!(!outcome.save);
    assert_eq!(outcome.lines, lines(&["Task 0 not found."]));
    assert_eq!(tasks, before);
}

#[test]
fn listing_line_shows_id_box_and_text() {
    assert_eq!(format_listing_line(&task(1, "buy milk", true)), "1 [x] buy milk");
    assert_eq!(format_listing_line(&task(20, "", false)), "20 [ ] ");
}

#[test]
fn listing_has_one_line_per_task() {
    assert_eq!(format_listing(&[]), lines(&["No tasks yet."]));
    assert_eq!(
        format_listing(&[task(3, "c", false), task(1, "a", true)]),
        lines(&["3 [ ] c", "1 [x] a"])
    );
}

#[test]
fn commands_in_a_row_from_an_empty_collection() {
    let mut tasks: Vec<Task> = Vec::new();
    assert_eq!(
        run(Command::Add { text: "buy milk".to_string() }, &mut tasks).lines,
        lines(&["Added 1: buy milk"])
    );
    assert_eq!(
        run(Command::Add { text: "call mom".to_string() }, &mut tasks).lines,
        lines(&["Added 2: call mom"])
    );
    assert!(run(Command::Done { id: 1 }, &mut tasks).save);
    assert_eq!(run(Command::List, &mut tasks).lines, lines(&["1 [x] buy milk", "2 [ ] call mom"]));
    assert!(run(Command::Rm { id: 1 }, &mut tasks).save);
    assert_eq!(tasks, vec![task(2, "call mom", false)]);
}
