use todo_demo::store::{add_task, largest_id, mark_done, remove_task};
use todo_demo::task::Task;

fn task(id: u64, text: &str, done: bool) -> Task {
    Task { id, text: text.to_string(), done }
}

#[test]
fn add_task_starts_at_one_and_counts_upwards() {
    let mut tasks: Vec<Task> = Vec::new();
    for expected in 1..=20u64 {
        let added = add_task(&mut tasks, format!("task {expected}"));
        assert_eq!(added, task(expected, &format!("task {expected}"), false));
        assert_eq!(tasks.len() as u64, expected);
        assert_eq!(tasks.last(), Some(&added));
    }
    for pair in tasks.windows(2) {
        assert!(pair[0].id < pair[1].id);
    }
}

#[test]
fn add_task_follows_the_largest_id_wherever_it_stands() {
    let mut tasks = vec![task(9, "a", false), task(3, "b", true), task(5, "c", false)];
    let added = add_task(&mut tasks, "d".to_string());
    assert_eq!(added, task(10, "d", false));
    assert_eq!(
        tasks,
        vec![task(9, "a", false), task(3, "b", true), task(5, "c", false), task(10, "d", false)]
    );
}

#[test]
fn add_task_does_not_reuse_a_removed_largest_id_that_is_still_smaller() {
    let mut tasks: Vec<Task> = Vec::new();
    add_task(&mut tasks, "a".to_string());
    add_task(&mut tasks, "b".to_string());
    add_task(&mut tasks, "c".to_string());
    assert!(remove_task(&mut tasks, 2));
    let added = add_task(&mut tasks, "d".to_string());
    assert_eq!(added.id, 4);
}

#[test]
fn add_task_accepts_an_empty_text() {
    let mut tasks: Vec<Task> = Vec::new();
    assert_eq!(add_task(&mut tasks, String::new()), task(1, "", false));
}

#[test]
fn largest_id_is_zero_for_no_tasks() {
    assert_eq!(largest_id(&[]), 0);
    assert_eq!(largest_id(&[task(4, "a", false), task(8, "b", false), task(2, "c", false)]), 8);
}

#[test]
fn add_then_remove_restores_the_collection() {
    let before = vec![task(2, "a", true), task(7, "b", false), task(4, "c", false)];
    let mut tasks = before.clone();
    let added = add_task(&mut tasks, "new".to_string());
    assert_eq!(added.id, 8);
    assert!(remove_task(&mut tasks, added.id));
    assert_eq!(tasks, before);
}

#[test]
fn mark_done_sets_the_flag_of_that_task_only() {
    let mut tasks = vec![task(1, "a", false), task(2, "b", false), task(3, "c", false)];
    assert!(mark_done(&mut tasks, 2));
    assert_eq!(tasks, vec![task(1, "a", false), task(2, "b", true), task(3, "c", false)]);
}

#[test]
fn mark_done_again_changes_nothing_and_is_true() {
    let mut tasks = vec![task(1, "a", true)];
    assert!(mark_done(&mut tasks, 1));
    assert_eq!(tasks, vec![task(1, "a", true)]);
}

#[test]
fn mark_done_of_an_absent_id_changes_nothing_and_is_false() {
    let before = vec![task(1, "a", false), task(2, "b", true)];
    let mut tasks = before.clone();
    assert!(!mark_done(&mut tasks, 3));
    assert_eq!(tasks, before);
    let mut none: Vec<Task> = Vec::new();
    assert!(!mark_done(&mut none, 1));
    assert!(none.is_empty());
}

#[test]
fn mark_done_completes_the_first_of_two_with_one_id() {
    let mut tasks = vec![task(1, "a", false), task(1, "b", false)];
    assert!(mark_done(&mut tasks, 1));
    assert_eq!(tasks, vec![task(1, "a", true), task(1, "b", false)]);
}

#[test]
fn remove_task_keeps_the_others_in_order() {
    let mut tasks = vec![task(1, "a", false), task(2, "b", true), task(3, "c", false)];
    assert!(remove_task(&mut tasks, 2));
    assert_eq!(tasks, vec![task(1, "a", false), task(3, "c", false)]);
    assert!(remove_task(&mut tasks, 1));
    assert_eq!(tasks, vec![task(3, "c", false)]);
    assert!(remove_task(&mut tasks, 3));
    assert!(tasks.is_empty());
}

#[test]
fn remove_task_of_an_absent_id_changes_nothing_and_is_false() {
    let before = vec![task(1, "a", false), task(2, "b", true)];
    let mut tasks = before.clone();
    assert!(!remove_task(&mut tasks, 9));
    assert_eq!(tasks, before);
}

#[test]
fn remove_task_removes_every_task_with_the_id() {
    let mut tasks = vec![task(1, "a", false), task(2, "b", false), task(1, "c", true)];
    assert!(remove_task(&mut tasks, 1));
    assert_eq!(tasks, vec![task(2, "b", false)]);
}

#[test]
fn buy_milk_call_mom_scenario() {
    let mut tasks: Vec<Task> = Vec::new();
    assert_eq!(add_task(&mut tasks, "buy milk".to_string()), task(1, "buy milk", false));
    assert_eq!(add_task(&mut tasks, "call mom".to_string()), task(2, "call mom", false));
    assert!(mark_done(&mut tasks, 1));
    assert!(tasks[0].done);
    let lines = todo_demo::command::format_listing(&tasks);
    assert_eq!(lines, vec!["1 [x] buy milk".to_string(), "2 [ ] call mom".to_string()]);
    assert!(remove_task(&mut tasks, 1));
    assert_eq!(tasks, vec![task(2, "call mom", false)]);
}
