use todo_demo::decimal::{parse_decimal, push_decimal};
use todo_demo::task::Task;

fn task(id: u64, text: &str, done: bool) -> Task {
    Task { id, text: text.to_string(), done }
}

#[test]
fn format_line_writes_id_flag_and_text() {
    assert_eq!(task(1, "buy milk", false).format_line(), "1|0|buy milk");
    assert_eq!(task(42, "call mom", true).format_line(), "42|1|call mom");
}

#[test]
fn format_line_keeps_an_empty_text() {
    assert_eq!(task(7, "", false).format_line(), "7|0|");
}

#[test]
fn format_line_does_not_escape_the_delimiter() {
    assert_eq!(task(3, "a|b", true).format_line(), "3|1|a|b");
}

#[test]
fn format_line_writes_the_largest_id() {
    assert_eq!(task(u64::MAX, "x", false).format_line(), "18446744073709551615|0|x");
}

#[test]
fn parse_line_reads_a_well_formed_line() {
    assert_eq!(Task::parse_line("1|0|buy milk"), Some(task(1, "buy milk", false)));
    assert_eq!(Task::parse_line("42|1|call mom"), Some(task(42, "call mom", true)));
}

#[test]
fn parse_line_takes_further_delimiters_into_the_text() {
    assert_eq!(Task::parse_line("3|1|a|b|c"), Some(task(3, "a|b|c", true)));
    assert_eq!(Task::parse_line("3|1||"), Some(task(3, "|", true)));
}

#[test]
fn parse_line_accepts_an_empty_text() {
    assert_eq!(Task::parse_line("7|0|"), Some(task(7, "", false)));
}

#[test]
fn parse_line_keeps_text_beyond_ascii() {
    assert_eq!(Task::parse_line("5|0|café ☕"), Some(task(5, "café ☕", false)));
}

#[test]
fn parse_line_rejects_too_few_fields() {
    assert_eq!(Task::parse_line(""), None);
    assert_eq!(Task::parse_line("1"), None);
    assert_eq!(Task::parse_line("1|0"), None);
    assert_eq!(Task::parse_line("buy milk"), None);
}

#[test]
fn parse_line_rejects_an_id_that_is_no_number() {
    assert_eq!(Task::parse_line("x|0|text"), None);
    assert_eq!(Task::parse_line("|0|text"), None);
    assert_eq!(Task::parse_line("1a|0|text"), None);
    assert_eq!(Task::parse_line(" 1|0|text"), None);
    assert_eq!(Task::parse_line("-1|0|text"), None);
}

#[test]
fn parse_line_rejects_a_signed_id() {
    assert_eq!(Task::parse_line("+1|0|text"), None);
}

#[test]
fn parse_line_reads_leading_zeros() {
    assert_eq!(Task::parse_line("007|1|bond"), Some(task(7, "bond", true)));
}

#[test]
fn parse_line_reads_the_largest_id_and_rejects_the_next() {
    assert_eq!(
        Task::parse_line("18446744073709551615|0|x"),
        Some(task(u64::MAX, "x", false))
    );
    assert_eq!(Task::parse_line("18446744073709551616|0|x"), None);
    assert_eq!(Task::parse_line("99999999999999999999999|0|x"), None);
}

#[test]
fn parse_line_rejects_an_unknown_flag() {
    assert_eq!(Task::parse_line("1|2|text"), None);
    assert_eq!(Task::parse_line("1||text"), None);
    assert_eq!(Task::parse_line("1|01|text"), None);
    assert_eq!(Task::parse_line("1|true|text"), None);
    assert_eq!(Task::parse_line("1|x|text"), None);
}

#[test]
fn parse_line_reads_back_what_format_line_wrote() {
    for t in [
        task(1, "buy milk", false),
        task(2, "", true),
        task(u64::MAX, "a|b||c", true),
        task(0, "tab\there", false),
        task(10, "ünïcödé", false),
    ] {
        assert_eq!(Task::parse_line(&t.format_line()), Some(t));
    }
}

#[test]
fn push_decimal_appends_the_shortest_notation() {
    let mut s = String::from("n=");
    push_decimal(&mut s, 0);
    assert_eq!(s, "n=0");
    push_decimal(&mut s, 10);
    assert_eq!(s, "n=010");
    push_decimal(&mut s, 9876543210);
    assert_eq!(s, "n=0109876543210");
}

#[test]
fn parse_decimal_reads_digits_only() {
    let chars = |s: &str| s.chars().collect::<Vec<char>>();
    assert_eq!(parse_decimal(&chars("0")), Some(0));
    assert_eq!(parse_decimal(&chars("120")), Some(120));
    assert_eq!(parse_decimal(&chars("000")), Some(0));
    assert_eq!(parse_decimal(&chars("")), None);
    assert_eq!(parse_decimal(&chars("12 ")), None);
    assert_eq!(parse_decimal(&chars("１２")), None);
    assert_eq!(parse_decimal(&chars("18446744073709551615")), Some(u64::MAX));
    assert_eq!(parse_decimal(&chars("18446744073709551616")), None);
}
