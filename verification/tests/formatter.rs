use simple_todo::formatter::{Formatter, PlainText};
use simple_todo::task::Task;

#[test]
fn empty_list_returns_no_tasks_message() {
    assert_eq!(PlainText.format(&[]), "No tasks.");
}

#[test]
fn pending_task_shows_empty_checkbox() {
    let t = Task::new(1, "Buy milk".to_string());
    let out = PlainText.format(&[t]);
    assert_eq!(out, "[ ] #1: Buy milk");
}

#[test]
fn done_task_shows_x_checkbox() {
    let t = Task { id: 3, text: "Walk dog".to_string(), done: true };
    let out = PlainText.format(&[t]);
    assert_eq!(out, "[x] #3: Walk dog");
}

#[test]
fn multiple_tasks_joined_by_newline() {
    let tasks = vec![
        Task::new(1, "first".to_string()),
        Task { id: 2, text: "second".to_string(), done: true },
    ];
    let out = PlainText.format(&tasks);
    let lines: Vec<&str> = out.lines().collect();
    assert_eq!(lines.len(), 2);
    assert_eq!(lines[0], "[ ] #1: first");
    assert_eq!(lines[1], "[x] #2: second");
}

#[test]
fn all_done_list() {
    let tasks = vec![
        Task { id: 1, text: "a".to_string(), done: true },
        Task { id: 2, text: "b".to_string(), done: true },
    ];
    let out = PlainText.format(&tasks);
    assert!(out.lines().all(|l| l.starts_with("[x]")));
}

#[test]
fn id_included_in_output() {
    let t = Task::new(42, "test".to_string());
    assert!(PlainText.format(&[t]).contains("#42"));
}

#[test]
fn multi_digit_and_zero_ids_are_rendered_in_decimal() {
    let tasks = vec![
        Task::new(0, "zero".to_string()),
        Task::new(4294967295, "max".to_string()),
        Task { id: 1090, text: "tens".to_string(), done: true },
    ];
    assert_eq!(
        PlainText.format(&tasks),
        "[ ] #0: zero\n[ ] #4294967295: max\n[x] #1090: tens"
    );
}

#[test]
fn one_line_per_task_when_texts_have_no_newline() {
    let tasks: Vec<Task> = (1..=5).map(|i| Task::new(i, format!("task {i}"))).collect();
    let out = PlainText.format(&tasks);
    assert_eq!(out.split('\n').count(), 5);
    for (i, line) in out.split('\n').enumerate() {
        assert_eq!(line, format!("[ ] #{}: task {}", i + 1, i + 1));
    }
}

#[test]
fn task_text_is_kept_verbatim() {
    let t = Task::new(7, "  spaced <b>&</b> ünïcode ".to_string());
    assert_eq!(PlainText.format(&[t]), "[ ] #7:   spaced <b>&</b> ünïcode ");
}
