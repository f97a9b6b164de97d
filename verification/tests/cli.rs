use simple_todo::cli::{apply_command, Report, TaskCommand};
use simple_todo::task::Task;

fn run(tasks: &mut Vec<Task>, cmd: TaskCommand) -> Report {
    apply_command(tasks, cmd)
}

fn add(tasks: &mut Vec<Task>, text: &str) -> Report {
    run(tasks, TaskCommand::Add { text: text.to_string() })
}

fn list(tasks: &mut Vec<Task>) -> String {
    let r = run(tasks, TaskCommand::List);
    assert!(!r.save && r.err.is_none() && r.hook.is_none());
    r.out.unwrap()
}

#[test]
fn list_with_no_tasks_prints_no_tasks() {
    let mut tasks = Vec::new();
    assert!(list(&mut tasks).contains("No tasks."));
}

#[test]
fn add_prints_confirmation() {
    let mut tasks = Vec::new();
    let r = add(&mut tasks, "Buy groceries");
    assert!(r.out.unwrap().contains("Added #1: Buy groceries"));
    assert!(r.save);
}

#[test]
fn add_then_list_shows_task() {
    let mut tasks = Vec::new();
    add(&mut tasks, "Walk the dog");
    let out = list(&mut tasks);
    assert!(out.contains("Walk the dog"));
    assert!(out.contains("[ ]"));
}

#[test]
fn add_multiple_increments_ids() {
    let mut tasks = Vec::new();
    assert!(add(&mut tasks, "First").out.unwrap().contains("#1"));
    assert!(add(&mut tasks, "Second").out.unwrap().contains("#2"));
    assert!(add(&mut tasks, "Third").out.unwrap().contains("#3"));
}

#[test]
fn add_multiple_all_appear_in_list() {
    let mut tasks = Vec::new();
    add(&mut tasks, "Alpha");
    add(&mut tasks, "Beta");
    add(&mut tasks, "Gamma");
    let out = list(&mut tasks);
    assert!(out.contains("Alpha"));
    assert!(out.contains("Beta"));
    assert!(out.contains("Gamma"));
}

#[test]
fn done_prints_confirmation() {
    let mut tasks = Vec::new();
    add(&mut tasks, "Finish report");
    let r = run(&mut tasks, TaskCommand::Done { id: 1 });
    assert!(r.out.unwrap().contains("Done #1: Finish report"));
}

#[test]
fn done_marks_task_with_x_in_list() {
    let mut tasks = Vec::new();
    add(&mut tasks, "Read book");
    run(&mut tasks, TaskCommand::Done { id: 1 });
    assert!(list(&mut tasks).contains("[x] #1: Read book"));
}

#[test]
fn done_on_nonexistent_id_prints_to_stderr() {
    let mut tasks = Vec::new();
    let r = run(&mut tasks, TaskCommand::Done { id: 99 });
    assert!(r.err.unwrap().contains("No task #99"));
    assert!(r.out.is_none() && !r.save && r.hook.is_none());
}

#[test]
fn done_only_marks_target_task() {
    let mut tasks = Vec::new();
    add(&mut tasks, "Task A");
    add(&mut tasks, "Task B");
    run(&mut tasks, TaskCommand::Done { id: 1 });
    let out = list(&mut tasks);
    assert!(out.contains("[x] #1: Task A"));
    assert!(out.contains("[ ] #2: Task B"));
}

#[test]
fn delete_prints_confirmation() {
    let mut tasks = Vec::new();
    add(&mut tasks, "Temp task");
    let r = run(&mut tasks, TaskCommand::Delete { id: 1 });
    assert!(r.out.unwrap().contains("Deleted #1: Temp task"));
}

#[test]
fn delete_removes_task_from_list() {
    let mut tasks = Vec::new();
    add(&mut tasks, "Keep");
    add(&mut tasks, "Remove");
    run(&mut tasks, TaskCommand::Delete { id: 2 });
    let out = list(&mut tasks);
    assert!(out.contains("Keep"));
    assert!(!out.contains("Remove"));
}

#[test]
fn delete_on_nonexistent_id_prints_to_stderr() {
    let mut tasks = Vec::new();
    let r = run(&mut tasks, TaskCommand::Delete { id: 42 });
    assert!(r.err.unwrap().contains("No task #42"));
}

#[test]
fn delete_all_tasks_shows_empty_list() {
    let mut tasks = Vec::new();
    add(&mut tasks, "Only task");
    run(&mut tasks, TaskCommand::Delete { id: 1 });
    assert!(list(&mut tasks).contains("No tasks."));
}

#[test]
fn done_task_can_be_deleted() {
    let mut tasks = Vec::new();
    add(&mut tasks, "Done then gone");
    run(&mut tasks, TaskCommand::Done { id: 1 });
    run(&mut tasks, TaskCommand::Delete { id: 1 });
    assert!(list(&mut tasks).contains("No tasks."));
}

#[test]
fn ids_are_stable_after_delete() {
    let mut tasks = Vec::new();
    add(&mut tasks, "First");
    add(&mut tasks, "Second");
    run(&mut tasks, TaskCommand::Delete { id: 1 });
    assert!(list(&mut tasks).contains("#2: Second"));
}

#[test]
fn hooks_carry_id_and_text() {
    let mut tasks = Vec::new();
    let h = add(&mut tasks, "Water plants").hook.unwrap();
    assert_eq!(h.script, "hooks/on_add.sh");
    assert_eq!(h.args, vec!["1".to_string(), "Water plants".to_string()]);
    let h = run(&mut tasks, TaskCommand::Done { id: 1 }).hook.unwrap();
    assert_eq!(h.script, "hooks/on_complete.sh");
    assert_eq!(h.args, vec!["1".to_string(), "Water plants".to_string()]);
    let h = run(&mut tasks, TaskCommand::Delete { id: 1 }).hook.unwrap();
    assert_eq!(h.script, "hooks/on_delete.sh");
    assert_eq!(h.args, vec!["1".to_string(), "Water plants".to_string()]);
}

#[test]
fn add_after_deleting_the_largest_id_reuses_it() {
    let mut tasks = Vec::new();
    add(&mut tasks, "a");
    add(&mut tasks, "b");
    run(&mut tasks, TaskCommand::Delete { id: 2 });
    assert!(add(&mut tasks, "c").out.unwrap().contains("Added #2: c"));
}
