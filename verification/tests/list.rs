use simple_todo::list::{
    add_reading, add_task, find_reading, find_task, next_task_id, remove_reading, remove_task,
    reorder_tasks, set_reading_read, set_task_done,
};
use simple_todo::reading::ReadingItem;
use simple_todo::task::Task;

fn texts(tasks: &[Task]) -> Vec<&str> {
    tasks.iter().map(|t| t.text.as_str()).collect()
}

#[test]
fn create_assigns_ids_one_past_the_largest() {
    let mut tasks = Vec::new();
    assert_eq!(add_task(&mut tasks, "First".to_string()).id, 1);
    assert_eq!(add_task(&mut tasks, "Second".to_string()).id, 2);
    tasks[0].id = 40;
    assert_eq!(next_task_id(&tasks), 41);
    let t = add_task(&mut tasks, "Third".to_string());
    assert_eq!((t.id, t.done), (41, false));
    assert_eq!(tasks.last().unwrap(), &t);
}

#[test]
fn set_done_updates_first_match_only() {
    let mut tasks = vec![
        Task::new(1, "a".to_string()),
        Task::new(2, "b".to_string()),
        Task::new(2, "c".to_string()),
    ];
    let t = set_task_done(&mut tasks, 2, true).unwrap();
    assert_eq!(t, Task { id: 2, text: "b".to_string(), done: true });
    assert!(!tasks[0].done && tasks[1].done && !tasks[2].done);
    assert!(set_task_done(&mut tasks, 9, true).is_none());
    assert!(set_task_done(&mut tasks, 2, false).is_some());
    assert!(!tasks[1].done);
}

#[test]
fn remove_takes_out_the_task() {
    let mut tasks = vec![Task::new(1, "a".to_string()), Task::new(2, "b".to_string())];
    assert!(remove_task(&mut tasks, 3).is_none());
    assert_eq!(tasks.len(), 2);
    assert_eq!(remove_task(&mut tasks, 1).unwrap().text, "a");
    assert_eq!(texts(&tasks), vec!["b"]);
    assert!(find_task(&tasks, 1).is_none());
    assert_eq!(find_task(&tasks, 2), Some(0));
}

#[test]
fn reorder_follows_given_ids_and_keeps_the_rest_in_order() {
    let mut tasks: Vec<Task> =
        (1..=5).map(|i| Task::new(i, format!("t{i}"))).collect();
    reorder_tasks(&mut tasks, &vec![4, 2, 9, 4]);
    assert_eq!(texts(&tasks), vec!["t4", "t2", "t1", "t3", "t5"]);
}

#[test]
fn reorder_is_stable_for_equal_ids() {
    let mut tasks = vec![
        Task::new(1, "a".to_string()),
        Task::new(2, "b".to_string()),
        Task::new(1, "c".to_string()),
    ];
    reorder_tasks(&mut tasks, &vec![1]);
    assert_eq!(texts(&tasks), vec!["a", "c", "b"]);
    reorder_tasks(&mut tasks, &vec![]);
    assert_eq!(texts(&tasks), vec!["a", "c", "b"]);
}

#[test]
fn reading_items_get_ids_and_flags() {
    let mut items = Vec::new();
    let a = add_reading(&mut items, "https://a.com".to_string(), "A".to_string());
    let b = add_reading(&mut items, "https://b.com".to_string(), "B".to_string());
    assert_eq!((a.id, b.id), (1, 2));
    assert!(!a.read);
    let r = set_reading_read(&mut items, 2, true).unwrap();
    assert_eq!(
        r,
        ReadingItem { id: 2, url: "https://b.com".to_string(), title: "B".to_string(), read: true }
    );
    assert!(set_reading_read(&mut items, 3, true).is_none());
    assert_eq!(find_reading(&items, 2), Some(1));
    assert_eq!(remove_reading(&mut items, 1).unwrap().title, "A");
    assert!(remove_reading(&mut items, 1).is_none());
    assert_eq!(items.len(), 1);
}
