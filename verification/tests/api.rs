use simple_todo::api::{
    handle_reading_request, handle_task_request, Body, ReadingRequest, TaskRequest,
};
use simple_todo::messages::ListKind;
use simple_todo::reading::ReadingItem;
use simple_todo::task::Task;

fn two_tasks() -> Vec<Task> {
    vec![Task::new(1, "a".to_string()), Task::new(2, "b".to_string())]
}

#[test]
fn create_request_answers_created_and_saves() {
    let mut tasks = two_tasks();
    let a = handle_task_request(&mut tasks, ListKind::Tasks, TaskRequest::Create { text: "c".to_string() });
    assert_eq!((a.status, a.save), (201, true));
    let expected = Task::new(3, "c".to_string());
    assert!(matches!(a.body, Body::Entry(ref t) if *t == expected));
    assert_eq!(tasks.len(), 3);
    assert_eq!(tasks[2], expected);
}

#[test]
fn update_request_answers_the_updated_task() {
    let mut tasks = two_tasks();
    let a = handle_task_request(&mut tasks, ListKind::House, TaskRequest::Update { id: 2, done: true });
    assert_eq!((a.status, a.save), (200, true));
    assert!(matches!(a.body, Body::Entry(ref t) if t.id == 2 && t.done && t.text == "b"));
    assert!(tasks[1].done && !tasks[0].done);
}

#[test]
fn unknown_id_answers_not_found_without_saving() {
    let mut tasks = two_tasks();
    let a = handle_task_request(&mut tasks, ListKind::Tasks, TaskRequest::Update { id: 9, done: true });
    assert_eq!((a.status, a.save), (404, false));
    assert!(matches!(a.body, Body::Error(ref m) if m == "no task #9"));
    let a = handle_task_request(&mut tasks, ListKind::House, TaskRequest::Delete { id: 7 });
    assert_eq!((a.status, a.save), (404, false));
    assert!(matches!(a.body, Body::Error(ref m) if m == "no house project #7"));
    assert_eq!(tasks, two_tasks());
}

#[test]
fn delete_request_answers_no_content() {
    let mut tasks = two_tasks();
    let a = handle_task_request(&mut tasks, ListKind::Tasks, TaskRequest::Delete { id: 1 });
    assert_eq!((a.status, a.save), (204, true));
    assert!(matches!(a.body, Body::Empty));
    assert_eq!(tasks, vec![Task::new(2, "b".to_string())]);
}

#[test]
fn reorder_request_saves_the_new_order() {
    let mut tasks = two_tasks();
    let a = handle_task_request(&mut tasks, ListKind::Tasks, TaskRequest::Reorder { ids: vec![2, 1] });
    assert_eq!((a.status, a.save), (200, true));
    assert!(matches!(a.body, Body::Empty));
    assert_eq!(tasks.iter().map(|t| t.id).collect::<Vec<_>>(), vec![2, 1]);
}

#[test]
fn reading_requests_follow_the_same_answers() {
    let mut items: Vec<ReadingItem> = Vec::new();
    let a = handle_reading_request(
        &mut items,
        ReadingRequest::Create { url: "https://x.org/a".to_string(), title: "A".to_string() },
    );
    assert_eq!((a.status, a.save), (201, true));
    assert!(matches!(a.body, Body::Entry(ref r) if r.id == 1 && !r.read && r.title == "A"));
    let a = handle_reading_request(&mut items, ReadingRequest::Update { id: 1, read: true });
    assert_eq!((a.status, a.save), (200, true));
    assert!(items[0].read);
    let a = handle_reading_request(&mut items, ReadingRequest::Delete { id: 5 });
    assert_eq!((a.status, a.save), (404, false));
    assert!(matches!(a.body, Body::Error(ref m) if m == "no reading item #5"));
    let a = handle_reading_request(&mut items, ReadingRequest::Delete { id: 1 });
    assert_eq!((a.status, a.save), (204, true));
    assert!(items.is_empty());
}
