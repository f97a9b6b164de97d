//! What the HTTP interface does with a request on one of its lists: the
//! change to the list, whether the list must be saved, and the answer
//! (status code and body).
use vstd::prelude::*;
use crate::cli::can_add;
use crate::list::{
    add_reading, add_task, index_of, max_id, next_id, reading_ids, remove_reading, remove_task,
    reorder_tasks, reordered, set_reading_read, set_task_done, task_ids, with_done, with_read,
};
use crate::messages::{entry_noun, not_found_message, ListKind};
use crate::reading::ReadingItem;
use crate::task::Task;
use crate::text::decimal;

verus! {

/// A request on a task list (the tasks or the house projects).
pub enum TaskRequest {
    /// Add a task with this text.
    Create { text: String },
    /// Set the done flag of the task with this id.
    Update { id: u32, done: bool },
    /// Delete the task with this id.
    Delete { id: u32 },
    /// Put the tasks in the order of these ids.
    Reorder { ids: Vec<u32> },
}

/// A request on the reading list.
pub enum ReadingRequest {
    /// Add an item for this URL, under this title.
    Create { url: String, title: String },
    /// Set the read flag of the item with this id.
    Update { id: u32, read: bool },
    /// Delete the item with this id.
    Delete { id: u32 },
}

/// The body of an answer: an entry of the list, an error message, or
/// nothing.
pub enum Body<T> {
    Entry(T),
    Error(String),
    Empty,
}

/// The answer to a request, and whether the list must be saved first.
pub struct Answer<T> {
    pub status: u16,
    pub save: bool,
    pub body: Body<T>,
}

/// `a` answers that no entry of the list has the id: status 404, the list
/// not saved, and the error `no {entry} #{id}`.
pub open spec fn is_not_found<T>(a: Answer<T>, kind: ListKind, id: u32) -> bool {
    &&& a.status == 404
    &&& !a.save
    &&& a.body matches Body::Error(m) && m@ == "no "@ + entry_noun(kind) + " #"@ + decimal(
        id as nat,
    )
}

/// `a` answers with `status`, the list saved, and `body`.
pub open spec fn is_saved<T>(a: Answer<T>, status: u16, body: Body<T>) -> bool {
    a.status == status && a.save && a.body == body
}

fn not_found<T>(kind: ListKind, id: u32) -> (a: Answer<T>)
    ensures
        is_not_found(a, kind, id),
{
    Answer { status: 404, save: false, body: Body::Error(not_found_message(kind, id)) }
}

/// Carries out a request on a task list of kind `kind`.
///
/// - `Create`: appends a pending task with the next id; 201 with the task;
///   saved.
/// - `Update`: sets the done flag of the first task with the id; 200 with the
///   updated task; saved. Without such a task: 404, nothing changed or saved.
/// - `Delete`: removes the first task with the id; 204 with no body; saved.
///   Without such a task: 404, nothing changed or saved.
/// - `Reorder`: puts the tasks in the order of the ids; 200 with no body;
///   saved.
pub fn handle_task_request(tasks: &mut Vec<Task>, kind: ListKind, req: TaskRequest) -> (a: Answer<
    Task,
>)
    requires
        req is Create ==> can_add(old(tasks)@),
    ensures
        match req {
            TaskRequest::Create { text } => {
                let t = Task { id: next_id(task_ids(old(tasks)@)) as u32, text, done: false };
                &&& final(tasks)@ == old(tasks)@.push(t)
                &&& is_saved(a, 201, Body::Entry(t))
            },
            TaskRequest::Update { id, done } => match index_of(task_ids(old(tasks)@), id) {
                Some(i) => {
                    let t = with_done(old(tasks)@[i], done);
                    &&& final(tasks)@ == old(tasks)@.update(i, t)
                    &&& is_saved(a, 200, Body::Entry(t))
                },
                None => final(tasks)@ == old(tasks)@ && is_not_found(a, kind, id),
            },
            TaskRequest::Delete { id } => match index_of(task_ids(old(tasks)@), id) {
                Some(i) => final(tasks)@ == old(tasks)@.remove(i) && is_saved(a, 204, Body::Empty),
                None => final(tasks)@ == old(tasks)@ && is_not_found(a, kind, id),
            },
            TaskRequest::Reorder { ids } => {
                &&& final(tasks)@ == reordered(old(tasks)@, ids@)
                &&& is_saved(a, 200, Body::Empty)
            },
        },
{
    match req {
        TaskRequest::Create { text } => {
            let t = add_task(tasks, text);
            Answer { status: 201, save: true, body: Body::Entry(t) }
        },
        TaskRequest::Update { id, done } => match set_task_done(tasks, id, done) {
            Some(t) => Answer { status: 200, save: true, body: Body::Entry(t) },
            None => not_found(kind, id),
        },
        TaskRequest::Delete { id } => match remove_task(tasks, id) {
            Some(_) => Answer { status: 204, save: true, body: Body::Empty },
            None => not_found(kind, id),
        },
        TaskRequest::Reorder { ids } => {
            reorder_tasks(tasks, &ids);
            Answer { status: 200, save: true, body: Body::Empty }
        },
    }
}

/// Carries out a request on the reading list.
///
/// - `Create`: appends an unread item with the next id; 201 with the item;
///   saved.
/// - `Update`: sets the read flag of the first item with the id; 200 with
///   the updated item; saved. Without such an item: 404, nothing changed or
///   saved.
/// - `Delete`: removes the first item with the id; 204 with no body; saved.
///   Without such an item: 404, nothing changed or saved.
pub fn handle_reading_request(items: &mut Vec<ReadingItem>, req: ReadingRequest) -> (a: Answer<
    ReadingItem,
>)
    requires
        req is Create ==> max_id(reading_ids(old(items)@)) < u32::MAX,
    ensures
        match req {
            ReadingRequest::Create { url, title } => {
                let r = ReadingItem {
                    id: next_id(reading_ids(old(items)@)) as u32,
                    url,
                    title,
                    read: false,
                };
                &&& final(items)@ == old(items)@.push(r)
                &&& is_saved(a, 201, Body::Entry(r))
            },
            ReadingRequest::Update { id, read } => match index_of(reading_ids(old(items)@), id) {
                Some(i) => {
                    let r = with_read(old(items)@[i], read);
                    &&& final(items)@ == old(items)@.update(i, r)
                    &&& is_saved(a, 200, Body::Entry(r))
                },
                None => final(items)@ == old(items)@ && is_not_found(a, ListKind::Reading, id),
            },
            ReadingRequest::Delete { id } => match index_of(reading_ids(old(items)@), id) {
                Some(i) => final(items)@ == old(items)@.remove(i) && is_saved(a, 204, Body::Empty),
                None => final(items)@ == old(items)@ && is_not_found(a, ListKind::Reading, id),
            },
        },
{
    match req {
        ReadingRequest::Create { url, title } => {
            let r = add_reading(items, url, title);
            Answer { status: 201, save: true, body: Body::Entry(r) }
        },
        ReadingRequest::Update { id, read } => match set_reading_read(items, id, read) {
            Some(r) => Answer { status: 200, save: true, body: Body::Entry(r) },
            None => not_found(ListKind::Reading, id),
        },
        ReadingRequest::Delete { id } => match remove_reading(items, id) {
            Some(_) => Answer { status: 204, save: true, body: Body::Empty },
            None => not_found(ListKind::Reading, id),
        },
    }
}

} // verus!
