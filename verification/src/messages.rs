//! The messages the command line prints and the errors the HTTP interface
//! answers with, and where the lifecycle hook scripts live.
use vstd::prelude::*;
use crate::text::{decimal, push_decimal};

verus! {

/// `Added #{id}: {text}`: the confirmation of a new task.
pub fn added_message(id: u32, text: &str) -> (r: String)
    ensures
        r@ == "Added #"@ + decimal(id as nat) + ": "@ + text@,
{
    let mut s = String::new();
    s.append("Added #");
    push_decimal(&mut s, id);
    s.append(": ");
    s.append(text);
    s
}

/// `Done #{id}: {text}`: the confirmation of a task marked done.
pub fn done_message(id: u32, text: &str) -> (r: String)
    ensures
        r@ == "Done #"@ + decimal(id as nat) + ": "@ + text@,
{
    let mut s = String::new();
    s.append("Done #");
    push_decimal(&mut s, id);
    s.append(": ");
    s.append(text);
    s
}

/// `Deleted #{id}: {text}`: the confirmation of a deleted task.
pub fn deleted_message(id: u32, text: &str) -> (r: String)
    ensures
        r@ == "Deleted #"@ + decimal(id as nat) + ": "@ + text@,
{
    let mut s = String::new();
    s.append("Deleted #");
    push_decimal(&mut s, id);
    s.append(": ");
    s.append(text);
    s
}

/// `No task #{id}`: the complaint about an id no task has.
pub fn missing_task_message(id: u32) -> (r: String)
    ensures
        r@ == "No task #"@ + decimal(id as nat),
{
    let mut s = String::new();
    s.append("No task #");
    push_decimal(&mut s, id);
    s
}

/// The lists the HTTP interface serves.
#[derive(Clone, Copy, Debug, PartialEq, Eq)]
pub enum ListKind {
    Tasks,
    Reading,
    House,
}

/// How an entry of a list is named in error messages.
pub open spec fn entry_noun(kind: ListKind) -> Seq<char> {
    match kind {
        ListKind::Tasks => "task"@,
        ListKind::Reading => "reading item"@,
        ListKind::House => "house project"@,
    }
}

/// `no {entry} #{id}`: the error for an id that no entry of the list has.
pub fn not_found_message(kind: ListKind, id: u32) -> (r: String)
    ensures
        r@ == "no "@ + entry_noun(kind) + " #"@ + decimal(id as nat),
{
    let mut s = String::new();
    s.append("no ");
    match kind {
        ListKind::Tasks => s.append("task"),
        ListKind::Reading => s.append("reading item"),
        ListKind::House => s.append("house project"),
    }
    s.append(" #");
    push_decimal(&mut s, id);
    s
}

/// `hooks/{hook}.sh`: the script run after an operation, where it exists.
pub fn hook_script(hook: &str) -> (r: String)
    ensures
        r@ == "hooks/"@ + hook@ + ".sh"@,
{
    let mut s = String::new();
    s.append("hooks/");
    s.append(hook);
    s.append(".sh");
    s
}

} // verus!
