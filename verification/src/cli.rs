//! What a command of the command-line interface does to the task list, and
//! what it reports: the lines to print, whether to save, which hook to run.
use vstd::prelude::*;
use crate::formatter::{lemma_task_line_shape, plain_text, task_line, task_lines, Formatter, PlainText};
use crate::list::{
    add_task, index_of, lemma_index_of, max_id, next_id, remove_task, set_task_done, task_ids,
    with_done,
};
use crate::messages::{added_message, deleted_message, done_message, hook_script, missing_task_message};
use crate::task::Task;
use crate::text::{decimal, push_decimal};

verus! {

/// A command of the command-line interface that works on the task list.
pub enum TaskCommand {
    /// Add a task with this text.
    Add { text: String },
    /// Show the list.
    List,
    /// Mark the task with this id done.
    Done { id: u32 },
    /// Delete the task with this id.
    Delete { id: u32 },
}

/// A lifecycle hook to run: the script and its arguments (task id, text).
pub struct HookCall {
    pub script: String,
    pub args: Vec<String>,
}

/// What a command reports: whether the list must be saved, the line for
/// standard output or standard error, and the hook to run afterwards.
pub struct Report {
    pub save: bool,
    pub out: Option<String>,
    pub err: Option<String>,
    pub hook: Option<HookCall>,
}

/// `h` runs `hooks/{name}.sh` with the task's id (in decimal) and text.
pub open spec fn hook_is(h: HookCall, name: Seq<char>, id: u32, text: Seq<char>) -> bool {
    &&& h.script@ == "hooks/"@ + name + ".sh"@
    &&& h.args@.len() == 2
    &&& h.args@[0]@ == decimal(id as nat)
    &&& h.args@[1]@ == text
}

/// `o` is a line with exactly the characters `text`.
pub open spec fn line_is(o: Option<String>, text: Seq<char>) -> bool {
    o matches Some(s) && s@ == text
}

fn hook_call(name: &str, id: u32, text: &str) -> (h: HookCall)
    ensures
        hook_is(h, name@, id, text@),
{
    let mut ids = String::new();
    push_decimal(&mut ids, id);
    let mut t = String::new();
    t.append(text);
    let mut args: Vec<String> = Vec::new();
    args.push(ids);
    args.push(t);
    assert(Seq::<char>::empty() + decimal(id as nat) =~= decimal(id as nat));
    assert(Seq::<char>::empty() + text@ =~= text@);
    HookCall { script: hook_script(name), args }
}

/// The list can take one more task: its largest id is below `u32::MAX`.
pub open spec fn can_add(tasks: Seq<Task>) -> bool {
    max_id(task_ids(tasks)) < u32::MAX
}

/// Carries out a command on the task list and says what to report.
///
/// - `Add`: appends a pending task with the next id; prints
///   `Added #{id}: {text}`; saves; runs `on_add`.
/// - `List`: prints the plain checklist; changes and saves nothing.
/// - `Done`: marks the first task with the id done; prints
///   `Done #{id}: {text}`; saves; runs `on_complete`. Without such a task:
///   `No task #{id}` on standard error, nothing changed or saved.
/// - `Delete`: removes the first task with the id; prints
///   `Deleted #{id}: {text}`; saves; runs `on_delete`. Without such a task:
///   `No task #{id}` on standard error, nothing changed or saved.
pub fn apply_command(tasks: &mut Vec<Task>, cmd: TaskCommand) -> (r: Report)
    requires
        cmd is Add ==> can_add(old(tasks)@),
    ensures
        match cmd {
            TaskCommand::Add { text } => {
                let id = next_id(task_ids(old(tasks)@)) as u32;
                &&& final(tasks)@ == old(tasks)@.push(Task { id, text, done: false })
                &&& r.save
                &&& line_is(r.out, "Added #"@ + decimal(id as nat) + ": "@ + text@)
                &&& r.err is None
                &&& r.hook matches Some(h) && hook_is(h, "on_add"@, id, text@)
            },
            TaskCommand::List => {
                &&& final(tasks)@ == old(tasks)@
                &&& !r.save
                &&& line_is(r.out, plain_text(old(tasks)@))
                &&& r.err is None
                &&& r.hook is None
            },
            TaskCommand::Done { id } => match index_of(task_ids(old(tasks)@), id) {
                Some(i) => {
                    let t = old(tasks)@[i];
                    &&& final(tasks)@ == old(tasks)@.update(i, with_done(t, true))
                    &&& r.save
                    &&& line_is(r.out, "Done #"@ + decimal(id as nat) + ": "@ + t.text@)
                    &&& r.err is None
                    &&& r.hook matches Some(h) && hook_is(h, "on_complete"@, id, t.text@)
                },
                None => {
                    &&& final(tasks)@ == old(tasks)@
                    &&& !r.save
                    &&& r.out is None
                    &&& line_is(r.err, "No task #"@ + decimal(id as nat))
                    &&& r.hook is None
                },
            },
            TaskCommand::Delete { id } => match index_of(task_ids(old(tasks)@), id) {
                Some(i) => {
                    let t = old(tasks)@[i];
                    &&& final(tasks)@ == old(tasks)@.remove(i)
                    &&& r.save
                    &&& line_is(r.out, "Deleted #"@ + decimal(id as nat) + ": "@ + t.text@)
                    &&& r.err is None
                    &&& r.hook matches Some(h) && hook_is(h, "on_delete"@, id, t.text@)
                },
                None => {
                    &&& final(tasks)@ == old(tasks)@
                    &&& !r.save
                    &&& r.out is None
                    &&& line_is(r.err, "No task #"@ + decimal(id as nat))
                    &&& r.hook is None
                },
            },
        },
{
    match cmd {
        TaskCommand::Add { text } => {
            let t = add_task(tasks, text);
            let out = added_message(t.id, t.text.as_str());
            let hook = hook_call("on_add", t.id, t.text.as_str());
            Report { save: true, out: Some(out), err: None, hook: Some(hook) }
        },
        TaskCommand::List => {
            let out = PlainText.format(tasks.as_slice());
            Report { save: false, out: Some(out), err: None, hook: None }
        },
        TaskCommand::Done { id } => match set_task_done(tasks, id, true) {
            Some(t) => {
                let out = done_message(id, t.text.as_str());
                let hook = hook_call("on_complete", id, t.text.as_str());
                Report { save: true, out: Some(out), err: None, hook: Some(hook) }
            },
            None => {
                Report { save: false, out: None, err: Some(missing_task_message(id)), hook: None }
            },
        },
        TaskCommand::Delete { id } => match remove_task(tasks, id) {
            Some(t) => {
                let out = deleted_message(id, t.text.as_str());
                let hook = hook_call("on_delete", id, t.text.as_str());
                Report { save: true, out: Some(out), err: None, hook: Some(hook) }
            },
            None => {
                Report { save: false, out: None, err: Some(missing_task_message(id)), hook: None }
            },
        },
    }
}

/// After `Done` finds its task, the checklist shows that task checked:
/// its line begins with `[x]`.
pub proof fn lemma_done_then_listed_checked(s: Seq<Task>, id: u32)
    requires
        index_of(task_ids(s), id) is Some,
    ensures
        ({
            let i = index_of(task_ids(s), id)->0;
            let s2 = s.update(i, with_done(s[i], true));
            &&& task_lines(s2)[i].take(3) == seq!['[', 'x', ']']
            &&& task_lines(s2)[i] == task_line(with_done(s[i], true))
        }),
{
    let i = index_of(task_ids(s), id)->0;
    lemma_index_of(task_ids(s), id);
    lemma_task_line_shape(with_done(s[i], true));
}

/// `Delete` renumbers nothing: the ids left are the old ones with the
/// deleted one taken out, in the same order.
pub proof fn lemma_delete_keeps_other_ids(s: Seq<Task>, id: u32)
    requires
        index_of(task_ids(s), id) is Some,
    ensures
        ({
            let i = index_of(task_ids(s), id)->0;
            task_ids(s.remove(i)) == task_ids(s).remove(i)
        }),
{
    let i = index_of(task_ids(s), id)->0;
    lemma_index_of(task_ids(s), id);
    assert(task_ids(s.remove(i)) =~= task_ids(s).remove(i));
}

} // verus!
