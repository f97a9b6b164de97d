//! A task: a numbered line of text that is either pending or done.
use vstd::prelude::*;

verus! {

/// A task of the list.
#[derive(Debug, PartialEq, Eq)]
pub struct Task {
    pub id: u32,
    pub text: String,
    pub done: bool,
}

impl Task {
    /// A pending task with the given id and text.
    pub fn new(id: u32, text: String) -> (t: Task)
        ensures
            t.id == id,
            t.text == text,
            !t.done,
    {
        Task { id, text, done: false }
    }
}

impl Clone for Task {
    fn clone(&self) -> (r: Self)
        ensures
            r == *self,
    {
        Task { id: self.id, text: self.text.clone(), done: self.done }
    }
}

} // verus!
