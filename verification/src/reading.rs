//! Reading-list entries and where the reading list is kept.
use vstd::prelude::*;
use std::path::PathBuf;
use crate::storage::{config_file, config_path};

verus! {

/// A saved link of the reading list.
#[derive(Debug, PartialEq, Eq)]
pub struct ReadingItem {
    pub id: u32,
    pub url: String,
    pub title: String,
    pub read: bool,
}

impl Clone for ReadingItem {
    fn clone(&self) -> (r: Self)
        ensures
            r == *self,
    {
        ReadingItem {
            id: self.id,
            url: self.url.clone(),
            title: self.title.clone(),
            read: self.read,
        }
    }
}

/// The reading list kept as a JSON file at `path`.
pub struct JsonReadingList {
    pub path: PathBuf,
}

impl Default for JsonReadingList {
    /// The reading list at `todo/reading.json` under the user's configuration
    /// directory (under `.` where there is none).
    fn default() -> (r: Self)
        ensures
            exists|cfg: Option<PathBuf>| r.path == config_path(cfg, "todo"@, "reading.json"@),
    {
        JsonReadingList { path: config_file("todo", "reading.json") }
    }
}

} // verus!
