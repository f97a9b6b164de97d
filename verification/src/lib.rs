//! A small personal to-do list, reading list and house-projects list: the
//! list operations, the checklist rendering, the command-line behaviour and
//! the HTML helpers of the web interface, with their contracts.

pub mod api;
pub mod cli;
pub mod formatter;
pub mod html;
pub mod list;
pub mod messages;
pub mod reader;
pub mod reading;
pub mod storage;
pub mod task;
pub mod text;
