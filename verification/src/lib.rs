//! A day planner: timed tasks, kept in a plain text file in the order of
//! their times, and listed back.
//!
//! The library holds the rules of the planner and none of its input or
//! output: it is handed what was typed and what the file holds, and hands
//! back what is to be printed and what the file is to hold.

pub mod app;
pub mod container;
pub mod entry;
pub mod error;
pub mod list_view;
pub mod model;
pub mod round_trip;
pub mod sorting;
pub mod storage;
pub mod text;
pub mod time;

pub use app::{App, Stage};
pub use container::Container;
pub use entry::{Entry, EntryTrait};
pub use error::AppError;
pub use list_view::ListView;
pub use model::{Action, AddEntryModel, Dialog, HelloModel, ModelTrait, ViewListEntryModel};
pub use storage::{Reading, Storage};
pub use time::parse_time;
