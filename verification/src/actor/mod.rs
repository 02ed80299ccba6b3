//! The single writer of a vault: every change of a file is a [`change::ChangeSet`] that
//! waits in a queue and is then applied to what the file holds at that moment.

pub mod apply;
pub mod change;
pub mod change_laws;
pub mod edit_laws;
pub mod edits;
pub mod line_laws;
pub mod lines;
pub mod path;
pub mod queue;
pub mod queue_laws;

pub use apply::{apply, hash, FileWrite};
pub use change::{ChangeSet, Edit, Operation, WriteError};
