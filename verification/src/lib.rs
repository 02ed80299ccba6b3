//! The rules of a note vault: to-do lines and their markers, changes to the files of the
//! vault, and the queue that holds the changes until they are on disk.

pub mod actor;
pub mod commands;
pub mod config;
pub mod db;
pub mod number;
pub mod runs;
pub mod text;
pub mod todo;
pub mod vault;
pub mod view_laws;
pub mod window;
