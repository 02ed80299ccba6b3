//! To-do lines: a checkbox, a text, and markers at the end of the line.

pub mod fragment;
pub mod grammar;
pub mod identity;
pub mod keeping;
pub mod laws;
pub mod read_back;
pub mod reading_laws;
pub mod readings;
pub mod serialize;
pub mod splice;
pub mod syntax;
pub mod value;
pub mod writing_laws;
