//! A small task tracker: an ordered collection of tasks with automatic ids, a line-oriented
//! text encoding of that collection, the steps that save it without ever leaving half a
//! file behind, and the commands that a user gives.
//!
//! The library does no input or output. It computes what is to be written, read, saved and
//! printed; the program around it touches the file system and the terminal.

pub mod command;
pub mod decimal;
pub mod persist;
pub mod storage;
pub mod store;
pub mod task;
pub mod text;
pub mod utf8;
