//! A small stack-based byte-code interpreter, an extension of it with counted
//! loops, and the file-name test behind a search for files by extension.
//!
//! Instructions can be added that run operations of the caller's own.
//!
//! Every executable function here is verified against a mathematical model of
//! the language, written as spec functions over sequences of characters.

pub mod text;
pub mod table;
pub mod interpreter;
pub mod interpreter_with_loops;
pub mod filter_by_extension;
pub mod custom;
