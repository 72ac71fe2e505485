//! Compiles an indentation-structured book outline into a tree of book items
//! and offers the traversals and page helpers that a renderer builds on.

pub mod book;
pub mod parse;
pub mod path;
pub mod renderer;
pub mod source;
pub mod text;
