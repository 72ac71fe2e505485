//! The book as data: its items and their traversal.

pub mod bookitem;
