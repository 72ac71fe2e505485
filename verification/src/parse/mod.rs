//! Reading what a person wrote: the outline of a book.

pub mod depth;
pub mod summary;
