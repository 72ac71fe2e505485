//! What a renderer of the book needs besides its items.

pub mod html_handlebars;
