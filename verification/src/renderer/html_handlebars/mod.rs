//! The parts of the HTML renderer that compute text from text.

pub mod hbs_renderer;
pub mod helpers;
