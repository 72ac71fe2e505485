//! What the helpers of the page templates compute.

pub mod navigation;
pub mod text;
pub mod toc;
