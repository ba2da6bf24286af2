//! Comparison of two directory trees: classification of every entry, a
//! navigation model for a two-pane browser, and the lines shown for the
//! selected entry.

pub mod status;
pub mod paths;
pub mod render;
pub mod differ;
pub mod app;
