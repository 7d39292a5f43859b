//! State of the interactive browser.

pub mod app;
