//! Verified core of a terminal system monitor: bounded sample histories,
//! per-interval byte counts, the tab / scroll / sort state of the viewer, the order
//! of the process table and the text shown for byte counts.

pub mod history;
pub mod app;
pub mod order;
pub mod text;
pub mod ui;
