use vstd::prelude::*;

pub mod binds;
mod bits;
pub mod collections;
pub mod config;
pub mod display;
pub mod errors;
pub mod event;
pub mod help;
pub mod keys;
pub mod mode_filter;
pub mod padding;
pub mod picker;
pub mod preview;
pub mod previewer;
pub mod render;
pub mod results;
pub mod rows;
pub mod semantic;
pub mod split;
pub mod status;
pub mod strings;
pub mod text;
pub mod tui;
pub mod ui;
pub mod utils;
pub mod widths;
pub mod worker;

verus! {

} // verus!
