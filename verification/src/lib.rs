use vstd::prelude::*;

pub mod app;
pub mod text;
pub mod theme;
pub mod diff;
pub mod field;
pub mod layout;
pub mod nav;
pub mod status;
pub mod tree;
pub mod update;
pub mod outcome;
pub mod input;
pub mod mouse;
pub mod ui;
pub mod reply;
pub mod spinner;
pub mod commands;

verus! {
}
