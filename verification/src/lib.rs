//! Verified core of a desktop network monitor: speed formatting, tray icon
//! rendering, per-process traffic accounting and the permission state machine
//! that drives the elevated monitoring helper.
use vstd::prelude::*;

pub mod binary64;
pub mod helper_protocol;
pub mod models;
pub mod monitoring;
pub mod process_names;
pub mod process_table;
pub mod shell;
pub mod speed;
pub mod summary;
pub mod text;
pub mod tray_icon;
pub mod wide;

verus! {
} // verus!
