//! Watch a directory of log files and tail the ones that grow.

use vstd::prelude::*;

pub mod applog;
pub mod bench;
pub mod blink;
pub mod buffer;
pub mod build_info;
pub mod cli;
pub mod desk;
pub mod encoding;
pub mod fskey;
pub mod glob;
pub mod gui;
pub mod launch;
pub mod layout;
pub mod notes;
pub mod os;
pub mod paths;
pub mod placement;
pub mod render;
pub mod runtime;
pub mod schedule;
pub mod search;
pub mod session;
pub mod settings;
pub mod strings;
pub mod table;
pub mod tailwin;
pub mod utf8text;
pub mod visible;
pub mod walk;
pub mod watch;

verus! {

/// The shortest accepted poll interval, in milliseconds.
pub const POLL_INTERVAL_FLOOR_MS: u32 = 100;

/// The longest accepted poll interval, in milliseconds (one minute).
pub const POLL_INTERVAL_CEILING_MS: u32 = 60_000;

} // verus!
