//! Measures what each editor plugin adds to start-up time: reads the traces
//! that `vim --startuptime` writes, attributes the time of every sourced
//! script to the plugin that owns it and keeps per-plugin statistics over
//! repeated runs.
//!
//! All durations are whole nanoseconds held in `u64`.

pub mod accumulator;
pub mod command;
pub mod duration;
pub mod error;
pub mod export;
pub mod format;
pub mod pattern;
pub mod plugin;
pub mod plugins;
pub mod printer;
pub mod root;
pub mod statistics;
pub mod stats;
pub mod text;
pub mod timing;
pub mod trace;
pub mod utils;
pub mod worker;

pub use command::Command;
pub use error::Error;
pub use plugin::Plugin;
pub use plugins::Plugins;
pub use printer::Printer;
pub use stats::Stats;
pub use worker::Worker;
