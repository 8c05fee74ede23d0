//! Process-level configuration data and small time utilities.

pub mod config;
pub mod time;
