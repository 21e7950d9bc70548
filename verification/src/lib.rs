//! Core-affinity planning for a process manager: the decisions behind the
//! eco, performance, gaming and auto-balance modes, the parsers for its
//! priority list and configuration file, and the state machine of its
//! terminal interface.

pub mod affinity;
pub mod app_state;
pub mod config;
pub mod masks;
pub mod modes;
pub mod process;
pub mod ranking;
pub mod text;
