[package]
name = "dispatch"
version = "0.1.0"
edition = "2021"
publish = false

[dependencies]
sysinfo = "0.29"
nix = { version = "0.29", features = ["sched", "signal", "process"] }
ratatui = "0.29"
crossterm = "0.28"
winapi = { version = "0.3", features = ["processthreadsapi", "winbase", "handleapi", "winnt"] }
