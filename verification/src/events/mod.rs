//! Events published after a command.
pub mod build_events;
