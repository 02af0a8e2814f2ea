//! The demo market-making bot: its settings and its decisions.
pub mod config;
pub mod engine;
pub mod sync;
pub mod setup;
