//! The commands the engine applies.
pub mod apply_command;
pub mod credit_balance;
pub mod create_order;
pub mod cancel_order;
