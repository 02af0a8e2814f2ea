//! A verified matching engine for a spot exchange: balances, order books,
//! price-time priority matching, ledger intents, queries, book-change
//! events, snapshots and the decisions of a demo market-making bot.
pub mod bot;
pub mod commands;
pub mod events;
pub mod external;
pub mod helper;
pub mod laws;
pub mod listing;
pub mod ledger;
pub mod memory;
pub mod queries;
pub mod solvency;
pub mod types;
