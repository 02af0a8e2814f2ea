//! Book and arithmetic helpers of the engine.
pub mod quote_notional;
pub mod remove_from_book;
pub mod order_id;
pub mod settle;
pub mod take_fill;
pub mod match_order;
pub mod rest_on_book;
pub mod text_order;
pub mod level_map;
pub mod diff_book_levels;
