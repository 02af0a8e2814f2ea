//! Queries answered from the engine state.
pub mod answer_query;
