//! An in-memory message board: messages with replies, likes, paginated
//! listings and totals, with every operation proved against its contract.
//! The caller's identity and the current time are arguments: whoever hosts
//! the store supplies them.

pub mod listing;
pub mod message;
pub mod model;
pub mod store;
pub mod text;
