//! An in-memory order matching engine with price-time priority.
pub mod models;
pub mod orderbook;
pub mod engine;
pub mod state;
pub mod laws;
pub mod replica;
pub mod key_order;
pub mod text;
pub mod api;
