//! A bounded key-value cache with least-recently-used eviction.
//!
//! `LRU` keeps an index from key to value and slot, and a recency list of
//! slots stored in an arena, linked both ways by slot number. `State` applies
//! one request of the message protocol to a cache it owns, so that a single
//! worker can serve many callers one request at a time.
pub mod laws;
pub mod lru;
pub mod lru_node;
pub mod message;
pub mod state;

pub use lru::LRU;
pub use lru_node::LRUNode;
pub use message::{Message, MessageWrapper, Response};
pub use state::State;
