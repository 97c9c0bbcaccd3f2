//! A fuzzy-matching ranking engine.
//!
//! Given an immutable catalog of text records and a query string, the engine
//! scores every record against the query with a subsequence matcher, drops
//! the records that do not match, orders the survivors by descending score
//! (keeping catalog order among equal scores), and returns at most a fixed
//! number of results together with the matched character positions.
pub mod item;
pub mod laws;
pub mod matcher;
pub mod pipeline;
pub mod text;
