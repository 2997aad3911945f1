//! A single-asset limit-order matching engine.
//!
//! Incoming limit orders are matched against the opposite side of the book
//! under price-time priority: better-priced resting orders match first, and
//! among equal prices the earliest arrival matches first.  Unfilled volume
//! rests in the submitting side's book; resting orders can be cancelled by id.

pub mod book;
pub mod engine;
pub mod exchange;
pub mod queue;
pub mod types;
