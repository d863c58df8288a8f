//! A small verified quote-keeping core: quotes tagged with categories,
//! held as an ordered in-memory collection, with category filtering,
//! substring search, canonical sorting with deduplication, and a durable
//! text persistence format.
//!
//! The windowed presentation shell is an unverified collaborator; it calls
//! into this crate with plain values (quote text, category selections,
//! search terms) and renders whatever comes back.

pub mod category;
pub mod codec;
pub mod db;
pub mod exporter;
pub mod order;
pub mod quote;
pub mod shell;
