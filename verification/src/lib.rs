//! A fixed-length, word-packed bit array with chunked bulk transfer.
//!
//! `store` holds the array and its point operations, `transfer` the chunked
//! serialisation, merge and count that are layered on it, `word` the facts
//! about single words that both rest on, and `laws` what holds of the
//! operations taken together.

pub mod error;
pub mod laws;
pub mod store;
pub mod transfer;
pub mod word;
