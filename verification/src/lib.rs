//! A relay core: a bounded per-identity circular log and a
//! hash-then-encrypt transport codec over a pre-shared symmetric key.
//!
//! The store keeps only the most recent entries per identity; the codec
//! wraps every payload crossing the boundary in a digest-plus-ciphertext
//! envelope under a 16-byte pre-shared key.

pub mod config;
pub mod crypto_functional;
pub mod models;
pub mod storage;
