//! Append-only, hash-linked ledgers ("graphs"), one per data category, with
//! proof-of-work sealing, cross-ledger references, and a key-value persistence
//! schema that makes every ledger reconstructible from a flat store.

pub mod digits;
pub mod hashing;
pub mod block;
pub mod graph;
pub mod store;
pub mod codec;
pub mod keys;
pub mod repository;
pub mod service;
pub mod validation;
pub mod use_cases;
pub mod settings;
