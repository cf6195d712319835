//! Aymr: one contract over interchangeable in-memory key-value engines.
//!
//! Keys and values are byte strings. Every engine is seen by the contracts as a
//! finite map from keys to values; the facade `AymrDb` binds one engine, chosen
//! when it is opened, and forwards every call to it.

pub mod aymr_db;
pub mod btreemap;
pub mod bytes;
pub mod hashing;
pub mod hashmap;
pub mod laws;
pub mod table;
