//! The contract every engine meets, the batch model, errors, and the facade.

pub mod batch;
pub mod db;
pub mod error;
pub mod traits;
