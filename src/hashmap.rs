//! The unordered engine.

pub mod db;
