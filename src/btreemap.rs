//! The ordered engine.

pub mod db;
