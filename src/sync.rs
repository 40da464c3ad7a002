//! Thread-safe shared ownership.
pub mod arc;

pub use arc::Arc;
