//! The atomically reference-counted pointer, also reachable from `sync`.
pub use crate::sync::arc::Arc;
