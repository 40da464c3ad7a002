//! Growable and priority-ordered collections.
pub mod vec;

pub use crate::fibonacci_heap;
pub use vec::Vec;
