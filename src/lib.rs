//! Collections and shared-ownership building blocks, centred on a Fibonacci heap.
pub mod arc;
pub mod cell;
pub mod collections;
pub mod fibonacci_heap;
pub mod rc;
pub mod sync;
pub mod test;
