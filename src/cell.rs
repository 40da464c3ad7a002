//! A shared, copy-in/copy-out mutable cell.
use vstd::prelude::*;

pub mod refcell;

verus! {

/// Lets `std::cell::Cell` be held in a field; its contents stay opaque.
#[verifier::external_type_specification]
#[verifier::external_body]
#[verifier::reject_recursive_types(T)]
pub struct ExStdCell<T: ?Sized>(std::cell::Cell<T>);

/// Relies on std::cell::Cell::new: a cell that holds `value`.
#[verifier::external_body]
fn std_cell_new<T>(value: T) -> std::cell::Cell<T> {
    std::cell::Cell::new(value)
}

/// Relies on std::cell::Cell::set: stores `value` in the cell. The old value
/// is a `Copy` value, so dropping it runs no code and cannot unwind.
#[verifier::external_body]
fn std_cell_set<T: Copy>(c: &std::cell::Cell<T>, value: T)
    opens_invariants none
    no_unwind
{
    c.set(value)
}

/// Relies on std::cell::Cell::get: a copy of the value in the cell.
#[verifier::external_body]
fn std_cell_get<T: Copy>(c: &std::cell::Cell<T>) -> T {
    c.get()
}

/// A mutable cell that can be written through shared references; values go
/// in and come out by copy, so no reference into it is ever handed out.
#[verifier::reject_recursive_types(T)]
pub struct Cell<T> {
    value: std::cell::Cell<T>,
}

impl<T> Cell<T> {
    /// A cell that holds `value`.
    pub fn new(value: T) -> Self {
        Cell { value: std_cell_new(value) }
    }

    /// Replaces the value in the cell.
    pub fn set(&self, value: T) where T: Copy
        opens_invariants none
        no_unwind
    {
        std_cell_set(&self.value, value)
    }

    /// A copy of the value in the cell.
    pub fn get(&self) -> T where T: Copy {
        std_cell_get(&self.value)
    }
}

} // verus!
