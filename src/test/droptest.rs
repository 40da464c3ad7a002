//! A value that reports, through a separate indicator, whether it has been
//! dropped.
use vstd::prelude::*;

use crate::cell::Cell;
use crate::rc::Rc;

verus! {

const ALIVE: bool = true;

const DROPPED: bool = false;

/// Tells whether the paired `DropTest` still exists.
pub struct DropTestIndicator {
    cell: Rc<Cell<bool>>,
}

impl DropTestIndicator {
    /// Whether the paired `DropTest` has not been dropped yet.
    pub fn is_alive(&self) -> bool {
        self.cell.get().get() == ALIVE
    }
}

/// A value whose drop is observed by its `DropTestIndicator`.
pub struct DropTest {
    indicator: Rc<Cell<bool>>,
}

impl DropTest {
    /// A fresh value and the indicator that watches it.
    pub fn new() -> (DropTestIndicator, DropTest) {
        let cell = Rc::new(Cell::new(ALIVE));
        let indicator = DropTestIndicator { cell: cell.clone() };
        let droptest = DropTest { indicator: cell };
        (indicator, droptest)
    }
}

impl Drop for DropTest {
    fn drop(&mut self)
        opens_invariants none
        no_unwind
    {
        self.indicator.get().set(DROPPED);
    }
}

} // verus!
