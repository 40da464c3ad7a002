//! The borrow bookkeeping of a cell that hands out checked references: any
//! number of shared borrows, or one exclusive borrow, at a time.
use vstd::prelude::*;

verus! {

/// Which borrows of a cell are outstanding.
#[derive(Clone, Copy, PartialEq, Eq, Structural, Debug)]
pub enum RefCellState {
    /// No borrow.
    Unshared,
    /// One exclusive borrow.
    Exclusive,
    /// This many shared borrows, at least one.
    Shared(usize),
}

impl RefCellState {
    /// The number of outstanding shared borrows.
    pub open spec fn shared_count(self) -> nat {
        match self {
            RefCellState::Shared(n) => n as nat,
            _ => 0,
        }
    }

    /// A shared count is never zero.
    pub open spec fn wf(self) -> bool {
        match self {
            RefCellState::Shared(n) => n > 0,
            _ => true,
        }
    }
}

/// The state after taking a shared borrow, or `None` while an exclusive
/// borrow is outstanding (or when the count cannot grow further).
pub fn borrow(state: RefCellState) -> (r: Option<RefCellState>)
    requires
        state.wf(),
    ensures
        r is Some <==> (state != RefCellState::Exclusive && state.shared_count() < usize::MAX),
        r matches Some(next) ==> next.wf() && next == RefCellState::Shared(
            (state.shared_count() + 1) as usize,
        ),
{
    match state {
        RefCellState::Unshared => Some(RefCellState::Shared(1)),
        RefCellState::Shared(n) => {
            if n < usize::MAX {
                Some(RefCellState::Shared(n + 1))
            } else {
                None
            }
        },
        RefCellState::Exclusive => None,
    }
}

/// The state after taking the exclusive borrow, or `None` while any borrow
/// is outstanding.
pub fn borrow_mut(state: RefCellState) -> (r: Option<RefCellState>)
    ensures
        r is Some <==> state == RefCellState::Unshared,
        r is Some ==> r == Some(RefCellState::Exclusive),
{
    match state {
        RefCellState::Unshared => Some(RefCellState::Exclusive),
        _ => None,
    }
}

/// The state after a shared borrow ends.
pub fn release_shared(state: RefCellState) -> (r: RefCellState)
    requires
        state.wf(),
        state.shared_count() > 0,
    ensures
        r.wf(),
        r.shared_count() == state.shared_count() - 1,
        r != RefCellState::Exclusive,
        state.shared_count() == 1 <==> r == RefCellState::Unshared,
{
    match state {
        RefCellState::Shared(n) => {
            if n == 1 {
                RefCellState::Unshared
            } else {
                RefCellState::Shared(n - 1)
            }
        },
        _ => state,
    }
}

/// The state after the exclusive borrow ends.
pub fn release_exclusive(state: RefCellState) -> (r: RefCellState)
    requires
        state == RefCellState::Exclusive,
    ensures
        r == RefCellState::Unshared,
{
    RefCellState::Unshared
}

} // verus!
