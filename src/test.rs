//! Helpers for exercising the library.
use vstd::prelude::*;

pub mod droptest;

pub use droptest::{DropTest, DropTestIndicator};

verus! {

/// Runs `test` once for each iteration number `0..iterations` and collects
/// the results in order. At least one iteration is required.
pub fn test_repeated<F, R>(name: &str, iterations: usize, test: F) -> (r: std::vec::Vec<R>) where
    F: Fn(usize) -> R,

    requires
        iterations > 0,
        forall|i: usize| i < iterations ==> test.requires((i,)),
    ensures
        r.len() == iterations,
        forall|i: int| 0 <= i < iterations ==> test.ensures((i as usize,), #[trigger] r[i]),
{
    let _ = name;
    let mut results: std::vec::Vec<R> = std::vec::Vec::new();
    let mut iteration: usize = 0;
    while iteration < iterations
        invariant
            iteration <= iterations,
            results.len() == iteration,
            forall|i: usize| i < iterations ==> test.requires((i,)),
            forall|i: int| 0 <= i < iteration ==> test.ensures((i as usize,), #[trigger] results[i]),
        decreases iterations - iteration,
    {
        let res = test(iteration);
        results.push(res);
        iteration = iteration + 1;
    }
    results
}

} // verus!
