//! Laws of repeated extraction from a heap.
use vstd::prelude::*;

use crate::fibonacci_heap::element::FibHeapRef;
use crate::fibonacci_heap::inner::is_min_entry;
use crate::fibonacci_heap::HeapKey;

verus! {

/// What is left of `m` once the first `i` handles of `hs` have been removed.
pub open spec fn remaining<K, T>(m: Map<FibHeapRef, (K, T)>, hs: Seq<FibHeapRef>, i: int) -> Map<
    FibHeapRef,
    (K, T),
> {
    m.remove_keys(hs.subrange(0, i).to_set())
}

/// `hs` is an order in which the entries of `m` can be removed one by one,
/// each time taking an entry of least key among those left.
pub open spec fn is_extraction_order<K: HeapKey, T>(
    m: Map<FibHeapRef, (K, T)>,
    hs: Seq<FibHeapRef>,
) -> bool {
    forall|i: int| 0 <= i < hs.len() ==> is_min_entry(remaining(m, hs, i), #[trigger] hs[i])
}

/// Removing least entries one by one yields them in non-decreasing order of
/// key, each entry at most once; once nothing is left, every entry has been
/// yielded, so the keys come out as the sorted multiset of the keys of `m`.
pub proof fn lemma_extraction_sorted<K: HeapKey, T>(m: Map<FibHeapRef, (K, T)>, hs: Seq<FibHeapRef>)
    requires
        is_extraction_order(m, hs),
    ensures
        hs.no_duplicates(),
        forall|i: int| 0 <= i < hs.len() ==> m.contains_key(#[trigger] hs[i]),
        forall|i: int, j: int|
            0 <= i < j < hs.len() ==> #[trigger] m[hs[i]].0.key_rank() <= #[trigger] m[hs[j]].0.key_rank(),
        remaining(m, hs, hs.len() as int) == Map::<FibHeapRef, (K, T)>::empty() ==> forall|g: FibHeapRef|
            #[trigger] m.contains_key(g) ==> hs.contains(g),
{
    if remaining(m, hs, hs.len() as int) == Map::<FibHeapRef, (K, T)>::empty() {
        assert forall|g: FibHeapRef| #[trigger] m.contains_key(g) implies hs.contains(g) by {
            let all = hs.subrange(0, hs.len() as int);
            assert(all =~= hs);
            if !all.to_set().contains(g) {
                assert(remaining(m, hs, hs.len() as int).contains_key(g));
            }
        }
    }
    assert forall|j: int| 0 <= j < hs.len() implies m.contains_key(#[trigger] hs[j]) && forall|i: int|
        0 <= i < j ==> hs[i] != hs[j] by {
        assert(is_min_entry(remaining(m, hs, j), hs[j]));
        assert forall|i: int| 0 <= i < j implies hs[i] != hs[j] by {
            assert(hs.subrange(0, j)[i] == hs[i]);
            assert(hs.subrange(0, j).to_set().contains(hs[i]));
        }
    }
    assert forall|i: int, j: int| 0 <= i < j < hs.len() implies #[trigger] m[hs[i]].0.key_rank()
        <= #[trigger] m[hs[j]].0.key_rank() by {
        let ri = remaining(m, hs, i);
        assert(is_min_entry(ri, hs[i]));
        assert(is_min_entry(remaining(m, hs, j), hs[j]));
        assert(!hs.subrange(0, i).to_set().contains(hs[j])) by {
            if hs.subrange(0, i).to_set().contains(hs[j]) {
                let k = choose|k: int| 0 <= k < i && hs.subrange(0, i)[k] == hs[j];
                assert(hs[k] == hs[j]);
                assert(hs.subrange(0, j)[k] == hs[k]);
                assert(hs.subrange(0, j).to_set().contains(hs[j]));
            }
        }
        assert(!hs.subrange(0, i).to_set().contains(hs[i])) by {
            assert(remaining(m, hs, i).contains_key(hs[i]));
        }
        assert(ri.contains_key(hs[j]));
    }
    assert(hs.no_duplicates()) by {
        assert forall|a: int, b: int| 0 <= a < hs.len() && 0 <= b < hs.len() && a != b implies hs[a]
            != hs[b] by {
            if a < b {
                assert(hs.subrange(0, b)[a] == hs[a]);
                assert(hs.subrange(0, b).to_set().contains(hs[a]));
                assert(is_min_entry(remaining(m, hs, b), hs[b]));
            } else {
                assert(hs.subrange(0, a)[b] == hs[b]);
                assert(hs.subrange(0, a).to_set().contains(hs[b]));
                assert(is_min_entry(remaining(m, hs, a), hs[a]));
            }
        }
    }
}

} // verus!
