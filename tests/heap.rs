use mystd::fibonacci_heap::element::FibHeapRef;
use mystd::fibonacci_heap::error::HeapReferenceError;
use mystd::fibonacci_heap::inner::FibonacciHeapInner;
use mystd::fibonacci_heap::FibonacciHeap;

fn min_key(h: &FibonacciHeapInner<u64, u32>) -> u64 {
    *h.min().ok().unwrap().0
}

fn heap_of(name: &str, keys: &[u64]) -> FibonacciHeap<u64, u32> {
    let mut h = FibonacciHeap::new(name);
    h.with_inner(|inner| {
        for (i, k) in keys.iter().enumerate() {
            inner.insert(*k, i as u32);
        }
    })
    .ok()
    .unwrap();
    h
}

#[test]
fn spec_example_insert_extract() {
    let mut h: FibonacciHeapInner<u64, u32> = FibonacciHeapInner::new("h");
    h.insert(5, 0);
    h.insert(3, 1);
    h.insert(8, 2);
    h.insert(1, 3);
    assert_eq!(min_key(&h), 1);
    assert_eq!(h.extract_min().ok().unwrap(), (1, 3));
    assert_eq!(min_key(&h), 3);
    h.insert(0, 4);
    assert_eq!(min_key(&h), 0);
    assert_eq!(h.len(), 4);
}

#[test]
fn spec_example_union() {
    let mut h1 = FibonacciHeapInner::new("h1");
    h1.insert(1u64, 0u32);
    h1.insert(4, 1);
    let h2 = heap_of("h2", &[2, 3]);
    h1.union(h2);
    assert_eq!(h1.len(), 4);
    assert_eq!(min_key(&h1), 1);
    let mut out = Vec::new();
    while let Ok((k, _)) = h1.extract_min() {
        out.push(k);
    }
    assert_eq!(out, vec![1, 2, 3, 4]);
}

#[test]
fn union_takes_smaller_minimum_of_other() {
    let mut h1 = FibonacciHeapInner::new("h1");
    h1.insert(7u64, 0u32);
    h1.insert(9, 1);
    let h2 = heap_of("h2", &[4, 2, 6]);
    h1.union(h2);
    assert_eq!(h1.len(), 5);
    assert_eq!(min_key(&h1), 2);
}

#[test]
fn union_tie_keeps_own_minimum() {
    let mut h1 = FibonacciHeapInner::new("h1");
    h1.insert(1u64, 100u32);
    let mut h2 = FibonacciHeap::new("h2");
    h2.with_inner(|inner| {
        inner.insert(1u64, 200u32);
    })
    .ok()
    .unwrap();
    h1.union(h2);
    assert_eq!(h1.min().ok().unwrap(), (&1, &100));
}

#[test]
fn union_with_empty_sides() {
    let mut empty = FibonacciHeapInner::new("e");
    empty.union(heap_of("full", &[3, 1, 2]));
    assert_eq!(empty.len(), 3);
    assert_eq!(min_key(&empty), 1);
    let mut full = FibonacciHeapInner::new("f");
    full.insert(5u64, 0u32);
    full.union(FibonacciHeap::new("nothing"));
    assert_eq!(full.len(), 1);
    assert_eq!(min_key(&full), 5);
}

#[test]
fn empty_heap_errors() {
    let mut h: FibonacciHeapInner<u64, u32> = FibonacciHeapInner::new("h");
    assert!(h.empty());
    assert_eq!(h.len(), 0);
    assert!(matches!(h.min(), Err(HeapReferenceError::EmptyHeap)));
    assert!(matches!(h.extract_min(), Err(HeapReferenceError::EmptyHeap)));
}

#[test]
fn insert_tie_keeps_existing_minimum() {
    let mut h = FibonacciHeapInner::new("h");
    h.insert(5u64, 'a');
    h.insert(5, 'b');
    h.insert(7, 'c');
    assert_eq!(h.min().ok().unwrap(), (&5, &'a'));
}

#[test]
fn sort_by_repeated_extraction() {
    let keys: Vec<u64> = vec![42, 7, 19, 7, 3, 88, 0, 19, 56, 23, 3, 71, 14, 9, 9, 100, 1];
    let mut h = FibonacciHeapInner::new("sort");
    for (i, k) in keys.iter().enumerate() {
        h.insert(*k, i);
    }
    let mut out = Vec::new();
    while let Ok((k, _)) = h.extract_min() {
        out.push(k);
    }
    let mut sorted = keys.clone();
    sorted.sort();
    assert_eq!(out, sorted);
    assert!(h.empty());
}

#[test]
fn size_counts_inserts_and_removals() {
    let mut h = FibonacciHeapInner::new("size");
    let mut handles = Vec::new();
    for k in 0..20u64 {
        handles.push(h.insert(k * 3 % 17, k));
    }
    assert_eq!(h.len(), 20);
    h.extract_min().ok().unwrap();
    h.extract_min().ok().unwrap();
    assert_eq!(h.len(), 18);
    assert!(h.delete(&handles[10]).is_ok());
    assert_eq!(h.len(), 17);
    assert!(matches!(h.delete(&handles[10]), Err(HeapReferenceError::StaleHandle)));
    assert_eq!(h.len(), 17);
}

#[test]
fn decrease_key_below_minimum_is_extracted_next() {
    let mut h = FibonacciHeapInner::new("dk");
    let mut handles = Vec::new();
    for k in [50u64, 40, 30, 20, 10, 60, 70] {
        handles.push(h.insert(k, k as u32));
    }
    h.extract_min().ok().unwrap();
    assert!(h.decrease_key(&handles[5], 5).is_ok());
    assert_eq!(min_key(&h), 5);
    assert_eq!(h.extract_min().ok().unwrap(), (5, 60));
    assert_eq!(min_key(&h), 20);
}

#[test]
fn decrease_key_inside_a_tree_cuts_it_out() {
    let mut h = FibonacciHeapInner::new("cut");
    let mut handles = Vec::new();
    for k in 1..=16u64 {
        handles.push(h.insert(k * 10, k as u32));
    }
    assert_eq!(h.extract_min().ok().unwrap(), (10, 1));
    for i in [15usize, 14, 13, 11, 7] {
        let target = (i as u64) * 10 - 55;
        assert!(h.decrease_key(&handles[i], target).is_ok());
    }
    let mut out = Vec::new();
    while let Ok((k, _)) = h.extract_min() {
        out.push(k);
    }
    let mut expected: Vec<u64> = (2..=16u64).map(|k| k * 10).collect();
    for i in [15usize, 14, 13, 11, 7] {
        let pos = expected.iter().position(|&e| e == (i as u64 + 1) * 10).unwrap();
        expected[pos] = (i as u64) * 10 - 55;
    }
    expected.sort();
    assert_eq!(out, expected);
}

#[test]
fn decrease_key_rejects_a_larger_key() {
    let mut h = FibonacciHeapInner::new("inc");
    let a = h.insert(10u64, 0u32);
    h.insert(20, 1);
    assert!(matches!(h.decrease_key(&a, 11), Err(HeapReferenceError::KeyIncreaseRejected)));
    assert_eq!(min_key(&h), 10);
    assert!(h.decrease_key(&a, 10).is_ok());
    assert_eq!(h.len(), 2);
}

#[test]
fn stale_handle_after_extraction() {
    let mut h = FibonacciHeapInner::new("stale");
    let a = h.insert(1u64, 0u32);
    let b = h.insert(2, 1);
    assert_eq!(h.extract_min().ok().unwrap(), (1, 0));
    assert!(matches!(h.decrease_key(&a, 0), Err(HeapReferenceError::StaleHandle)));
    assert!(matches!(h.delete(&a), Err(HeapReferenceError::StaleHandle)));
    let c = h.insert(3, 2);
    assert_eq!(c.index, a.index);
    assert_ne!(c.stamp, a.stamp);
    assert!(matches!(h.decrease_key(&a, 0), Err(HeapReferenceError::StaleHandle)));
    assert!(h.decrease_key(&b, 0).is_ok());
    assert_eq!(h.delete(&c).ok().unwrap(), (3, 2));
}

#[test]
fn foreign_handle_is_stale() {
    let mut h: FibonacciHeapInner<u64, u32> = FibonacciHeapInner::new("h");
    let bogus = FibHeapRef { index: 3, stamp: 0 };
    assert!(matches!(h.delete(&bogus), Err(HeapReferenceError::StaleHandle)));
    assert!(matches!(h.decrease_key(&bogus, 1), Err(HeapReferenceError::StaleHandle)));
}

#[test]
fn delete_inner_node_returns_its_entry() {
    let mut h = FibonacciHeapInner::new("del");
    let mut handles = Vec::new();
    for k in [8u64, 3, 5, 1, 9, 2, 7, 6, 4] {
        handles.push(h.insert(k, k * 100));
    }
    assert_eq!(h.extract_min().ok().unwrap(), (1, 100));
    assert_eq!(h.delete(&handles[2]).ok().unwrap(), (5, 500));
    assert_eq!(h.delete(&handles[1]).ok().unwrap(), (3, 300));
    let mut out = Vec::new();
    while let Ok((k, _)) = h.extract_min() {
        out.push(k);
    }
    assert_eq!(out, vec![2, 4, 6, 7, 8, 9]);
}

#[test]
fn mixed_operations_match_a_sorted_model() {
    let mut h = FibonacciHeapInner::new("mixed");
    let mut model: Vec<(u64, usize)> = Vec::new();
    let mut handles: Vec<(FibHeapRef, usize)> = Vec::new();
    let mut seed: u64 = 12345;
    for step in 0..400usize {
        seed = seed.wrapping_mul(6364136223846793005).wrapping_add(1442695040888963407);
        let r = (seed >> 33) % 10;
        if r < 5 {
            let k = (seed >> 40) % 1000;
            let hd = h.insert(k, step);
            handles.push((hd, step));
            model.push((k, step));
        } else if r < 7 {
            match h.extract_min() {
                Ok((k, v)) => {
                    let least = model.iter().map(|e| e.0).min().unwrap();
                    assert_eq!(k, least);
                    let pos = model.iter().position(|e| e.1 == v).unwrap();
                    assert_eq!(model[pos].0, k);
                    model.remove(pos);
                }
                Err(e) => {
                    assert!(model.is_empty());
                    assert!(matches!(e, HeapReferenceError::EmptyHeap));
                }
            }
        } else if r < 9 {
            if !handles.is_empty() {
                let (hd, v) = handles[(seed as usize >> 3) % handles.len()];
                let live = model.iter().position(|e| e.1 == v);
                let res = h.decrease_key(&hd, (seed >> 45) % 500);
                match live {
                    Some(pos) => {
                        let nk = (seed >> 45) % 500;
                        if nk <= model[pos].0 {
                            assert!(res.is_ok());
                            model[pos].0 = nk;
                        } else {
                            assert!(matches!(res, Err(HeapReferenceError::KeyIncreaseRejected)));
                        }
                    }
                    None => assert!(matches!(res, Err(HeapReferenceError::StaleHandle))),
                }
            }
        } else if !handles.is_empty() {
            let (hd, v) = handles[(seed as usize >> 5) % handles.len()];
            let live = model.iter().position(|e| e.1 == v);
            match (h.delete(&hd), live) {
                (Ok((k, got)), Some(pos)) => {
                    assert_eq!((k, got), model[pos]);
                    model.remove(pos);
                }
                (Err(e), None) => assert!(matches!(e, HeapReferenceError::StaleHandle)),
                _ => panic!("delete disagrees with the model"),
            }
        }
        assert_eq!(h.len(), model.len());
        match h.min() {
            Ok((k, _)) => assert_eq!(*k, model.iter().map(|e| e.0).min().unwrap()),
            Err(_) => assert!(model.is_empty()),
        }
    }
}

#[test]
fn with_inner_runs_the_closure() {
    let mut h: FibonacciHeap<u64, u32> = FibonacciHeap::new("outer");
    let r = h.with_inner(|inner| {
        inner.insert(4, 1);
        inner.insert(2, 2);
        inner.len()
    });
    assert!(matches!(r, Ok(2)));
    let m = h.with_inner(|inner| inner.extract_min().ok());
    assert!(matches!(m, Ok(Some((2, 2)))));
    assert_eq!(h.into_inner().len(), 1);
}

#[test]
fn heap_keeps_its_name() {
    let h: FibonacciHeapInner<i64, ()> = FibonacciHeapInner::new("named");
    assert_eq!(h.name(), "named");
}

#[test]
fn signed_keys_order() {
    let mut h = FibonacciHeapInner::new("signed");
    for k in [3i64, -7, 0, -2, 11] {
        h.insert(k, ());
    }
    let mut out = Vec::new();
    while let Ok((k, _)) = h.extract_min() {
        out.push(k);
    }
    assert_eq!(out, vec![-7, -2, 0, 3, 11]);
}

#[test]
fn union_keeps_own_handles() {
    let mut h1 = FibonacciHeapInner::new("h1");
    let a = h1.insert(10u64, 1u32);
    let b = h1.insert(20, 2);
    h1.union(heap_of("h2", &[15, 5, 25]));
    assert_eq!(h1.len(), 5);
    assert!(h1.decrease_key(&b, 1).is_ok());
    assert_eq!(h1.min().ok().unwrap(), (&1, &2));
    assert_eq!(h1.delete(&a).ok().unwrap(), (10, 1));
    let mut out = Vec::new();
    while let Ok((k, _)) = h1.extract_min() {
        out.push(k);
    }
    assert_eq!(out, vec![1, 5, 15, 25]);
}
