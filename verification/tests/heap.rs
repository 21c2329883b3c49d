use binomial_heap::BinomialHeap;

fn drain_to_vec(heap: &mut BinomialHeap) -> Vec<u64> {
    let mut out = Vec::new();
    while let Some(x) = heap.pop() {
        out.push(x);
    }
    out
}

#[test]
fn peek_tracks_maximum_of_pushes() {
    let mut heap = BinomialHeap::new();
    let items = [4u64, 9, 2, 9, 7, 0, 11, 3];
    let mut max = 0u64;
    for (i, &x) in items.iter().enumerate() {
        heap.push(x);
        if i == 0 || x > max {
            max = x;
        }
        assert_eq!(heap.peek(), Some(&max));
    }
}

#[test]
fn len_counts_pushes_and_removals() {
    let mut heap = BinomialHeap::new();
    assert!(heap.is_empty());
    assert_eq!(heap.len(), 0);
    heap.push(8);
    heap.push(3);
    heap.push(12);
    assert_eq!(heap.len(), 3);
    assert!(!heap.is_empty());
    heap.pop();
    assert_eq!(heap.len(), 2);
    heap.push_pop(1);
    assert_eq!(heap.len(), 2);
    heap.replace(20);
    assert_eq!(heap.len(), 2);
    heap.pop();
    heap.pop();
    assert_eq!(heap.len(), 0);
    assert!(heap.is_empty());
    assert_eq!(heap.pop(), None);
    assert_eq!(heap.len(), 0);
}

#[test]
fn pops_come_out_non_increasing() {
    let mut heap = BinomialHeap::new();
    for x in [13u64, 2, 8, 8, 1, 21, 5, 13, 0, 34] {
        heap.push(x);
    }
    let popped = drain_to_vec(&mut heap);
    assert_eq!(popped.len(), 10);
    for w in popped.windows(2) {
        assert!(w[0] >= w[1]);
    }
    assert_eq!(heap.pop(), None);
    assert!(heap.is_empty());
}

#[test]
fn append_unions_contents() {
    let mut a = BinomialHeap::from_iter(vec![6u64, 1, 6, 9]);
    let mut b = BinomialHeap::from_iter(vec![2u64, 9, 4]);
    let len_a = a.len();
    let len_b = b.len();
    a.append(&mut b);
    assert_eq!(a.len(), len_a + len_b);
    assert!(b.is_empty());
    assert_eq!(b.len(), 0);
    assert_eq!(drain_to_vec(&mut a), vec![9, 9, 6, 6, 4, 2, 1]);
}

#[test]
fn append_into_empty_heap_swaps() {
    let mut a = BinomialHeap::new();
    let mut b = BinomialHeap::from_iter(vec![5u64, 7, 3]);
    a.append(&mut b);
    assert!(b.is_empty());
    assert_eq!(a.len(), 3);
    assert_eq!(drain_to_vec(&mut a), vec![7, 5, 3]);
}

#[test]
fn iter_yields_each_item_exactly_once() {
    let items = vec![10u64, 4, 4, 17, 8];
    let heap = BinomialHeap::from_iter(items.clone());
    let mut iter = heap.iter();
    assert_eq!(iter.len(), items.len());
    assert_eq!(iter.size_hint(), (items.len(), Some(items.len())));
    let mut seen = Vec::new();
    while let Some(&x) = iter.next() {
        seen.push(x);
    }
    assert!(iter.next().is_none());
    assert_eq!(iter.len(), 0);
    let mut expected = items.clone();
    expected.sort();
    seen.sort();
    assert_eq!(seen, expected);
    // The heap itself is untouched by a borrowing traversal.
    assert_eq!(heap.len(), items.len());
}

#[test]
fn into_iter_yields_each_item_exactly_once() {
    let items = vec![3u64, 15, 3, 0, 22, 9];
    let heap = BinomialHeap::from_iter(items.clone());
    let mut iter = heap.into_iter();
    assert_eq!(iter.len(), items.len());
    assert_eq!(iter.size_hint(), (items.len(), Some(items.len())));
    let mut seen = Vec::new();
    while let Some(x) = iter.next() {
        seen.push(x);
    }
    assert_eq!(iter.len(), 0);
    let mut expected = items;
    expected.sort();
    seen.sort();
    assert_eq!(seen, expected);
}

#[test]
fn drain_empties_the_heap_immediately() {
    let mut heap = BinomialHeap::from_iter(vec![5u64, 2, 8, 2]);
    let mut drain = heap.drain();
    // Before anything is consumed, the heap already reports empty.
    assert!(heap.is_empty());
    assert_eq!(heap.len(), 0);
    assert_eq!(heap.peek(), None);
    assert_eq!(drain.len(), 4);
    assert_eq!(drain.size_hint(), (4, Some(4)));
    let mut seen = Vec::new();
    while let Some(x) = drain.next() {
        seen.push(x);
    }
    assert_eq!(drain.len(), 0);
    assert!(drain.next().is_none());
    seen.sort();
    assert_eq!(seen, vec![2, 2, 5, 8]);
}

#[test]
fn dropping_an_unfinished_drain_still_leaves_the_heap_empty() {
    let mut heap = BinomialHeap::from_iter(vec![1u64, 2, 3]);
    {
        let mut drain = heap.drain();
        drain.next();
        // Dropped here with items still pending.
    }
    assert!(heap.is_empty());
    assert_eq!(heap.pop(), None);
}

#[test]
fn content_is_permutation_invariant() {
    let mut first = BinomialHeap::new();
    for x in [7u64, 1, 5, 5, 12, 3] {
        first.push(x);
    }
    let mut second = BinomialHeap::new();
    for x in [5u64, 12, 3, 7, 5, 1] {
        second.push(x);
    }
    assert_eq!(first.len(), second.len());
    assert_eq!(drain_to_vec(&mut first), drain_to_vec(&mut second));
}

#[test]
fn worked_example_push_pop_sequence() {
    let mut heap = BinomialHeap::new();
    heap.push(5);
    heap.push(1);
    heap.push(3);
    assert_eq!(heap.peek(), Some(&5));
    assert_eq!(heap.pop(), Some(5));
    assert_eq!(heap.len(), 2);
    heap.push(10);
    assert_eq!(heap.peek(), Some(&10));
    assert_eq!(heap.pop(), Some(10));
    assert_eq!(heap.pop(), Some(3));
    assert_eq!(heap.pop(), Some(1));
    assert_eq!(heap.pop(), None);
}

#[test]
fn worked_example_append() {
    let mut a = BinomialHeap::from_iter(vec![1u64, 2, 3]);
    let mut b = BinomialHeap::from_iter(vec![4u64, 5]);
    a.append(&mut b);
    assert_eq!(drain_to_vec(&mut a), vec![5, 4, 3, 2, 1]);
    assert!(b.is_empty());
}

#[test]
fn push_then_pop_all_sorts_descending() {
    let items = vec![3u64, 1, 4, 1, 5, 9, 2, 6, 5, 3, 5];
    let mut heap = BinomialHeap::from_iter(items.clone());
    let popped = drain_to_vec(&mut heap);
    let mut expected = items;
    expected.sort();
    expected.reverse();
    assert_eq!(popped, expected);
}

#[test]
fn push_pop_returns_overall_maximum() {
    let mut heap = BinomialHeap::from_iter(vec![4u64, 6]);
    assert_eq!(heap.push_pop(9), 9);
    assert_eq!(heap.len(), 2);
    assert_eq!(heap.push_pop(1), 6);
    assert_eq!(heap.len(), 2);
    let mut empty = BinomialHeap::new();
    assert_eq!(empty.push_pop(2), 2);
    assert!(empty.is_empty());
}

#[test]
fn replace_swaps_out_the_maximum() {
    let mut heap = BinomialHeap::from_iter(vec![4u64, 6]);
    assert_eq!(heap.replace(9), Some(6));
    assert_eq!(heap.len(), 2);
    assert_eq!(drain_to_vec(&mut heap), vec![9, 4]);
    let mut empty = BinomialHeap::new();
    assert_eq!(empty.replace(3), None);
    assert_eq!(empty.len(), 1);
    assert_eq!(empty.pop(), Some(3));
}

#[test]
fn clear_removes_everything() {
    let mut heap = BinomialHeap::from_iter(vec![11u64, 0, 7]);
    heap.clear();
    assert!(heap.is_empty());
    assert_eq!(heap.len(), 0);
    assert_eq!(heap.peek(), None);
    heap.push(2);
    assert_eq!(heap.pop(), Some(2));
}

#[test]
fn default_heap_is_empty() {
    let heap = BinomialHeap::default();
    assert!(heap.is_empty());
    assert_eq!(heap.len(), 0);
}

#[test]
fn empty_heap_queries_yield_no_value() {
    let mut heap = BinomialHeap::new();
    assert_eq!(heap.peek(), None);
    assert_eq!(heap.pop(), None);
    assert_eq!(heap.replace(5), None);
    // The replace above pushed 5; remove it and query again.
    assert_eq!(heap.pop(), Some(5));
    assert_eq!(heap.pop(), None);
    let mut iter = heap.iter();
    assert!(iter.next().is_none());
    assert_eq!(iter.len(), 0);
}

#[test]
fn extend_pushes_in_sequence_order() {
    let mut heap = BinomialHeap::from_iter(vec![2u64]);
    heap.extend(vec![10, 1, 7]);
    assert_eq!(heap.len(), 4);
    assert_eq!(drain_to_vec(&mut heap), vec![10, 7, 2, 1]);
    heap.extend(Vec::new());
    assert!(heap.is_empty());
}

#[test]
fn duplicate_keys_survive_merging() {
    let mut a = BinomialHeap::from_iter(vec![5u64, 5, 5]);
    let mut b = BinomialHeap::from_iter(vec![5u64, 5]);
    a.append(&mut b);
    assert_eq!(a.len(), 5);
    assert_eq!(drain_to_vec(&mut a), vec![5, 5, 5, 5, 5]);
}

#[test]
fn equal_sized_heaps_merge_correctly() {
    // Merging two heaps of equal size forces the coalescing pass through
    // its three-equal-ranks case.
    let mut a = BinomialHeap::from_iter(vec![1u64, 3, 5, 7]);
    let mut b = BinomialHeap::from_iter(vec![2u64, 4, 6, 8]);
    a.append(&mut b);
    assert_eq!(a.len(), 8);
    assert_eq!(drain_to_vec(&mut a), vec![8, 7, 6, 5, 4, 3, 2, 1]);
}

#[test]
fn large_mixed_workload_stays_consistent() {
    let mut heap = BinomialHeap::new();
    let mut model: Vec<u64> = Vec::new();
    for i in 0..200u64 {
        let x = (i * 37) % 101;
        heap.push(x);
        model.push(x);
        if i % 3 == 0 {
            let got = heap.pop();
            model.sort();
            let want = model.pop();
            assert_eq!(got, want);
        }
        assert_eq!(heap.len(), model.len());
    }
    model.sort();
    model.reverse();
    assert_eq!(drain_to_vec(&mut heap), model);
}
