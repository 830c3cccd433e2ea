use fibonacci_heap::heap::FibonacciHeap;
use fibonacci_heap::tree::InternalTree;

fn heap_of(keys: &[u64]) -> FibonacciHeap<u64> {
    let mut heap = FibonacciHeap::init();
    for key in keys {
        heap.push(*key);
    }
    heap
}

fn drain(heap: &mut FibonacciHeap<u64>) -> Vec<u64> {
    let mut out = Vec::new();
    while let Some(key) = heap.pop() {
        out.push(key);
    }
    out
}

fn count_keys(tree: &InternalTree<u64>) -> usize {
    let mut total = 1;
    for child in tree.children_list() {
        total += count_keys(child);
    }
    total
}

#[test]
fn keys_come_out_in_ascending_order() {
    let keys = [9, 4, 7, 4, 0, 15, 3, 3, 8, 1, 12, 6, 2, 11, 5, 10, 14, 13, 7];
    let mut heap = heap_of(&keys);

    let out = drain(&mut heap);

    let mut expected = keys.to_vec();
    expected.sort();
    assert_eq!(out, expected);
    assert_eq!(heap.pop(), None);
    assert_eq!(heap.size(), 0);
    assert!(heap.is_empty());
}

#[test]
fn size_counts_pushes_and_pops() {
    let mut heap: FibonacciHeap<u64> = FibonacciHeap::init();
    assert!(heap.is_empty());
    for k in 0..20 {
        assert_eq!(heap.size(), k);
        heap.push((k as u64 * 7) % 11);
    }
    assert_eq!(heap.size(), 20);
    assert!(!heap.is_empty());
    for k in 0..20 {
        assert!(heap.pop().is_some());
        assert_eq!(heap.size(), 19 - k);
    }
    assert_eq!(heap.pop(), None);
    assert_eq!(heap.size(), 0);
}

#[test]
fn merge_adds_sizes_and_keeps_the_smaller_minimum() {
    let merged = FibonacciHeap::merge(heap_of(&[5, 8, 6]), heap_of(&[7, 3]));
    assert_eq!(merged.size(), 5);
    assert_eq!(*merged.min_pointer.as_ref().unwrap().peek_payload(), Some(3));

    let merged = FibonacciHeap::merge(heap_of(&[2, 9]), heap_of(&[4, 4, 4]));
    assert_eq!(merged.size(), 5);
    assert_eq!(*merged.min_pointer.as_ref().unwrap().peek_payload(), Some(2));
    assert_eq!(
        FibonacciHeap::preorder(&merged),
        String::from("Min: 2\nTree 1: 9\nTree 2: 4\nTree 3: 4\nTree 4: 4\n")
    );
}

#[test]
fn merge_with_an_empty_heap_returns_the_other() {
    let merged = FibonacciHeap::merge(heap_of(&[]), heap_of(&[2, 1]));
    assert_eq!(merged.size(), 2);
    assert_eq!(
        FibonacciHeap::preorder(&merged),
        String::from("Min: 1\nTree 1: 2\n")
    );

    let merged = FibonacciHeap::merge(heap_of(&[2, 1]), heap_of(&[]));
    assert_eq!(merged.size(), 2);
    assert_eq!(
        FibonacciHeap::preorder(&merged),
        String::from("Min: 1\nTree 1: 2\n")
    );

    let mut merged = FibonacciHeap::merge(heap_of(&[]), heap_of(&[]));
    assert_eq!(merged.size(), 0);
    assert!(merged.min_pointer.is_none());
    assert_eq!(FibonacciHeap::preorder(&merged), String::from(""));
    assert_eq!(merged.pop(), None);
}

#[test]
fn merge_keeps_every_key_of_a_consolidated_second_heap() {
    let mut second = heap_of(&[10, 11, 12, 13]);
    second.consolidate();
    assert_eq!(FibonacciHeap::preorder(&second), String::from("Min: 10 11 12 13\n"));

    let mut merged = FibonacciHeap::merge(heap_of(&[1, 20]), second);

    assert_eq!(merged.size(), 6);
    assert_eq!(
        FibonacciHeap::preorder(&merged),
        String::from("Min: 1\nTree 1: 20\nTree 2: 11\nTree 3: 12 13\nTree 4: 10\n")
    );
    assert_eq!(drain(&mut merged), vec![1, 10, 11, 12, 13, 20]);
}

#[test]
fn merged_heaps_drain_in_order() {
    let mut first = heap_of(&[6, 2, 9, 4]);
    assert_eq!(first.pop(), Some(2));
    let mut second = heap_of(&[7, 1, 8, 3, 5]);
    assert_eq!(second.pop(), Some(1));

    let mut merged = FibonacciHeap::merge(first, second);

    assert_eq!(merged.size(), 7);
    assert_eq!(drain(&mut merged), vec![3, 4, 5, 6, 7, 8, 9]);
}

#[test]
fn consolidation_leaves_distinct_degrees_within_the_bound() {
    for n in 1..40usize {
        let keys: Vec<u64> = (0..n as u64).map(|k| (k * 13) % 17).collect();
        let mut heap = heap_of(&keys);

        heap.consolidate();

        assert_eq!(heap.size(), n);
        let least = heap.min_pointer.as_ref().unwrap();
        assert_eq!(*least.peek_payload(), keys.iter().min().copied());
        let mut degrees = vec![least.degree()];
        let mut held = count_keys(least);
        for root in heap.children_list.iter() {
            degrees.push(root.degree());
            held += count_keys(root);
        }
        assert_eq!(held, n);
        for degree in &degrees {
            assert!(1usize << degree <= n);
        }
        degrees.sort();
        degrees.dedup();
        assert_eq!(degrees.len(), 1 + heap.children_list.len());
        assert_eq!(degrees.len(), n.count_ones() as usize);
    }
}

#[test]
fn consolidate_on_an_empty_heap_changes_nothing() {
    let mut heap: FibonacciHeap<u64> = FibonacciHeap::init();

    heap.consolidate();

    assert_eq!(heap.size(), 0);
    assert!(heap.min_pointer.is_none());
    assert_eq!(heap.children_list.len(), 0);
}

#[test]
fn consolidate_unordered_four_gives_one_tree() {
    let mut heap = heap_of(&[1, 0, 3, 2]);

    heap.consolidate();

    assert_eq!(FibonacciHeap::preorder(&heap), String::from("Min: 0 1 2 3\n"));
}

#[test]
fn push_of_an_equal_key_takes_over_the_minimum() {
    let mut heap: FibonacciHeap<(u8, char)> = FibonacciHeap::init();
    heap.push((1, 'b'));
    heap.push((1, 'a'));
    heap.push((1, 'c'));

    assert_eq!(
        *heap.min_pointer.as_ref().unwrap().peek_payload(),
        Some((1, 'a'))
    );
    assert_eq!(heap.children_list.len(), 2);
    assert_eq!(heap.pop(), Some((1, 'a')));
    assert_eq!(heap.pop(), Some((1, 'b')));
    assert_eq!(heap.pop(), Some((1, 'c')));
    assert_eq!(heap.pop(), None);
}

#[test]
fn string_keys_are_ordered_by_their_own_order() {
    let mut heap: FibonacciHeap<String> = FibonacciHeap::init();
    for word in ["pear", "apple", "fig", "plum"] {
        heap.push(String::from(word));
    }

    assert_eq!(
        FibonacciHeap::preorder(&heap),
        String::from("Min: apple\nTree 1: pear\nTree 2: fig\nTree 3: plum\n")
    );
    assert_eq!(heap.pop(), Some(String::from("apple")));
    assert_eq!(heap.pop(), Some(String::from("fig")));
    assert_eq!(heap.pop(), Some(String::from("pear")));
    assert_eq!(heap.pop(), Some(String::from("plum")));
}
