use fibonacci_heap::heap::FibonacciHeap;

#[test]
fn heap_fibonacci_init() {
    let fh: FibonacciHeap<usize> = FibonacciHeap::init();

    assert!(fh.min_pointer.is_none());
    assert_eq!(fh.size, 0);
    assert_eq!(fh.children_list.len(), 0);
}

#[test]
fn heap_fibonacci_push_1() {
    let mut fh: FibonacciHeap<usize> = FibonacciHeap::init();

    fh.push(0);
    fh.push(1);
    fh.push(3);

    assert_eq!(fh.children_list.len(), 2);
    assert_eq!(fh.min_pointer.as_ref().unwrap().peek_payload().unwrap(), 0);

    assert_eq!(
        FibonacciHeap::preorder(&fh),
        String::from("Min: 0\nTree 1: 1\nTree 2: 3\n")
    )
}

#[test]
fn heap_fibonacci_push_2() {
    let mut fh: FibonacciHeap<usize> = FibonacciHeap::init();

    fh.push(3);
    fh.push(1);
    fh.push(0);

    assert_eq!(fh.children_list.len(), 2);
    assert_eq!(fh.min_pointer.as_ref().unwrap().peek_payload().unwrap(), 0);

    assert_eq!(
        FibonacciHeap::preorder(&fh),
        String::from("Min: 0\nTree 1: 3\nTree 2: 1\n")
    )
}

#[test]
fn heap_fibonacci_merge_1() {
    let mut fh1: FibonacciHeap<usize> = FibonacciHeap::init();
    fh1.push(0);

    let mut fh2: FibonacciHeap<usize> = FibonacciHeap::init();
    fh2.push(1);

    let merged_heap = FibonacciHeap::merge(fh1, fh2);

    assert_eq!(merged_heap.size, 2);
    assert_eq!(
        merged_heap
            .min_pointer
            .as_ref()
            .unwrap()
            .peek_payload()
            .unwrap(),
        0
    );
    assert_eq!(
        FibonacciHeap::preorder(&merged_heap),
        String::from("Min: 0\nTree 1: 1\n")
    );
}

#[test]
fn heap_fibonacci_merge_2() {
    let mut fh1: FibonacciHeap<usize> = FibonacciHeap::init();
    fh1.push(0);
    fh1.push(2);

    let mut fh2: FibonacciHeap<usize> = FibonacciHeap::init();
    fh2.push(1);
    fh2.push(3);

    let merged_heap = FibonacciHeap::merge(fh2, fh1);

    assert_eq!(merged_heap.size, 4);
    assert_eq!(
        merged_heap
            .min_pointer
            .as_ref()
            .unwrap()
            .peek_payload()
            .unwrap(),
        0
    );
    assert_eq!(
        FibonacciHeap::preorder(&merged_heap),
        String::from("Min: 0\nTree 1: 3\nTree 2: 2\nTree 3: 1\n")
    );
}

#[test]
fn heap_fibonacci_consolidate_1() {
    let mut fh: FibonacciHeap<usize> = FibonacciHeap::init();
    fh.push(0);

    fh.consolidate();

    assert_eq!(FibonacciHeap::preorder(&fh), String::from("Min: 0\n"));
}

#[test]
fn heap_fibonacci_consolidate_2() {
    let mut fh: FibonacciHeap<usize> = FibonacciHeap::init();
    fh.push(1);
    fh.push(0);

    fh.consolidate();

    assert_eq!(FibonacciHeap::preorder(&fh), String::from("Min: 0 1\n"));
}

#[test]
fn heap_fibonacci_consolidate_3() {
    let mut fh: FibonacciHeap<usize> = FibonacciHeap::init();
    fh.push(1);
    fh.push(0);
    fh.push(2);

    fh.consolidate();

    assert_eq!(
        FibonacciHeap::preorder(&fh),
        String::from("Min: 0 1\nTree 1: 2\n")
    );
}

#[test]
fn heap_fibonacci_consolidate_4() {
    let mut fh: FibonacciHeap<usize> = FibonacciHeap::init();
    fh.push(1);
    fh.push(0);
    fh.push(2);
    fh.push(3);

    fh.consolidate();

    assert_eq!(FibonacciHeap::preorder(&fh), String::from("Min: 0 1 2 3\n"));
}

#[test]
fn heap_fibonacci_consolidate_5() {
    let mut fh: FibonacciHeap<usize> = FibonacciHeap::init();
    fh.push(1);
    fh.push(0);
    fh.push(3);
    fh.push(2);
    fh.push(4);

    fh.consolidate();

    assert_eq!(
        FibonacciHeap::preorder(&fh),
        String::from("Min: 0 1 2 3\nTree 1: 4\n")
    );
}

#[test]
fn heap_fibonacci_consolidate_6() {
    let mut fh: FibonacciHeap<usize> = FibonacciHeap::init();
    for i in 0..14 {
        fh.push(i)
    }

    fh.consolidate();

    assert_eq!(
        FibonacciHeap::preorder(&fh),
        String::from("Min: 0 1 2 3 4 5 6 7\nTree 1: 12 13\nTree 2: 8 9 10 11\n")
    );
}

#[test]
fn heap_fibonacci_pop_1() {
    let mut fh: FibonacciHeap<usize> = FibonacciHeap::init();
    fh.push(0);

    assert_eq!(fh.pop(), Some(0));

    assert_eq!(FibonacciHeap::preorder(&fh), String::from(""));
}

#[test]
fn heap_fibonacci_pop_2() {
    let mut fh: FibonacciHeap<usize> = FibonacciHeap::init();
    fh.push(0);
    fh.push(1);

    assert_eq!(fh.pop(), Some(0));
    assert_eq!(fh.size(), 1);
    assert_eq!(FibonacciHeap::preorder(&fh), String::from("Min: 1\n"));
}

#[test]
fn heap_fibonacci_pop_3() {
    let mut fh: FibonacciHeap<usize> = FibonacciHeap::init();
    fh.push(2);
    fh.push(0);
    fh.push(1);

    assert_eq!(fh.pop(), Some(0));
    assert_eq!(fh.size(), 2);
    assert_eq!(FibonacciHeap::preorder(&fh), String::from("Min: 1 2\n"));
}

#[test]
fn heap_fibonacci_pop_4() {
    let mut fh: FibonacciHeap<usize> = FibonacciHeap::init();
    fh.push(2);
    fh.push(3);
    fh.push(0);
    fh.push(1);

    assert_eq!(fh.pop(), Some(0));
    assert_eq!(fh.size(), 3);
    assert_eq!(
        FibonacciHeap::preorder(&fh),
        String::from("Min: 1\nTree 1: 2 3\n")
    );
}

#[test]
fn heap_fibonacci_pop_multi_1() {
    let mut fh: FibonacciHeap<usize> = FibonacciHeap::init();
    fh.push(2);
    fh.push(3);
    fh.push(0);
    fh.push(1);

    assert_eq!(fh.pop(), Some(0));
    assert_eq!(fh.size(), 3);

    assert_eq!(fh.pop(), Some(1));
    assert_eq!(fh.size(), 2);
    assert_eq!(FibonacciHeap::preorder(&fh), String::from("Min: 2 3\n"));

    assert_eq!(fh.pop(), Some(2));
    assert_eq!(fh.size(), 1);
    assert_eq!(FibonacciHeap::preorder(&fh), String::from("Min: 3\n"));

    assert_eq!(fh.pop(), Some(3));
    assert_eq!(fh.size(), 0);
    assert_eq!(FibonacciHeap::preorder(&fh), String::from(""));

    assert_eq!(fh.pop(), None);
    assert_eq!(fh.size(), 0);
    assert_eq!(FibonacciHeap::preorder(&fh), String::from(""));
}

#[test]
fn heap_fibonacci_pop_multi_2() {
    let mut fh: FibonacciHeap<usize> = FibonacciHeap::init();
    for i in 0..5 {
        fh.push(i)
    }

    assert_eq!(fh.pop(), Some(0));
    assert_eq!(fh.size(), 4);
    assert_eq!(FibonacciHeap::preorder(&fh), String::from("Min: 1 2 3 4\n"));

    assert_eq!(fh.pop(), Some(1));
    assert_eq!(fh.size(), 3);
    assert_eq!(
        FibonacciHeap::preorder(&fh),
        String::from("Min: 2\nTree 1: 3 4\n")
    );

    assert_eq!(fh.pop(), Some(2));
    assert_eq!(fh.size(), 2);
    assert_eq!(FibonacciHeap::preorder(&fh), String::from("Min: 3 4\n"));

    assert_eq!(fh.pop(), Some(3));
    assert_eq!(fh.size(), 1);
    assert_eq!(FibonacciHeap::preorder(&fh), String::from("Min: 4\n"));

    assert_eq!(fh.pop(), Some(4));
    assert_eq!(fh.size(), 0);
    assert_eq!(FibonacciHeap::preorder(&fh), String::from(""));
}
