use fibonacci_heap::tree::InternalTree;

#[test]
fn heap_fibonacci_internal_tree_init() {
    let it = InternalTree::init(1);

    assert_eq!(it.degree(), 0);
    assert_eq!(*it.peek_payload(), Some(1));
}

#[test]
fn heap_fibonacci_internal_tree_is_smaller() {
    let it1 = InternalTree::init(0);
    let it2 = InternalTree::init(1);
    let it3 = InternalTree::init(0);

    assert_eq!(InternalTree::is_smaller_or_equal(&it1, &it2), true);
    assert_eq!(InternalTree::is_smaller_or_equal(&it1, &it3), true);
    assert_eq!(InternalTree::is_smaller_or_equal(&it2, &it1), false);
}

#[test]
fn heap_fibonacci_internal_tree_add_child_1() {
    let mut it1 = InternalTree::init(0);
    let it2 = InternalTree::init(1);

    it1.add_child(it2);

    assert_eq!(it1.degree(), 1);
    assert_eq!(*it1.children_list.pop().unwrap().peek_payload(), Some(1));
}

#[test]
fn heap_fibonacci_internal_tree_add_child_2() {
    let it1 = InternalTree::init(0);
    let mut it2 = InternalTree::init(1);

    it2.add_child(it1);

    assert_eq!(it2.degree(), 1);
    assert_eq!(*it2.children_list.pop().unwrap().peek_payload(), Some(0));
}

#[test]
fn heap_fibonacci_internal_tree_merge_1() {
    let it1 = InternalTree::init(0);
    let it2 = InternalTree::init(1);

    let mut merged_tree = InternalTree::merge(it1, it2);

    assert_eq!(merged_tree.degree(), 1);
    assert_eq!(
        *merged_tree.children_list.pop().unwrap().peek_payload(),
        Some(1)
    );
}

#[test]
fn heap_fibonacci_internal_tree_merge_2() {
    let it1 = InternalTree::init(0);
    let it2 = InternalTree::init(1);

    let mut merged_tree = InternalTree::merge(it2, it1);

    assert_eq!(merged_tree.degree(), 1);
    assert_eq!(
        *merged_tree.children_list.pop().unwrap().peek_payload(),
        Some(1)
    );
}

#[test]
fn heap_fibonacci_internal_tree_merge_3() {
    let it1 = InternalTree::init(0);
    let it2 = InternalTree::init(1);
    let merged_tree_1 = InternalTree::merge(it2, it1);
    let it3 = InternalTree::init(2);
    let it4 = InternalTree::init(3);
    let merged_tree_2 = InternalTree::merge(it3, it4);

    let merged_tree = InternalTree::merge(merged_tree_1, merged_tree_2);

    assert_eq!(merged_tree.degree(), 2);
    assert_eq!(
        InternalTree::preorder(&merged_tree),
        String::from("0 1 2 3")
    );
}

#[test]
fn internal_tree_merge_tie_keeps_first_as_parent() {
    let mut first = InternalTree::init((5, 'a'));
    first.payload = Some((5, 'a'));
    let second = InternalTree::init((5, 'a'));
    let third = InternalTree::init((4, 'z'));

    let merged = InternalTree::merge(first, second);
    assert_eq!(merged.degree(), 1);
    assert_eq!(merged.children_list().len(), 1);

    let merged = InternalTree::merge(merged, third);
    assert_eq!(*merged.peek_payload(), Some((4, 'z')));
    assert_eq!(merged.degree(), 1);
    assert_eq!(merged.children_list()[0].degree(), 1);
}

#[test]
fn internal_tree_get_payload_empties_the_node() {
    let mut it = InternalTree::init(7);
    it.add_child(InternalTree::init(9));

    assert_eq!(it.get_payload(), 7);
    assert_eq!(*it.peek_payload(), None);
    assert_eq!(it.degree(), 1);
    assert_eq!(it.children_list().len(), 1);
}

#[test]
fn internal_tree_children_list_mut_hands_out_the_children() {
    let mut it = InternalTree::init(1);
    it.add_child(InternalTree::init(2));
    it.add_child(InternalTree::init(3));

    let last = it.children_list_mut().pop().unwrap();

    assert_eq!(*last.peek_payload(), Some(3));
    assert_eq!(it.children_list().len(), 1);
    assert_eq!(it.degree(), 2);
}

#[test]
fn internal_tree_preorder_visits_parent_before_children() {
    let mut root = InternalTree::init(String::from("a"));
    let mut left = InternalTree::init(String::from("b"));
    left.add_child(InternalTree::init(String::from("c")));
    root.add_child(left);
    root.add_child(InternalTree::init(String::from("d")));

    assert_eq!(InternalTree::preorder(&root), String::from("a b c d"));
    assert_eq!(
        InternalTree::preorder(&InternalTree::init(42)),
        String::from("42")
    );
}

#[test]
fn internal_tree_preorder_does_not_need_heap_order() {
    let mut root = InternalTree::init(5);
    root.add_child(InternalTree::init(1));
    let merged = InternalTree::merge(root, InternalTree::init(7));

    assert_eq!(merged.degree(), 2);
    assert_eq!(InternalTree::preorder(&merged), String::from("5 1 7"));
}
