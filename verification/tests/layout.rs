use fibonacci_heap::heap::slot_count;
use fibonacci_heap::text::{join_words, layout};

#[test]
fn join_words_puts_single_spaces_between_words() {
    let none: Vec<String> = Vec::new();
    assert_eq!(join_words(&none), String::from(""));
    assert_eq!(join_words(&vec![String::from("7")]), String::from("7"));
    assert_eq!(
        join_words(&vec![
            String::from("0"),
            String::from("12"),
            String::from("3")
        ]),
        String::from("0 12 3")
    );
}

#[test]
fn layout_writes_one_line_per_tree() {
    let none: Vec<String> = Vec::new();
    assert_eq!(layout(&None, &none, &none), String::from(""));
    assert_eq!(
        layout(&Some(String::from("0 1")), &none, &none),
        String::from("Min: 0 1\n")
    );
    assert_eq!(
        layout(
            &Some(String::from("0")),
            &vec![String::from("1"), String::from("2")],
            &vec![String::from("3 4"), String::from("5")]
        ),
        String::from("Min: 0\nTree 1: 3 4\nTree 2: 5\n")
    );
}

#[test]
fn slot_count_is_the_bit_length() {
    assert_eq!(slot_count(1), 1);
    assert_eq!(slot_count(2), 2);
    assert_eq!(slot_count(3), 2);
    assert_eq!(slot_count(4), 3);
    assert_eq!(slot_count(13), 4);
    assert_eq!(slot_count(1023), 10);
    assert_eq!(slot_count(1024), 11);
    assert_eq!(slot_count(usize::MAX), usize::BITS as usize);
}
