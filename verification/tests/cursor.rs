use iter_adapters::cursor::{fresh_pass, into_deque};
use std::collections::VecDeque;

#[test]
fn into_deque_keeps_order() {
    let cursor = into_deque(vec![1, 2, 3, 4]);

    assert_eq!(cursor, VecDeque::from(vec![1, 2, 3, 4]));
}

#[test]
fn into_deque_of_nothing_is_empty() {
    let cursor = into_deque(Vec::<String>::new());

    assert!(cursor.is_empty());
}

#[test]
fn into_deque_moves_owned_items() {
    let mut cursor = into_deque(vec![String::from("a"), String::from("b")]);

    assert_eq!(cursor.pop_front(), Some(String::from("a")));
    assert_eq!(cursor.pop_back(), Some(String::from("b")));
    assert_eq!(cursor.pop_front(), None);
}

#[test]
fn fresh_pass_copies_in_order() {
    let items = vec![3u8, 1, 2];
    let cursor = fresh_pass(&items);

    assert_eq!(cursor, VecDeque::from(vec![3u8, 1, 2]));
    assert_eq!(items, vec![3u8, 1, 2]);
}
