use iter_adapters::flatmap::flat_map;
use std::cell::Cell;

#[test]
fn collect_chars() {
    assert_eq!(
        flat_map(vec!["hello", " ", "world"], |s: &str| s
            .chars()
            .collect::<Vec<char>>())
        .collect()
        .into_iter()
        .collect::<String>(),
        "hello world"
    );
}

#[test]
fn next() {
    let mut iter = flat_map(vec![vec![1, 2, 3], vec![1, 2, 3]], |v: Vec<i32>| v);

    assert_eq!(iter.next(), Some(1));
    assert_eq!(iter.next(), Some(2));
    assert_eq!(iter.next(), Some(3));
    assert_eq!(iter.next(), Some(1));
    assert_eq!(iter.next(), Some(2));
}

#[test]
fn flat_map_next_ends_with_none() {
    let mut iter = flat_map(vec![2u32, 0, 1], |n: u32| vec![n; n as usize]);

    assert_eq!(iter.next(), Some(2));
    assert_eq!(iter.next(), Some(2));
    assert_eq!(iter.next(), Some(1));
    assert_eq!(iter.next(), None);
    assert_eq!(iter.next(), None);
}

#[test]
fn flat_map_empty_outer() {
    let mut iter = flat_map(Vec::<u8>::new(), |b: u8| vec![b, b]);

    assert_eq!(iter.next(), None);
    assert_eq!(iter.collect(), Vec::<u8>::new());
}

#[test]
fn flat_map_skips_empty_answers() {
    let outer = vec![0usize, 0, 3, 0, 0, 2, 0];
    let items = flat_map(outer, |n: usize| (0..n).collect::<Vec<usize>>()).collect();

    assert_eq!(items, vec![0, 1, 2, 0, 1]);
}

#[test]
fn flat_map_many_empty_answers_in_a_row() {
    let outer = vec![0u8; 100_000];
    let mut iter = flat_map(outer, |_b: u8| Vec::<u8>::new());

    assert_eq!(iter.next(), None);
}

#[test]
fn flat_map_concatenates_answers() {
    let outer = vec![3i64, 1, 4, 1, 5];
    let f = |x: i64| vec![x, -x, x * 10];
    let mut expected = Vec::new();
    for x in outer.iter() {
        expected.extend(f(*x));
    }

    assert_eq!(flat_map(outer, f).collect(), expected);
}

#[test]
fn flat_map_collect_after_partial_read() {
    let mut iter = flat_map(vec![1, 2], |x: i32| vec![x, x + 10, x + 20]);

    assert_eq!(iter.next(), Some(1));
    assert_eq!(iter.collect(), vec![11, 21, 2, 12, 22]);
}

#[test]
fn flat_map_calls_lazily_and_once() {
    let calls = Cell::new(0u32);
    let mut iter = flat_map(vec![1, 2, 3], |x: i32| {
        calls.set(calls.get() + 1);
        if x == 2 {
            vec![]
        } else {
            vec![x, x]
        }
    });

    assert_eq!(calls.get(), 0);
    assert_eq!(iter.next(), Some(1));
    assert_eq!(calls.get(), 1);
    assert_eq!(iter.next(), Some(1));
    assert_eq!(calls.get(), 1);
    assert_eq!(iter.next(), Some(3));
    assert_eq!(calls.get(), 3);
    assert_eq!(iter.next(), Some(3));
    assert_eq!(iter.next(), None);
    assert_eq!(iter.next(), None);
    assert_eq!(calls.get(), 3);
}
