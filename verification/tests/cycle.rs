use iter_adapters::cycle::{cycle, Cycle};

#[test]
fn cycle_infinitely() {
    let mut iter = cycle(vec![1, 2, 3]);

    assert_eq!(iter.next(), Some(1));
    assert_eq!(iter.next(), Some(2));
    assert_eq!(iter.next(), Some(3));
    assert_eq!(iter.next(), Some(1));
    assert_eq!(iter.next(), Some(2));
    assert_eq!(iter.next(), Some(3));
    assert_eq!(iter.next(), Some(1));
}

#[test]
fn does_not_loop_infinitely_on_empty() {
    let mut iter = cycle(Vec::<usize>::new());

    assert_eq!(iter.next(), None);
}

#[test]
fn std_cycle_does_not_loop_infinitely() {
    let iterable = std::iter::empty::<usize>();

    assert_eq!(iterable.cycle().next(), None);
}

#[test]
fn cycle_empty_stays_empty_on_every_call() {
    let mut iter: Cycle<u8> = cycle(vec![]);

    for _ in 0..100 {
        assert_eq!(iter.next(), None);
    }
}

#[test]
fn cycle_is_periodic() {
    let source = vec![10u32, 20, 30, 40, 50];
    let mut iter = cycle(source.clone());

    for k in 0..57usize {
        assert_eq!(iter.next(), Some(source[k % source.len()]));
    }
}

#[test]
fn cycle_single_item_repeats() {
    let mut iter = cycle(vec!['x']);

    for _ in 0..10 {
        assert_eq!(iter.next(), Some('x'));
    }
}

#[test]
fn cycle_keeps_duplicates_in_place() {
    let mut iter = cycle(vec![7, 7, 8]);
    let mut seen = Vec::new();

    for _ in 0..7 {
        seen.push(iter.next());
    }
    assert_eq!(
        seen,
        vec![Some(7), Some(7), Some(8), Some(7), Some(7), Some(8), Some(7)]
    );
}
