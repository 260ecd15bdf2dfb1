use iter_adapters::flatten::{flatten, Flatten};

#[test]
fn flatten_two_vecs() {
    assert_eq!(
        flatten(vec![vec![1, 2, 3], vec![4, 5, 6]]).collect(),
        vec![1, 2, 3, 4, 5, 6]
    );
}

#[test]
fn flatten_empty_middle_vec() {
    assert_eq!(
        flatten(vec![vec![1, 2, 3], vec![], vec![4, 5, 6]]).collect(),
        vec![1, 2, 3, 4, 5, 6]
    );
}

#[test]
fn flatten_empty_starting_vec() {
    assert_eq!(
        flatten(vec![vec![], vec![4, 5, 6]]).collect(),
        vec![4, 5, 6]
    );
}

#[test]
fn flatten_empty() {
    let mut iter: Flatten<usize> = flatten(vec![vec![]]);

    let my_vec: Vec<usize> = vec![];
    let my_vec2: Vec<usize> = vec![];
    let wide = vec![my_vec, my_vec2];

    let mut flattened = flatten(wide);

    assert_eq!(flattened.next(), None);
    assert_eq!(iter.next(), None);
}

#[test]
fn next_back() {
    let mut iter = flatten(vec![vec![1, 2, 3], vec![4, 5, 6]]);

    assert_eq!(iter.next_back(), Some(6));
    assert_eq!(iter.next_back(), Some(5));
    assert_eq!(iter.next_back(), Some(4));
    assert_eq!(iter.next_back(), Some(3));
    assert_eq!(iter.next_back(), Some(2));
    assert_eq!(iter.next_back(), Some(1));
    assert_eq!(iter.next_back(), None);
}

#[test]
fn both_ways() {
    let mut iter = flatten(vec![vec![1, 2, 3], vec![4, 5, 6]]);

    assert_eq!(iter.next_back(), Some(6));
    assert_eq!(iter.next(), Some(1));
    assert_eq!(iter.next_back(), Some(5));
    assert_eq!(iter.next(), Some(2));
    assert_eq!(iter.next_back(), Some(4));
    assert_eq!(iter.next(), Some(3));
    assert_eq!(iter.next_back(), None);
}

#[test]
fn flatten_empty_outer_from_both_ends() {
    let mut iter: Flatten<i32> = flatten(vec![]);

    assert_eq!(iter.next(), None);
    assert_eq!(iter.next_back(), None);
    assert_eq!(iter.next(), None);
}

#[test]
fn flatten_three_empty_inners_terminate() {
    let mut forward: Flatten<u8> = flatten(vec![vec![], vec![], vec![]]);
    let mut backward: Flatten<u8> = flatten(vec![vec![], vec![], vec![]]);

    assert_eq!(forward.next(), None);
    assert_eq!(forward.next_back(), None);
    assert_eq!(backward.next_back(), None);
    assert_eq!(backward.next(), None);
}

#[test]
fn flatten_next_back_skips_empty_inners() {
    let mut iter = flatten(vec![vec![], vec![1, 2], vec![], vec![], vec![3], vec![]]);

    assert_eq!(iter.next_back(), Some(3));
    assert_eq!(iter.next_back(), Some(2));
    assert_eq!(iter.next_back(), Some(1));
    assert_eq!(iter.next_back(), None);
    assert_eq!(iter.next(), None);
}

#[test]
fn flatten_single_inner_shared_by_both_ends() {
    let mut iter = flatten(vec![vec![1, 2, 3, 4, 5]]);

    assert_eq!(iter.next(), Some(1));
    assert_eq!(iter.next_back(), Some(5));
    assert_eq!(iter.next_back(), Some(4));
    assert_eq!(iter.next(), Some(2));
    assert_eq!(iter.next(), Some(3));
    assert_eq!(iter.next(), None);
    assert_eq!(iter.next_back(), None);
}

#[test]
fn flatten_single_inner_opened_at_the_back_first() {
    let mut iter = flatten(vec![vec![1, 2, 3]]);

    assert_eq!(iter.next_back(), Some(3));
    assert_eq!(iter.next(), Some(1));
    assert_eq!(iter.next(), Some(2));
    assert_eq!(iter.next(), None);
    assert_eq!(iter.next_back(), None);
}

#[test]
fn flatten_forward_falls_back_on_back_cursor() {
    let mut iter = flatten(vec![vec![1], vec![2, 3, 4]]);

    assert_eq!(iter.next_back(), Some(4));
    assert_eq!(iter.next(), Some(1));
    assert_eq!(iter.next(), Some(2));
    assert_eq!(iter.next(), Some(3));
    assert_eq!(iter.next(), None);
    assert_eq!(iter.next_back(), None);
}

#[test]
fn flatten_backward_falls_back_on_front_cursor() {
    let mut iter = flatten(vec![vec![1, 2, 3], vec![4]]);

    assert_eq!(iter.next(), Some(1));
    assert_eq!(iter.next_back(), Some(4));
    assert_eq!(iter.next_back(), Some(3));
    assert_eq!(iter.next_back(), Some(2));
    assert_eq!(iter.next_back(), None);
    assert_eq!(iter.next(), None);
}

#[test]
fn flatten_collect_after_pulls_at_both_ends() {
    let mut iter = flatten(vec![vec![1, 2], vec![], vec![3, 4], vec![5, 6]]);

    assert_eq!(iter.next(), Some(1));
    assert_eq!(iter.next_back(), Some(6));
    assert_eq!(iter.collect(), vec![2, 3, 4, 5]);
}

#[test]
fn flatten_any_interleaving_delivers_each_item_once() {
    let source = vec![
        vec![],
        vec![5, 1, 5],
        vec![9],
        vec![],
        vec![2, 2, 7, 1],
        vec![],
        vec![4, 5],
    ];
    let all: Vec<i32> = source.iter().flatten().copied().collect();

    for pattern in 0u32..64 {
        let mut iter = flatten(source.clone());
        let mut from_front = Vec::new();
        let mut from_back = Vec::new();
        let mut step = 0u32;
        loop {
            let take_front = (pattern >> (step % 6)) & 1 == 0;
            step += 1;
            let item = if take_front {
                iter.next()
            } else {
                iter.next_back()
            };
            match item {
                Some(x) if take_front => from_front.push(x),
                Some(x) => from_back.push(x),
                None => break,
            }
        }
        assert_eq!(iter.next(), None);
        assert_eq!(iter.next_back(), None);

        let mut delivered = from_front.clone();
        delivered.extend(from_back.iter().rev().copied());
        assert_eq!(delivered, all);

        let mut sorted_delivered = delivered.clone();
        sorted_delivered.sort();
        let mut sorted_all = all.clone();
        sorted_all.sort();
        assert_eq!(sorted_delivered, sorted_all);
    }
}
