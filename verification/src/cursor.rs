//! Turning an owned vector into a double-ended cursor.

use std::collections::VecDeque;
use vstd::prelude::*;

verus! {

/// Moves the items of `items` into a deque, keeping their order.
///
/// The deque serves as a cursor that can be advanced from either end.
pub fn into_deque<T>(items: Vec<T>) -> (cursor: VecDeque<T>)
    ensures
        cursor@ == items@,
{
    let mut rest = items;
    let mut cursor: VecDeque<T> = VecDeque::new();
    while rest.len() > 0
        invariant
            rest@ + cursor@ == items@,
        decreases rest.len(),
    {
        let ghost before = rest@;
        let ghost moved = cursor@;
        match rest.pop() {
            Some(item) => {
                cursor.push_front(item);
                assert(rest@ + cursor@ =~= before + moved);
            },
            None => {},
        }
    }
    assert(cursor@ =~= rest@ + cursor@);
    cursor
}

/// Starts a new pass over `items`: a cursor that holds a copy of every item,
/// in order, and leaves `items` as it is.
pub fn fresh_pass<T: Copy>(items: &Vec<T>) -> (cursor: VecDeque<T>)
    ensures
        cursor@ == items@,
{
    let mut cursor: VecDeque<T> = VecDeque::new();
    let mut at: usize = 0;
    while at < items.len()
        invariant
            at <= items.len(),
            cursor@ == items@.subrange(0, at as int),
        decreases items.len() - at,
    {
        cursor.push_back(items[at]);
        at = at + 1;
        assert(cursor@ =~= items@.subrange(0, at as int));
    }
    assert(cursor@ =~= items@);
    cursor
}

} // verus!
