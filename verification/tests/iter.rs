use ledger::iter::{take_headtail, with_next, MultiPeek, WithNext};

#[test]
fn test_multi_peek_and_unpeek() {
    let data = vec![1, 2, 3, 4, 5];
    let mut peekable = MultiPeek::new(data);

    // Test consecutive peeks advance
    assert_eq!(peekable.peek(), Some(&1));
    assert_eq!(peekable.peek(), Some(&2));
    assert_eq!(peekable.peek(), Some(&3));

    // Test unpeek
    peekable.unpeek();
    assert_eq!(peekable.peek(), Some(&3));

    // Test iteration after peek/unpeek
    assert_eq!(peekable.next(), Some(1));
    assert_eq!(peekable.next(), Some(2));

    // Test unpeek on empty buffer
    assert_eq!(peekable.peek(), Some(&3));

    peekable.unpeek();
    assert_eq!(peekable.peek(), Some(&3));
}

#[test]
fn test_with_next_pairs() {
    let pairs: Vec<_> = with_next(vec![1, 2, 3]);
    assert_eq!(pairs, vec![(1, Some(2)), (2, Some(3)), (3, None)]);
}

#[test]
fn test_with_next_single_element() {
    let pairs: Vec<_> = with_next(vec![42]);
    assert_eq!(pairs, vec![(42, None)]);
}

#[test]
fn test_with_next_empty() {
    let pairs: Vec<(i32, Option<i32>)> = with_next(Vec::<i32>::new());
    assert_eq!(pairs, vec![]);
}

fn collect_headtail(items: Vec<i32>, head: Option<usize>, tail: Option<usize>) -> Vec<i32> {
    take_headtail(items, head, tail)
}

#[test]
fn take_headtail_no_bounds_is_passthrough() {
    assert_eq!(
        collect_headtail(vec![1, 2, 3, 4], None, None),
        vec![1, 2, 3, 4]
    );
}

#[test]
fn take_headtail_head_only() {
    assert_eq!(
        collect_headtail(vec![1, 2, 3, 4, 5], Some(2), None),
        vec![1, 2]
    );
}

#[test]
fn take_headtail_tail_only() {
    assert_eq!(
        collect_headtail(vec![1, 2, 3, 4, 5], None, Some(2)),
        vec![4, 5]
    );
}

#[test]
fn take_headtail_disjoint_head_and_tail() {
    assert_eq!(
        collect_headtail(vec![1, 2, 3, 4, 5, 6], Some(2), Some(2)),
        vec![1, 2, 5, 6]
    );
}

#[test]
fn take_headtail_head_consumed_before_tail() {
    // head takes [1, 2, 3], then tail looks at what's left ([4])
    // and keeps the last 3 of it. No duplicates with the head.
    assert_eq!(
        collect_headtail(vec![1, 2, 3, 4], Some(3), Some(3)),
        vec![1, 2, 3, 4]
    );
}

#[test]
fn take_headtail_bounds_larger_than_input() {
    assert_eq!(collect_headtail(vec![1, 2], Some(5), None), vec![1, 2]);
    assert_eq!(collect_headtail(vec![1, 2], None, Some(5)), vec![1, 2]);
    assert_eq!(collect_headtail(vec![1, 2], Some(5), Some(5)), vec![1, 2]);
}

#[test]
fn take_headtail_head_zero() {
    assert!(collect_headtail(vec![1, 2, 3], Some(0), None).is_empty());
}

#[test]
fn take_headtail_empty_input() {
    assert!(collect_headtail(vec![], None, None).is_empty());
    assert!(collect_headtail(vec![], Some(3), None).is_empty());
    assert!(collect_headtail(vec![], None, Some(3)).is_empty());
    assert!(collect_headtail(vec![], Some(2), Some(2)).is_empty());
}

#[test]
fn multi_peek_consume_peeked_drops_buffer() {
    let mut mp = MultiPeek::new(vec!['a', 'b', 'c', 'd']);
    assert_eq!(mp.peek(), Some(&'a'));
    assert_eq!(mp.peek(), Some(&'b'));
    mp.unpeek();
    mp.consume_peeked();
    assert_eq!(mp.next(), Some('c'));
    mp.peek_reset();
    assert_eq!(mp.peek(), Some(&'d'));
    assert_eq!(mp.peek(), None);
}

#[test]
fn with_next_step_by_step() {
    let mut w = WithNext::new(vec![7, 8]);
    assert_eq!(w.next(), Some((7, Some(8))));
    assert_eq!(w.next(), Some((8, None)));
    assert_eq!(w.next(), None);
}

#[test]
fn peek_reset_steps_back_by_one() {
    let mut mp = MultiPeek::new(vec!['a', 'b', 'c']);
    assert_eq!(mp.peek(), Some(&'a'));
    assert_eq!(mp.peek(), Some(&'b'));
    assert_eq!(mp.peek_reset().peek(), Some(&'b'));
    mp.peek_reset();
    mp.peek_reset();
    mp.peek_reset();
    assert_eq!(mp.peek(), Some(&'a'));
    mp.rewind();
    assert_eq!(mp.next(), Some('a'));
}
