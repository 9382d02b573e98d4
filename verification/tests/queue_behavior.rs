//! Behavioural tests for the priority queue: default ordering, comparator
//! ranking, peeking, replacement, comparator replacement and reversal.

use prio_queue::{NoComparator, NumericComparator, PivotComparator, PriorityQueue};

#[test]
fn default_is_most_recent_first() {
    let mut q: PriorityQueue<i64, i64, NoComparator> = PriorityQueue::new();
    q.put(1);
    q.put(2);
    assert_eq!(q.get(), Some(2));
    assert_eq!(q.get(), Some(1));
    assert_eq!(q.get(), None);
}

#[test]
fn numeric_comparator_ranks_descending() {
    let mut q: PriorityQueue<i64, i64, NumericComparator> = PriorityQueue::new();
    q.set_comparator(Some(NumericComparator), None);
    q.put(5);
    q.put(1);
    q.put(3);
    assert_eq!(q.get(), Some(5));
    assert_eq!(q.get(), Some(3));
    assert_eq!(q.get(), Some(1));
    assert_eq!(q.get(), None);
}

#[test]
fn peek_does_not_mutate() {
    let mut q: PriorityQueue<i64, i64, NumericComparator> = PriorityQueue::new();
    q.set_comparator(Some(NumericComparator), None);
    q.put(5);
    q.put(9);
    q.put(3);
    let first = q.peek().copied();
    let second = q.peek().copied();
    assert_eq!(first, Some(9));
    assert_eq!(first, second);
    assert_eq!(q.len(), 3);
}

#[test]
fn peek_then_get_agree() {
    let mut q: PriorityQueue<i64, i64, NumericComparator> = PriorityQueue::new();
    q.set_comparator(Some(NumericComparator), None);
    q.put(4);
    q.put(8);
    let peeked = q.peek().copied();
    let got = q.get();
    assert_eq!(peeked, got);
    assert_eq!(got, Some(8));
}

#[test]
fn peek_and_get_on_empty() {
    let mut q: PriorityQueue<i64, i64, NoComparator> = PriorityQueue::new();
    assert_eq!(q.peek(), None);
    assert_eq!(q.get(), None);
}

#[test]
fn replace_on_empty_acts_as_put() {
    let mut q: PriorityQueue<i64, i64, NumericComparator> = PriorityQueue::new();
    q.set_comparator(Some(NumericComparator), None);
    q.replace(7);
    assert_eq!(q.get(), Some(7));
    assert_eq!(q.get(), None);

    let mut p: PriorityQueue<i64, i64, NumericComparator> = PriorityQueue::new();
    p.set_comparator(Some(NumericComparator), None);
    p.put(7);
    assert_eq!(p.get(), Some(7));
    assert_eq!(p.get(), None);
}

#[test]
fn replace_removes_maximum_like_pop_then_push() {
    let mut a: PriorityQueue<i64, i64, NumericComparator> = PriorityQueue::new();
    a.set_comparator(Some(NumericComparator), None);
    a.put(5);
    a.put(1);
    a.put(3);
    a.replace(4);

    let mut b: PriorityQueue<i64, i64, NumericComparator> = PriorityQueue::new();
    b.set_comparator(Some(NumericComparator), None);
    b.put(5);
    b.put(1);
    b.put(3);
    assert_eq!(b.get(), Some(5));
    b.put(4);

    let drained_a = vec![a.get(), a.get(), a.get(), a.get()];
    let drained_b = vec![b.get(), b.get(), b.get(), b.get()];
    assert_eq!(drained_a, vec![Some(4), Some(3), Some(1), None]);
    assert_eq!(drained_a, drained_b);
}

#[test]
fn set_comparator_leaves_queued_entries_alone() {
    let mut q: PriorityQueue<i64, i64, NumericComparator> = PriorityQueue::new();
    q.put(10);
    q.put(20);
    // The two queued entries stay bound to the default insertion-order
    // ranking even though a numeric comparator is installed now.
    q.set_comparator(Some(NumericComparator), None);
    assert_eq!(q.get(), Some(20));
    assert_eq!(q.get(), Some(10));
    // Entries inserted from here on are ranked by the new comparator.
    q.put(1);
    q.put(5);
    q.put(3);
    assert_eq!(q.get(), Some(5));
    assert_eq!(q.get(), Some(3));
    assert_eq!(q.get(), Some(1));
}

#[test]
fn reverse_flips_pop_order_of_distinct_priorities() {
    let mut q: PriorityQueue<i64, i64, NumericComparator> = PriorityQueue::new();
    q.set_comparator(Some(NumericComparator), None);
    q.put(5);
    q.put(1);
    q.put(3);
    q.reverse();
    assert_eq!(q.get(), Some(1));
    assert_eq!(q.get(), Some(3));
    assert_eq!(q.get(), Some(5));
    assert_eq!(q.get(), None);
}

#[test]
fn puts_after_reverse_rank_by_reversed_comparator() {
    let mut q: PriorityQueue<i64, i64, NumericComparator> = PriorityQueue::new();
    q.set_comparator(Some(NumericComparator), None);
    q.put(5);
    q.put(1);
    q.put(3);
    q.reverse();
    q.put(2);
    assert_eq!(q.get(), Some(1));
    assert_eq!(q.get(), Some(2));
    assert_eq!(q.get(), Some(3));
    assert_eq!(q.get(), Some(5));
}

#[test]
fn double_reverse_restores_pop_order() {
    let mut q: PriorityQueue<i64, i64, NumericComparator> = PriorityQueue::new();
    q.set_comparator(Some(NumericComparator), None);
    q.put(5);
    q.put(1);
    q.put(3);
    q.reverse();
    q.reverse();
    assert_eq!(q.get(), Some(5));
    assert_eq!(q.get(), Some(3));
    assert_eq!(q.get(), Some(1));
}

#[test]
fn reverse_of_default_order_drains_oldest_first() {
    // With no comparator configured, a reversal rebuilds both entries with
    // fresh counters (handed out in reverse position order) and a flipped
    // polarity, which turns the last-in-first-out default into
    // first-in-first-out for the entries present at the reversal.
    let mut q: PriorityQueue<i64, i64, NoComparator> = PriorityQueue::new();
    q.put(1);
    q.put(2);
    q.reverse();
    assert_eq!(q.get(), Some(1));
    assert_eq!(q.get(), Some(2));
}

#[test]
fn pivot_comparator_uses_context() {
    let mut q: PriorityQueue<i64, i64, PivotComparator> = PriorityQueue::new();
    q.set_comparator(Some(PivotComparator), Some(10));
    q.put(3);
    q.put(12);
    q.put(7);
    q.put(15);
    // Values at or above the pivot rank higher; ties fall back to insertion
    // order, most recent first.
    assert_eq!(q.get(), Some(15));
    assert_eq!(q.get(), Some(12));
    assert_eq!(q.get(), Some(7));
    assert_eq!(q.get(), Some(3));
}

#[test]
fn counters_and_length_advance() {
    let mut q: PriorityQueue<i64, i64, NoComparator> = PriorityQueue::new();
    assert_eq!(q.len(), 0);
    assert_eq!(q.next_counter(), 0);
    q.put(1);
    q.put(2);
    assert_eq!(q.len(), 2);
    assert_eq!(q.next_counter(), 2);
    q.replace(3);
    assert_eq!(q.len(), 2);
    assert_eq!(q.next_counter(), 3);
    q.reverse();
    assert_eq!(q.len(), 2);
    assert_eq!(q.next_counter(), 5);
}
