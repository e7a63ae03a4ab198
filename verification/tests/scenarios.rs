//! End-to-end scenarios for the doubly-linked list.

use intruder_alarm::doubly::{Linked, List, NumberedNode};
use intruder_alarm::link::Link;

type NumberedList = List<usize, NumberedNode, Box<NumberedNode>>;

#[test]
fn empty_list_ends_absent() {
    let mut list = NumberedList::new();

    assert_eq!(list.len(), 0);
    assert!(list.head().is_none());
    assert!(list.tail().is_none());
    assert!(list.front().is_none());
    assert!(list.back().is_none());

    assert_eq!(list.pop_front(), None);
    assert_eq!(list.pop_back(), None);
    assert_eq!(list.len(), 0);
}

#[test]
fn front_push_reports_at_both_ends() {
    let mut list = NumberedList::new();

    list.push_front(444);

    assert_eq!(list.head().unwrap().number, 444);
    assert_eq!(list.tail().unwrap().number, 444);
}

#[test]
fn two_front_pushes_order() {
    let mut list = NumberedList::new();

    list.push_front(444);
    list.push_front(555);

    assert_eq!(list.head().unwrap().number, 555);
    assert_eq!(list.tail().unwrap().number, 444);
    assert!(list.head().unwrap() != list.tail().unwrap());
}

#[test]
fn extend_then_drain_order() {
    let mut list = NumberedList::new();

    list.push_back(0);
    list.push_back(1);
    assert_eq!(list.len(), 2);

    list.extend(vec![3, 4]);
    assert_eq!(list.len(), 4);

    assert_eq!(list.pop_front(), Some(0));
    assert_eq!(list.pop_front(), Some(1));
    assert_eq!(list.pop_front(), Some(3));
    assert_eq!(list.pop_front(), Some(4));
    assert_eq!(list.pop_front(), None);
}

#[test]
fn ten_back_pushes_pop_in_order() {
    let mut list = NumberedList::new();

    for i in 0..10 {
        list.push_back(i);
    }
    assert_eq!(list.len(), 10);

    for i in 0..10 {
        assert_eq!(list.pop_front(), Some(i));
    }
    assert_eq!(list.pop_front(), None);
}

#[test]
fn bulk_and_manual_equivalent() {
    let a: usize = 7;
    let b: usize = 9;

    let mut bulk = NumberedList::from_sequence(vec![a, b]);

    let mut manual = NumberedList::new();
    manual.push_back(a);
    manual.push_back(b);

    assert_eq!(bulk.len(), manual.len());
    assert_eq!(bulk.drain(), manual.drain());
}

#[test]
fn peek_neighbors_two_elements() {
    let mut list = NumberedList::new();
    let a: usize = 1;
    let b: usize = 2;

    list.push_back(a);
    list.push_back(b);

    let head = list.head().unwrap();
    assert!(head.links().prev.is_none());
    assert!(list.follow(&head.links().prev).is_none());
    assert_eq!(list.follow(&head.links().next).unwrap().number, b);

    let tail = list.tail().unwrap();
    assert!(tail.links().next.is_none());
    assert!(list.follow(&tail.links().next).is_none());
    assert_eq!(list.follow(&tail.links().prev).unwrap().number, a);

    assert!(list.follow(&Link::none()).is_none());
}

#[test]
fn duplicate_values_kept_apart() {
    let mut list = NumberedList::new();

    list.push_back(5);
    list.push_back(5);
    assert_eq!(list.len(), 2);

    assert_eq!(list.pop_front(), Some(5));
    assert_eq!(list.pop_front(), Some(5));
    assert_eq!(list.pop_front(), None);
}

#[test]
fn front_and_back_mutation() {
    let mut list = NumberedList::new();

    assert!(list.front_mut().is_none());
    assert!(list.back_mut().is_none());

    list.push_back(1);
    list.push_back(2);
    list.push_back(3);

    if let Some(t) = list.front_mut() {
        *t = 10;
    }
    if let Some(t) = list.back_mut() {
        *t = 30;
    }
    if let Some(n) = list.head_mut() {
        n.number += 1;
    }
    if let Some(n) = list.tail_mut() {
        n.number += 1;
    }

    assert_eq!(list.drain(), vec![11, 2, 31]);
}

#[test]
fn drain_empties_the_list() {
    let mut list = NumberedList::from_sequence(vec![4, 5, 6]);

    assert_eq!(list.drain(), vec![4, 5, 6]);
    assert!(list.is_empty());
    assert_eq!(list.len(), 0);
    assert!(list.head().is_none());
    assert!(list.tail().is_none());
}
