//! Singly-linked list tests.

use intruder_alarm::link::Link;
use intruder_alarm::owning::UnsafeRef;
use intruder_alarm::singly::{Linked, List, NumberedNode};

type NumberedList = List<usize, NumberedNode, Box<NumberedNode>>;
type UnsafeList = List<usize, NumberedNode, UnsafeRef<NumberedNode>>;

#[test]
fn singly_empty_invariant() {
    let mut list = NumberedList::new();

    assert_eq!(list.len(), 0);
    assert!(list.is_empty());
    assert!(list.head().is_none());
    assert!(list.front().is_none());

    assert_eq!(list.pop_front(), None);
    assert_eq!(list.len(), 0);
    assert!(list.is_empty());
}

#[test]
fn singly_push_pop_lifo() {
    let mut list = NumberedList::new();

    list.push_front(1);
    list.push_front(2);
    list.push_front(3);
    assert_eq!(list.len(), 3);

    assert_eq!(list.pop_front(), Some(3));
    assert_eq!(list.pop_front(), Some(2));
    assert_eq!(list.pop_front(), Some(1));
    assert_eq!(list.pop_front(), None);
    assert!(list.is_empty());
}

#[test]
fn singly_push_front_node_contents() {
    let mut list = NumberedList::new();

    assert_eq!(list.head(), None);

    list.push_front_node(Box::new(NumberedNode::new(555)));
    assert_eq!(list.head().unwrap().number, 555);
    assert_eq!(list.front(), Some(&555));

    list.push_front_node(Box::new(NumberedNode::new(444)));
    assert_eq!(list.head().unwrap().number, 444);

    assert_eq!(list.pop_front_node().unwrap().number, 444);
    assert_eq!(list.pop_front_node().unwrap().number, 555);
    assert_eq!(list.pop_front_node(), None);
}

#[test]
fn singly_unsafe_ref_nodes() {
    let mut list = UnsafeList::new();

    list.push_front_node(UnsafeRef::boxed(NumberedNode::new(7)));
    list.push_front_node(UnsafeRef::boxed(NumberedNode::new(8)));

    assert_eq!(list.len(), 2);
    assert_eq!(list.head().unwrap().number, 8);

    assert_eq!(list.pop_front_node().unwrap().node().number, 8);
    assert_eq!(list.pop_front_node().unwrap().node().number, 7);
    assert!(list.pop_front_node().is_none());
}

#[test]
fn singly_front_mut_changes_payload() {
    let mut list = NumberedList::new();

    assert!(list.front_mut().is_none());

    list.push_front(5);
    if let Some(t) = list.front_mut() {
        *t = 7;
    }
    assert_eq!(list.front(), Some(&7));
    assert_eq!(list.pop_front(), Some(7));
}

#[test]
fn singly_head_mut_changes_payload() {
    let mut list = NumberedList::new();

    assert!(list.head_mut().is_none());

    list.push_front(10);
    list.push_front(20);
    if let Some(n) = list.head_mut() {
        n.number = 21;
    }
    assert_eq!(list.head().unwrap().number, 21);
    assert_eq!(list.pop_front(), Some(21));
    assert_eq!(list.pop_front(), Some(10));
}

#[test]
fn singly_follow_next_link() {
    let mut list = NumberedList::new();

    list.push_front(2);
    list.push_front(1);

    let head = list.head().unwrap();
    assert_eq!(head.number, 1);

    let second = list.follow(head.links()).unwrap();
    assert_eq!(second.number, 2);

    assert!(list.follow(second.links()).is_none());
    assert!(list.follow(&Link::none()).is_none());
}

#[test]
fn singly_length_tracks_pushes() {
    let mut list = NumberedList::new();

    for i in 0..5 {
        list.push_front(i);
        assert_eq!(list.len(), i + 1);
    }
    for i in 0..5 {
        list.pop_front();
        assert_eq!(list.len(), 4 - i);
    }
    assert!(list.is_empty());
}
