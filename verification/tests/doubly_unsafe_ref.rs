//! Doubly-linked list tests under the non-owning handle strategy.

use intruder_alarm::doubly::{List, NumberedNode};
use intruder_alarm::owning::UnsafeRef;

type UnsafeList = List<usize, NumberedNode, UnsafeRef<NumberedNode>>;

#[test]
fn tests_not_empty_after_first_push() {
    let mut list = UnsafeList::new();

    assert_eq!(list.head(), None);
    assert_eq!(list.tail(), None);
    assert!(list.is_empty());
    assert_eq!(list.len(), 0);

    list.push_front_node(UnsafeRef::boxed(NumberedNode::new(1)));

    assert_eq!(list.is_empty(), false);
    assert_eq!(list.len(), 1);
}

#[test]
fn tests_contents_after_first_push() {
    let mut list = UnsafeList::new();
    assert_eq!(list.head(), None);
    assert_eq!(list.tail(), None);

    list.push_front_node(UnsafeRef::boxed(NumberedNode::new(555)));

    assert_eq!(list.tail().unwrap().number, 555);
    assert_eq!(list.head().unwrap().number, 555);
}

#[test]
fn tests_head_tail_equal_after_first_push() {
    let mut list = UnsafeList::new();
    assert_eq!(list.head(), list.tail());

    list.push_front_node(UnsafeRef::boxed(NumberedNode::new(444)));

    assert_eq!(list.head(), list.tail());
}

#[test]
fn tests_head_tail_not_equal_after_second_push() {
    let mut list = UnsafeList::new();

    list.push_front_node(UnsafeRef::boxed(NumberedNode::new(444)));
    list.push_front_node(UnsafeRef::boxed(NumberedNode::new(555)));

    assert!(list.head().unwrap() != list.tail().unwrap());
}

#[test]
fn tests_contents_after_push_nodes() {
    let mut list = UnsafeList::new();

    list.push_front_node(UnsafeRef::boxed(NumberedNode::new(0)));
    list.push_front_node(UnsafeRef::boxed(NumberedNode::new(1)));

    assert_eq!(list.tail().unwrap().number, 0);
    assert_eq!(list.head().unwrap().number, 1);

    list.push_back_node(UnsafeRef::boxed(NumberedNode::new(2)));
    assert_eq!(list.tail().unwrap().number, 2);
    assert_eq!(list.head().unwrap().number, 1);

    list.push_back_node(UnsafeRef::boxed(NumberedNode::new(3)));
    assert_eq!(list.tail().unwrap().number, 3);
    assert_eq!(list.head().unwrap().number, 1);

    assert!(!list.is_empty());
}

#[test]
fn tests_test_pop_front_node() {
    let mut list = UnsafeList::new();

    assert_eq!(list.head(), None);
    assert_eq!(list.tail(), None);
    assert!(list.is_empty());

    list.push_front_node(UnsafeRef::boxed(NumberedNode::new(2)));

    assert!(!list.is_empty());
    assert_eq!(list.head(), list.tail());

    list.push_front_node(UnsafeRef::boxed(NumberedNode::new(1)));
    list.push_front_node(UnsafeRef::boxed(NumberedNode::new(0)));

    assert_eq!(list.head().unwrap().number, 0);
    assert_eq!(list.tail().unwrap().number, 2);

    list.push_back_node(UnsafeRef::boxed(NumberedNode::new(3)));
    assert_eq!(list.tail().unwrap().number, 3);

    list.push_back_node(UnsafeRef::boxed(NumberedNode::new(4)));
    assert_eq!(list.tail().unwrap().number, 4);

    assert!(!list.is_empty());

    assert_eq!(list.pop_front_node().unwrap().node().number, 0);
    assert_eq!(list.pop_front_node().unwrap().node().number, 1);
    assert_eq!(list.pop_front_node().unwrap().node().number, 2);
    assert_eq!(list.pop_front_node().unwrap().node().number, 3);
    assert_eq!(list.pop_front_node().unwrap().node().number, 4);

    assert!(list.is_empty());
    assert!(list.pop_front_node().is_none());
}

#[test]
fn tests_test_pop_back_node() {
    let mut list = UnsafeList::new();

    assert_eq!(list.head(), None);
    assert_eq!(list.tail(), None);
    assert!(list.is_empty());

    list.push_front_node(UnsafeRef::boxed(NumberedNode::new(2)));

    assert!(!list.is_empty());
    assert_eq!(list.head(), list.tail());

    list.push_front_node(UnsafeRef::boxed(NumberedNode::new(1)));
    list.push_front_node(UnsafeRef::boxed(NumberedNode::new(0)));

    assert_eq!(list.head().unwrap().number, 0);
    assert_eq!(list.tail().unwrap().number, 2);

    list.push_back_node(UnsafeRef::boxed(NumberedNode::new(3)));
    assert_eq!(list.tail().unwrap().number, 3);

    list.push_back_node(UnsafeRef::boxed(NumberedNode::new(4)));
    assert_eq!(list.tail().unwrap().number, 4);

    assert!(!list.is_empty());

    assert_eq!(list.pop_back_node().unwrap().node().number, 4);
    assert_eq!(list.pop_back_node().unwrap().node().number, 3);
    assert_eq!(list.pop_back_node().unwrap().node().number, 2);
    assert_eq!(list.pop_back_node().unwrap().node().number, 1);
    assert_eq!(list.pop_back_node().unwrap().node().number, 0);

    assert!(list.is_empty());
    assert!(list.pop_back_node().is_none());
}

#[test]
fn tests_test_extend() {
    let mut list = UnsafeList::new();

    list.push_back_node(UnsafeRef::boxed(NumberedNode::new(0)));
    list.push_back_node(UnsafeRef::boxed(NumberedNode::new(1)));

    assert_eq!(list.tail().unwrap().number, 1);
    assert_eq!(list.head().unwrap().number, 0);

    let ext = vec![
        UnsafeRef::boxed(NumberedNode::new(3)),
        UnsafeRef::boxed(NumberedNode::new(4)),
    ];
    list.extend_nodes(ext);

    assert_eq!(list.tail().unwrap().number, 4);
    assert_eq!(list.head().unwrap().number, 0);
}

#[test]
fn tests_test_fromiter() {
    let list_a: Vec<UnsafeRef<NumberedNode>> = (0..10)
        .map(|i| UnsafeRef::boxed(NumberedNode::new(i)))
        .collect();
    let mut nlist = UnsafeList::from_sequence_nodes(list_a);

    for i in 0..10 {
        assert_eq!(nlist.pop_front_node().unwrap().node().number, i);
    }
}
