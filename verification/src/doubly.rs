//! An intrusive doubly-linked list.
//!
//! The list chains caller-defined nodes through a pair of `prev`/`next`
//! links embedded in each node.  Nodes live in a slot arena owned by the
//! list; a [`Link`] names a slot.  Both ends are tracked, so pushing and
//! popping work at the front and at the back, and the adjacency
//! invariant holds throughout: whenever one node's `next` names a
//! second node's slot, that second node's `prev` names the first.

use vstd::prelude::*;
use core::marker::PhantomData;
use crate::link::Link;
use crate::owning::OwningRef;

verus! {

/// The pair of links embedded in a member of a doubly-linked [`List`].
#[derive(Debug)]
pub struct Links {
    /// Link to the previous node in the list.
    pub prev: Link,

    /// Link to the next node in the list.
    pub next: Link,
}

impl Links {
    /// A pair of absent links.
    pub fn none() -> (l: Self)
        ensures
            l.prev@ is None,
            l.next@ is None,
    {
        Links { prev: Link::none(), next: Link::none() }
    }
}

/// The capability a caller's element type implements to be a member of
/// a doubly-linked [`List`].
///
/// A member embeds a [`Links`] pair and a payload of type `T`.  The
/// spec functions are the abstract face of a node: its payload and the
/// targets of its two links.  The executable methods expose the link
/// fields for read and write, a take-and-clear operation used during
/// unlinking, and the payload projection and conversions the item-level
/// operations rely on.
pub trait Linked<T>: Sized {
    /// The payload stored in this node.
    spec fn item_of(self) -> T;

    /// The slot this node's `prev` link names, if any.
    spec fn prev_of(self) -> Option<int>;

    /// The slot this node's `next` link names, if any.
    spec fn next_of(self) -> Option<int>;

    /// Borrow this node's link fields.
    fn links(&self) -> (l: &Links)
        ensures
            l.prev@ == self.prev_of(),
            l.next@ == self.next_of(),
    ;

    /// Overwrite this node's link fields, leaving the payload alone.
    fn set_links(&mut self, links: Links)
        ensures
            final(self).prev_of() == links.prev@,
            final(self).next_of() == links.next@,
            final(self).item_of() == old(self).item_of(),
    ;

    /// De-link this node: read its link fields and reset them to absent.
    fn take_links(&mut self) -> (l: Links)
        ensures
            l.prev@ == old(self).prev_of(),
            l.next@ == old(self).next_of(),
            final(self).prev_of() is None,
            final(self).next_of() is None,
            final(self).item_of() == old(self).item_of(),
    ;

    /// Borrow the payload.
    fn item(&self) -> (t: &T)
        ensures
            *t == self.item_of(),
    ;

    /// Mutably borrow the payload; the link fields stay as they are.
    fn item_mut(&mut self) -> (t: &mut T)
        ensures
            *t == old(self).item_of(),
            final(self).item_of() == *final(t),
            final(self).prev_of() == old(self).prev_of(),
            final(self).next_of() == old(self).next_of(),
    ;

    /// Wrap a payload in a fresh, unlinked node.
    fn from_item(item: T) -> (n: Self)
        ensures
            n.item_of() == item,
            n.prev_of() is None,
            n.next_of() is None,
    ;

    /// Unwrap the node back into its payload.
    fn into_item(self) -> (t: T)
        ensures
            t == self.item_of(),
    ;
}

/// An intrusive doubly-linked list.
///
/// # Type parameters
/// - `T`: the type of the items stored by each `N`
/// - `N`: the type of nodes in the list
/// - `R`: the type of [`OwningRef`] that owns each `N`
///
/// The view of a list is the sequence of payloads from head to tail.
/// Every operation requires and preserves [`List::wf`], the link
/// invariant tying `head`, `tail`, `len` and the nodes' link fields
/// together; in particular, adjacent nodes always point at each other.
pub struct List<T, N, R> {
    /// Slot arena holding the nodes; a linked node occupies one slot.
    slots: Vec<Option<N>>,

    /// Link to the head node of the list.
    head: Link,

    /// Link to the tail node of the list.
    tail: Link,

    /// Length of the list.
    len: usize,

    /// The chain, front to back, as arena slot indices.
    order: Ghost<Seq<int>>,

    /// Type marker for items stored in the list.
    _elem_ty: PhantomData<T>,

    /// Type marker for the `OwningRef` type.
    _ref_ty: PhantomData<R>,
}

impl<T, N: Linked<T>, R> List<T, N, R> {
    /// True when `i` names an occupied arena slot.
    pub closed spec fn slot_ok(self, i: int) -> bool {
        0 <= i < self.slots@.len() && self.slots@[i] is Some
    }

    /// The arena slot of the `k`-th node of the chain.
    pub closed spec fn index_at(self, k: int) -> int {
        self.order@[k]
    }

    /// The `k`-th node of the chain, as stored.
    pub closed spec fn node_at(self, k: int) -> N {
        self.slots@[self.order@[k]]->0
    }

    /// The link invariant.
    ///
    /// The ghost chain `order` matches `len` and names pairwise-distinct
    /// occupied slots; `head` and `tail` name its two ends; every node's
    /// `next` link names the slot of its successor and its `prev` link
    /// the slot of its predecessor, absent at the respective end.
    pub closed spec fn wf(self) -> bool {
        &&& self.order@.len() == self.len as int
        &&& self.order@.len() <= self.slots@.len()
        &&& (forall|k: int|
            0 <= k < self.order@.len() ==> self.slot_ok(#[trigger] self.order@[k]))
        &&& (forall|k1: int, k2: int|
            0 <= k1 < self.order@.len() && 0 <= k2 < self.order@.len() && k1 != k2
                ==> #[trigger] self.order@[k1] != #[trigger] self.order@[k2])
        &&& self.head@ == (if self.order@.len() == 0 {
            None::<int>
        } else {
            Some(self.order@[0])
        })
        &&& self.tail@ == (if self.order@.len() == 0 {
            None::<int>
        } else {
            Some(self.order@[self.order@.len() - 1])
        })
        &&& (forall|k: int|
            #![trigger self.node_at(k)]
            #![trigger self.order@[k]]
            0 <= k < self.order@.len() ==> self.node_at(k).next_of() == (if k
                == self.order@.len() - 1 {
                None::<int>
            } else {
                Some(self.order@[k + 1])
            }))
        &&& (forall|k: int|
            #![trigger self.node_at(k)]
            #![trigger self.order@[k]]
            0 <= k < self.order@.len() ==> self.node_at(k).prev_of() == (if k == 0 {
                None::<int>
            } else {
                Some(self.order@[k - 1])
            }))
    }
}

impl<T, N: Linked<T>, R> View for List<T, N, R> {
    type V = Seq<T>;

    closed spec fn view(&self) -> Seq<T> {
        Seq::new(self.order@.len(), |k: int| self.node_at(k).item_of())
    }
}

impl<T, N: Linked<T>, R> Default for List<T, N, R> {
    /// The empty list.
    fn default() -> (l: Self)
        ensures
            l.wf(),
            l@ == Seq::<T>::empty(),
    {
        List::new()
    }
}

impl<T, N: Linked<T>, R> List<T, N, R> {
    /// Create a new `List` with no elements.
    pub fn new() -> (l: Self)
        ensures
            l.wf(),
            l@ == Seq::<T>::empty(),
    {
        let l = List {
            slots: Vec::new(),
            head: Link::none(),
            tail: Link::none(),
            len: 0,
            order: Ghost(Seq::empty()),
            _elem_ty: PhantomData,
            _ref_ty: PhantomData,
        };
        proof {
            assert(l@ =~= Seq::<T>::empty());
        }
        l
    }

    /// Returns the length of the list.
    pub fn len(&self) -> (n: usize)
        requires
            self.wf(),
        ensures
            n == self@.len(),
    {
        self.len
    }

    /// Returns true if the list is empty, false otherwise.
    pub fn is_empty(&self) -> (r: bool)
        requires
            self.wf(),
        ensures
            r <==> self@.len() == 0,
    {
        self.len == 0
    }

    /// Borrows the first node of the list as an `Option`.
    ///
    /// Note that this is distinct from `front`: this method borrows the
    /// head _node_, not the head _element_.
    pub fn head(&self) -> (r: Option<&N>)
        requires
            self.wf(),
        ensures
            match r {
                None => self@.len() == 0,
                Some(n) => {
                    &&& self@.len() > 0
                    &&& n.item_of() == self@[0]
                    &&& n.prev_of() is None
                    &&& n.next_of() == (if self@.len() == 1 {
                        None::<int>
                    } else {
                        Some(self.index_at(1))
                    })
                },
            },
    {
        match self.head.index() {
            None => None,
            Some(h) => {
                proof {
                    assert(self.order@[0] == h as int);
                    assert(self.slot_ok(self.order@[0]));
                }
                self.slots[h].as_ref()
            },
        }
    }

    /// Borrows the last node of the list as an `Option`.
    pub fn tail(&self) -> (r: Option<&N>)
        requires
            self.wf(),
        ensures
            match r {
                None => self@.len() == 0,
                Some(n) => {
                    &&& self@.len() > 0
                    &&& n.item_of() == self@[self@.len() - 1]
                    &&& n.next_of() is None
                    &&& n.prev_of() == (if self@.len() == 1 {
                        None::<int>
                    } else {
                        Some(self.index_at(self@.len() - 2))
                    })
                },
            },
    {
        match self.tail.index() {
            None => None,
            Some(h) => {
                proof {
                    assert(self.order@[self.order@.len() - 1] == h as int);
                    assert(self.slot_ok(self.order@[self.order@.len() - 1]));
                }
                self.slots[h].as_ref()
            },
        }
    }

    /// Mutably borrows the first node of the list as an `Option`.
    ///
    /// The caller may change the payload freely; the list stays
    /// well-formed as long as the node's link fields are left alone.
    pub fn head_mut(&mut self) -> (r: Option<&mut N>)
        requires
            old(self).wf(),
        ensures
            match r {
                None => {
                    &&& old(self)@.len() == 0
                    &&& *final(self) == *old(self)
                },
                Some(n) => {
                    &&& old(self)@.len() > 0
                    &&& *n == old(self).node_at(0)
                    &&& (*n).item_of() == old(self)@[0]
                    &&& (final(n).next_of() == old(self).node_at(0).next_of()
                        && final(n).prev_of() == old(self).node_at(0).prev_of()
                        ==> final(self).wf()
                        && final(self)@.len() == old(self)@.len()
                        && final(self)@[0] == final(n).item_of()
                        && (forall|k: int|
                            1 <= k < old(self)@.len() ==> final(self)@[k] == old(self)@[k]))
                },
            },
    {
        match self.head.index() {
            None => None,
            Some(h) => {
                proof {
                    assert(self.order@[0] == h as int);
                    assert(self.slot_ok(self.order@[0]));
                }
                match &mut self.slots[h] {
                    Some(n) => Some(n),
                    None => {
                        proof {
                            assert(false);
                        }
                        None
                    },
                }
            },
        }
    }

    /// Mutably borrows the first item of the list as an `Option`.
    ///
    /// Only the payload is reachable through the returned reference, so
    /// the list is well-formed again as soon as the borrow ends.
    pub fn front_mut(&mut self) -> (r: Option<&mut T>)
        requires
            old(self).wf(),
        ensures
            match r {
                None => old(self)@.len() == 0 && *final(self) == *old(self),
                Some(t) => {
                    &&& old(self)@.len() > 0
                    &&& *t == old(self)@[0]
                    &&& final(self).wf()
                    &&& final(self)@.len() == old(self)@.len()
                    &&& final(self)@[0] == *final(t)
                    &&& (forall|k: int|
                        1 <= k < old(self)@.len() ==> final(self)@[k] == old(self)@[k])
                },
            },
    {
        match self.head_mut() {
            Some(n) => Some(n.item_mut()),
            None => None,
        }
    }

    /// Borrows the first item of the list as an `Option`.
    pub fn front(&self) -> (r: Option<&T>)
        requires
            self.wf(),
        ensures
            match r {
                None => self@.len() == 0,
                Some(t) => self@.len() > 0 && *t == self@[0],
            },
    {
        match self.head() {
            Some(n) => Some(n.item()),
            None => None,
        }
    }

    /// Mutably borrows the last node of the list as an `Option`.
    ///
    /// The caller may change the payload freely; the list stays
    /// well-formed as long as the node's link fields are left alone.
    pub fn tail_mut(&mut self) -> (r: Option<&mut N>)
        requires
            old(self).wf(),
        ensures
            match r {
                None => {
                    &&& old(self)@.len() == 0
                    &&& *final(self) == *old(self)
                },
                Some(n) => {
                    &&& old(self)@.len() > 0
                    &&& *n == old(self).node_at(old(self)@.len() - 1)
                    &&& (*n).item_of() == old(self)@[old(self)@.len() - 1]
                    &&& (final(n).next_of() == old(self).node_at(old(self)@.len() - 1).next_of()
                        && final(n).prev_of() == old(self).node_at(old(self)@.len()
                        - 1).prev_of() ==> final(self).wf()
                        && final(self)@.len() == old(self)@.len()
                        && final(self)@[old(self)@.len() - 1] == final(n).item_of()
                        && (forall|k: int|
                            0 <= k < old(self)@.len() - 1 ==> final(self)@[k] == old(self)@[k]))
                },
            },
    {
        match self.tail.index() {
            None => None,
            Some(h) => {
                proof {
                    assert(self.order@[self.order@.len() - 1] == h as int);
                    assert(self.slot_ok(self.order@[self.order@.len() - 1]));
                }
                match &mut self.slots[h] {
                    Some(n) => Some(n),
                    None => {
                        proof {
                            assert(false);
                        }
                        None
                    },
                }
            },
        }
    }

    /// Mutably borrows the last item of the list as an `Option`.
    ///
    /// Only the payload is reachable through the returned reference, so
    /// the list is well-formed again as soon as the borrow ends.
    pub fn back_mut(&mut self) -> (r: Option<&mut T>)
        requires
            old(self).wf(),
        ensures
            match r {
                None => old(self)@.len() == 0 && *final(self) == *old(self),
                Some(t) => {
                    &&& old(self)@.len() > 0
                    &&& *t == old(self)@[old(self)@.len() - 1]
                    &&& final(self).wf()
                    &&& final(self)@.len() == old(self)@.len()
                    &&& final(self)@[old(self)@.len() - 1] == *final(t)
                    &&& (forall|k: int|
                        0 <= k < old(self)@.len() - 1 ==> final(self)@[k] == old(self)@[k])
                },
            },
    {
        match self.tail_mut() {
            Some(n) => Some(n.item_mut()),
            None => None,
        }
    }

    /// Borrows the last item of the list as an `Option`.
    pub fn back(&self) -> (r: Option<&T>)
        requires
            self.wf(),
        ensures
            match r {
                None => self@.len() == 0,
                Some(t) => self@.len() > 0 && *t == self@[self@.len() - 1],
            },
    {
        match self.tail() {
            Some(n) => Some(n.item()),
            None => None,
        }
    }
}

impl<T, N: Linked<T>, R: OwningRef<N>> List<T, N, R> {
    /// Push a node to the head of the list.
    ///
    /// The node's `next` link is pointed at the old head (whose `prev`
    /// link is pointed back), or the tail is set when the list was
    /// empty.
    pub fn push_front_node(&mut self, node: R)
        requires
            old(self).wf(),
        ensures
            final(self).wf(),
            final(self)@ == seq![node.node_of().item_of()] + old(self)@,
    {
        let mut n = node.into_node();
        let old_head = self.head.index();
        n.set_links(Links { prev: Link::none(), next: Link::of(old_head) });
        let index = self.slots.len();
        self.slots.push(Some(n));
        // reading the grown arena length shows that `len + 1` fits in usize
        let slot_count = self.slots.len();
        match old_head {
            None => {
                self.tail = Link::to(index);
            },
            Some(h) => {
                proof {
                    assert(old(self).order@[0] == h as int);
                    assert(old(self).slot_ok(old(self).order@[0]));
                }
                match &mut self.slots[h] {
                    Some(hn) => {
                        let keep = hn.links().next.index();
                        hn.set_links(Links { prev: Link::to(index), next: Link::of(keep) });
                    },
                    None => {
                        proof {
                            assert(false);
                        }
                    },
                }
            },
        }
        self.head = Link::to(index);
        self.len = self.len + 1;
        proof {
            let pre = *old(self);
            self.order@ = seq![index as int] + pre.order@;
            assert(slot_count as int == index + 1);
            assert(self.order@.len() == pre.order@.len() + 1);
            if pre.order@.len() > 0 {
                let h = pre.order@[0];
                assert(pre.slot_ok(h));
                assert(self.slots@[h] is Some);
                let hn_new = self.slots@[h]->0;
                assert(hn_new.prev_of() == Some(index as int));
                assert(hn_new.next_of() == pre.node_at(0).next_of());
                assert(hn_new.item_of() == pre.node_at(0).item_of());
                assert(self.node_at(1) == hn_new);
                assert forall|k: int|
                    2 <= k < self.order@.len() implies self.node_at(k) == pre.node_at(k - 1) by {
                    assert(pre.order@[k - 1] != pre.order@[0]);
                    assert(pre.slot_ok(pre.order@[k - 1]));
                }
            }
            assert forall|k: int| 0 <= k < self.order@.len() implies self.slot_ok(
                #[trigger] self.order@[k],
            ) by {
                if k > 0 {
                    assert(self.order@[k] == pre.order@[k - 1]);
                    assert(pre.slot_ok(pre.order@[k - 1]));
                }
            }
            assert forall|k: int|
                0 <= k < self.order@.len() implies (#[trigger] self.node_at(k)).next_of() == (
            if k == self.order@.len() - 1 {
                None::<int>
            } else {
                Some(self.order@[k + 1])
            }) by {
                if k == 0 {
                    assert(self.node_at(0) == self.slots@[index as int]->0);
                } else {
                    assert(pre.node_at(k - 1).next_of() == (if k - 1 == pre.order@.len() - 1 {
                        None::<int>
                    } else {
                        Some(pre.order@[k])
                    }));
                }
            }
            assert forall|k: int|
                0 <= k < self.order@.len() implies (#[trigger] self.node_at(k)).prev_of() == (
            if k == 0 {
                None::<int>
            } else {
                Some(self.order@[k - 1])
            }) by {
                if k == 0 {
                    assert(self.node_at(0) == self.slots@[index as int]->0);
                } else if k >= 2 {
                    assert(pre.node_at(k - 1).prev_of() == Some(pre.order@[k - 2]));
                }
            }
            assert forall|k: int| 0 <= k < self@.len() implies self@[k] == (seq![
                node.node_of().item_of(),
            ] + pre@)[k] by {
                if k == 0 {
                    assert(self.node_at(0) == self.slots@[index as int]->0);
                } else if k == 1 {
                    assert(pre@[0] == pre.node_at(0).item_of());
                } else {
                    assert(self.node_at(k) == pre.node_at(k - 1));
                }
            }
            assert(self@ =~= seq![node.node_of().item_of()] + pre@);
        }
    }

    /// Push a node to the tail of the list.
    ///
    /// The node's `prev` link is pointed at the old tail (whose `next`
    /// link is pointed back), or the head is set when the list was
    /// empty.
    pub fn push_back_node(&mut self, node: R)
        requires
            old(self).wf(),
        ensures
            final(self).wf(),
            final(self)@ == old(self)@ + seq![node.node_of().item_of()],
    {
        let mut n = node.into_node();
        let old_tail = self.tail.index();
        n.set_links(Links { prev: Link::of(old_tail), next: Link::none() });
        let index = self.slots.len();
        self.slots.push(Some(n));
        // reading the grown arena length shows that `len + 1` fits in usize
        let slot_count = self.slots.len();
        match old_tail {
            None => {
                self.head = Link::to(index);
            },
            Some(h) => {
                proof {
                    assert(old(self).order@[old(self).order@.len() - 1] == h as int);
                    assert(old(self).slot_ok(old(self).order@[old(self).order@.len() - 1]));
                }
                match &mut self.slots[h] {
                    Some(hn) => {
                        let keep = hn.links().prev.index();
                        hn.set_links(Links { prev: Link::of(keep), next: Link::to(index) });
                    },
                    None => {
                        proof {
                            assert(false);
                        }
                    },
                }
            },
        }
        self.tail = Link::to(index);
        self.len = self.len + 1;
        proof {
            let pre = *old(self);
            let m = pre.order@.len() as int;
            self.order@ = pre.order@.push(index as int);
            assert(slot_count as int == index + 1);
            assert(self.order@.len() == m + 1);
            assert(self.order@[m] == index as int);
            assert forall|k: int| 0 <= k < m implies #[trigger] self.order@[k] == pre.order@[k]
                by {}
            if m > 0 {
                let h = pre.order@[m - 1];
                assert(pre.slot_ok(h));
                assert(self.slots@[h] is Some);
                let hn_new = self.slots@[h]->0;
                assert(hn_new.next_of() == Some(index as int));
                assert(hn_new.prev_of() == pre.node_at(m - 1).prev_of());
                assert(hn_new.item_of() == pre.node_at(m - 1).item_of());
                assert(self.node_at(m - 1) == hn_new);
                assert forall|k: int| 0 <= k < m - 1 implies self.node_at(k) == pre.node_at(k)
                    by {
                    assert(pre.order@[k] != pre.order@[m - 1]);
                    assert(pre.slot_ok(pre.order@[k]));
                }
            }
            assert(self.node_at(m) == self.slots@[index as int]->0);
            assert forall|k: int| 0 <= k < self.order@.len() implies self.slot_ok(
                #[trigger] self.order@[k],
            ) by {
                if k < m {
                    assert(pre.slot_ok(pre.order@[k]));
                }
            }
            assert forall|k: int|
                0 <= k < self.order@.len() implies (#[trigger] self.node_at(k)).next_of() == (
            if k == self.order@.len() - 1 {
                None::<int>
            } else {
                Some(self.order@[k + 1])
            }) by {
                if k < m - 1 {
                    assert(pre.node_at(k).next_of() == Some(pre.order@[k + 1]));
                }
            }
            assert forall|k: int|
                0 <= k < self.order@.len() implies (#[trigger] self.node_at(k)).prev_of() == (
            if k == 0 {
                None::<int>
            } else {
                Some(self.order@[k - 1])
            }) by {
                if k == m {
                    assert(self.node_at(m) == self.slots@[index as int]->0);
                } else if k == m - 1 {
                    assert(pre.node_at(m - 1).prev_of() == (if m - 1 == 0 {
                        None::<int>
                    } else {
                        Some(pre.order@[m - 2])
                    }));
                } else if 0 < k {
                    assert(pre.node_at(k).prev_of() == Some(pre.order@[k - 1]));
                }
            }
            assert forall|k: int| 0 <= k < self@.len() implies self@[k] == (pre@ + seq![
                node.node_of().item_of(),
            ])[k] by {
                if k < m - 1 {
                    assert(self.node_at(k) == pre.node_at(k));
                } else if k == m - 1 {
                    assert(pre@[k] == pre.node_at(k).item_of());
                }
            }
            assert(self@ =~= pre@ + seq![node.node_of().item_of()]);
        }
    }

    /// Pop a node from the front of the list.
    ///
    /// Returns the head node, de-linked and handed back under the
    /// reference strategy `R`, or `None` if the list is empty.  The new
    /// head's `prev` link, if any, is cleared.
    pub fn pop_front_node(&mut self) -> (r: Option<R>)
        requires
            old(self).wf(),
        ensures
            final(self).wf(),
            match r {
                None => old(self)@.len() == 0 && final(self)@ == old(self)@,
                Some(rf) => {
                    &&& old(self)@.len() > 0
                    &&& rf.node_of().item_of() == old(self)@[0]
                    &&& rf.node_of().prev_of() is None
                    &&& rf.node_of().next_of() is None
                    &&& final(self)@ == old(self)@.drop_first()
                },
            },
    {
        match self.head.index() {
            None => {
                proof {
                    assert(self@ =~= old(self)@);
                }
                None
            },
            Some(h) => {
                proof {
                    assert(self.order@[0] == h as int);
                    assert(self.slot_ok(self.order@[0]));
                }
                let taken = self.slots[h].take();
                let mut node = taken.unwrap();
                let links = node.take_links();
                let next_idx = links.next.index();
                self.head = Link::of(next_idx);
                match next_idx {
                    None => {
                        self.tail = Link::none();
                    },
                    Some(j) => {
                        proof {
                            assert(old(self).node_at(0).next_of() == (if old(
                                self,
                            ).order@.len() == 1 {
                                None::<int>
                            } else {
                                Some(old(self).order@[1])
                            }));
                            assert(links.next@ == old(self).node_at(0).next_of());
                            assert(old(self).order@.len() >= 2);
                            assert(old(self).order@[1] == j as int);
                            assert(old(self).slot_ok(old(self).order@[1]));
                            assert(old(self).order@[1] != old(self).order@[0]);
                        }
                        match &mut self.slots[j] {
                            Some(jn) => {
                                let keep = jn.links().next.index();
                                jn.set_links(Links { prev: Link::none(), next: Link::of(keep) });
                            },
                            None => {
                                proof {
                                    assert(false);
                                }
                            },
                        }
                    },
                }
                self.len = self.len - 1;
                proof {
                    let pre = *old(self);
                    let m = pre.order@.len() as int;
                    self.order@ = pre.order@.drop_first();
                    assert(pre.node_at(0).item_of() == pre@[0]);
                    if m >= 2 {
                        let j = pre.order@[1];
                        assert(self.slots@[j] is Some);
                        let jn_new = self.slots@[j]->0;
                        assert(jn_new.prev_of() is None);
                        assert(jn_new.next_of() == pre.node_at(1).next_of());
                        assert(jn_new.item_of() == pre.node_at(1).item_of());
                        assert(self.node_at(0) == jn_new);
                        assert forall|k: int|
                            1 <= k < self.order@.len() implies self.node_at(k) == pre.node_at(
                            k + 1,
                        ) by {
                            assert(self.order@[k] == pre.order@[k + 1]);
                            assert(pre.order@[k + 1] != pre.order@[0]);
                            assert(pre.order@[k + 1] != pre.order@[1]);
                            assert(pre.slot_ok(pre.order@[k + 1]));
                        }
                    }
                    assert forall|k: int| 0 <= k < self.order@.len() implies self.slot_ok(
                        #[trigger] self.order@[k],
                    ) by {
                        assert(self.order@[k] == pre.order@[k + 1]);
                        assert(pre.order@[k + 1] != pre.order@[0]);
                        assert(pre.slot_ok(pre.order@[k + 1]));
                    }
                    assert forall|k: int|
                        0 <= k < self.order@.len() implies (#[trigger] self.node_at(
                        k,
                    )).next_of() == (if k == self.order@.len() - 1 {
                        None::<int>
                    } else {
                        Some(self.order@[k + 1])
                    }) by {
                        assert(pre.node_at(k + 1).next_of() == (if k + 1 == m - 1 {
                            None::<int>
                        } else {
                            Some(pre.order@[k + 2])
                        }));
                    }
                    assert forall|k: int|
                        0 <= k < self.order@.len() implies (#[trigger] self.node_at(
                        k,
                    )).prev_of() == (if k == 0 {
                        None::<int>
                    } else {
                        Some(self.order@[k - 1])
                    }) by {
                        if k > 0 {
                            assert(pre.node_at(k + 1).prev_of() == Some(pre.order@[k]));
                        }
                    }
                    assert(pre.node_at(0).next_of() == (if 0 == m - 1 {
                        None::<int>
                    } else {
                        Some(pre.order@[1])
                    }));
                    assert forall|k: int|
                        0 <= k < self@.len() implies self@[k] == pre@.drop_first()[k] by {
                        if k > 0 {
                            assert(self.node_at(k) == pre.node_at(k + 1));
                        }
                        assert(pre@[k + 1] == pre.node_at(k + 1).item_of());
                    }
                    assert(self@ =~= pre@.drop_first());
                }
                Some(R::from_node(node))
            },
        }
    }

    /// Pop a node from the back of the list.
    ///
    /// Returns the tail node, de-linked and handed back under the
    /// reference strategy `R`, or `None` if the list is empty.  The new
    /// tail's `next` link, if any, is cleared.
    pub fn pop_back_node(&mut self) -> (r: Option<R>)
        requires
            old(self).wf(),
        ensures
            final(self).wf(),
            match r {
                None => old(self)@.len() == 0 && final(self)@ == old(self)@,
                Some(rf) => {
                    &&& old(self)@.len() > 0
                    &&& rf.node_of().item_of() == old(self)@[old(self)@.len() - 1]
                    &&& rf.node_of().prev_of() is None
                    &&& rf.node_of().next_of() is None
                    &&& final(self)@ == old(self)@.drop_last()
                },
            },
    {
        match self.tail.index() {
            None => {
                proof {
                    assert(self@ =~= old(self)@);
                }
                None
            },
            Some(h) => {
                proof {
                    assert(self.order@[self.order@.len() - 1] == h as int);
                    assert(self.slot_ok(self.order@[self.order@.len() - 1]));
                }
                let taken = self.slots[h].take();
                let mut node = taken.unwrap();
                let links = node.take_links();
                let prev_idx = links.prev.index();
                self.tail = Link::of(prev_idx);
                match prev_idx {
                    None => {
                        self.head = Link::none();
                    },
                    Some(j) => {
                        proof {
                            assert(old(self).node_at(old(self).order@.len() - 1).prev_of() == (
                            if old(self).order@.len() == 1 {
                                None::<int>
                            } else {
                                Some(old(self).order@[old(self).order@.len() - 2])
                            }));
                            assert(links.prev@ == old(self).node_at(old(self).order@.len()
                                - 1).prev_of());
                            assert(old(self).order@.len() >= 2);
                            assert(old(self).order@[old(self).order@.len() - 2] == j as int);
                            assert(old(self).slot_ok(old(self).order@[old(self).order@.len()
                                - 2]));
                            assert(old(self).order@[old(self).order@.len() - 2] != old(
                                self,
                            ).order@[old(self).order@.len() - 1]);
                        }
                        match &mut self.slots[j] {
                            Some(jn) => {
                                let keep = jn.links().prev.index();
                                jn.set_links(Links { prev: Link::of(keep), next: Link::none() });
                            },
                            None => {
                                proof {
                                    assert(false);
                                }
                            },
                        }
                    },
                }
                self.len = self.len - 1;
                proof {
                    let pre = *old(self);
                    let m = pre.order@.len() as int;
                    self.order@ = pre.order@.drop_last();
                    assert(pre.node_at(m - 1).item_of() == pre@[m - 1]);
                    assert(pre.node_at(m - 1).prev_of() == (if m - 1 == 0 {
                        None::<int>
                    } else {
                        Some(pre.order@[m - 2])
                    }));
                    if m >= 2 {
                        let j = pre.order@[m - 2];
                        assert(self.slots@[j] is Some);
                        let jn_new = self.slots@[j]->0;
                        assert(jn_new.next_of() is None);
                        assert(jn_new.prev_of() == pre.node_at(m - 2).prev_of());
                        assert(jn_new.item_of() == pre.node_at(m - 2).item_of());
                        assert(self.node_at(m - 2) == jn_new);
                        assert forall|k: int| 0 <= k < m - 2 implies self.node_at(k)
                            == pre.node_at(k) by {
                            assert(self.order@[k] == pre.order@[k]);
                            assert(pre.order@[k] != pre.order@[m - 1]);
                            assert(pre.order@[k] != pre.order@[m - 2]);
                            assert(pre.slot_ok(pre.order@[k]));
                        }
                    }
                    assert forall|k: int| 0 <= k < self.order@.len() implies self.slot_ok(
                        #[trigger] self.order@[k],
                    ) by {
                        assert(self.order@[k] == pre.order@[k]);
                        assert(pre.order@[k] != pre.order@[m - 1]);
                        assert(pre.slot_ok(pre.order@[k]));
                    }
                    assert forall|k: int|
                        0 <= k < self.order@.len() implies (#[trigger] self.node_at(
                        k,
                    )).next_of() == (if k == self.order@.len() - 1 {
                        None::<int>
                    } else {
                        Some(self.order@[k + 1])
                    }) by {
                        if k < m - 2 {
                            assert(self.node_at(k) == pre.node_at(k));
                            assert(pre.node_at(k).next_of() == Some(pre.order@[k + 1]));
                        }
                    }
                    assert forall|k: int|
                        0 <= k < self.order@.len() implies (#[trigger] self.node_at(
                        k,
                    )).prev_of() == (if k == 0 {
                        None::<int>
                    } else {
                        Some(self.order@[k - 1])
                    }) by {
                        if k < m - 2 {
                            assert(self.node_at(k) == pre.node_at(k));
                            if k > 0 {
                                assert(pre.node_at(k).prev_of() == Some(pre.order@[k - 1]));
                            }
                        } else if k == m - 2 && k > 0 {
                            assert(pre.node_at(m - 2).prev_of() == Some(pre.order@[m - 3]));
                        }
                    }
                    assert forall|k: int|
                        0 <= k < self@.len() implies self@[k] == pre@.drop_last()[k] by {
                        if k < m - 2 {
                            assert(self.node_at(k) == pre.node_at(k));
                        }
                        assert(pre@[k] == pre.node_at(k).item_of());
                    }
                    assert(self@ =~= pre@.drop_last());
                }
                Some(R::from_node(node))
            },
        }
    }

    /// Push every node of `nodes` to the back of the list, in order.
    pub fn extend_nodes(&mut self, nodes: Vec<R>)
        requires
            old(self).wf(),
        ensures
            final(self).wf(),
            final(self)@ == old(self)@ + nodes@.map(|k: int, r: R| r.node_of().item_of()),
    {
        let ghost all = nodes@.map(|k: int, r: R| r.node_of().item_of());
        let mut rest = nodes;
        while rest.len() > 0
            invariant
                self.wf(),
                self@ + rest@.map(|k: int, r: R| r.node_of().item_of()) == old(self)@ + all,
            decreases rest@.len(),
        {
            let ghost before = rest@.map(|k: int, r: R| r.node_of().item_of());
            let node = rest.remove(0);
            self.push_back_node(node);
            proof {
                assert(rest@.map(|k: int, r: R| r.node_of().item_of()) =~= before.drop_first());
                assert(self@ + rest@.map(|k: int, r: R| r.node_of().item_of()) =~= old(self)@
                    + all);
            }
        }
        proof {
            assert(self@ =~= old(self)@ + all);
        }
    }

    /// Bulk-construct a list by pushing every node of `nodes` to the
    /// back, in order.
    pub fn from_sequence_nodes(nodes: Vec<R>) -> (l: Self)
        ensures
            l.wf(),
            l@ == nodes@.map(|k: int, r: R| r.node_of().item_of()),
    {
        let ghost all = nodes@.map(|k: int, r: R| r.node_of().item_of());
        let mut l = List::new();
        l.extend_nodes(nodes);
        proof {
            assert(l@ =~= all);
        }
        l
    }
}

impl<T, N: Linked<T>> List<T, N, Box<N>> {
    /// Push an item to the front of the list.
    ///
    /// The item is wrapped in a freshly constructed, exclusively owned
    /// node before being linked in.
    pub fn push_front(&mut self, item: T)
        requires
            old(self).wf(),
        ensures
            final(self).wf(),
            final(self)@ == seq![item] + old(self)@,
    {
        self.push_front_node(Box::new(N::from_item(item)));
    }

    /// Push an item to the back of the list.
    pub fn push_back(&mut self, item: T)
        requires
            old(self).wf(),
        ensures
            final(self).wf(),
            final(self)@ == old(self)@ + seq![item],
    {
        self.push_back_node(Box::new(N::from_item(item)));
    }

    /// Pop an item from the front of the list.
    ///
    /// The head node is unlinked and unwrapped back into its payload.
    pub fn pop_front(&mut self) -> (r: Option<T>)
        requires
            old(self).wf(),
        ensures
            final(self).wf(),
            match r {
                None => old(self)@.len() == 0 && final(self)@ == old(self)@,
                Some(t) => {
                    &&& old(self)@.len() > 0
                    &&& t == old(self)@[0]
                    &&& final(self)@ == old(self)@.drop_first()
                },
            },
    {
        match self.pop_front_node() {
            Some(b) => Some(b.into_node().into_item()),
            None => None,
        }
    }

    /// Pop an item from the back of the list.
    ///
    /// The tail node is unlinked and unwrapped back into its payload.
    pub fn pop_back(&mut self) -> (r: Option<T>)
        requires
            old(self).wf(),
        ensures
            final(self).wf(),
            match r {
                None => old(self)@.len() == 0 && final(self)@ == old(self)@,
                Some(t) => {
                    &&& old(self)@.len() > 0
                    &&& t == old(self)@[old(self)@.len() - 1]
                    &&& final(self)@ == old(self)@.drop_last()
                },
            },
    {
        match self.pop_back_node() {
            Some(b) => Some(b.into_node().into_item()),
            None => None,
        }
    }

    /// Push every item of `items` to the back of the list, in order.
    ///
    /// The length grows by exactly `items.len()`.
    pub fn extend(&mut self, items: Vec<T>)
        requires
            old(self).wf(),
        ensures
            final(self).wf(),
            final(self)@ == old(self)@ + items@,
    {
        let ghost all = items@;
        let mut rest = items;
        while rest.len() > 0
            invariant
                self.wf(),
                self@ + rest@ == old(self)@ + all,
            decreases rest@.len(),
        {
            let ghost before = rest@;
            let item = rest.remove(0);
            self.push_back(item);
            proof {
                assert(rest@ =~= before.drop_first());
                assert(self@ + rest@ =~= old(self)@ + all);
            }
        }
        proof {
            assert(self@ =~= old(self)@ + all);
        }
    }

    /// Bulk-construct a list holding the items of `items`, in order.
    ///
    /// The result is the list that pushing every item to the back, in
    /// order, yields.
    pub fn from_sequence(items: Vec<T>) -> (l: Self)
        ensures
            l.wf(),
            l@ == items@,
    {
        let ghost all = items@;
        let mut l = List::new();
        l.extend(items);
        proof {
            assert(l@ =~= all);
        }
        l
    }

    /// Drain the list front to back into a vector, leaving it empty.
    pub fn drain(&mut self) -> (v: Vec<T>)
        requires
            old(self).wf(),
        ensures
            final(self).wf(),
            final(self)@.len() == 0,
            v@ == old(self)@,
    {
        let mut v = Vec::new();
        while self.len() > 0
            invariant
                self.wf(),
                v@ + self@ == old(self)@,
            decreases self@.len(),
        {
            let ghost before = self@;
            let item = self.pop_front().unwrap();
            v.push(item);
            proof {
                assert(v@ + self@ =~= old(self)@);
            }
        }
        proof {
            assert(v@ =~= old(self)@);
        }
        v
    }
}

impl<T, N: Linked<T>, R> List<T, N, R> {
    /// Borrow the node a link of this list names, if any.
    ///
    /// Following the `next` or `prev` link read from a node of the list
    /// reaches that node's neighbour; the absent link, or one naming an
    /// empty slot, yields `None`.
    pub fn follow(&self, link: &Link) -> (r: Option<&N>)
        requires
            self.wf(),
        ensures
            link@ is None ==> r is None,
            forall|k: int|
                0 <= k < self@.len() && link@ == Some(#[trigger] self.index_at(k)) ==> r
                    is Some,
            match r {
                Some(n) => forall|k: int|
                    0 <= k < self@.len() && link@ == Some(#[trigger] self.index_at(k))
                        ==> *n == self.node_at(k),
                None => true,
            },
    {
        match link.index() {
            None => None,
            Some(i) => {
                if i < self.slots.len() {
                    proof {
                        assert forall|k: int|
                            0 <= k < self@.len() && link@ == Some(self.index_at(k)) implies
                        self.slot_ok(#[trigger] self.order@[k]) by {}
                    }
                    self.slots[i].as_ref()
                } else {
                    None
                }
            },
        }
    }

    /// The doubly-adjacency invariant, as a law of well-formed lists.
    ///
    /// For every node `A` whose `next` link names the slot of a node
    /// `B`, `B`'s `prev` link names the slot of `A`; the head's `prev`
    /// link and the tail's `next` link are absent.
    pub proof fn lemma_adjacency(self)
        requires
            self.wf(),
        ensures
            forall|k: int|
                0 <= k < self@.len() - 1 ==> (#[trigger] self.node_at(k)).next_of() == Some(
                    self.index_at(k + 1),
                ) && self.node_at(k + 1).prev_of() == Some(self.index_at(k)),
            self@.len() > 0 ==> self.node_at(0).prev_of() is None,
            self@.len() > 0 ==> self.node_at(self@.len() - 1).next_of() is None,
    {
    }

    /// The neighbour-peek law.
    ///
    /// Peeking before the head or past the tail finds nothing; in a
    /// list of at least two elements, the head's `next` link leads to
    /// the node holding the second payload and the tail's `prev` link
    /// to the node holding the second-to-last payload.
    pub proof fn lemma_neighbor_peek(self)
        requires
            self.wf(),
        ensures
            self@.len() > 0 ==> self.node_at(0).prev_of() is None,
            self@.len() > 0 ==> self.node_at(self@.len() - 1).next_of() is None,
            self@.len() > 1 ==> {
                &&& self.node_at(0).next_of() == Some(self.index_at(1))
                &&& self.node_at(1).item_of() == self@[1]
                &&& self.node_at(self@.len() - 1).prev_of() == Some(
                    self.index_at(self@.len() - 2),
                )
                &&& self.node_at(self@.len() - 2).item_of() == self@[self@.len() - 2]
            },
    {
    }
}

/// A node holding a `usize` payload, for lists of numbers.
#[derive(Debug)]
pub struct NumberedNode {
    /// The payload.
    pub number: usize,

    /// The embedded link fields.
    links: Links,
}

impl NumberedNode {
    /// A fresh, unlinked node holding `number`.
    pub fn new(number: usize) -> (n: Self)
        ensures
            n.item_of() == number,
            n.prev_of() is None,
            n.next_of() is None,
    {
        NumberedNode { number, links: Links::none() }
    }
}

impl Linked<usize> for NumberedNode {
    closed spec fn item_of(self) -> usize {
        self.number
    }

    closed spec fn prev_of(self) -> Option<int> {
        self.links.prev@
    }

    closed spec fn next_of(self) -> Option<int> {
        self.links.next@
    }

    fn links(&self) -> (l: &Links) {
        &self.links
    }

    fn set_links(&mut self, links: Links) {
        self.links = links;
    }

    fn take_links(&mut self) -> (l: Links) {
        let l = Links {
            prev: Link::of(self.links.prev.index()),
            next: Link::of(self.links.next.index()),
        };
        self.links = Links::none();
        l
    }

    fn item(&self) -> (t: &usize) {
        &self.number
    }

    fn item_mut(&mut self) -> (t: &mut usize) {
        &mut self.number
    }

    fn from_item(item: usize) -> (n: NumberedNode) {
        NumberedNode::new(item)
    }

    fn into_item(self) -> (t: usize) {
        self.number
    }
}

impl PartialEq for NumberedNode {
    /// Two nodes are equal when they hold the same number; the link
    /// fields play no part.
    fn eq(&self, other: &NumberedNode) -> (r: bool) {
        self.number == other.number
    }
}

impl vstd::std_specs::cmp::PartialEqSpecImpl for NumberedNode {
    open spec fn obeys_eq_spec() -> bool {
        true
    }

    open spec fn eq_spec(&self, other: &NumberedNode) -> bool {
        self.item_of() == other.item_of()
    }
}

} // verus!
