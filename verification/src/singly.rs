//! An intrusive singly-linked list.
//!
//! The list chains caller-defined nodes through a single `next` link
//! embedded in each node.  Nodes live in a slot arena owned by the list;
//! a [`Link`] names a slot.  Only the head is tracked, so insertion and
//! removal both work at the front.

use vstd::prelude::*;
use core::marker::PhantomData;
use crate::link::Link;
use crate::owning::OwningRef;

verus! {

/// The capability a caller's element type implements to be a member of
/// a singly-linked [`List`].
///
/// A member embeds one `next` link and a payload of type `T`.  The three
/// spec functions are the abstract face of a node: its payload and its
/// link target.  The executable methods expose the link field for read
/// and write, a take-and-clear used during unlinking, and the payload
/// projection and conversions the item-level operations rely on.
pub trait Linked<T>: Sized {
    /// The payload stored in this node.
    spec fn item_of(self) -> T;

    /// The slot this node's `next` link names, if any.
    spec fn next_of(self) -> Option<int>;

    /// Borrow this node's link field.
    fn links(&self) -> (l: &Link)
        ensures
            l@ == self.next_of(),
    ;

    /// Overwrite this node's link field, leaving the payload alone.
    fn set_links(&mut self, link: Link)
        ensures
            final(self).next_of() == link@,
            final(self).item_of() == old(self).item_of(),
    ;

    /// De-link this node: read its link field and reset it to absent.
    fn take_links(&mut self) -> (l: Link)
        ensures
            l@ == old(self).next_of(),
            final(self).next_of() is None,
            final(self).item_of() == old(self).item_of(),
    ;

    /// Borrow the payload.
    fn item(&self) -> (t: &T)
        ensures
            *t == self.item_of(),
    ;

    /// Mutably borrow the payload; the link field stays as it is.
    fn item_mut(&mut self) -> (t: &mut T)
        ensures
            *t == old(self).item_of(),
            final(self).item_of() == *final(t),
            final(self).next_of() == old(self).next_of(),
    ;

    /// Wrap a payload in a fresh, unlinked node.
    fn from_item(item: T) -> (n: Self)
        ensures
            n.item_of() == item,
            n.next_of() is None,
    ;

    /// Unwrap the node back into its payload.
    fn into_item(self) -> (t: T)
        ensures
            t == self.item_of(),
    ;
}

/// An intrusive singly-linked list.
///
/// # Type parameters
/// - `T`: the type of the items stored by each `N`
/// - `N`: the type of nodes in the list
/// - `R`: the type of [`OwningRef`] that owns each `N`
///
/// The view of a list is the sequence of payloads from head to back.
/// Every operation requires and preserves [`List::wf`], the link
/// invariant tying `head`, `len` and the nodes' link fields together.
pub struct List<T, N, R> {
    /// Slot arena holding the nodes; a linked node occupies one slot.
    slots: Vec<Option<N>>,

    /// Link to the head node of the list.
    head: Link,

    /// Length of the list.
    len: usize,

    /// The chain, front to back, as arena slot indices.
    order: Ghost<Seq<int>>,

    /// Type marker for items stored in the list.
    _elem_ty: PhantomData<T>,

    /// Type marker for the `OwningRef` type.
    _ref_ty: PhantomData<R>,
}

impl<T, N: Linked<T>, R> List<T, N, R> {
    /// True when `i` names an occupied arena slot.
    pub closed spec fn slot_ok(self, i: int) -> bool {
        0 <= i < self.slots@.len() && self.slots@[i] is Some
    }

    /// The arena slot of the `k`-th node of the chain.
    pub closed spec fn index_at(self, k: int) -> int {
        self.order@[k]
    }

    /// The `k`-th node of the chain, as stored.
    pub closed spec fn node_at(self, k: int) -> N {
        self.slots@[self.order@[k]]->0
    }

    /// The link invariant.
    ///
    /// The ghost chain `order` matches `len`, names pairwise-distinct
    /// occupied slots, starts at `head`, and every node's `next` link
    /// names the slot of its successor (absent for the back node).
    pub closed spec fn wf(self) -> bool {
        &&& self.order@.len() == self.len as int
        &&& self.order@.len() <= self.slots@.len()
        &&& (forall|k: int|
            0 <= k < self.order@.len() ==> self.slot_ok(#[trigger] self.order@[k]))
        &&& (forall|k1: int, k2: int|
            0 <= k1 < self.order@.len() && 0 <= k2 < self.order@.len() && k1 != k2
                ==> #[trigger] self.order@[k1] != #[trigger] self.order@[k2])
        &&& self.head@ == (if self.order@.len() == 0 {
            None::<int>
        } else {
            Some(self.order@[0])
        })
        &&& (forall|k: int|
            #![trigger self.node_at(k)]
            #![trigger self.order@[k]]
            0 <= k < self.order@.len() ==> self.node_at(k).next_of() == (if k
                == self.order@.len() - 1 {
                None::<int>
            } else {
                Some(self.order@[k + 1])
            }))
    }
}

impl<T, N: Linked<T>, R> View for List<T, N, R> {
    type V = Seq<T>;

    closed spec fn view(&self) -> Seq<T> {
        Seq::new(self.order@.len(), |k: int| self.node_at(k).item_of())
    }
}

impl<T, N: Linked<T>, R> Default for List<T, N, R> {
    /// The empty list.
    fn default() -> (l: Self)
        ensures
            l.wf(),
            l@ == Seq::<T>::empty(),
    {
        List::new()
    }
}

impl<T, N: Linked<T>, R> List<T, N, R> {
    /// Create a new `List` with no elements.
    pub fn new() -> (l: Self)
        ensures
            l.wf(),
            l@ == Seq::<T>::empty(),
    {
        let l = List {
            slots: Vec::new(),
            head: Link::none(),
            len: 0,
            order: Ghost(Seq::empty()),
            _elem_ty: PhantomData,
            _ref_ty: PhantomData,
        };
        proof {
            assert(l@ =~= Seq::<T>::empty());
        }
        l
    }

    /// Returns the length of the list.
    pub fn len(&self) -> (n: usize)
        requires
            self.wf(),
        ensures
            n == self@.len(),
    {
        self.len
    }

    /// Returns true if the list is empty, false otherwise.
    pub fn is_empty(&self) -> (r: bool)
        requires
            self.wf(),
        ensures
            r <==> self@.len() == 0,
    {
        self.len == 0
    }
}

impl<T, N: Linked<T>, R> List<T, N, R> {
    /// Borrows the first node of the list as an `Option`.
    ///
    /// Note that this is distinct from `front`: this method borrows the
    /// head _node_, not the head _element_.
    pub fn head(&self) -> (r: Option<&N>)
        requires
            self.wf(),
        ensures
            match r {
                None => self@.len() == 0,
                Some(n) => {
                    &&& self@.len() > 0
                    &&& n.item_of() == self@[0]
                    &&& n.next_of() == (if self@.len() == 1 {
                        None::<int>
                    } else {
                        Some(self.index_at(1))
                    })
                },
            },
    {
        match self.head.index() {
            None => None,
            Some(h) => {
                proof {
                    assert(self.order@[0] == h as int);
                    assert(self.slot_ok(self.order@[0]));
                }
                self.slots[h].as_ref()
            },
        }
    }

    /// Mutably borrows the first node of the list as an `Option`.
    ///
    /// The caller may change the payload freely; the list stays
    /// well-formed as long as the node's link field is left alone.
    pub fn head_mut(&mut self) -> (r: Option<&mut N>)
        requires
            old(self).wf(),
        ensures
            match r {
                None => {
                    &&& old(self)@.len() == 0
                    &&& *final(self) == *old(self)
                },
                Some(n) => {
                    &&& old(self)@.len() > 0
                    &&& *n == old(self).node_at(0)
                    &&& (*n).item_of() == old(self)@[0]
                    &&& (final(n).next_of() == old(self).node_at(0).next_of()
                        ==> final(self).wf()
                        && final(self)@.len() == old(self)@.len()
                        && final(self)@[0] == final(n).item_of()
                        && (forall|k: int|
                            1 <= k < old(self)@.len() ==> final(self)@[k] == old(self)@[k]))
                },
            },
    {
        match self.head.index() {
            None => None,
            Some(h) => {
                proof {
                    assert(self.order@[0] == h as int);
                    assert(self.slot_ok(self.order@[0]));
                }
                match &mut self.slots[h] {
                    Some(n) => Some(n),
                    None => {
                        proof {
                            assert(false);
                        }
                        None
                    },
                }
            },
        }
    }

    /// Mutably borrows the first item of the list as an `Option`.
    ///
    /// Only the payload is reachable through the returned reference, so
    /// the list is well-formed again as soon as the borrow ends.
    pub fn front_mut(&mut self) -> (r: Option<&mut T>)
        requires
            old(self).wf(),
        ensures
            match r {
                None => old(self)@.len() == 0 && *final(self) == *old(self),
                Some(t) => {
                    &&& old(self)@.len() > 0
                    &&& *t == old(self)@[0]
                    &&& final(self).wf()
                    &&& final(self)@.len() == old(self)@.len()
                    &&& final(self)@[0] == *final(t)
                    &&& (forall|k: int|
                        1 <= k < old(self)@.len() ==> final(self)@[k] == old(self)@[k])
                },
            },
    {
        match self.head_mut() {
            Some(n) => Some(n.item_mut()),
            None => None,
        }
    }

    /// Borrows the first item of the list as an `Option`.
    pub fn front(&self) -> (r: Option<&T>)
        requires
            self.wf(),
        ensures
            match r {
                None => self@.len() == 0,
                Some(t) => self@.len() > 0 && *t == self@[0],
            },
    {
        match self.head() {
            Some(n) => Some(n.item()),
            None => None,
        }
    }
}

impl<T, N: Linked<T>, R> List<T, N, R> {
    /// Borrow the node a link of this list names, if any.
    ///
    /// Following the `next` link read from a node of the list reaches
    /// that node's successor; the absent link, or one naming an empty
    /// slot, yields `None`.
    pub fn follow(&self, link: &Link) -> (r: Option<&N>)
        requires
            self.wf(),
        ensures
            link@ is None ==> r is None,
            forall|k: int|
                0 <= k < self@.len() && link@ == Some(#[trigger] self.index_at(k)) ==> r
                    is Some,
            match r {
                Some(n) => forall|k: int|
                    0 <= k < self@.len() && link@ == Some(#[trigger] self.index_at(k))
                        ==> *n == self.node_at(k),
                None => true,
            },
    {
        match link.index() {
            None => None,
            Some(i) => {
                if i < self.slots.len() {
                    proof {
                        assert forall|k: int|
                            0 <= k < self@.len() && link@ == Some(self.index_at(k)) implies
                        self.slot_ok(#[trigger] self.order@[k]) by {}
                    }
                    self.slots[i].as_ref()
                } else {
                    None
                }
            },
        }
    }
}

impl<T, N: Linked<T>, R: OwningRef<N>> List<T, N, R> {
    /// Push a node to the head of the list.
    pub fn push_front_node(&mut self, node: R)
        requires
            old(self).wf(),
        ensures
            final(self).wf(),
            final(self)@ == seq![node.node_of().item_of()] + old(self)@,
    {
        let mut n = node.into_node();
        let old_head = self.head.index();
        n.set_links(Link::of(old_head));
        let index = self.slots.len();
        self.slots.push(Some(n));
        // reading the grown arena length shows that `len + 1` fits in usize
        let slot_count = self.slots.len();
        self.head = Link::to(index);
        self.len = self.len + 1;
        proof {
            let pre = *old(self);
            self.order@ = seq![index as int] + pre.order@;
            assert(slot_count as int == index + 1);
            assert forall|k: int| 0 <= k < self.order@.len() implies self.slot_ok(
                #[trigger] self.order@[k],
            ) by {
                if k > 0 {
                    assert(self.order@[k] == pre.order@[k - 1]);
                    assert(pre.slot_ok(pre.order@[k - 1]));
                }
            }
            assert forall|k: int|
                0 <= k < self.order@.len() implies (#[trigger] self.node_at(k)).next_of() == (
            if k == self.order@.len() - 1 {
                None::<int>
            } else {
                Some(self.order@[k + 1])
            }) by {
                if k == 0 {
                    assert(self.node_at(0) == self.slots@[index as int]->0);
                } else {
                    assert(pre.slot_ok(pre.order@[k - 1]));
                    assert(self.node_at(k) == pre.node_at(k - 1));
                    assert(pre.node_at(k - 1).next_of() == (if k - 1 == pre.order@.len() - 1 {
                        None::<int>
                    } else {
                        Some(pre.order@[k])
                    }));
                }
            }
            assert forall|k: int| 0 <= k < self@.len() implies self@[k] == (seq![
                node.node_of().item_of(),
            ] + pre@)[k] by {
                if k > 0 {
                    assert(pre.slot_ok(pre.order@[k - 1]));
                    assert(self.node_at(k) == pre.node_at(k - 1));
                }
            }
            assert(self@ =~= seq![node.node_of().item_of()] + pre@);
        }
    }

    /// Pop a node from the front of the list.
    ///
    /// Returns the head node, de-linked and handed back under the
    /// reference strategy `R`, or `None` if the list is empty.
    pub fn pop_front_node(&mut self) -> (r: Option<R>)
        requires
            old(self).wf(),
        ensures
            final(self).wf(),
            match r {
                None => old(self)@.len() == 0 && final(self)@ == old(self)@,
                Some(rf) => {
                    &&& old(self)@.len() > 0
                    &&& rf.node_of().item_of() == old(self)@[0]
                    &&& rf.node_of().next_of() is None
                    &&& final(self)@ == old(self)@.drop_first()
                },
            },
    {
        match self.head.index() {
            None => {
                proof {
                    assert(self@ =~= old(self)@);
                }
                None
            },
            Some(h) => {
                proof {
                    assert(self.order@[0] == h as int);
                    assert(self.slot_ok(self.order@[0]));
                }
                let taken = self.slots[h].take();
                let mut node = taken.unwrap();
                let next = node.take_links();
                self.head = next;
                self.len = self.len - 1;
                proof {
                    let pre = *old(self);
                    self.order@ = pre.order@.drop_first();
                    assert(pre.node_at(0).item_of() == pre@[0]);
                    assert forall|k: int| 0 <= k < self.order@.len() implies self.slot_ok(
                        #[trigger] self.order@[k],
                    ) && self.node_at(k) == pre.node_at(k + 1) by {
                        assert(self.order@[k] == pre.order@[k + 1]);
                        assert(pre.order@[k + 1] != pre.order@[0]);
                        assert(pre.slot_ok(pre.order@[k + 1]));
                    }
                    assert forall|k: int|
                        0 <= k < self.order@.len() implies (#[trigger] self.node_at(
                        k,
                    )).next_of() == (if k == self.order@.len() - 1 {
                        None::<int>
                    } else {
                        Some(self.order@[k + 1])
                    }) by {
                        assert(pre.node_at(k + 1).next_of() == (if k + 1 == pre.order@.len()
                            - 1 {
                            None::<int>
                        } else {
                            Some(pre.order@[k + 2])
                        }));
                    }
                    assert(pre.node_at(0).next_of() == (if 0 == pre.order@.len() - 1 {
                        None::<int>
                    } else {
                        Some(pre.order@[1])
                    }));
                    assert(self@ =~= pre@.drop_first());
                }
                Some(R::from_node(node))
            },
        }
    }
}

impl<T, N: Linked<T>> List<T, N, Box<N>> {
    /// Push an item to the front of the list.
    ///
    /// The item is wrapped in a freshly constructed, exclusively owned
    /// node before being linked in.
    pub fn push_front(&mut self, item: T)
        requires
            old(self).wf(),
        ensures
            final(self).wf(),
            final(self)@ == seq![item] + old(self)@,
    {
        self.push_front_node(Box::new(N::from_item(item)));
    }

    /// Pop an item from the front of the list.
    ///
    /// The head node is unlinked and unwrapped back into its payload.
    pub fn pop_front(&mut self) -> (r: Option<T>)
        requires
            old(self).wf(),
        ensures
            final(self).wf(),
            match r {
                None => old(self)@.len() == 0 && final(self)@ == old(self)@,
                Some(t) => {
                    &&& old(self)@.len() > 0
                    &&& t == old(self)@[0]
                    &&& final(self)@ == old(self)@.drop_first()
                },
            },
    {
        match self.pop_front_node() {
            Some(b) => Some(b.into_node().into_item()),
            None => None,
        }
    }
}

/// A node holding a `usize` payload, for lists of numbers.
#[derive(Debug)]
pub struct NumberedNode {
    /// The payload.
    pub number: usize,

    /// The embedded link field.
    next: Link,
}

impl NumberedNode {
    /// A fresh, unlinked node holding `number`.
    pub fn new(number: usize) -> (n: Self)
        ensures
            n.item_of() == number,
            n.next_of() is None,
    {
        NumberedNode { number, next: Link::none() }
    }
}

impl Linked<usize> for NumberedNode {
    closed spec fn item_of(self) -> usize {
        self.number
    }

    closed spec fn next_of(self) -> Option<int> {
        self.next@
    }

    fn links(&self) -> (l: &Link) {
        &self.next
    }

    fn set_links(&mut self, link: Link) {
        self.next = link;
    }

    fn take_links(&mut self) -> (l: Link) {
        let l = Link::of(self.next.index());
        self.next = Link::none();
        l
    }

    fn item(&self) -> (t: &usize) {
        &self.number
    }

    fn item_mut(&mut self) -> (t: &mut usize) {
        &mut self.number
    }

    fn from_item(item: usize) -> (n: NumberedNode) {
        NumberedNode::new(item)
    }

    fn into_item(self) -> (t: usize) {
        self.number
    }
}

impl PartialEq for NumberedNode {
    /// Two nodes are equal when they hold the same number; the link
    /// fields play no part.
    fn eq(&self, other: &NumberedNode) -> (r: bool) {
        self.number == other.number
    }
}

impl vstd::std_specs::cmp::PartialEqSpecImpl for NumberedNode {
    open spec fn obeys_eq_spec() -> bool {
        true
    }

    open spec fn eq_spec(&self, other: &NumberedNode) -> bool {
        self.item_of() == other.item_of()
    }
}

} // verus!
