//! The shared link primitive.
//!
//! A [`Link`] is an optional, non-owning reference to a node: it either
//! names the arena slot that holds the node, or it is absent.  A `Link`
//! never owns the node it points at and has no drop behaviour of its
//! own; which list a slot index is meaningful for is the business of the
//! list that handed the link out.

use vstd::prelude::*;

verus! {

/// An optional reference to a node, as a slot index.
///
/// The view of a `Link` is `None` when the link is absent and
/// `Some(i)` when it names slot `i`.
#[derive(Debug)]
pub struct Link {
    idx: Option<usize>,
}

impl View for Link {
    type V = Option<int>;

    closed spec fn view(&self) -> Option<int> {
        match self.idx {
            Option::Some(i) => Some(i as int),
            Option::None => None,
        }
    }
}

impl Link {
    /// The absent link.
    pub fn none() -> (l: Self)
        ensures
            l@ is None,
    {
        Link { idx: None }
    }

    /// A link to the node in slot `index`.
    pub fn to(index: usize) -> (l: Self)
        ensures
            l@ == Some(index as int),
    {
        Link { idx: Some(index) }
    }

    /// A link to the slot in `index`, or the absent link.
    pub fn of(index: Option<usize>) -> (l: Self)
        ensures
            l@ is Some <==> index is Some,
            index is Some ==> l@ == Some(index->0 as int),
    {
        Link { idx: index }
    }

    /// The slot this link names, if any.
    pub fn index(&self) -> (r: Option<usize>)
        ensures
            r is Some <==> self@ is Some,
            r is Some ==> self@ == Some(r->0 as int),
    {
        self.idx
    }

    /// True when the link is absent.
    pub fn is_none(&self) -> (r: bool)
        ensures
            r <==> self@ is None,
    {
        self.idx.is_none()
    }

    /// True when the link names a slot.
    pub fn is_some(&self) -> (r: bool)
        ensures
            r <==> self@ is Some,
    {
        self.idx.is_some()
    }
}

} // verus!
