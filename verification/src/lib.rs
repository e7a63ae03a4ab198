//! Intrusive linked lists.
//!
//! An _intrusive_ list is a list whose chaining fields live inside the
//! stored elements themselves, so the container allocates no separate
//! node cells.  The lists here keep their nodes in a slot arena owned by
//! the list and chain them through [`link::Link`] values, which name
//! arena slots.  Every operation is verified to preserve the list
//! invariants: the length matches the chain, the chain is acyclic, and
//! (for the doubly-linked variant) every `next` link is mirrored by the
//! matching `prev` link.
//!
//! - [`singly`] and [`doubly`] hold the two list variants, each with its
//!   own node capability trait.
//! - [`owning`] holds the two ownership-reference strategies under which
//!   nodes enter and leave a list.
//! - [`laws`] states and proves the order laws that the operation
//!   contracts add up to.

pub mod doubly;
pub mod laws;
pub mod link;
pub mod owning;
pub mod singly;
