//! The behavioural laws of the lists, over their views.
//!
//! Each list operation's contract describes one step over the list's
//! view: a front push prepends one payload, a back push appends one, a
//! front pop removes the first.  The functions here fold a whole
//! sequence of such steps, and the lemmas state what the fold amounts
//! to, which is where the order guarantees of the lists live.

use vstd::prelude::*;

verus! {

/// The view of a list after pushing each element of `xs`, in order, to
/// the front of a list whose view is `s0`.
///
/// One front push turns a view `s` into `seq![x] + s`, which is exactly
/// what `push_front` and `push_front_node` ensure.
pub open spec fn pushed_front<T>(s0: Seq<T>, xs: Seq<T>) -> Seq<T>
    decreases xs.len(),
{
    if xs.len() == 0 {
        s0
    } else {
        pushed_front(seq![xs[0]] + s0, xs.drop_first())
    }
}

/// The view of a list after pushing each element of `xs`, in order, to
/// the back of a list whose view is `s0`.
///
/// One back push turns a view `s` into `s + seq![x]`, which is exactly
/// what `push_back` and `push_back_node` ensure.
pub open spec fn pushed_back<T>(s0: Seq<T>, xs: Seq<T>) -> Seq<T>
    decreases xs.len(),
{
    if xs.len() == 0 {
        s0
    } else {
        pushed_back(s0 + seq![xs[0]], xs.drop_first())
    }
}

/// LIFO law.
///
/// Pushing the values of `xs` to the front in order leaves them in
/// front of the list in reverse order, so popping from the front then
/// yields them last-in, first-out.  In particular the length grows by
/// exactly `xs.len()`.
pub proof fn lemma_push_front_lifo<T>(s0: Seq<T>, xs: Seq<T>)
    ensures
        pushed_front(s0, xs) == xs.reverse() + s0,
        pushed_front(s0, xs).len() == s0.len() + xs.len(),
    decreases xs.len(),
{
    if xs.len() == 0 {
        assert(pushed_front(s0, xs) =~= xs.reverse() + s0);
    } else {
        lemma_push_front_lifo(seq![xs[0]] + s0, xs.drop_first());
        assert(xs.drop_first().reverse() + (seq![xs[0]] + s0) =~= xs.reverse() + s0);
    }
}

/// FIFO law.
///
/// Pushing the values of `xs` to the back in order appends them in
/// that same order, so popping from the front then yields them
/// first-in, first-out.  In particular the length grows by exactly
/// `xs.len()`.
pub proof fn lemma_push_back_fifo<T>(s0: Seq<T>, xs: Seq<T>)
    ensures
        pushed_back(s0, xs) == s0 + xs,
        pushed_back(s0, xs).len() == s0.len() + xs.len(),
    decreases xs.len(),
{
    if xs.len() == 0 {
        assert(pushed_back(s0, xs) =~= s0 + xs);
    } else {
        lemma_push_back_fifo(s0 + seq![xs[0]], xs.drop_first());
        assert((s0 + seq![xs[0]]) + xs.drop_first() =~= s0 + xs);
    }
}

/// Equivalence law.
///
/// Bulk construction from a sequence, whose contract gives a list
/// viewing exactly that sequence, yields the very list that pushing
/// each element to the back of an empty list in order yields; drained
/// front to back, the two agree element for element.
pub proof fn lemma_from_sequence_equivalent<T>(xs: Seq<T>)
    ensures
        pushed_back(Seq::<T>::empty(), xs) == xs,
{
    lemma_push_back_fifo(Seq::<T>::empty(), xs);
    assert(Seq::<T>::empty() + xs =~= xs);
}

} // verus!
