//! Double-ended traversal of a sequence, as the iterators of a bucket
//! vector perform it: a step from the front yields the first element that
//! is left and leaves the others, a step from the back yields the last.

use vstd::prelude::*;

verus! {

/// The elements that are left of `elements` after the given steps, where
/// `true` is a step from the front and `false` one from the back. Steps
/// that find nothing left change nothing.
pub open spec fn left_after<T>(elements: Seq<T>, steps: Seq<bool>) -> Seq<T>
    decreases steps.len(),
{
    if steps.len() == 0 || elements.len() == 0 {
        elements
    } else if steps[0] {
        left_after(elements.drop_first(), steps.drop_first())
    } else {
        left_after(elements.drop_last(), steps.drop_first())
    }
}

/// The elements that the steps from the front yield, in the order in which
/// they are yielded.
pub open spec fn front_yields<T>(elements: Seq<T>, steps: Seq<bool>) -> Seq<T>
    decreases steps.len(),
{
    if steps.len() == 0 || elements.len() == 0 {
        Seq::empty()
    } else if steps[0] {
        seq![elements.first()] + front_yields(elements.drop_first(), steps.drop_first())
    } else {
        front_yields(elements.drop_last(), steps.drop_first())
    }
}

/// The elements that the steps from the back yield, in the order in which
/// they are yielded.
pub open spec fn back_yields<T>(elements: Seq<T>, steps: Seq<bool>) -> Seq<T>
    decreases steps.len(),
{
    if steps.len() == 0 || elements.len() == 0 {
        Seq::empty()
    } else if steps[0] {
        back_yields(elements.drop_first(), steps.drop_first())
    } else {
        seq![elements.last()] + back_yields(elements.drop_last(), steps.drop_first())
    }
}

/// The number of steps from the front among the first `limit` steps.
pub open spec fn front_steps(steps: Seq<bool>, limit: nat) -> nat
    decreases steps.len(),
{
    if steps.len() == 0 || limit == 0 {
        0
    } else if steps[0] {
        1 + front_steps(steps.drop_first(), (limit - 1) as nat)
    } else {
        front_steps(steps.drop_first(), (limit - 1) as nat)
    }
}

/// The number of steps that find an element: no more than there are
/// elements.
pub open spec fn effective(len: nat, steps: Seq<bool>) -> nat {
    if steps.len() <= len {
        steps.len()
    } else {
        len
    }
}

/// No more steps come from the front than there are steps.
pub proof fn lemma_front_steps_bound(steps: Seq<bool>, limit: nat)
    ensures
        front_steps(steps, limit) <= limit,
        front_steps(steps, limit) <= steps.len(),
    decreases steps.len(),
{
    if steps.len() == 0 || limit == 0 {
    } else {
        lemma_front_steps_bound(steps.drop_first(), (limit - 1) as nat);
    }
}

/// Meeting in the middle: however steps from the front and from the back
/// are interleaved, the front yields the first elements in their order, the
/// back yields the last elements in reverse order, and what is left is what
/// lies between them. No element is yielded twice, and once there have been
/// as many steps as elements, none is left.
pub proof fn lemma_meet_in_the_middle<T>(elements: Seq<T>, steps: Seq<bool>)
    ensures
        ({
            let taken = effective(elements.len(), steps);
            let from_front = front_steps(steps, taken);
            let from_back = taken - from_front;
            &&& from_front <= taken
            &&& from_front + from_back <= elements.len()
            &&& front_yields(elements, steps) == elements.take(from_front as int)
            &&& back_yields(elements, steps) == elements.skip(
                elements.len() - from_back,
            ).reverse()
            &&& left_after(elements, steps) == elements.subrange(
                from_front as int,
                elements.len() - from_back,
            )
        }),
    decreases steps.len(),
{
    let len = elements.len();
    let taken = effective(len, steps);
    let from_front = front_steps(steps, taken);
    let from_back = taken - from_front;
    lemma_front_steps_bound(steps, taken);
    if steps.len() == 0 || len == 0 {
        assert(elements.take(0) =~= Seq::<T>::empty());
        assert(elements.skip(len as int).reverse() =~= Seq::<T>::empty());
        assert(elements.subrange(0, len as int) =~= elements);
    } else {
        let rest = steps.drop_first();
        let inner = if steps[0] {
            elements.drop_first()
        } else {
            elements.drop_last()
        };
        lemma_meet_in_the_middle(inner, rest);
        let inner_taken = effective(inner.len(), rest);
        let inner_front = front_steps(rest, inner_taken);
        let inner_back = inner_taken - inner_front;
        lemma_front_steps_bound(rest, inner_taken);
        assert(inner_taken == taken - 1);
        if steps[0] {
            assert(from_front == inner_front + 1);
            assert(front_yields(elements, steps) =~= elements.take(from_front as int));
            assert(inner.skip(inner.len() - inner_back) =~= elements.skip(len - from_back));
            assert(left_after(elements, steps) =~= elements.subrange(
                from_front as int,
                len - from_back,
            ));
        } else {
            assert(from_front == inner_front);
            assert(from_back == inner_back + 1);
            assert(front_yields(elements, steps) =~= elements.take(from_front as int));
            assert(seq![elements.last()] + inner.skip(inner.len() - inner_back).reverse()
                =~= elements.skip(len - from_back).reverse());
            assert(left_after(elements, steps) =~= elements.subrange(
                from_front as int,
                len - from_back,
            ));
        }
    }
}

/// As many steps from the front as there are elements.
pub open spec fn all_front(len: nat) -> Seq<bool> {
    Seq::new(len, |i: int| true)
}

/// As many steps from the back as there are elements.
pub open spec fn all_back(len: nat) -> Seq<bool> {
    Seq::new(len, |i: int| false)
}

proof fn lemma_front_steps_uniform(len: nat, limit: nat)
    requires
        limit <= len,
    ensures
        front_steps(all_front(len), limit) == limit,
        front_steps(all_back(len), limit) == 0,
    decreases len,
{
    if len == 0 || limit == 0 {
    } else {
        lemma_front_steps_uniform((len - 1) as nat, (limit - 1) as nat);
        assert(all_front(len).drop_first() =~= all_front((len - 1) as nat));
        assert(all_back(len).drop_first() =~= all_back((len - 1) as nat));
    }
}

/// Order preservation: stepping from the front until nothing is left
/// yields the elements in their order and stepping from the back yields
/// them in reverse order.
pub proof fn lemma_traversal_order<T>(elements: Seq<T>)
    ensures
        front_yields(elements, all_front(elements.len())) == elements,
        left_after(elements, all_front(elements.len())) == Seq::<T>::empty(),
        back_yields(elements, all_back(elements.len())) == elements.reverse(),
        left_after(elements, all_back(elements.len())) == Seq::<T>::empty(),
{
    let len = elements.len();
    lemma_front_steps_uniform(len, len);
    lemma_meet_in_the_middle(elements, all_front(len));
    lemma_meet_in_the_middle(elements, all_back(len));
    assert(elements.take(len as int) =~= elements);
    assert(elements.skip(0) =~= elements);
    assert(elements.subrange(len as int, len as int) =~= Seq::<T>::empty());
    assert(elements.subrange(0, 0) =~= Seq::<T>::empty());
}

} // verus!
