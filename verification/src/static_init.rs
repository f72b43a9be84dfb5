//! The walk over the static initializers placed between the CRT's section
//! markers: the slots hold the initializers in address order, and an empty
//! slot is padding.
use vstd::prelude::*;

verus! {

/// The slots a walk from `from` calls, in the order it calls them: every
/// filled slot at or after `from`, lowest address first.
pub open spec fn filled_from<T>(slots: Seq<Option<T>>, from: int) -> Seq<usize>
    decreases slots.len() - from,
{
    if from < 0 || from >= slots.len() {
        Seq::empty()
    } else if slots[from] is Some {
        seq![from as usize] + filled_from(slots, from + 1)
    } else {
        filled_from(slots, from + 1)
    }
}

/// The first filled slot at or after `from`, or `None` when every slot from
/// there on is empty. Calling it again from one past each slot it returns,
/// starting at 0, walks `filled_from(slots, 0)` (see `lemma_walk_step`).
pub fn next_filled_slot<T>(slots: &[Option<T>], from: usize) -> (r: Option<usize>)
    ensures
        match r {
            Some(i) => {
                &&& from <= i < slots@.len()
                &&& slots@[i as int] is Some
                &&& forall|k: int| from <= k < i ==> slots@[k] is None
            },
            None => forall|k: int| from <= k < slots@.len() ==> slots@[k] is None,
        },
{
    let mut current: usize = from;
    while current < slots.len()
        invariant
            from <= current,
            forall|k: int| from <= k < current ==> slots@[k] is None,
        decreases slots@.len() - current,
    {
        if slots[current].is_some() {
            return Some(current);
        }
        current = current + 1;
    }
    None
}

/// One step of the walk: when slot `i` is the first filled slot at or after
/// `from`, the walk from `from` calls `i` and then walks on from `i + 1`.
pub proof fn lemma_walk_step<T>(slots: Seq<Option<T>>, from: int, i: int)
    requires
        0 <= from <= i < slots.len(),
        slots[i] is Some,
        forall|k: int| from <= k < i ==> slots[k] is None,
    ensures
        filled_from(slots, from) == seq![i as usize] + filled_from(slots, i + 1),
    decreases i - from,
{
    if from < i {
        lemma_walk_step(slots, from + 1, i);
    }
}

/// The end of the walk: when every slot at or after `from` is empty, the walk
/// from `from` calls nothing.
pub proof fn lemma_walk_end<T>(slots: Seq<Option<T>>, from: int)
    requires
        0 <= from,
        forall|k: int| from <= k < slots.len() ==> slots[k] is None,
    ensures
        filled_from(slots, from) == Seq::<usize>::empty(),
    decreases slots.len() - from,
{
    if from < slots.len() {
        lemma_walk_end(slots, from + 1);
    }
}

/// The walk from `from` calls each filled slot at or after `from` exactly
/// once, in increasing address order, and nothing else.
pub proof fn lemma_walk_calls_each_filled_slot<T>(slots: Seq<Option<T>>, from: int)
    requires
        0 <= from,
        slots.len() <= usize::MAX,
    ensures
        forall|k: int|
            0 <= k < filled_from(slots, from).len() ==> from <= #[trigger] filled_from(
                slots,
                from,
            )[k] < slots.len() && slots[filled_from(slots, from)[k] as int] is Some,
        forall|k: int, l: int|
            0 <= k < l < filled_from(slots, from).len() ==> filled_from(slots, from)[k]
                < filled_from(slots, from)[l],
        forall|i: int|
            from <= i < slots.len() && #[trigger] slots[i] is Some ==> filled_from(
                slots,
                from,
            ).contains(i as usize),
    decreases slots.len() - from,
{
    if from < slots.len() {
        lemma_walk_calls_each_filled_slot(slots, from + 1);
        let rest = filled_from(slots, from + 1);
        let all = filled_from(slots, from);
        if slots[from] is Some {
            assert(all == seq![from as usize] + rest);
            assert forall|i: int|
                from <= i < slots.len() && #[trigger] slots[i] is Some implies all.contains(
                i as usize,
            ) by {
                if i == from {
                    assert(all[0] == from as usize);
                } else {
                    let w = choose|w: int| 0 <= w < rest.len() && rest[w] == i as usize;
                    assert(all[w + 1] == i as usize);
                }
            }
            assert forall|k: int, l: int| 0 <= k < l < all.len() implies all[k] < all[l] by {
                if k > 0 {
                    assert(all[k] == rest[k - 1] && all[l] == rest[l - 1]);
                } else {
                    assert(all[l] == rest[l - 1]);
                }
            }
            assert forall|k: int| 0 <= k < all.len() implies from <= #[trigger] all[k]
                < slots.len() && slots[all[k] as int] is Some by {
                if k > 0 {
                    assert(all[k] == rest[k - 1]);
                }
            }
        }
    }
}

} // verus!
