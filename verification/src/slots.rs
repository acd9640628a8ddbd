//! The slot sequence and the three operations on it, as mathematics.
//!
//! A slot is `Some(task)` while it is live and `None` once it is a tombstone.
//! Index 0 is the oldest slot; the active end is the end of the sequence.

use crate::schedule::Status;
use vstd::prelude::*;

verus! {

/// Index of the live slot nearest to the active end, or -1 when no slot is live.
pub open spec fn nearest_live<A>(slots: Seq<Option<A>>) -> int
    decreases slots.len(),
{
    if slots.len() == 0 {
        -1
    } else if slots.last() is Some {
        slots.len() - 1
    } else {
        nearest_live(slots.drop_last())
    }
}

/// `nearest_live` is in range, points at a live slot whenever it points at
/// a slot at all, and everything between it and the active end is a tombstone.
pub proof fn lemma_nearest_live<A>(slots: Seq<Option<A>>)
    ensures
        -1 <= nearest_live(slots) < slots.len(),
        nearest_live(slots) >= 0 ==> slots[nearest_live(slots)] is Some,
        forall|j: int| nearest_live(slots) < j < slots.len() ==> (#[trigger] slots[j]) is None,
    decreases slots.len(),
{
    if slots.len() > 0 && slots.last() is None {
        let older = slots.drop_last();
        lemma_nearest_live(older);
        assert forall|j: int| nearest_live(slots) < j < slots.len() implies (#[trigger] slots[j])
            is None by {
            if j < older.len() {
                assert(older[j] is None);
            }
        }
    }
}

/// Whichever index points at a live slot with only tombstones between it and
/// the active end is `nearest_live`.
pub proof fn lemma_nearest_live_is<A>(slots: Seq<Option<A>>, i: int)
    requires
        0 <= i < slots.len(),
        slots[i] is Some,
        forall|j: int| i < j < slots.len() ==> (#[trigger] slots[j]) is None,
    ensures
        nearest_live(slots) == i,
{
    lemma_nearest_live(slots);
}

/// Where every slot is a tombstone, `nearest_live` finds none; and the converse.
pub proof fn lemma_no_live<A>(slots: Seq<Option<A>>)
    ensures
        nearest_live(slots) < 0 <==> forall|j: int|
            0 <= j < slots.len() ==> (#[trigger] slots[j]) is None,
{
    lemma_nearest_live(slots);
}

/// The tasks held in live slots, oldest first.
pub open spec fn live<A>(slots: Seq<Option<A>>) -> Seq<A>
    decreases slots.len(),
{
    if slots.len() == 0 {
        Seq::empty()
    } else {
        match slots.last() {
            Some(task) => live(slots.drop_last()).push(task),
            None => live(slots.drop_last()),
        }
    }
}

/// The nearest live slot holds the youngest live task; without that slot,
/// the live tasks are the others in their order. There is a live slot exactly
/// when there is a live task.
pub proof fn lemma_live_youngest<A>(slots: Seq<Option<A>>)
    ensures
        nearest_live(slots) >= 0 <==> live(slots).len() > 0,
        nearest_live(slots) >= 0 ==> {
            &&& slots[nearest_live(slots)] == Some(live(slots).last())
            &&& live(slots.take(nearest_live(slots))) == live(slots).drop_last()
            &&& live(slots.update(nearest_live(slots), None)) == live(slots).drop_last()
        },
    decreases slots.len(),
{
    lemma_nearest_live(slots);
    let k = nearest_live(slots);
    if slots.len() > 0 {
        let older = slots.drop_last();
        if slots.last() is Some {
            assert(slots.take(k) == older);
            let dug = slots.update(k, None);
            assert(dug.drop_last() == older);
            assert(live(older).push(slots.last()->0).drop_last() == live(older));
        } else {
            lemma_live_youngest(older);
            if k >= 0 {
                assert(slots.take(k) == older.take(k));
                let dug = slots.update(k, None);
                assert(dug.drop_last() == older.update(k, None));
            }
        }
    }
}

/// The slots after a push: one more live slot at the active end.
pub open spec fn after_push<A>(slots: Seq<Option<A>>, task: A) -> Seq<Option<A>> {
    slots.push(Some(task))
}

/// What a pop returns: `Empty` when there is no slot at all, `Abort` when
/// there are slots but none is live, else the task of the nearest live slot.
pub open spec fn pop_outcome<A>(slots: Seq<Option<A>>) -> Result<Option<A>, Status> {
    if slots.len() == 0 {
        Err(Status::Empty)
    } else if nearest_live(slots) < 0 {
        Err(Status::Abort)
    } else {
        Ok(Some(slots[nearest_live(slots)]->0))
    }
}

/// The slots a pop leaves: the nearest live slot is gone, and so is every
/// tombstone between it and the active end. With no live slot nothing is left.
pub open spec fn after_pop<A>(slots: Seq<Option<A>>) -> Seq<Option<A>> {
    if nearest_live(slots) < 0 {
        Seq::empty()
    } else {
        slots.take(nearest_live(slots))
    }
}

/// What a steal returns: the task of the nearest live slot, if there is one.
pub open spec fn steal_outcome<A>(slots: Seq<Option<A>>) -> Option<A> {
    if nearest_live(slots) < 0 {
        None
    } else {
        Some(slots[nearest_live(slots)]->0)
    }
}

/// The slots a steal leaves: the nearest live slot has become a tombstone in
/// place. No slot is removed.
pub open spec fn after_steal<A>(slots: Seq<Option<A>>) -> Seq<Option<A>> {
    if nearest_live(slots) < 0 {
        slots
    } else {
        slots.update(nearest_live(slots), None)
    }
}

} // verus!
