//! Slots of a ring: which are taken, and how many.

use vstd::prelude::*;

verus! {

/// The number of slots that are taken.
pub open spec fn taken<T>(slots: Seq<Option<T>>) -> nat
    decreases slots.len(),
{
    if slots.len() == 0 {
        0
    } else if slots.last() is Some {
        taken(slots.drop_last()) + 1
    } else {
        taken(slots.drop_last())
    }
}

/// At most all slots are taken; where fewer are, one is free; where none is,
/// all are free.
pub proof fn taken_counts<T>(slots: Seq<Option<T>>)
    ensures
        taken(slots) <= slots.len(),
        taken(slots) < slots.len() ==> exists|i: int|
            0 <= i < slots.len() && (#[trigger] slots[i]) is None,
        taken(slots) == 0 ==> forall|i: int|
            0 <= i < slots.len() ==> (#[trigger] slots[i]) is None,
        taken(slots) > 0 ==> exists|i: int| 0 <= i < slots.len() && (#[trigger] slots[i]) is Some,
        (forall|i: int| 0 <= i < slots.len() ==> (#[trigger] slots[i]) is None) ==> taken(slots)
            == 0,
    decreases slots.len(),
{
    if slots.len() > 0 {
        let front = slots.drop_last();
        taken_counts(front);
        assert forall|i: int| 0 <= i < front.len() implies front[i] == #[trigger] slots[i] by {}
        if taken(slots) < slots.len() {
            if slots.last() is Some {
                let i = choose|i: int| 0 <= i < front.len() && (#[trigger] front[i]) is None;
                assert(slots[i] is None);
            } else {
                assert(slots[slots.len() - 1] is None);
            }
        }
        if taken(slots) > 0 {
            if slots.last() is None {
                let i = choose|i: int| 0 <= i < front.len() && (#[trigger] front[i]) is Some;
                assert(slots[i] is Some);
            } else {
                assert(slots[slots.len() - 1] is Some);
            }
        }
        if forall|i: int| 0 <= i < slots.len() ==> (#[trigger] slots[i]) is None {
            assert forall|i: int| 0 <= i < front.len() implies (#[trigger] front[i]) is None by {
                assert(slots[i] is None);
            }
            assert(slots[slots.len() - 1] is None);
        }
    }
}

/// Taking or freeing one slot changes the count by one.
pub proof fn taken_update<T>(slots: Seq<Option<T>>, i: int, v: Option<T>)
    requires
        0 <= i < slots.len(),
    ensures
        taken(slots.update(i, v)) + (if slots[i] is Some {
            1int
        } else {
            0
        }) == taken(slots) + (if v is Some {
            1int
        } else {
            0
        }),
    decreases slots.len(),
{
    let front = slots.drop_last();
    let new = slots.update(i, v);
    if i == slots.len() - 1 {
        assert(new.drop_last() =~= front);
    } else {
        taken_update(front, i, v);
        assert(new.drop_last() =~= front.update(i, v));
    }
}

} // verus!
