//! The slot list of a bus.
//!
//! A bus holds its dispatchers weakly: a dispatcher lapses when its owner
//! lets go of it, and the bus finds out the next time it looks. Registering a
//! new dispatcher is the moment to tidy up: the newcomer takes the first
//! lapsed slot and every other lapsed slot is dropped.
//!
//! The functions here see a slot as an entry paired with what was observed of
//! it: `true` while the dispatcher behind it is still alive.

use vstd::prelude::*;

verus! {

/// The entries of `observed`, alive or not, in their order.
pub open spec fn all_entries<T>(observed: Seq<(T, bool)>) -> Seq<T> {
    observed.map_values(|slot: (T, bool)| slot.0)
}

/// The entries of `observed` that are alive, in their order.
pub open spec fn live_entries<T>(observed: Seq<(T, bool)>) -> Seq<T>
    decreases observed.len(),
{
    if observed.len() == 0 {
        Seq::empty()
    } else if observed.last().1 {
        live_entries(observed.drop_last()).push(observed.last().0)
    } else {
        live_entries(observed.drop_last())
    }
}

/// Whether every slot of `observed` is alive.
pub open spec fn all_live<T>(observed: Seq<(T, bool)>) -> bool {
    forall|i: int| 0 <= i < observed.len() ==> (#[trigger] observed[i]).1
}

/// Whether `position` is the first slot of `observed` that has lapsed.
pub open spec fn is_first_lapsed<T>(observed: Seq<(T, bool)>, position: int) -> bool {
    &&& 0 <= position < observed.len()
    &&& !observed[position].1
    &&& forall|i: int| 0 <= i < position ==> (#[trigger] observed[i]).1
}

/// The position of the first lapsed slot of `observed`, if there is one.
pub open spec fn first_lapsed<T>(observed: Seq<(T, bool)>) -> int {
    choose|position: int| is_first_lapsed(observed, position)
}

/// The slot list after `dispatcher` has been registered.
///
/// While every slot is alive the newcomer goes to the end. Otherwise it takes
/// the place of the first lapsed slot, and the lapsed slots after that one
/// are dropped.
pub open spec fn registered<T>(observed: Seq<(T, bool)>, dispatcher: T) -> Seq<T> {
    if all_live(observed) {
        all_entries(observed).push(dispatcher)
    } else {
        let position = first_lapsed(observed);
        all_entries(observed.subrange(0, position)).push(dispatcher) + live_entries(
            observed.subrange(position + 1, observed.len() as int),
        )
    }
}

/// No two slots are both the first lapsed one, so a slot that is the first
/// lapsed one is the one that `first_lapsed` names.
pub proof fn lemma_first_lapsed_unique<T>(observed: Seq<(T, bool)>, position: int)
    requires
        is_first_lapsed(observed, position),
    ensures
        first_lapsed(observed) == position,
        !all_live(observed),
{
    let chosen = first_lapsed(observed);
    assert(is_first_lapsed(observed, chosen));
    if chosen < position {
        assert(observed[chosen].1);
    } else if position < chosen {
        assert(observed[position].1);
    }
}

/// Among slots that are all alive, the live entries are all the entries.
pub proof fn lemma_live_entries_of_all_live<T>(observed: Seq<(T, bool)>)
    requires
        all_live(observed),
    ensures
        live_entries(observed) == all_entries(observed),
    decreases observed.len(),
{
    if observed.len() > 0 {
        let rest = observed.drop_last();
        assert forall|i: int| 0 <= i < rest.len() implies (#[trigger] rest[i]).1 by {
            assert(observed[i].1);
        }
        lemma_live_entries_of_all_live(rest);
        assert(observed.last().1);
        assert(all_entries(observed) =~= all_entries(rest).push(observed.last().0));
    } else {
        assert(all_entries(observed) =~= Seq::<T>::empty());
    }
}

/// Registering never loses a live dispatcher: the new list holds the
/// newcomer and, in their order, exactly the entries that were alive.
pub proof fn lemma_registered_keeps_live<T>(observed: Seq<(T, bool)>, dispatcher: T)
    ensures
        all_live(observed) ==> registered(observed, dispatcher) == live_entries(observed).push(
            dispatcher,
        ),
        !all_live(observed) ==> registered(observed, dispatcher) == live_entries(
            observed.subrange(0, first_lapsed(observed)),
        ).push(dispatcher) + live_entries(
            observed.subrange(first_lapsed(observed) + 1, observed.len() as int),
        ),
        registered(observed, dispatcher).len() == live_entries(observed).len() + 1,
{
    if all_live(observed) {
        lemma_live_entries_of_all_live(observed);
    } else {
        let witness = choose|i: int| 0 <= i < observed.len() && !(#[trigger] observed[i]).1;
        lemma_some_slot_is_first_lapsed(observed, witness);
        let position = first_lapsed(observed);
        let front = observed.subrange(0, position);
        let back = observed.subrange(position + 1, observed.len() as int);
        assert forall|i: int| 0 <= i < front.len() implies (#[trigger] front[i]).1 by {
            assert(observed[i].1);
        }
        lemma_live_entries_of_all_live(front);
        lemma_live_entries_concat(front.push(observed[position]), back);
        assert(front.push(observed[position]).drop_last() =~= front);
        assert(front.push(observed[position]) + back =~= observed);
    }
}

/// The live entries of two lists in a row are those of the first followed by
/// those of the second.
pub proof fn lemma_live_entries_concat<T>(front: Seq<(T, bool)>, back: Seq<(T, bool)>)
    ensures
        live_entries(front + back) == live_entries(front) + live_entries(back),
    decreases back.len(),
{
    if back.len() == 0 {
        assert(front + back =~= front);
        assert(live_entries(front) + live_entries(back) =~= live_entries(front));
    } else {
        lemma_live_entries_concat(front, back.drop_last());
        assert((front + back).drop_last() =~= front + back.drop_last());
        assert((front + back).last() == back.last());
        if back.last().1 {
            assert((live_entries(front) + live_entries(back.drop_last())).push(back.last().0)
                =~= live_entries(front) + live_entries(back.drop_last()).push(back.last().0));
        }
    }
}

/// Where some slot has lapsed, one slot is the first to have done so.
pub proof fn lemma_some_slot_is_first_lapsed<T>(observed: Seq<(T, bool)>, lapsed: int)
    requires
        0 <= lapsed < observed.len(),
        !observed[lapsed].1,
    ensures
        is_first_lapsed(observed, first_lapsed(observed)),
        first_lapsed(observed) <= lapsed,
    decreases lapsed,
{
    if forall|i: int| 0 <= i < lapsed ==> (#[trigger] observed[i]).1 {
        assert(is_first_lapsed(observed, lapsed));
        lemma_first_lapsed_unique(observed, lapsed);
    } else {
        let earlier = choose|i: int| 0 <= i < lapsed && !(#[trigger] observed[i]).1;
        lemma_some_slot_is_first_lapsed(observed, earlier);
    }
}

/// Drops the lapsed slots of `observed` and returns the entries that are
/// alive, in their order.
pub fn prune_dispatchers<T>(observed: Vec<(T, bool)>) -> (slots: Vec<T>)
    ensures
        slots@ == live_entries(observed@),
{
    let ghost before = observed@;
    let mut slots: Vec<T> = Vec::new();
    for slot in it: observed
        invariant
            it.seq() == before,
            slots@ == live_entries(before.subrange(0, it.index() as int)),
    {
        let ghost k = it.index() as int;
        assert(before.subrange(0, k + 1).drop_last() =~= before.subrange(0, k));
        assert(before.subrange(0, k + 1).last() == slot);
        let (entry, live) = slot;
        if live {
            slots.push(entry);
        }
    }
    assert(before.subrange(0, before.len() as int) =~= before);
    slots
}

/// Registers `dispatcher` in the slot list `observed` and returns the new
/// list.
pub fn register_dispatcher<T>(observed: Vec<(T, bool)>, dispatcher: T) -> (slots: Vec<T>)
    ensures
        slots@ == registered(observed@, dispatcher),
{
    let ghost before = observed@;
    let ghost mut position: int = 0;
    let mut slots: Vec<T> = Vec::new();
    let mut pending: Option<T> = Some(dispatcher);
    for slot in it: observed
        invariant
            it.seq() == before,
            pending is Some ==> {
                &&& pending == Some(dispatcher)
                &&& all_live(before.subrange(0, it.index() as int))
                &&& slots@ == all_entries(before.subrange(0, it.index() as int))
            },
            pending is None ==> {
                &&& position < it.index()
                &&& is_first_lapsed(before, position)
                &&& slots@ == all_entries(before.subrange(0, position)).push(dispatcher)
                    + live_entries(before.subrange(position + 1, it.index() as int))
            },
    {
        let ghost k = it.index() as int;
        let ghost seen = before.subrange(0, k);
        let ghost seen_next = before.subrange(0, k + 1);
        assert(slot == before[k]);
        let (entry, live) = slot;
        proof {
            if pending is None {
                let tail = before.subrange(position + 1, k);
                let tail_next = before.subrange(position + 1, k + 1);
                assert(tail_next.drop_last() =~= tail);
                assert(tail_next.last() == before[k]);
            }
        }
        if live {
            slots.push(entry);
            proof {
                if pending is Some {
                    assert forall|i: int| 0 <= i < seen_next.len() implies (
                    #[trigger] seen_next[i]).1 by {
                        if i < k {
                            assert(seen[i].1);
                        }
                    }
                    assert(slots@ =~= all_entries(seen_next));
                } else {
                    let head = all_entries(before.subrange(0, position)).push(dispatcher);
                    let tail = live_entries(before.subrange(position + 1, k));
                    assert((head + tail).push(entry) =~= head + tail.push(entry));
                }
            }
        } else {
            match pending.take() {
                Some(newcomer) => {
                    slots.push(newcomer);
                    proof {
                        position = k;
                        assert forall|i: int| 0 <= i < k implies (#[trigger] before[i]).1 by {
                            assert(seen[i].1);
                        }
                        assert(before.subrange(k + 1, k + 1) =~= Seq::<(T, bool)>::empty());
                        assert(slots@ =~= all_entries(seen).push(dispatcher) + live_entries(
                            before.subrange(k + 1, k + 1),
                        ));
                    }
                },
                None => {},
            }
        }
    }
    proof {
        if pending is None {
            lemma_first_lapsed_unique(before, position);
        } else {
            assert(before.subrange(0, before.len() as int) =~= before);
        }
    }
    match pending {
        Some(newcomer) => {
            slots.push(newcomer);
        },
        None => {},
    }
    slots
}

} // verus!
