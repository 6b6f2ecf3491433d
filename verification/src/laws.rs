//! The arena's governing properties, stated and proved once over the model,
//! so they hold across any sequence of operations.

use vstd::prelude::*;
use crate::handle::Idx;
use crate::model::{
    ArenaView, SlotState, insert_transition, live_values, remove_transition,
    lemma_live_values_split,
};

verus! {

broadcast use vstd::set::group_set_axioms;

/// Round trip: the handle returned by an insertion resolves, and resolves
/// to exactly the value that was inserted.
pub proof fn lemma_insert_round_trip<T>(pre: ArenaView<T>, post: ArenaView<T>, h: Idx, v: T)
    requires
        pre.inv(),
        insert_transition(pre, post, h, v),
    ensures
        post.valid(h),
        post.spec_get(h) == Some(v),
{
    if pre.free_list.len() == 0 {
        assert(post.slots[h.spec_position() as int] == (SlotState::Live {
            generation: 0u32,
            value: v,
        }));
    } else {
        assert(post.slots[h.spec_position() as int] == (SlotState::Live {
            generation: h.spec_generation(),
            value: v,
        }));
    }
}

/// Invalidation: a successful removal returns the stored value and leaves
/// the handle both unresolvable and permanently dead.
pub proof fn lemma_remove_invalidates<T>(pre: ArenaView<T>, post: ArenaView<T>, h: Idx, r: Option<
    T,
>)
    requires
        pre.valid(h),
        remove_transition(pre, post, h, r),
    ensures
        r == Some(pre.value_of(h)),
        !post.valid(h),
        post.spec_get(h) == None::<T>,
        post.dead(h),
{
}

/// A dead handle never resolves: its slot is retired, or every generation
/// the slot will ever carry is larger than the handle's.
pub proof fn lemma_dead_not_valid<T>(v: ArenaView<T>, h: Idx)
    requires
        v.dead(h),
    ensures
        !v.valid(h),
{
}

/// No resurrection: an insertion — in particular one that reuses a dead
/// handle's slot — keeps every dead handle dead, and the fresh handle never
/// coincides with a dead one, even at the same position.
pub proof fn lemma_no_resurrection<T>(
    pre: ArenaView<T>,
    post: ArenaView<T>,
    h: Idx,
    v: T,
    stale: Idx,
)
    requires
        pre.inv(),
        insert_transition(pre, post, h, v),
        pre.dead(stale),
    ensures
        post.dead(stale),
        stale != h,
        !post.valid(stale),
{
    let p = h.spec_position() as int;
    let sp = stale.spec_position() as int;
    if pre.free_list.len() == 0 {
        assert(sp < pre.slots.len());
        assert(post.slots[sp] == pre.slots[sp]);
        assert(stale.spec_position() != h.spec_position());
    } else {
        if sp == p {
            assert(pre.slots[p]->Free_next_generation > stale.spec_generation());
            assert(h.spec_generation() > stale.spec_generation());
            assert(post.slots[sp] == (SlotState::Live {
                generation: h.spec_generation(),
                value: v,
            }));
        } else {
            assert(post.slots[sp] == pre.slots[sp]);
        }
    }
    lemma_dead_not_valid(post, stale);
}

/// Removal also keeps every dead handle dead; with the two lemmas above,
/// a handle that has once died stays unresolvable through any sequence of
/// later insertions and removals.
pub proof fn lemma_remove_keeps_dead<T>(
    pre: ArenaView<T>,
    post: ArenaView<T>,
    h: Idx,
    r: Option<T>,
    stale: Idx,
)
    requires
        remove_transition(pre, post, h, r),
        pre.dead(stale),
    ensures
        post.dead(stale),
{
}

/// Counts the handles that resolve against a slot prefix, slot by slot:
/// each live slot contributes exactly the one handle made of its position
/// and its current generation.
proof fn lemma_valid_handles_count<T>(v: ArenaView<T>)
    requires
        v.slots.len() <= u32::MAX as int,
    ensures
        v.valid_handles().finite(),
        v.valid_handles().len() == v.num_live(),
    decreases v.slots.len(),
{
    let hs = v.valid_handles();
    if v.slots.len() == 0 {
        assert(hs =~= Set::<Idx>::empty());
    } else {
        let n = v.slots.len() - 1;
        let w = ArenaView::<T> { slots: v.slots.drop_last(), free_list: v.free_list };
        lemma_valid_handles_count(w);
        lemma_live_values_split(v.slots, n);
        assert(v.slots.subrange(0, n) =~= w.slots);
        assert(v.slots.subrange(n + 1, v.slots.len() as int) =~= Seq::<SlotState<T>>::empty());
        assert(live_values(Seq::<SlotState<T>>::empty()) =~= Seq::<T>::empty());
        match v.slots[n] {
            SlotState::Live { generation: g, .. } => {
                let hnew = Idx { index: n as u32, generation: g };
                assert(v.num_live() == w.num_live() + 1) by {
                    assert(live_values(v.slots) =~= live_values(w.slots) + seq![
                        v.slots[n]->Live_value,
                    ]);
                }
                assert(!w.valid(hnew));
                assert(hs =~= w.valid_handles().insert(hnew)) by {
                    assert forall|h2: Idx| hs.contains(h2) implies w.valid_handles().insert(
                        hnew,
                    ).contains(h2) by {
                        if h2.spec_position() as int == n {
                            assert(h2 == hnew);
                        } else {
                            assert(w.valid(h2));
                        }
                    }
                    assert forall|h2: Idx|
                        w.valid_handles().insert(hnew).contains(h2) implies hs.contains(h2) by {
                        if h2 == hnew {
                            assert(v.valid(h2));
                        } else {
                            assert(w.valid(h2));
                            assert(v.valid(h2));
                        }
                    }
                }
            },
            _ => {
                assert(v.num_live() == w.num_live()) by {
                    assert(live_values(v.slots) =~= live_values(w.slots));
                }
                assert(hs =~= w.valid_handles()) by {
                    assert forall|h2: Idx| hs.contains(h2) implies w.valid_handles().contains(
                        h2,
                    ) by {
                        assert(h2.spec_position() as int != n);
                        assert(w.valid(h2));
                    }
                    assert forall|h2: Idx|
                        w.valid_handles().contains(h2) implies hs.contains(h2) by {
                        assert(v.valid(h2));
                    }
                }
            },
        }
    }
}

/// Length accounting: the arena's length is exactly the number of handles
/// that currently resolve — the set of valid handles is finite and its
/// cardinality is the number of live values.
pub proof fn lemma_len_counts_valid_handles<T>(v: ArenaView<T>)
    requires
        v.inv(),
    ensures
        v.valid_handles().finite(),
        v.valid_handles().len() == v.num_live(),
{
    lemma_valid_handles_count(v);
}

} // verus!
