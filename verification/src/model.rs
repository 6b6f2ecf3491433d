//! The mathematical model of an arena: a sequence of slot states together
//! with the order in which vacant slots will be reused. All public contracts
//! of the crate are stated over this model.

use vstd::prelude::*;
use crate::handle::Idx;

verus! {

/// The abstract state of one storage slot.
pub enum SlotState<T> {
    /// The slot holds a value, tagged with its current generation.
    Live { generation: u32, value: T },
    /// The slot is vacant; `next_generation` is the tag the slot will carry
    /// the next time it is reused.
    Free { next_generation: u32 },
    /// The slot's generation counter is exhausted; the slot is permanently
    /// out of service and can never match a handle again.
    Retired,
}

/// The abstract state of a whole arena: the slot states in storage order,
/// plus the free list as the exact sequence of slot positions that will be
/// reused, in order, by future insertions.
#[verifier::ext_equal]
pub struct ArenaView<T> {
    pub slots: Seq<SlotState<T>>,
    pub free_list: Seq<u32>,
}

/// The value a slot contributes to an iteration: one element if it is live,
/// nothing otherwise.
pub open spec fn slot_live<T>(s: SlotState<T>) -> Seq<T> {
    match s {
        SlotState::Live { generation: _, value } => seq![value],
        SlotState::Free { .. } => Seq::empty(),
        SlotState::Retired => Seq::empty(),
    }
}

/// The live values of a slot sequence, in storage order.
pub open spec fn live_values<T>(s: Seq<SlotState<T>>) -> Seq<T>
    decreases s.len(),
{
    if s.len() == 0 {
        Seq::empty()
    } else {
        slot_live(s.first()) + live_values(s.drop_first())
    }
}

impl<T> ArenaView<T> {
    /// Total number of slots, live or not.
    pub open spec fn num_slots(self) -> nat {
        self.slots.len()
    }

    /// The live values in storage order; what iteration yields.
    pub open spec fn live_seq(self) -> Seq<T> {
        live_values(self.slots)
    }

    /// Number of live values; what `len` reports.
    pub open spec fn num_live(self) -> nat {
        live_values(self.slots).len()
    }

    /// A handle resolves iff its position is in range and the slot there is
    /// live at exactly the handle's generation.
    pub open spec fn valid(self, h: Idx) -> bool {
        &&& (h.spec_position() as int) < self.slots.len()
        &&& self.slots[h.spec_position() as int] matches SlotState::Live { generation, .. }
            && generation == h.spec_generation()
    }

    /// The value a valid handle resolves to.
    pub open spec fn value_of(self, h: Idx) -> T
        recommends
            self.valid(h),
    {
        self.slots[h.spec_position() as int]->Live_value
    }

    /// What a lookup returns: the stored value for a valid handle, absence
    /// for anything else.
    pub open spec fn spec_get(self, h: Idx) -> Option<T> {
        if self.valid(h) {
            Some(self.value_of(h))
        } else {
            None
        }
    }

    /// A handle is dead when its slot can never match it again: the slot is
    /// retired, or every generation the slot will ever carry is strictly
    /// larger than the handle's.
    pub open spec fn dead(self, h: Idx) -> bool {
        &&& (h.spec_position() as int) < self.slots.len()
        &&& match self.slots[h.spec_position() as int] {
            SlotState::Live { generation, .. } => generation > h.spec_generation(),
            SlotState::Free { next_generation } => next_generation > h.spec_generation(),
            SlotState::Retired => true,
        }
    }

    /// The set of handles that currently resolve.
    pub open spec fn valid_handles(self) -> Set<Idx> {
        Set::new(|h: Idx| self.valid(h))
    }

    /// The model-level invariant: slot positions fit in a handle, and the
    /// free list enumerates exactly the vacant slots, each once.
    pub open spec fn inv(self) -> bool {
        &&& self.slots.len() <= u32::MAX as int
        &&& forall|k: int|
            0 <= k < self.free_list.len() ==> (#[trigger] self.free_list[k]) < self.slots.len()
                && self.slots[self.free_list[k] as int] is Free
        &&& forall|j: int, k: int|
            0 <= j < k < self.free_list.len() ==> self.free_list[j] != self.free_list[k]
        &&& forall|i: int|
            0 <= i < self.slots.len() && (#[trigger] self.slots[i]) is Free
                ==> self.free_list.contains(i as u32)
    }
}

/// How one insertion changes the model: with an empty free list a new live
/// slot is appended at generation zero; otherwise the head of the free list
/// is reused at its pending generation. The returned handle names the slot
/// either way.
pub open spec fn insert_transition<T>(pre: ArenaView<T>, post: ArenaView<T>, h: Idx, v: T) -> bool {
    if pre.free_list.len() == 0 {
        &&& h.spec_position() as int == pre.slots.len()
        &&& h.spec_generation() == 0
        &&& post.slots == pre.slots.push(SlotState::Live { generation: 0, value: v })
        &&& post.free_list == pre.free_list
    } else {
        &&& h.spec_position() == pre.free_list[0]
        &&& pre.slots[h.spec_position() as int] matches SlotState::Free { next_generation } && {
            &&& h.spec_generation() == next_generation
            &&& post.slots == pre.slots.update(
                h.spec_position() as int,
                SlotState::Live { generation: next_generation, value: v },
            )
        }
        &&& post.free_list == pre.free_list.drop_first()
    }
}

/// How one removal changes the model: an invalid handle changes nothing and
/// yields absence; a valid one yields its value and leaves the slot vacant at
/// the next generation, pushed on the free list — or retired for good when
/// the generation counter is exhausted.
pub open spec fn remove_transition<T>(
    pre: ArenaView<T>,
    post: ArenaView<T>,
    h: Idx,
    r: Option<T>,
) -> bool {
    if pre.valid(h) {
        &&& r == Some(pre.value_of(h))
        &&& if h.spec_generation() == u32::MAX {
            &&& post.slots == pre.slots.update(h.spec_position() as int, SlotState::Retired)
            &&& post.free_list == pre.free_list
        } else {
            &&& post.slots == pre.slots.update(
                h.spec_position() as int,
                SlotState::Free { next_generation: (h.spec_generation() + 1) as u32 },
            )
            &&& post.free_list == seq![h.spec_position()] + pre.free_list
        }
    } else {
        &&& r is None
        &&& post == pre
    }
}

/// Writing a new value into the slot of a valid handle, at the slot's own
/// generation, changes what that handle resolves to and nothing else: every
/// handle keeps its validity and its deadness, and every other valid handle
/// keeps its value.
pub proof fn lemma_value_update_preserves_validity<T>(
    pre: ArenaView<T>,
    post: ArenaView<T>,
    h: Idx,
    x: T,
)
    requires
        pre.valid(h),
        post.slots == pre.slots.update(
            h.spec_position() as int,
            SlotState::Live { generation: h.spec_generation(), value: x },
        ),
        post.free_list == pre.free_list,
    ensures
        post.valid(h),
        post.value_of(h) == x,
        forall|h2: Idx| #[trigger] post.valid(h2) <==> pre.valid(h2),
        forall|h2: Idx| #[trigger] post.dead(h2) <==> pre.dead(h2),
        forall|h2: Idx|
            #[trigger] pre.valid(h2) && h2 != h ==> post.value_of(h2) == pre.value_of(h2),
{
    assert forall|h2: Idx| #[trigger] pre.valid(h2) && h2 != h implies post.value_of(h2)
        == pre.value_of(h2) by {
        if h2.spec_position() == h.spec_position() {
            assert(h2.spec_generation() == h.spec_generation());
        }
    }
}

/// Splitting a slot sequence at any position splits its live values in the
/// same order.
pub proof fn lemma_live_values_split<T>(s: Seq<SlotState<T>>, i: int)
    requires
        0 <= i < s.len(),
    ensures
        live_values(s) == live_values(s.subrange(0, i)) + slot_live(s[i]) + live_values(
            s.subrange(i + 1, s.len() as int),
        ),
    decreases i,
{
    if i == 0 {
        assert(s.subrange(1, s.len() as int) =~= s.drop_first());
        assert(s.subrange(0, 0) =~= Seq::<SlotState<T>>::empty());
        assert(live_values(s.subrange(0, 0)) + slot_live(s[0]) + live_values(
            s.subrange(1, s.len() as int),
        ) =~= slot_live(s.first()) + live_values(s.drop_first()));
    } else {
        let t = s.drop_first();
        lemma_live_values_split(t, i - 1);
        assert(t.subrange(0, i - 1) =~= s.subrange(0, i).drop_first());
        assert(t.subrange(i, t.len() as int) =~= s.subrange(i + 1, s.len() as int));
        assert(t[i - 1] == s[i]);
        assert(s.subrange(0, i).first() == s.first());
        assert(live_values(s.subrange(0, i)) == slot_live(s.first()) + live_values(
            s.subrange(0, i).drop_first(),
        ));
        assert(live_values(s) =~= live_values(s.subrange(0, i)) + slot_live(s[i]) + live_values(
            s.subrange(i + 1, s.len() as int),
        ));
    }
}

/// A slot sequence has no more live values than slots.
pub proof fn lemma_live_len_le<T>(s: Seq<SlotState<T>>)
    ensures
        live_values(s).len() <= s.len(),
    decreases s.len(),
{
    if s.len() > 0 {
        lemma_live_len_le(s.drop_first());
    }
}

/// A sequence with a slot that is not live has strictly fewer live values
/// than slots.
pub proof fn lemma_live_len_lt<T>(s: Seq<SlotState<T>>, i: int)
    requires
        0 <= i < s.len(),
        !(s[i] is Live),
    ensures
        live_values(s).len() < s.len(),
{
    lemma_live_values_split(s, i);
    lemma_live_len_le(s.subrange(0, i));
    lemma_live_len_le(s.subrange(i + 1, s.len() as int));
}

/// Appending a live slot appends its value to the live values.
pub proof fn lemma_live_values_push_live<T>(s: Seq<SlotState<T>>, g: u32, v: T)
    ensures
        live_values(s.push(SlotState::Live { generation: g, value: v })) == live_values(s).push(v),
    decreases s.len(),
{
    let s2 = s.push(SlotState::Live { generation: g, value: v });
    if s.len() == 0 {
        assert(s2.drop_first() =~= Seq::<SlotState<T>>::empty());
        assert(s2.first() == SlotState::Live { generation: g, value: v });
        assert(live_values(s2) == slot_live(s2.first()) + live_values(Seq::<SlotState<T>>::empty()));
        assert(live_values(Seq::<SlotState<T>>::empty()) =~= Seq::<T>::empty());
        assert(seq![v] + Seq::<T>::empty() =~= live_values(s).push(v));
    } else {
        lemma_live_values_push_live(s.drop_first(), g, v);
        assert(s2.drop_first() =~= s.drop_first().push(
            SlotState::Live { generation: g, value: v },
        ));
        assert(s2.first() == s.first());
        assert(live_values(s2) == slot_live(s.first()) + live_values(s.drop_first()).push(v));
        assert(slot_live(s.first()) + live_values(s.drop_first()).push(v) =~= (slot_live(s.first())
            + live_values(s.drop_first())).push(v));
    }
}

/// Replacing the slot at `i` leaves the live values of either side alone.
/// The new live values are the old ones with the slot's own contribution
/// swapped for the new slot's contribution, in place.
pub proof fn lemma_live_values_update<T>(s: Seq<SlotState<T>>, i: int, x: SlotState<T>)
    requires
        0 <= i < s.len(),
    ensures
        live_values(s.update(i, x)) == live_values(s.subrange(0, i)) + slot_live(x) + live_values(
            s.subrange(i + 1, s.len() as int),
        ),
{
    let s2 = s.update(i, x);
    lemma_live_values_split(s2, i);
    assert(s2.subrange(0, i) =~= s.subrange(0, i));
    assert(s2.subrange(i + 1, s2.len() as int) =~= s.subrange(i + 1, s.len() as int));
}

/// Live values distribute over concatenation of slot sequences.
pub proof fn lemma_live_values_add<T>(a: Seq<SlotState<T>>, b: Seq<SlotState<T>>)
    ensures
        live_values(a + b) == live_values(a) + live_values(b),
    decreases a.len(),
{
    if a.len() == 0 {
        assert(a + b =~= b);
        assert(live_values(a) =~= Seq::<T>::empty());
        assert(live_values(a) + live_values(b) =~= live_values(b));
    } else {
        lemma_live_values_add(a.drop_first(), b);
        assert((a + b).first() == a.first());
        assert((a + b).drop_first() =~= a.drop_first() + b);
        assert(live_values(a + b) == slot_live(a.first()) + (live_values(a.drop_first())
            + live_values(b)));
        assert(slot_live(a.first()) + (live_values(a.drop_first()) + live_values(b)) =~= (slot_live(
            a.first(),
        ) + live_values(a.drop_first())) + live_values(b));
    }
}

/// Peeling the first slot off a non-empty window of a slot sequence.
pub proof fn lemma_window_front<T>(s: Seq<SlotState<T>>, lo: int, hi: int)
    requires
        0 <= lo < hi <= s.len(),
    ensures
        live_values(s.subrange(lo, hi)) == slot_live(s[lo]) + live_values(s.subrange(lo + 1, hi)),
{
    let w = s.subrange(lo, hi);
    assert(w.first() == s[lo]);
    assert(w.drop_first() =~= s.subrange(lo + 1, hi));
}

/// Peeling the last slot off a non-empty window of a slot sequence.
pub proof fn lemma_window_back<T>(s: Seq<SlotState<T>>, lo: int, hi: int)
    requires
        0 <= lo < hi <= s.len(),
    ensures
        live_values(s.subrange(lo, hi)) == live_values(s.subrange(lo, hi - 1)) + slot_live(
            s[hi - 1],
        ),
{
    let w = s.subrange(lo, hi);
    lemma_live_values_split(w, w.len() - 1);
    assert(w.subrange(0, w.len() - 1) =~= s.subrange(lo, hi - 1));
    assert(w[w.len() - 1] == s[hi - 1]);
    assert(w.subrange(w.len() as int, w.len() as int) =~= Seq::<SlotState<T>>::empty());
    assert(live_values(w.subrange(w.len() as int, w.len() as int)) =~= Seq::<T>::empty());
    assert(live_values(w) =~= live_values(s.subrange(lo, hi - 1)) + slot_live(s[hi - 1]));
}

} // verus!
