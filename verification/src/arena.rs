//! The arena itself: slot storage, handle validation, free-list reuse.

use vstd::prelude::*;
use crate::handle::Idx;
use crate::iter::{IntoIter, Iter, IterMut, states};
use crate::model::{
    ArenaView, SlotState, insert_transition, live_values, remove_transition,
    lemma_live_len_lt, lemma_live_values_push_live, lemma_live_values_split,
    lemma_live_values_update,
};

verus! {

/// Sentinel link meaning "no further vacant slot".
pub(crate) const NO_FREE: u32 = u32::MAX;

/// Concrete storage for one slot. Unlike the abstract [`SlotState`], a
/// vacant slot also carries the position of the next vacant slot in the free
/// chain (`NO_FREE` at the end of the chain).
pub(crate) enum Slot<T> {
    Occupied { generation: u32, value: T },
    Vacant { next_free: u32, next_generation: u32 },
    Retired,
}

impl<T> Slot<T> {
    /// The abstract state of this slot; the free-chain link is dropped.
    pub(crate) open spec fn state(self) -> SlotState<T> {
        match self {
            Slot::Occupied { generation, value } => SlotState::Live { generation, value },
            Slot::Vacant { next_free: _, next_generation } => SlotState::Free { next_generation },
            Slot::Retired => SlotState::Retired,
        }
    }
}

/// A generational arena. Values go in through [`Arena::insert`], which hands
/// back an [`Idx`]; every later operation checks that handle's generation
/// against the slot before touching the value.
pub struct Arena<T> {
    slots: Vec<Slot<T>>,
    free_count: u32,
    first_free: u32,
    free_order: Ghost<Seq<u32>>,
}

impl<T> View for Arena<T> {
    type V = ArenaView<T>;

    closed spec fn view(&self) -> ArenaView<T> {
        ArenaView {
            slots: Seq::new(self.slots@.len(), |i: int| self.slots@[i].state()),
            free_list: self.free_order@,
        }
    }
}

impl<T> Arena<T> {
    /// The view is the slot sequence, pointwise abstracted.
    proof fn view_facts(&self)
        ensures
            self@.slots.len() == self.slots@.len(),
            forall|j: int|
                0 <= j < self.slots@.len() ==> #[trigger] self@.slots[j]
                    == self.slots@.index(j).state(),
    {
    }

    /// A well-formed arena's view satisfies the model invariant.
    pub proof fn lemma_wf_inv(&self)
        requires
            self.wf(),
        ensures
            self@.inv(),
    {
    }

    /// Well-formedness: the model invariant holds, `free_count` counts the
    /// slots that hold no value, and the concrete free chain threads the
    /// vacant slots in exactly the order of the model's free list.
    pub closed spec fn wf(&self) -> bool {
        &&& self@.inv()
        &&& self.free_count as int == self@.slots.len() - live_values(self@.slots).len()
        &&& live_values(self@.slots).len() <= self@.slots.len()
        &&& self.first_free == (if self@.free_list.len() == 0 {
            NO_FREE
        } else {
            self@.free_list[0]
        })
        &&& forall|k: int|
            #![trigger self.free_order@[k]]
            0 <= k < self.free_order@.len() ==> (self.slots@[self.free_order@[k] as int] matches Slot::Vacant { next_free, .. }
                && next_free == (if k + 1 == self.free_order@.len() {
                    NO_FREE
                } else {
                    self.free_order@[k + 1]
                }))
    }

    /// Creates an empty arena with no storage.
    pub fn new() -> (a: Self)
        ensures
            a.wf(),
            a@ == (ArenaView::<T> { slots: Seq::empty(), free_list: Seq::empty() }),
    {
        Self::with_capacity(0)
    }

    /// Creates an empty arena with storage reserved for `capacity` slots.
    pub fn with_capacity(capacity: usize) -> (a: Self)
        ensures
            a.wf(),
            a@ == (ArenaView::<T> { slots: Seq::empty(), free_list: Seq::empty() }),
    {
        let a = Arena {
            slots: Vec::with_capacity(capacity),
            free_count: 0,
            first_free: NO_FREE,
            free_order: Ghost(Seq::empty()),
        };
        proof {
            assert(a@.slots =~= Seq::<SlotState<T>>::empty());
            assert(a@ =~= (ArenaView::<T> { slots: Seq::empty(), free_list: Seq::empty() }));
        }
        a
    }

    /// Number of live values, in constant time: total slots minus the slots
    /// that hold no value.
    pub fn len(&self) -> (n: usize)
        requires
            self.wf(),
        ensures
            n == self@.num_live(),
    {
        self.slots.len() - self.free_count as usize
    }

    /// True exactly when `h` currently resolves to a value: its position is
    /// in range and the slot there is live at the handle's generation. A
    /// vacant or retired slot never matches.
    pub fn contains(&self, h: Idx) -> (r: bool)
        requires
            self.wf(),
        ensures
            r == self@.valid(h),
    {
        let i = h.index as usize;
        if i >= self.slots.len() {
            return false;
        }
        proof {
            self.view_facts();
        }
        let s = &self.slots[i];
        proof {
            assert(*s == self.slots@[i as int]);
        }
        match s {
            Slot::Occupied { generation, .. } => {
                proof {
                    assert(*s is Occupied);
                    assert(self@.slots[i as int] == s.state());
                    assert(self@.slots[i as int] is Live && self@.slots[i as int]->Live_generation
                        == *generation);
                    assert((*generation == h.generation) == self@.valid(h));
                }
                *generation == h.generation
            },
            _ => {
                proof {
                    assert(self@.slots[i as int] == s.state());
                    assert(!self@.valid(h));
                }
                false
            },
        }
    }

    /// Looks `h` up: the stored value when the handle is valid (by the same
    /// test as [`Arena::contains`]), absent otherwise — in particular when the
    /// position is out of range.
    pub fn get(&self, h: Idx) -> (r: Option<&T>)
        requires
            self.wf(),
        ensures
            match r {
                Some(v) => self@.valid(h) && *v == self@.value_of(h),
                None => !self@.valid(h),
            },
    {
        let i = h.index as usize;
        if i >= self.slots.len() {
            return None;
        }
        proof {
            self.view_facts();
        }
        let s = &self.slots[i];
        proof {
            assert(*s == self.slots@[i as int]);
        }
        match s {
            Slot::Occupied { generation, value } => {
                proof {
                    assert(*s is Occupied);
                    assert(self@.slots[i as int] == s.state());
                    assert(self@.slots[i as int] is Live && self@.slots[i as int]->Live_generation
                        == *generation && self@.slots[i as int]->Live_value == *value);
                }
                if *generation == h.generation {
                    proof {
                        assert(self@.valid(h) && *value == self@.value_of(h));
                    }
                    Some(value)
                } else {
                    proof {
                        assert(!self@.valid(h));
                    }
                    None
                }
            },
            _ => {
                proof {
                    assert(self@.slots[i as int] == s.state());
                    assert(!self@.valid(h));
                }
                None
            },
        }
    }

    /// Stores `value` and hands back a fresh handle for it. With an empty
    /// free list a new slot is appended at generation zero; otherwise the
    /// head of the free list is reused at its pending generation. The new
    /// handle was not valid before the call and differs from every handle
    /// that was ever valid, so stale handles never resolve to `value`.
    pub fn insert(&mut self, value: T) -> (h: Idx)
        requires
            old(self).wf(),
            old(self)@.free_list.len() > 0 || old(self)@.num_slots() < u32::MAX as nat,
        ensures
            final(self).wf(),
            insert_transition(old(self)@, final(self)@, h, value),
            final(self)@.valid(h),
            final(self)@.value_of(h) == value,
            !old(self)@.valid(h),
            !old(self)@.dead(h),
            final(self)@.num_live() == old(self)@.num_live() + 1,
            final(self)@.num_slots() == if old(self)@.free_list.len() == 0 {
                old(self)@.num_slots() + 1
            } else {
                old(self)@.num_slots()
            },
            forall|h2: Idx|
                #[trigger] old(self)@.valid(h2) ==> final(self)@.valid(h2)
                    && final(self)@.value_of(h2) == old(self)@.value_of(h2),
            forall|h2: Idx|
                h2 != h ==> (#[trigger] final(self)@.valid(h2) <==> old(self)@.valid(h2)),
            forall|h2: Idx| #[trigger] old(self)@.dead(h2) ==> final(self)@.dead(h2),
    {
        let ghost pre = self@;
        proof {
            self.view_facts();
        }
        if self.first_free == NO_FREE {
            proof {
                if pre.free_list.len() > 0 {
                    assert(pre.free_list[0] < pre.slots.len());
                    assert(false);
                }
            }
            let index = self.slots.len() as u32;
            self.slots.push(Slot::Occupied { generation: 0, value });
            proof {
                self.view_facts();
                assert(self@.slots =~= pre.slots.push(
                    SlotState::Live { generation: 0, value },
                ));
                assert(self@.free_list == pre.free_list);
                lemma_live_values_push_live(pre.slots, 0, value);
                assert(insert_transition(pre, self@, Idx { index, generation: 0 }, value));
                assert forall|i: int|
                    0 <= i < self@.slots.len() && (#[trigger] self@.slots[i]) is Free implies self@.free_list.contains(
                    i as u32,
                ) by {
                    assert(pre.slots[i] is Free);
                }
                assert(self.wf());
                assert forall|h2: Idx| #[trigger] pre.valid(h2) implies self@.valid(h2) && self@.value_of(
                    h2,
                ) == pre.value_of(h2) by {
                    assert(self@.slots[h2.index as int] == pre.slots[h2.index as int]);
                }
            }
            Idx { index, generation: 0 }
        } else {
            let index = self.first_free;
            let i = index as usize;
            proof {
                assert(pre.free_list.len() > 0);
                assert(pre.free_list[0] == index);
                assert(pre.free_list[0] < pre.slots.len());
                assert(pre.slots[i as int] is Free);
                assert(self@.slots[i as int] == self.slots@[i as int].state());
                assert(self.slots@[i as int] is Vacant);
                lemma_live_len_lt(pre.slots, i as int);
            }
            let (nf, ng) = match &self.slots[i] {
                Slot::Vacant { next_free, next_generation } => (*next_free, *next_generation),
                _ => unreached(),
            };
            proof {
                assert(pre.slots[i as int] == (SlotState::Free::<T> { next_generation: ng }));
            }
            self.slots[i] = Slot::Occupied { generation: ng, value };
            self.first_free = nf;
            self.free_count = self.free_count - 1;
            self.free_order = Ghost(self.free_order@.drop_first());
            let h = Idx { index, generation: ng };
            proof {
                self.view_facts();
                assert(self@.slots =~= pre.slots.update(
                    i as int,
                    SlotState::Live { generation: ng, value },
                ));
                assert(self@.free_list == pre.free_list.drop_first());
                lemma_live_values_split(pre.slots, i as int);
                lemma_live_values_update(pre.slots, i as int, SlotState::Live { generation: ng, value });
                assert(self@.num_live() == pre.num_live() + 1);
                assert(insert_transition(pre, self@, h, value));
                // the free chain still threads exactly the remaining vacant slots
                assert forall|k: int|
                    0 <= k < self@.free_list.len() implies (#[trigger] self@.free_list[k])
                    < self@.slots.len() && self@.slots[self@.free_list[k] as int] is Free by {
                    assert(self@.free_list[k] == pre.free_list[k + 1]);
                    assert(pre.free_list[k + 1] != pre.free_list[0]);
                }
                assert forall|i2: int|
                    0 <= i2 < self@.slots.len() && (#[trigger] self@.slots[i2]) is Free implies self@.free_list.contains(
                    i2 as u32,
                ) by {
                    assert(pre.slots[i2] is Free);
                    let k = choose|k: int|
                        0 <= k < pre.free_list.len() && pre.free_list[k] == i2 as u32;
                    assert(k != 0);
                    assert(self@.free_list[k - 1] == i2 as u32);
                }
                assert forall|k: int|
                    #![trigger self.free_order@[k]]
                    0 <= k < self.free_order@.len() implies (self.slots@[self.free_order@[k] as int] matches Slot::Vacant { next_free, .. }
                    && next_free == (if k + 1 == self.free_order@.len() {
                        NO_FREE
                    } else {
                        self.free_order@[k + 1]
                    })) by {
                    assert(pre.free_list[k + 1] == self.free_order@[k]);
                    assert(pre.free_list[k + 1] != pre.free_list[0]);
                }
                assert(self.wf());
                assert forall|h2: Idx| #[trigger] pre.valid(h2) implies self@.valid(h2) && self@.value_of(
                    h2,
                ) == pre.value_of(h2) by {
                    assert(pre.slots[i as int] is Free);
                    assert(h2.index as int != i as int);
                }
                assert forall|h2: Idx| h2 != h implies (#[trigger] self@.valid(h2) <==> pre.valid(
                    h2,
                )) by {
                    if h2.index as int == i as int {
                        assert(!pre.valid(h2));
                    }
                }
                assert forall|h2: Idx| #[trigger] pre.dead(h2) implies self@.dead(h2) by {}
            }
            h
        }
    }

    /// Removes and returns the value `h` refers to when the handle is valid;
    /// an invalid handle changes nothing and yields absence. The emptied
    /// slot is pushed on the free list, pending the next generation — or
    /// permanently retired when its generation counter is exhausted, so that
    /// wraparound can never revive a stale handle.
    pub fn remove(&mut self, h: Idx) -> (r: Option<T>)
        requires
            old(self).wf(),
        ensures
            final(self).wf(),
            remove_transition(old(self)@, final(self)@, h, r),
            r is Some <==> old(self)@.valid(h),
            old(self)@.valid(h) ==> r == Some(old(self)@.value_of(h)) && !final(self)@.valid(h)
                && final(self)@.dead(h) && final(self)@.num_live() + 1 == old(self)@.num_live(),
            !old(self)@.valid(h) ==> *final(self) == *old(self),
            final(self)@.num_slots() == old(self)@.num_slots(),
            forall|h2: Idx|
                #[trigger] old(self)@.valid(h2) && h2 != h ==> final(self)@.valid(h2)
                    && final(self)@.value_of(h2) == old(self)@.value_of(h2),
            forall|h2: Idx|
                h2 != h ==> (#[trigger] final(self)@.valid(h2) <==> old(self)@.valid(h2)),
            forall|h2: Idx| #[trigger] old(self)@.dead(h2) ==> final(self)@.dead(h2),
    {
        let ghost pre = self@;
        proof {
            self.view_facts();
        }
        let i = h.index as usize;
        if i >= self.slots.len() {
            return None;
        }
        let matches_gen = {
            let s = &self.slots[i];
            proof {
                assert(*s == self.slots@[i as int]);
            }
            match s {
                Slot::Occupied { generation, .. } => {
                    proof {
                        assert(*s is Occupied);
                        assert(pre.slots[i as int] == s.state());
                    }
                    *generation == h.generation
                },
                _ => {
                    proof {
                        assert(pre.slots[i as int] == s.state());
                    }
                    false
                },
            }
        };
        if !matches_gen {
            proof {
                assert(!pre.valid(h));
            }
            return None;
        }
        proof {
            assert(pre.valid(h));
            assert(pre.slots[i as int] == (SlotState::Live {
                generation: h.generation,
                value: pre.value_of(h),
            }));
            lemma_live_values_split(pre.slots, i as int);
        }
        let g = h.generation;
        let mut taken = if g == u32::MAX {
            Slot::Retired
        } else {
            Slot::Vacant { next_free: self.first_free, next_generation: g + 1 }
        };
        core::mem::swap(&mut taken, &mut self.slots[i]);
        self.free_count = self.free_count + 1;
        match taken {
            Slot::Occupied { value, .. } => {
                proof {
                    assert(value == pre.value_of(h));
                }
                if g == u32::MAX {
                    proof {
                        self.view_facts();
                        assert(self@.slots =~= pre.slots.update(i as int, SlotState::Retired));
                        assert(self@.free_list == pre.free_list);
                        lemma_live_values_update(pre.slots, i as int, SlotState::Retired);
                        assert(self@.num_live() + 1 == pre.num_live());
                        assert(remove_transition(pre, self@, h, Some(value)));
                        assert forall|k: int|
                            0 <= k < self@.free_list.len() implies (#[trigger] self@.free_list[k])
                            < self@.slots.len() && self@.slots[self@.free_list[k] as int] is Free by {
                            assert(pre.slots[pre.free_list[k] as int] is Free);
                            assert(pre.free_list[k] as int != i as int);
                        }
                        assert forall|i2: int|
                            0 <= i2 < self@.slots.len() && (#[trigger] self@.slots[i2]) is Free implies self@.free_list.contains(
                            i2 as u32,
                        ) by {
                            assert(i2 != i as int);
                            assert(pre.slots[i2] is Free);
                        }
                        assert forall|k: int|
                            #![trigger self.free_order@[k]]
                            0 <= k < self.free_order@.len() implies (self.slots@[self.free_order@[k] as int] matches Slot::Vacant { next_free, .. }
                            && next_free == (if k + 1 == self.free_order@.len() {
                                NO_FREE
                            } else {
                                self.free_order@[k + 1]
                            })) by {
                            assert(pre.slots[self.free_order@[k] as int] is Free);
                            assert(self.free_order@[k] as int != i as int);
                        }
                        assert(self.wf());
                        assert forall|h2: Idx| #[trigger] pre.dead(h2) implies self@.dead(h2) by {}
                    }
                } else {
                    self.first_free = h.index;
                    self.free_order = Ghost(seq![h.index] + self.free_order@);
                    proof {
                        self.view_facts();
                        assert(self@.slots =~= pre.slots.update(
                            i as int,
                            SlotState::Free { next_generation: (g + 1) as u32 },
                        ));
                        assert(self@.free_list == seq![h.index] + pre.free_list);
                        lemma_live_values_update(
                            pre.slots,
                            i as int,
                            SlotState::Free { next_generation: (g + 1) as u32 },
                        );
                        assert(self@.num_live() + 1 == pre.num_live());
                        assert(remove_transition(pre, self@, h, Some(value)));
                        assert forall|k: int|
                            0 <= k < self@.free_list.len() implies (#[trigger] self@.free_list[k])
                            < self@.slots.len() && self@.slots[self@.free_list[k] as int] is Free by {
                            if k > 0 {
                                assert(self@.free_list[k] == pre.free_list[k - 1]);
                                assert(pre.slots[pre.free_list[k - 1] as int] is Free);
                                assert(pre.free_list[k - 1] as int != i as int);
                            }
                        }
                        assert forall|j: int, k: int|
                            0 <= j < k < self@.free_list.len() implies self@.free_list[j]
                            != self@.free_list[k] by {
                            if j == 0 {
                                assert(pre.slots[pre.free_list[k - 1] as int] is Free);
                            }
                        }
                        assert forall|i2: int|
                            0 <= i2 < self@.slots.len() && (#[trigger] self@.slots[i2]) is Free implies self@.free_list.contains(
                            i2 as u32,
                        ) by {
                            if i2 == i as int {
                                assert(self@.free_list[0] == i2 as u32);
                            } else {
                                assert(pre.slots[i2] is Free);
                                let k = choose|k: int|
                                    0 <= k < pre.free_list.len() && pre.free_list[k] == i2 as u32;
                                assert(self@.free_list[k + 1] == i2 as u32);
                            }
                        }
                        assert forall|k: int|
                            #![trigger self.free_order@[k]]
                            0 <= k < self.free_order@.len() implies (self.slots@[self.free_order@[k] as int] matches Slot::Vacant { next_free, .. }
                            && next_free == (if k + 1 == self.free_order@.len() {
                                NO_FREE
                            } else {
                                self.free_order@[k + 1]
                            })) by {
                            if k > 0 {
                                assert(self.free_order@[k] == pre.free_list[k - 1]);
                                assert(pre.slots[pre.free_list[k - 1] as int] is Free);
                                assert(pre.free_list[k - 1] as int != i as int);
                            }
                        }
                        assert(self.wf());
                        assert forall|h2: Idx| #[trigger] pre.dead(h2) implies self@.dead(h2) by {}
                    }
                }
                proof {
                    assert forall|h2: Idx| #[trigger] pre.valid(h2) && h2 != h implies self@.valid(
                        h2,
                    ) && self@.value_of(h2) == pre.value_of(h2) by {
                        if h2.index as int == i as int {
                            assert(h2.generation == h.generation);
                        }
                    }
                }
                Some(value)
            },
            _ => unreached(),
        }
    }

    /// Exclusive access to the value of the live slot at position `i`. Only
    /// that value can change through the returned reference: every slot
    /// status, the free list and the counters stay as they are.
    pub(crate) fn live_value_mut(&mut self, i: usize) -> (r: &mut T)
        requires
            old(self).wf(),
            i < old(self)@.slots.len(),
            old(self)@.slots[i as int] is Live,
        ensures
            final(self).wf(),
            *r == old(self)@.slots[i as int]->Live_value,
            final(self)@.slots == old(self)@.slots.update(
                i as int,
                SlotState::Live {
                    generation: old(self)@.slots[i as int]->Live_generation,
                    value: *final(r),
                },
            ),
            final(self)@.free_list == old(self)@.free_list,
            final(self)@.num_live() == old(self)@.num_live(),
    {
        let ghost pre = self@;
        proof {
            self.view_facts();
            assert(self.slots@[i as int] is Occupied);
        }
        let slot = &mut self.slots[i];
        match slot {
            Slot::Occupied { generation, value } => {
                proof {
                    let x = *final(value);
                    let g = pre.slots[i as int]->Live_generation;
                    let post = after_borrow(*self);
                    assert(post.slots@ == old(self).slots@.update(
                        i as int,
                        Slot::Occupied { generation: g, value: x },
                    ));
                    assert(post.free_count == old(self).free_count);
                    assert(post.first_free == old(self).first_free);
                    assert(post.free_order@ == old(self).free_order@);
                    post.view_facts();
                    assert(post@.slots =~= pre.slots.update(
                        i as int,
                        SlotState::Live { generation: g, value: x },
                    ));
                    lemma_live_values_split(pre.slots, i as int);
                    lemma_live_values_update(
                        pre.slots,
                        i as int,
                        SlotState::Live { generation: g, value: x },
                    );
                    assert(post@.num_live() == pre.num_live());
                    assert forall|k: int|
                        0 <= k < post@.free_list.len() implies (#[trigger] post@.free_list[k])
                        < post@.slots.len() && post@.slots[post@.free_list[k] as int] is Free by {
                        assert(pre.slots[pre.free_list[k] as int] is Free);
                        assert(pre.free_list[k] as int != i as int);
                    }
                    assert forall|i2: int|
                        0 <= i2 < post@.slots.len() && (#[trigger] post@.slots[i2]) is Free implies post@.free_list.contains(
                        i2 as u32,
                    ) by {
                        assert(i2 != i as int);
                        assert(pre.slots[i2] is Free);
                    }
                    assert forall|k: int|
                        #![trigger post.free_order@[k]]
                        0 <= k < post.free_order@.len() implies (post.slots@[post.free_order@[k] as int] matches Slot::Vacant { next_free, .. }
                        && next_free == (if k + 1 == post.free_order@.len() {
                            NO_FREE
                        } else {
                            post.free_order@[k + 1]
                        })) by {
                        assert(pre.slots[post.free_order@[k] as int] is Free);
                        assert(post.free_order@[k] as int != i as int);
                        assert(post.slots@[post.free_order@[k] as int] == old(self).slots@[post.free_order@[k] as int]);
                    }
                    assert(post.wf());
                }
                value
            },
            _ => unreached(),
        }
    }

    /// Exclusive lookup: a mutable reference to the stored value when `h`
    /// is valid (by the same test as [`Arena::contains`]), absent otherwise.
    /// Only that one value can change through the reference; every slot
    /// status, every handle's validity and the free list stay as they are.
    pub fn get_mut(&mut self, h: Idx) -> (r: Option<&mut T>)
        requires
            old(self).wf(),
        ensures
            final(self).wf(),
            r is Some <==> old(self)@.valid(h),
            old(self)@.valid(h) ==> *r.unwrap() == old(self)@.value_of(h)
                && final(self)@.slots == old(self)@.slots.update(
                h.spec_position() as int,
                SlotState::Live { generation: h.spec_generation(), value: *final(r.unwrap()) },
            ) && final(self)@.free_list == old(self)@.free_list && final(self)@.num_live() == old(self)@.num_live(),
            !old(self)@.valid(h) ==> *final(self) == *old(self),
    {
        if !self.contains(h) {
            return None;
        }
        let i = h.index as usize;
        Some(self.live_value_mut(i))
    }

    /// Exclusive direct access for a handle the caller knows to be valid;
    /// the ergonomic counterpart of `get_mut` for asserted-valid handles.
    pub fn index_mut(&mut self, h: Idx) -> (r: &mut T)
        requires
            old(self).wf(),
            old(self)@.valid(h),
        ensures
            final(self).wf(),
            *r == old(self)@.value_of(h),
            final(self)@.slots == old(self)@.slots.update(
                h.spec_position() as int,
                SlotState::Live { generation: h.spec_generation(), value: *final(r) },
            ),
            final(self)@.free_list == old(self)@.free_list,
            final(self)@.num_live() == old(self)@.num_live(),
    {
        self.live_value_mut(h.index as usize)
    }

    /// Direct access for a handle the caller knows to be valid; the
    /// ergonomic counterpart of `get` for asserted-valid handles.
    pub fn index(&self, h: Idx) -> (r: &T)
        requires
            self.wf(),
            self@.valid(h),
        ensures
            *r == self@.value_of(h),
    {
        let i = h.index as usize;
        proof {
            self.view_facts();
        }
        match &self.slots[i] {
            Slot::Occupied { value, .. } => value,
            _ => unreached(),
        }
    }
}

impl<T> Arena<T> {
    /// Whether the slot at position `i` currently holds a value.
    pub(crate) fn is_live_at(&self, i: usize) -> (b: bool)
        requires
            i < self@.slots.len(),
        ensures
            b == (self@.slots[i as int] is Live),
    {
        proof {
            self.view_facts();
        }
        let s = &self.slots[i];
        proof {
            assert(*s == self.slots@[i as int]);
            assert(self@.slots[i as int] == s.state());
        }
        match s {
            Slot::Occupied { .. } => true,
            _ => false,
        }
    }

    /// A shared traversal over the live values, in storage order.
    pub fn iter<'a>(&'a self) -> (it: Iter<'a, T>)
        requires
            self.wf(),
        ensures
            it.wf(),
            it.remaining() == self@.live_seq(),
    {
        let it = Iter {
            slots: &self.slots,
            front: 0,
            back: self.slots.len(),
            free_remaining: self.free_count,
        };
        proof {
            self.view_facts();
            it.defs();
            assert(states(self.slots@) =~= self@.slots);
            assert(states(self.slots@).subrange(0, self.slots@.len() as int) =~= self@.slots);
        }
        it
    }

    /// An exclusive traversal cursor over the live values. The cursor holds
    /// no borrow of its own: hand it the same arena at every step.
    pub fn iter_mut(&self) -> (it: IterMut)
        requires
            self.wf(),
        ensures
            it.wf_for(self@),
            it.remaining_in(self@) == self@.live_seq(),
            it.passed_front(self@) == 0,
    {
        let it = IterMut { front: 0, back: self.slots.len(), free_remaining: self.free_count };
        proof {
            self.view_facts();
            it.defs(self@);
            assert(self@.slots.subrange(0, self@.slots.len() as int) =~= self@.slots);
            assert(self@.slots.subrange(0, 0) =~= Seq::<SlotState<T>>::empty());
            assert(live_values(Seq::<SlotState<T>>::empty()) =~= Seq::<T>::empty());
        }
        it
    }

    /// Consumes the arena into an owning traversal over its live values.
    pub fn into_iter(self) -> (it: IntoIter<T>)
        requires
            self.wf(),
        ensures
            it.wf(),
            it.remaining() == self@.live_seq(),
    {
        proof {
            self.view_facts();
        }
        let ghost pre = self@;
        let Arena { slots, free_count, first_free: _, free_order: _ } = self;
        let back = slots.len();
        let it = IntoIter { slots, front: 0, back, free_remaining: free_count };
        proof {
            it.defs();
            assert(states(it.slots@) =~= pre.slots);
            assert(states(it.slots@).subrange(0, it.slots@.len() as int) =~= pre.slots);
        }
        it
    }
}

} // verus!
