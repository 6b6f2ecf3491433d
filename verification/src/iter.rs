//! The traversal family: by shared reference, by exclusive access through a
//! cursor, and by consuming the arena. All three skip vacant and retired
//! slots, run from either end, report an exact remaining count, and once
//! exhausted keep reporting exhaustion.

use vstd::prelude::*;
use crate::arena::{Arena, Slot};
use crate::model::{
    SlotState, live_values, slot_live, lemma_live_len_le, lemma_window_back, lemma_window_front,
};

verus! {

/// The abstract states of a concrete slot sequence, pointwise.
pub(crate) open spec fn states<T>(v: Seq<Slot<T>>) -> Seq<SlotState<T>> {
    Seq::new(v.len(), |i: int| v[i].state())
}

/// A double-ended, exact-size traversal of the live values of an arena, by
/// shared reference.
pub struct Iter<'a, T> {
    pub(crate) slots: &'a Vec<Slot<T>>,
    pub(crate) front: usize,
    pub(crate) back: usize,
    pub(crate) free_remaining: u32,
}

impl<'a, T> Iter<'a, T> {
    /// The live values not yet yielded, in storage order.
    pub closed spec fn remaining(self) -> Seq<T> {
        live_values(states(self.slots@).subrange(self.front as int, self.back as int))
    }

    /// Cursor sanity: the window lies inside the storage and
    /// `free_remaining` counts exactly the window's non-live slots.
    pub closed spec fn wf(self) -> bool {
        &&& self.front <= self.back <= self.slots@.len()
        &&& self.free_remaining as int == (self.back - self.front) - self.remaining().len()
        &&& self.remaining().len() <= self.back - self.front
    }

    /// Within the crate, the cursor's spec functions are these definitions.
    pub(crate) proof fn defs(self)
        ensures
            self.remaining() == live_values(
                states(self.slots@).subrange(self.front as int, self.back as int),
            ),
            self.wf() <==> (self.front <= self.back <= self.slots@.len()
                && self.free_remaining as int == (self.back - self.front)
                - self.remaining().len() && self.remaining().len() <= self.back - self.front),
    {
    }

    /// The next live value from the front, skipping non-live slots; absence
    /// once the window is exhausted, and forever after.
    pub fn next(&mut self) -> (r: Option<&'a T>)
        requires
            old(self).wf(),
        ensures
            final(self).wf(),
            old(self).remaining().len() == 0 ==> r is None && final(self).remaining()
                == old(self).remaining(),
            old(self).remaining().len() > 0 ==> r is Some && *r.unwrap() == old(self).remaining()[0] && final(self).remaining() == old(self).remaining().drop_first(),
    {
        loop
            invariant
                self.wf(),
                self.slots == old(self).slots,
                self.back == old(self).back,
                self.remaining() == old(self).remaining(),
            decreases self.back - self.front,
        {
            if self.front >= self.back {
                proof {
                    assert(self.remaining().len() == 0);
                }
                return None;
            }
            let i = self.front;
            let slots = self.slots;
            let s = &slots[i];
            proof {
                assert(*s == slots@[i as int]);
                assert(states(slots@)[i as int] == s.state());
                lemma_window_front(states(slots@), i as int, self.back as int);
                lemma_live_len_le(
                    states(slots@).subrange(i as int + 1, self.back as int),
                );
            }
            self.front = i + 1;
            match s {
                Slot::Occupied { value, .. } => {
                    proof {
                        assert(old(self).remaining() == seq![*value] + self.remaining());
                        assert(old(self).remaining()[0] == *value);
                        assert(old(self).remaining().drop_first() =~= self.remaining());
                    }
                    return Some(value);
                },
                _ => {
                    proof {
                        assert(slot_live(states(slots@)[i as int]) =~= Seq::<T>::empty());
                        assert(self.remaining() =~= old(self).remaining());
                    }
                    self.free_remaining = self.free_remaining - 1;
                },
            }
        }
    }

    /// The next live value from the back, skipping non-live slots; absence
    /// once the window is exhausted, and forever after.
    pub fn next_back(&mut self) -> (r: Option<&'a T>)
        requires
            old(self).wf(),
        ensures
            final(self).wf(),
            old(self).remaining().len() == 0 ==> r is None && final(self).remaining()
                == old(self).remaining(),
            old(self).remaining().len() > 0 ==> r is Some && *r.unwrap() == old(self).remaining().last() && final(self).remaining() == old(self).remaining().drop_last(),
    {
        loop
            invariant
                self.wf(),
                self.slots == old(self).slots,
                self.front == old(self).front,
                self.remaining() == old(self).remaining(),
            decreases self.back - self.front,
        {
            if self.front >= self.back {
                proof {
                    assert(self.remaining().len() == 0);
                }
                return None;
            }
            let j = self.back - 1;
            let slots = self.slots;
            let s = &slots[j];
            proof {
                assert(*s == slots@[j as int]);
                assert(states(slots@)[j as int] == s.state());
                lemma_window_back(states(slots@), self.front as int, self.back as int);
                lemma_live_len_le(
                    states(slots@).subrange(self.front as int, j as int),
                );
            }
            self.back = j;
            match s {
                Slot::Occupied { value, .. } => {
                    proof {
                        assert(old(self).remaining() == self.remaining() + seq![*value]);
                        assert(old(self).remaining().last() == *value);
                        assert(old(self).remaining().drop_last() =~= self.remaining());
                    }
                    return Some(value);
                },
                _ => {
                    proof {
                        assert(slot_live(states(slots@)[j as int]) =~= Seq::<T>::empty());
                        assert(self.remaining() =~= old(self).remaining());
                    }
                    self.free_remaining = self.free_remaining - 1;
                },
            }
        }
    }

    /// The exact number of live values still to be yielded, as both the
    /// lower and the upper bound.
    pub fn size_hint(&self) -> (r: (usize, Option<usize>))
        requires
            self.wf(),
        ensures
            r.0 == self.remaining().len(),
            r.1 == Some(r.0),
    {
        let n = (self.back - self.front) - self.free_remaining as usize;
        (n, Some(n))
    }
}

/// A double-ended, exact-size traversal that consumes the arena and yields
/// its live values by ownership. Dropping it early simply drops the backing
/// storage, which releases every value not yet yielded exactly once.
pub struct IntoIter<T> {
    pub(crate) slots: Vec<Slot<T>>,
    pub(crate) front: usize,
    pub(crate) back: usize,
    pub(crate) free_remaining: u32,
}

impl<T> IntoIter<T> {
    /// The live values not yet yielded, in storage order.
    pub closed spec fn remaining(self) -> Seq<T> {
        live_values(states(self.slots@).subrange(self.front as int, self.back as int))
    }

    /// Cursor sanity: the window lies inside the storage and
    /// `free_remaining` counts exactly the window's non-live slots.
    pub closed spec fn wf(self) -> bool {
        &&& self.front <= self.back <= self.slots@.len()
        &&& self.free_remaining as int == (self.back - self.front) - self.remaining().len()
        &&& self.remaining().len() <= self.back - self.front
    }

    /// Within the crate, the cursor's spec functions are these definitions.
    pub(crate) proof fn defs(self)
        ensures
            self.remaining() == live_values(
                states(self.slots@).subrange(self.front as int, self.back as int),
            ),
            self.wf() <==> (self.front <= self.back <= self.slots@.len()
                && self.free_remaining as int == (self.back - self.front)
                - self.remaining().len() && self.remaining().len() <= self.back - self.front),
    {
    }

    /// The next live value from the front, moved out of its slot; absence
    /// once the window is exhausted, and forever after.
    pub fn next(&mut self) -> (r: Option<T>)
        requires
            old(self).wf(),
        ensures
            final(self).wf(),
            old(self).remaining().len() == 0 ==> r is None && final(self).remaining()
                == old(self).remaining(),
            old(self).remaining().len() > 0 ==> r == Some(old(self).remaining()[0]) && final(self).remaining() == old(self).remaining().drop_first(),
    {
        loop
            invariant
                self.wf(),
                self.back == old(self).back,
                self.remaining() == old(self).remaining(),
            decreases self.back - self.front,
        {
            if self.front >= self.back {
                proof {
                    assert(self.remaining().len() == 0);
                }
                return None;
            }
            let i = self.front;
            let ghost prev = self.slots@;
            proof {
                lemma_window_front(states(prev), i as int, self.back as int);
                lemma_live_len_le(states(prev).subrange(i as int + 1, self.back as int));
            }
            let mut taken = Slot::Retired;
            core::mem::swap(&mut taken, &mut self.slots[i]);
            self.front = i + 1;
            proof {
                assert(taken == prev[i as int]);
                assert(states(self.slots@).subrange(self.front as int, self.back as int)
                    =~= states(prev).subrange(self.front as int, self.back as int));
                assert(states(prev)[i as int] == taken.state());
            }
            match taken {
                Slot::Occupied { value, .. } => {
                    proof {
                        assert(old(self).remaining() == seq![value] + self.remaining());
                        assert(old(self).remaining()[0] == value);
                        assert(old(self).remaining().drop_first() =~= self.remaining());
                    }
                    return Some(value);
                },
                _ => {
                    proof {
                        assert(slot_live(states(prev)[i as int]) =~= Seq::<T>::empty());
                        assert(self.remaining() =~= old(self).remaining());
                    }
                    self.free_remaining = self.free_remaining - 1;
                },
            }
        }
    }

    /// The next live value from the back, moved out of its slot; absence
    /// once the window is exhausted, and forever after.
    pub fn next_back(&mut self) -> (r: Option<T>)
        requires
            old(self).wf(),
        ensures
            final(self).wf(),
            old(self).remaining().len() == 0 ==> r is None && final(self).remaining()
                == old(self).remaining(),
            old(self).remaining().len() > 0 ==> r == Some(old(self).remaining().last()) && final(self).remaining() == old(self).remaining().drop_last(),
    {
        loop
            invariant
                self.wf(),
                self.front == old(self).front,
                self.remaining() == old(self).remaining(),
            decreases self.back - self.front,
        {
            if self.front >= self.back {
                proof {
                    assert(self.remaining().len() == 0);
                }
                return None;
            }
            let j = self.back - 1;
            let ghost prev = self.slots@;
            proof {
                lemma_window_back(states(prev), self.front as int, self.back as int);
                lemma_live_len_le(states(prev).subrange(self.front as int, j as int));
            }
            let mut taken = Slot::Retired;
            core::mem::swap(&mut taken, &mut self.slots[j]);
            self.back = j;
            proof {
                assert(taken == prev[j as int]);
                assert(states(self.slots@).subrange(self.front as int, self.back as int)
                    =~= states(prev).subrange(self.front as int, self.back as int));
                assert(states(prev)[j as int] == taken.state());
            }
            match taken {
                Slot::Occupied { value, .. } => {
                    proof {
                        assert(old(self).remaining() == self.remaining() + seq![value]);
                        assert(old(self).remaining().last() == value);
                        assert(old(self).remaining().drop_last() =~= self.remaining());
                    }
                    return Some(value);
                },
                _ => {
                    proof {
                        assert(slot_live(states(prev)[j as int]) =~= Seq::<T>::empty());
                        assert(self.remaining() =~= old(self).remaining());
                    }
                    self.free_remaining = self.free_remaining - 1;
                },
            }
        }
    }

    /// The exact number of live values still to be yielded, as both the
    /// lower and the upper bound.
    pub fn size_hint(&self) -> (r: (usize, Option<usize>))
        requires
            self.wf(),
        ensures
            r.0 == self.remaining().len(),
            r.1 == Some(r.0),
    {
        let n = (self.back - self.front) - self.free_remaining as usize;
        (n, Some(n))
    }
}

/// A double-ended, exact-size traversal cursor for exclusive access to the
/// live values of an arena. The cursor holds no borrow of its own; each step
/// takes the arena again and yields a mutable reference into it. Only the
/// values yielded can change through those references: every slot status,
/// every handle's validity and the free list stay as they are.
pub struct IterMut {
    pub(crate) front: usize,
    pub(crate) back: usize,
    pub(crate) free_remaining: u32,
}

impl IterMut {
    /// The live values not yet yielded, in storage order, read off the
    /// given arena state.
    pub closed spec fn remaining_in<T>(self, v: crate::model::ArenaView<T>) -> Seq<T> {
        live_values(v.slots.subrange(self.front as int, self.back as int))
    }

    /// How many live values the front end has already passed; the next
    /// front value sits at this index of the arena's live sequence.
    pub closed spec fn passed_front<T>(self, v: crate::model::ArenaView<T>) -> nat {
        live_values(v.slots.subrange(0, self.front as int)).len()
    }

    /// Cursor sanity against an arena state: the window lies inside the
    /// storage and `free_remaining` counts exactly the window's non-live
    /// slots.
    pub closed spec fn wf_for<T>(self, v: crate::model::ArenaView<T>) -> bool {
        &&& self.front <= self.back <= v.slots.len()
        &&& self.free_remaining as int == (self.back - self.front) - self.remaining_in(v).len()
        &&& self.remaining_in(v).len() <= self.back - self.front
    }

    /// Within the crate, the cursor's spec functions are these definitions.
    pub(crate) proof fn defs<T>(self, v: crate::model::ArenaView<T>)
        ensures
            self.remaining_in(v) == live_values(
                v.slots.subrange(self.front as int, self.back as int),
            ),
            self.passed_front(v) == live_values(v.slots.subrange(0, self.front as int)).len(),
            self.wf_for(v) <==> (self.front <= self.back <= v.slots.len()
                && self.free_remaining as int == (self.back - self.front) - self.remaining_in(
                v,
            ).len() && self.remaining_in(v).len() <= self.back - self.front),
    {
    }

    /// Exclusive access to the next live value from the front, skipping
    /// non-live slots; absence once the window is exhausted, and forever
    /// after. Writing through the reference changes exactly that one value
    /// of the arena, at its place in the live sequence.
    pub fn next<'a, T>(&mut self, arena: &'a mut Arena<T>) -> (r: Option<&'a mut T>)
        requires
            old(arena).wf(),
            old(self).wf_for(old(arena)@),
        ensures
            final(arena).wf(),
            final(self).wf_for(final(arena)@),
            final(arena)@.free_list == old(arena)@.free_list,
            final(arena)@.num_slots() == old(arena)@.num_slots(),
            final(arena)@.num_live() == old(arena)@.num_live(),
            forall|h2: crate::handle::Idx|
                #[trigger] final(arena)@.valid(h2) <==> old(arena)@.valid(h2),
            forall|h2: crate::handle::Idx|
                #[trigger] final(arena)@.dead(h2) <==> old(arena)@.dead(h2),
            old(self).remaining_in(old(arena)@).len() == 0 ==> r is None && *final(arena) == *old(arena) && final(self).remaining_in(final(arena)@) == old(self).remaining_in(old(arena)@)
                && final(self).passed_front(final(arena)@) == old(self).passed_front(old(arena)@),
            old(self).remaining_in(old(arena)@).len() > 0 ==> r is Some && *r.unwrap() == old(self).remaining_in(old(arena)@)[0] && final(self).remaining_in(final(arena)@) == old(self).remaining_in(old(arena)@).drop_first() && final(arena)@.live_seq() == old(arena)@.live_seq().update(
                old(self).passed_front(old(arena)@) as int,
                *final(r.unwrap()),
            ) && final(self).passed_front(final(arena)@) == old(self).passed_front(old(arena)@)
                + 1,
    {
        loop
            invariant
                arena.wf(),
                *arena == *old(arena),
                self.back == old(self).back,
                self.wf_for(arena@),
                self.remaining_in(arena@) == old(self).remaining_in(old(arena)@),
                self.passed_front(arena@) == old(self).passed_front(old(arena)@),
            decreases self.back - self.front,
        {
            if self.front >= self.back {
                proof {
                    assert(self.remaining_in(arena@).len() == 0);
                }
                return None;
            }
            let i = self.front;
            let ghost prev = arena@;
            proof {
                lemma_window_front(prev.slots, i as int, self.back as int);
                lemma_live_len_le(prev.slots.subrange(i as int + 1, self.back as int));
            }
            if arena.is_live_at(i) {
                let ghost g = prev.slots[i as int]->Live_generation;
                let ghost v0 = prev.slots[i as int]->Live_value;
                proof {
                    arena.lemma_wf_inv();
                    assert(prev.slots.len() <= u32::MAX as int);
                    assert((i as u32) as int == i as int);
                    assert(prev.valid(crate::handle::Idx { index: i as u32, generation: g }));
                    crate::model::lemma_live_values_split(prev.slots, i as int);
                    lemma_window_back(prev.slots, 0, i as int + 1);
                }
                self.front = i + 1;
                let m = arena.live_value_mut(i);
                proof {
                    let x = *final(m);
                    let post = after_borrow(*arena);
                    assert(post@.slots == prev.slots.update(
                        i as int,
                        SlotState::Live { generation: g, value: x },
                    ));
                    assert(post@.free_list == prev.free_list);
                    crate::model::lemma_live_values_update(
                        prev.slots,
                        i as int,
                        SlotState::Live { generation: g, value: x },
                    );
                    crate::model::lemma_value_update_preserves_validity(
                        prev,
                        post@,
                        crate::handle::Idx { index: i as u32, generation: g },
                        x,
                    );
                    assert(post@.slots.subrange(self.front as int, self.back as int)
                        =~= prev.slots.subrange(self.front as int, self.back as int));
                    assert(self.remaining_in(post@) == old(self).remaining_in(old(arena)@)
                        .drop_first()) by {
                        assert(old(self).remaining_in(old(arena)@) == seq![v0]
                            + self.remaining_in(post@));
                        assert((seq![v0] + self.remaining_in(post@)).drop_first()
                            =~= self.remaining_in(post@));
                    }
                    assert(post@.slots.subrange(0, i as int) =~= prev.slots.subrange(0, i as int));
                    lemma_window_back(post@.slots, 0, i as int + 1);
                    assert(self.passed_front(post@) == old(self).passed_front(old(arena)@) + 1);
                    assert(post@.live_seq() =~= prev.live_seq().update(
                        old(self).passed_front(old(arena)@) as int,
                        x,
                    )) by {
                        assert(post@.slots.subrange(i as int + 1, post@.slots.len() as int)
                            =~= prev.slots.subrange(i as int + 1, prev.slots.len() as int));
                    }
                }
                return Some(m);
            } else {
                proof {
                    assert(slot_live(prev.slots[i as int]) =~= Seq::<T>::empty());
                    lemma_window_back(prev.slots, 0, i as int + 1);
                }
                self.front = i + 1;
                self.free_remaining = self.free_remaining - 1;
                proof {
                    assert(self.remaining_in(arena@) =~= old(self).remaining_in(old(arena)@));
                }
            }
        }
    }

    /// Exclusive access to the next live value from the back, skipping
    /// non-live slots; absence once the window is exhausted, and forever
    /// after. Writing through the reference changes exactly that one value
    /// of the arena, at its place in the live sequence.
    pub fn next_back<'a, T>(&mut self, arena: &'a mut Arena<T>) -> (r: Option<&'a mut T>)
        requires
            old(arena).wf(),
            old(self).wf_for(old(arena)@),
        ensures
            final(arena).wf(),
            final(self).wf_for(final(arena)@),
            final(arena)@.free_list == old(arena)@.free_list,
            final(arena)@.num_slots() == old(arena)@.num_slots(),
            final(arena)@.num_live() == old(arena)@.num_live(),
            forall|h2: crate::handle::Idx|
                #[trigger] final(arena)@.valid(h2) <==> old(arena)@.valid(h2),
            forall|h2: crate::handle::Idx|
                #[trigger] final(arena)@.dead(h2) <==> old(arena)@.dead(h2),
            final(self).passed_front(final(arena)@) == old(self).passed_front(old(arena)@),
            old(self).remaining_in(old(arena)@).len() == 0 ==> r is None && *final(arena) == *old(
                arena,
            ) && final(self).remaining_in(final(arena)@) == old(self).remaining_in(old(arena)@),
            old(self).remaining_in(old(arena)@).len() > 0 ==> r is Some && *r.unwrap() == old(
                self,
            ).remaining_in(old(arena)@).last() && final(self).remaining_in(final(arena)@) == old(
                self,
            ).remaining_in(old(arena)@).drop_last() && final(arena)@.live_seq() == old(
                arena,
            )@.live_seq().update(
                old(self).passed_front(old(arena)@) + old(self).remaining_in(old(arena)@).len()
                    - 1,
                *final(r.unwrap()),
            ),
    {
        loop
            invariant
                arena.wf(),
                *arena == *old(arena),
                self.front == old(self).front,
                self.wf_for(arena@),
                self.remaining_in(arena@) == old(self).remaining_in(old(arena)@),
                self.passed_front(arena@) == old(self).passed_front(old(arena)@),
            decreases self.back - self.front,
        {
            if self.front >= self.back {
                proof {
                    assert(self.remaining_in(arena@).len() == 0);
                }
                return None;
            }
            let j = self.back - 1;
            let ghost prev = arena@;
            proof {
                lemma_window_back(prev.slots, self.front as int, self.back as int);
                lemma_live_len_le(prev.slots.subrange(self.front as int, j as int));
            }
            if arena.is_live_at(j) {
                let ghost g = prev.slots[j as int]->Live_generation;
                let ghost v0 = prev.slots[j as int]->Live_value;
                proof {
                    arena.lemma_wf_inv();
                    assert(prev.slots.len() <= u32::MAX as int);
                    assert((j as u32) as int == j as int);
                    assert(prev.valid(crate::handle::Idx { index: j as u32, generation: g }));
                    crate::model::lemma_live_values_split(prev.slots, j as int);
                    assert(prev.slots.subrange(0, j as int) =~= prev.slots.subrange(
                        0,
                        self.front as int,
                    ) + prev.slots.subrange(self.front as int, j as int));
                    crate::model::lemma_live_values_add(
                        prev.slots.subrange(0, self.front as int),
                        prev.slots.subrange(self.front as int, j as int),
                    );
                }
                self.back = j;
                let m = arena.live_value_mut(j);
                proof {
                    let x = *final(m);
                    let post = after_borrow(*arena);
                    assert(post@.slots == prev.slots.update(
                        j as int,
                        SlotState::Live { generation: g, value: x },
                    ));
                    assert(post@.free_list == prev.free_list);
                    crate::model::lemma_live_values_update(
                        prev.slots,
                        j as int,
                        SlotState::Live { generation: g, value: x },
                    );
                    crate::model::lemma_value_update_preserves_validity(
                        prev,
                        post@,
                        crate::handle::Idx { index: j as u32, generation: g },
                        x,
                    );
                    assert(post@.slots.subrange(self.front as int, self.back as int)
                        =~= prev.slots.subrange(self.front as int, self.back as int));
                    assert(self.remaining_in(post@) == old(self).remaining_in(old(arena)@)
                        .drop_last()) by {
                        assert(old(self).remaining_in(old(arena)@) == self.remaining_in(post@)
                            + seq![v0]);
                        assert((self.remaining_in(post@) + seq![v0]).drop_last()
                            =~= self.remaining_in(post@));
                    }
                    assert(post@.slots.subrange(0, self.front as int) =~= prev.slots.subrange(
                        0,
                        self.front as int,
                    ));
                    assert(self.passed_front(post@) == old(self).passed_front(old(arena)@));
                    assert(post@.live_seq() =~= prev.live_seq().update(
                        old(self).passed_front(old(arena)@) + old(self).remaining_in(
                            old(arena)@,
                        ).len() - 1,
                        x,
                    )) by {
                        assert(post@.slots.subrange(j as int + 1, post@.slots.len() as int)
                            =~= prev.slots.subrange(j as int + 1, prev.slots.len() as int));
                    }
                }
                return Some(m);
            } else {
                proof {
                    assert(slot_live(prev.slots[j as int]) =~= Seq::<T>::empty());
                }
                self.back = j;
                self.free_remaining = self.free_remaining - 1;
                proof {
                    assert(self.remaining_in(arena@) =~= old(self).remaining_in(old(arena)@));
                }
            }
        }
    }

    /// The exact number of live values still to be yielded, as both the
    /// lower and the upper bound.
    pub fn size_hint<T>(&self, arena: &Arena<T>) -> (r: (usize, Option<usize>))
        requires
            self.wf_for(arena@),
        ensures
            r.0 == self.remaining_in(arena@).len(),
            r.1 == Some(r.0),
    {
        let n = (self.back - self.front) - self.free_remaining as usize;
        (n, Some(n))
    }
}

} // verus!
