//! A generational arena: a growable container that hands out stable,
//! copyable handles for the values stored in it. A handle stays usable as a
//! lookup key until its value is removed; after removal the slot can be
//! reused for a new value without the stale handle ever matching again,
//! because every reuse bumps the slot's generation tag.

mod handle;
mod model;
mod arena;
mod iter;
mod laws;

pub use handle::Idx;
pub use model::{SlotState, ArenaView, live_values, slot_live, insert_transition, remove_transition};
pub use arena::Arena;
pub use iter::{Iter, IterMut, IntoIter};
pub use laws::{
    lemma_insert_round_trip, lemma_remove_invalidates, lemma_dead_not_valid,
    lemma_no_resurrection, lemma_remove_keeps_dead, lemma_len_counts_valid_handles,
};
