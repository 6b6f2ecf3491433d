use vstd::prelude::*;

verus! {

/// A stable, copyable key into an [`crate::Arena`]: the position of a slot
/// together with the generation tag the slot carried when the value was
/// stored. Handles are plain data; they grant no access by themselves, and
/// only an arena can resolve one. A handle made up out of thin air is
/// harmless: every operation checks it before touching a value.
#[derive(Copy, Clone, Debug, PartialEq, Eq, Hash, Structural)]
pub struct Idx {
    pub index: u32,
    pub generation: u32,
}

impl Idx {
    /// The slot position this handle points at.
    pub open spec fn spec_position(self) -> u32 {
        self.index
    }

    /// The generation tag this handle carries.
    pub open spec fn spec_generation(self) -> u32 {
        self.generation
    }

    /// The slot position this handle points at.
    #[verifier::when_used_as_spec(spec_position)]
    pub fn position(self) -> (r: u32)
        ensures
            r == self.spec_position(),
    {
        self.index
    }

    /// The generation tag this handle carries.
    #[verifier::when_used_as_spec(spec_generation)]
    pub fn generation(self) -> (r: u32)
        ensures
            r == self.spec_generation(),
    {
        self.generation
    }

    /// Two handles are equal exactly when both their position and their
    /// generation agree.
    pub proof fn lemma_handle_eq(a: Idx, b: Idx)
        ensures
            a == b <==> (a.spec_position() == b.spec_position() && a.spec_generation()
                == b.spec_generation()),
    {
    }
}

} // verus!
