//! The state of the colour pick: the player's colour is taken from the first
//! coloured collider that the player touches, and kept from then on.

use vstd::prelude::*;

verus! {

/// Whether the player's colour is still to be picked.
#[derive(Clone, Copy, Debug, PartialEq, Eq, Structural)]
pub enum ColorPickState {
    Picking,
    Picked,
}

impl Default for ColorPickState {
    /// The state in which every pick starts.
    fn default() -> (state: Self)
        ensures
            state == ColorPickState::Picking,
    {
        ColorPickState::Picking
    }
}

impl ColorPickState {

    /// The state after a tick in which the player did or did not touch a coloured
    /// collider. Once picked, the colour stays picked.
    pub fn after_tick(self, touched_colored: bool) -> (next: Self)
        ensures
            next == if touched_colored {
                ColorPickState::Picked
            } else {
                self
            },
    {
        if touched_colored {
            ColorPickState::Picked
        } else {
            self
        }
    }

    /// Tells whether a contact with a coloured collider is still acted on.
    pub fn is_picking(self) -> (picking: bool)
        ensures
            picking == (self == ColorPickState::Picking),
    {
        match self {
            ColorPickState::Picking => true,
            ColorPickState::Picked => false,
        }
    }
}

} // verus!
