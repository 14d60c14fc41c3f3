//! Button state tracking: the four-state machine a mouse or key button moves
//! through, with the per-frame settling step.

use vstd::prelude::*;

verus! {

/// The state of a button.  `Pressed` and `Released` are the one-frame edge
/// states; `settle` turns them into the level states `Down` and `Up` at the
/// end of a frame.
#[derive(Copy, Clone, PartialEq, Eq, Structural, Debug)]
pub enum ButtonState {
    Up,
    Pressed,
    Released,
    Down,
}

/// What the end-of-frame settling step yields.
pub open spec fn spec_settle(s: ButtonState) -> ButtonState {
    match s {
        ButtonState::Pressed => ButtonState::Down,
        ButtonState::Released => ButtonState::Up,
        other => other,
    }
}

/// Whether a state counts as held.
pub open spec fn spec_is_down(s: ButtonState) -> bool {
    s == ButtonState::Pressed || s == ButtonState::Down
}

impl ButtonState {
    /// The state a fresh button starts in.
    pub fn new() -> (r: ButtonState)
        ensures
            r == ButtonState::Up,
    {
        ButtonState::Up
    }

    /// Whether the button counts as held: the edge state `Pressed` and the
    /// level state `Down` do, the other two do not.
    pub fn is_down(self) -> (r: bool)
        ensures
            r == spec_is_down(self),
    {
        match self {
            ButtonState::Up => false,
            ButtonState::Pressed => true,
            ButtonState::Released => false,
            ButtonState::Down => true,
        }
    }

    /// The end-of-frame settling step: a press edge becomes `Down`, a
    /// release edge becomes `Up`, level states stay.
    pub fn settle(self) -> (r: ButtonState)
        ensures
            r == spec_settle(self),
            r == ButtonState::Up || r == ButtonState::Down,
    {
        match self {
            ButtonState::Pressed => ButtonState::Down,
            ButtonState::Released => ButtonState::Up,
            other => other,
        }
    }
}

/// Settling never changes whether the button counts as held, and settling
/// twice is the same as settling once.
pub proof fn lemma_settle_keeps_down(s: ButtonState)
    ensures
        spec_is_down(spec_settle(s)) == spec_is_down(s),
        spec_settle(spec_settle(s)) == spec_settle(s),
{
}

impl Default for ButtonState {
    fn default() -> (r: Self)
        ensures
            r == ButtonState::Up,
    {
        ButtonState::Up
    }
}

} // verus!
