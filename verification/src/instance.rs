//! Placements inside a room: an item or ending at a position, and exits
//! with their optional transition and dialogue.

use crate::exit::{Exit, Transition};
use crate::position::Position;
use vstd::prelude::*;

verus! {

/// An item or ending placed at a position in a room; `id` names the item or
/// ending.
#[derive(Clone, Debug, PartialEq, Eq)]
pub struct Instance {
    pub position: Position,
    pub id: String,
}

/// An exit placed at a position in a room, optionally with a transition
/// effect and a dialogue reference.
#[derive(Clone, Debug, PartialEq, Eq)]
pub struct ExitInstance {
    pub position: Position,
    pub exit: Exit,
    pub transition: Option<Transition>,
    pub dialogue_id: Option<String>,
}

} // verus!
