//! Entities and their per-entity state. An entity is an opaque,
//! monotonically increasing identifier; id 0 is reserved for the player.
//! Identifiers are never reused within a level, and a lookup against a
//! destroyed identifier resolves to "absent" everywhere.

use crate::cards::{CardState, Modification};
use crate::grid::Position;
use vstd::prelude::*;

verus! {

/// The entity id reserved for the player.
pub const PLAYER: usize = 0;

#[derive(PartialEq, Eq, Structural, Copy, Clone, Debug)]
pub enum EntityType {
    UnknownThing,
    Player,
    Defender,
    Hunter,
    Reaper,
}

impl EntityType {
    pub open spec fn spec_render(self) -> char {
        match self {
            EntityType::UnknownThing => '?',
            EntityType::Player => '@',
            EntityType::Defender => 'd',
            EntityType::Hunter => 'h',
            EntityType::Reaper => 'r',
        }
    }

    /// The glyph character for this entity type.
    pub fn render(self) -> (c: char)
        ensures
            c == self.spec_render(),
    {
        match self {
            EntityType::UnknownThing => '?',
            EntityType::Player => '@',
            EntityType::Defender => 'd',
            EntityType::Hunter => 'h',
            EntityType::Reaper => 'r',
        }
    }
}

/// One entity's whole state: its type, its position on the grid (absent
/// while unplaced), the last known target it walks toward, its ordered
/// deck of cards, and its passive modifications.
pub struct EntityRec {
    pub typ: EntityType,
    pub pos: Option<Position>,
    pub goal: Option<Position>,
    pub deck: Vec<CardState>,
    pub mods: Vec<Modification>,
}

} // verus!
