//! Plain entity components shared with the game runtime. Only the ones
//! carrying plain data live here; transform and camera components carry
//! floating-point linear algebra and stay with the host program.

use vstd::prelude::*;

verus! {

/// Which world an entity belongs to.
pub enum Dimension {
    /// The imagined world inside the player's head.
    InnerWorld,
    /// The physical game world: shared reality.
    OuterWorld,
}

/// Marks an entity as the child of another; the parent's transform applies
/// first.
#[derive(Clone, Copy, Debug)]
pub struct Parent {}

/// Component that hides entities.
pub struct Hidden;

/// A renderable sprite: a position in the global sprite sheet.
pub struct Sprite {
    sprite_index: usize,
}

impl Sprite {
    /// The sheet position this sprite draws.
    pub closed spec fn spec_index(self) -> int {
        self.sprite_index as int
    }

    /// A sprite drawing the sheet entry at `sprite_index`.
    pub fn new(sprite_index: usize) -> (r: Sprite)
        ensures
            r.spec_index() == sprite_index,
    {
        Sprite { sprite_index }
    }

    /// The sheet position this sprite draws.
    pub fn index(&self) -> (r: usize)
        ensures
            r == self.spec_index(),
    {
        self.sprite_index
    }
}

} // verus!
