//! What the physics asks of a world.
use vstd::prelude::*;

verus! {

/// A world that bodies collide with: whether it holds any block, and whether
/// the block at a place is solid.
pub trait CollisionWorld {
    fn is_empty(&self) -> bool;

    fn is_block_solid(&self, x: i32, y: i32, z: i32) -> bool;
}

} // verus!
