//! Formation logic for item collectors.
//!
//! A collector is an entity that magnetically holds a bounded set of items in
//! a geometric formation around itself and can later launch them. This crate
//! holds the formation geometry (the point distribution), the collector's
//! bookkeeping, the held/thrown lifecycle state machine with its physics side
//! effects, and the spine chain that bends a flat formation along a winding
//! owner. All lengths are fixed-point thousandths of a world unit and all
//! angles are thousandths of a degree, so that every rule is exact integer
//! arithmetic.

use vstd::prelude::*;

pub mod angle;
pub mod arena;
pub mod builds;
pub mod collector;
pub mod distribution;
pub mod items;
pub mod spine;

verus! {

/// Whether the simulation advances or stands still.
#[derive(Debug, Clone, Copy, PartialEq, Eq, Structural)]
pub enum GameState {
    Running,
    Pause,
}

/// The collision layers objects live on, one bit each.
#[derive(Debug, Clone, Copy, PartialEq, Eq, Structural)]
pub enum ObjectLayer {
    Player,
    Enemy,
    Terrain,
    Bullet,
    Collectible,
    Collector,
}

/// The single mask bit of a collision layer.
pub open spec fn layer_mask(layer: ObjectLayer) -> u32 {
    match layer {
        ObjectLayer::Player => 1u32,
        ObjectLayer::Enemy => 2u32,
        ObjectLayer::Terrain => 4u32,
        ObjectLayer::Bullet => 8u32,
        ObjectLayer::Collectible => 16u32,
        ObjectLayer::Collector => 32u32,
    }
}

impl ObjectLayer {
    /// The single mask bit of this layer.
    pub fn mask(self) -> (r: u32)
        ensures
            r == layer_mask(self),
    {
        match self {
            ObjectLayer::Player => 1,
            ObjectLayer::Enemy => 2,
            ObjectLayer::Terrain => 4,
            ObjectLayer::Bullet => 8,
            ObjectLayer::Collectible => 16,
            ObjectLayer::Collector => 32,
        }
    }
}

/// The next state after a pause toggle: running and paused alternate.
pub fn toggle_pause(state: GameState) -> (r: GameState)
    ensures
        state is Running ==> r is Pause,
        state is Pause ==> r is Running,
{
    match state {
        GameState::Running => GameState::Pause,
        GameState::Pause => GameState::Running,
    }
}

} // verus!
