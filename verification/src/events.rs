//! Notifications the core hands to the presentation boundary, in the order
//! they were produced within a tick.

use vstd::prelude::*;

use crate::board::{Form, Point};

verus! {

/// A fire-and-forget notification for the presentation layer. The core only
/// hands presentation handles back; it never inspects them.
#[derive(Clone, Copy, PartialEq, Eq, Structural, Debug)]
pub enum GameEvent {
    /// A tile came into existence (at setup or refill).
    TileCreated { entity: u64, select_area_entity: u64, form: Form, pos: Point },
    /// A tile was destroyed by match resolution.
    TileDestroyed { entity: u64 },
    /// A tile's motion state became `Moving` toward `target`.
    TileMoveTarget { entity: u64, target: Point },
    /// The selection highlight of a tile was shown or hidden.
    SelectionHighlight { entity: u64, select_area_entity: u64, visible: bool, scale: i64 },
    /// The score counter changed.
    ScoreChanged { score: u64 },
}

} // verus!
