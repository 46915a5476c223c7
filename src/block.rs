use vstd::prelude::*;
use crate::geometry::{Aabb, Position, Rect, rect_around, COORD_LIMIT};

verus! {

/// Heat a block starts with.
pub const BASE_HEAT: u32 = 1000;

/// Heat that one laser hit adds.
pub const LASER_HEAT: u32 = 1000;

/// A block whose heat reaches this value is destroyed.
pub const BLOCK_MAX_HEAT: u32 = 3000;

/// Edge of a large block.
pub const LARGE_EDGE: i64 = 64;

/// Edge of a medium block.
pub const MEDIUM_EDGE: i64 = 16;

/// How far a large block's centre may lie from the origin; rubble spawned from
/// it then still lies within `COORD_LIMIT`.
pub const LARGE_LIMIT: i64 = 1_099_511_627_712;

/// The size class of a block.
#[derive(Clone, Copy, Debug, PartialEq, Eq, Structural)]
pub enum BlockSize {
    Medium,
    Large,
}

impl BlockSize {
    pub open spec fn spec_edge(self) -> int {
        match self {
            BlockSize::Medium => MEDIUM_EDGE as int,
            BlockSize::Large => LARGE_EDGE as int,
        }
    }

    /// How far from the origin a block of this size may lie.
    pub open spec fn limit(self) -> int {
        match self {
            BlockSize::Medium => COORD_LIMIT as int,
            BlockSize::Large => LARGE_LIMIT as int,
        }
    }

    /// The edge length of the block's square.
    pub fn edge(&self) -> (r: i64)
        ensures
            r == self.spec_edge(),
    {
        match self {
            BlockSize::Medium => MEDIUM_EDGE,
            BlockSize::Large => LARGE_EDGE,
        }
    }
}

/// Where a block stands with respect to gravity.
#[derive(Clone, Copy, Debug, PartialEq, Eq, Structural)]
pub enum SupportState {
    /// At rest.
    Supported,
    /// Waiting for the support scan to decide whether it rests.
    Unsupported,
    /// Moving down one unit per tick.
    Falling,
}

/// What a block is made of; it only decides how the block is drawn.
#[derive(Clone, Copy, Debug, PartialEq, Eq, Structural)]
pub enum BlockKind {
    /// Plain structure, from `#` in the map, and all rubble.
    Structure,
    /// A support beam, from `S` in the map.
    Beam,
}

/// The accumulated heat of a block.
#[derive(Clone, Copy, Debug, PartialEq, Eq, Structural)]
pub struct BlockHeat(pub u32);

impl BlockHeat {
    /// The heat of a fresh block.
    pub fn new() -> (r: BlockHeat)
        ensures
            r.0 == BASE_HEAT,
    {
        BlockHeat(BASE_HEAT)
    }
}

/// One terrain block.
#[derive(Clone, Copy, Debug, PartialEq, Eq, Structural)]
pub struct Block {
    pub id: u64,
    pub pos: Position,
    pub size: BlockSize,
    pub heat: BlockHeat,
    pub support: SupportState,
    pub kind: BlockKind,
}

impl Block {
    /// The block's coordinates are within the bound of its size class.
    pub open spec fn in_bounds(self) -> bool {
        self.pos.in_bounds(self.size.limit())
    }

    /// The square the block occupies.
    pub open spec fn rect(self) -> Rect {
        rect_around(self.pos, self.size.spec_edge(), self.size.spec_edge())
    }

    pub fn aabb(&self) -> (r: Aabb)
        requires
            self.in_bounds(),
        ensures
            r@ == self.rect(),
    {
        let e = self.size.edge();
        Aabb::around(self.pos, e, e)
    }
}

} // verus!
