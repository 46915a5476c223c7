use vstd::prelude::*;
use crate::block::{Block, BlockHeat, BlockKind, BlockSize, SupportState, BLOCK_MAX_HEAT};
use crate::geometry::{Aabb, Position, Rect, rect_around, COORD_LIMIT};

verus! {

/// Width of the standard play field.
pub const SCREEN_WIDTH: i64 = 1000;

/// Height of the standard play field.
pub const SCREEN_HEIGHT: i64 = 1000;

/// Largest width or height of a play field.
pub const FIELD_LIMIT: i64 = 4_294_967_296;

/// Width of a laser's box.
pub const LASER_WIDTH: i64 = 70;

/// Height of a laser's box.
pub const LASER_HEIGHT: i64 = 8;

/// How far a laser moves to the right in one tick.
pub const LASER_STEP: i64 = 25;

/// The size of the play field, centred on the origin.
#[derive(Clone, Copy, Debug, PartialEq, Eq, Structural)]
pub struct WinSize {
    pub w: i64,
    pub h: i64,
}

impl WinSize {
    /// Both extents are positive and even, so that the field's edges and the
    /// centres of its grid cells lie on whole units.
    pub open spec fn wf(self) -> bool {
        0 < self.w <= FIELD_LIMIT && 0 < self.h <= FIELD_LIMIT && self.w % 2 == 0 && self.h % 2
            == 0
    }
}

/// A laser shot: it moves right at a constant speed and is spent on its first hit.
#[derive(Clone, Copy, Debug, PartialEq, Eq, Structural)]
pub struct Laser {
    pub id: u64,
    pub pos: Position,
}

impl Laser {
    pub open spec fn rect(self) -> Rect {
        rect_around(self.pos, LASER_WIDTH as int, LASER_HEIGHT as int)
    }

    pub fn aabb(&self) -> (r: Aabb)
        requires
            self.pos.in_bounds(COORD_LIMIT as int),
        ensures
            r@ == self.rect(),
    {
        Aabb::around(self.pos, LASER_WIDTH, LASER_HEIGHT)
    }
}

/// The mathematical state of a `World`.
pub struct Terrain {
    pub blocks: Seq<Block>,
    pub lasers: Seq<Laser>,
    pub next_id: int,
    pub field: WinSize,
}

/// Every block lies within its bound, is below the destruction threshold and
/// has an id that was handed out already.
pub open spec fn blocks_ok(bs: Seq<Block>, next_id: int) -> bool {
    forall|i: int|
        0 <= i < bs.len() ==> {
            &&& (#[trigger] bs[i]).in_bounds()
            &&& bs[i].heat.0 < BLOCK_MAX_HEAT
            &&& bs[i].id < next_id
        }
}

pub open spec fn block_ids_distinct(bs: Seq<Block>) -> bool {
    forall|i: int, j: int| 0 <= i < bs.len() && 0 <= j < bs.len() && i != j ==> #[trigger] bs[i].id != #[trigger] bs[j].id
}

pub open spec fn lasers_ok(ls: Seq<Laser>, next_id: int) -> bool {
    forall|i: int|
        0 <= i < ls.len() ==> {
            &&& (#[trigger] ls[i]).pos.in_bounds(COORD_LIMIT as int)
            &&& ls[i].id < next_id
        }
}

pub open spec fn laser_ids_distinct(ls: Seq<Laser>) -> bool {
    forall|i: int, j: int| 0 <= i < ls.len() && 0 <= j < ls.len() && i != j ==> #[trigger] ls[i].id != #[trigger] ls[j].id
}

/// No laser shares an id with a block.
pub open spec fn ids_apart(bs: Seq<Block>, ls: Seq<Laser>) -> bool {
    forall|i: int, j: int| 0 <= i < bs.len() && 0 <= j < ls.len() ==> #[trigger] bs[i].id != #[trigger] ls[j].id
}

impl Terrain {
    pub open spec fn wf(self) -> bool {
        &&& self.field.wf()
        &&& 0 <= self.next_id <= u64::MAX
        &&& blocks_ok(self.blocks, self.next_id)
        &&& block_ids_distinct(self.blocks)
        &&& lasers_ok(self.lasers, self.next_id)
        &&& laser_ids_distinct(self.lasers)
        &&& ids_apart(self.blocks, self.lasers)
    }
}

/// Adding a block under the next id keeps a well-formed terrain well formed.
pub proof fn lemma_push_block(t: Terrain, b: Block)
    requires
        t.wf(),
        t.next_id < u64::MAX,
        b.id == t.next_id,
        b.in_bounds(),
        b.heat.0 < BLOCK_MAX_HEAT,
    ensures
        (Terrain { blocks: t.blocks.push(b), next_id: t.next_id + 1, ..t }).wf(),
{
    let bs = t.blocks.push(b);
    assert forall|i: int| 0 <= i < t.blocks.len() implies bs[i] == t.blocks[i] by {}
    assert(bs[t.blocks.len() as int] == b);
    assert forall|i: int, j: int| 0 <= i < bs.len() && 0 <= j < bs.len() && i != j implies #[trigger] bs[i].id != #[trigger] bs[j].id by {
        if i < t.blocks.len() && j < t.blocks.len() {
            assert(t.blocks[i].id != t.blocks[j].id);
        }
    }
    assert forall|i: int, j: int| 0 <= i < bs.len() && 0 <= j < t.lasers.len() implies #[trigger] bs[i].id != #[trigger] t.lasers[j].id by {
        if i < t.blocks.len() {
            assert(t.blocks[i].id != t.lasers[j].id);
        }
    }
}

/// Adding a laser under the next id keeps a well-formed terrain well formed.
pub proof fn lemma_push_laser(t: Terrain, l: Laser)
    requires
        t.wf(),
        t.next_id < u64::MAX,
        l.id == t.next_id,
        l.pos.in_bounds(COORD_LIMIT as int),
    ensures
        (Terrain { lasers: t.lasers.push(l), next_id: t.next_id + 1, ..t }).wf(),
{
    let ls = t.lasers.push(l);
    assert forall|i: int| 0 <= i < t.lasers.len() implies ls[i] == t.lasers[i] by {}
    assert(ls[t.lasers.len() as int] == l);
    assert forall|i: int, j: int| 0 <= i < ls.len() && 0 <= j < ls.len() && i != j implies #[trigger] ls[i].id != #[trigger] ls[j].id by {
        if i < t.lasers.len() && j < t.lasers.len() {
            assert(t.lasers[i].id != t.lasers[j].id);
        }
    }
    assert forall|i: int, j: int| 0 <= i < t.blocks.len() && 0 <= j < ls.len() implies #[trigger] t.blocks[i].id != #[trigger] ls[j].id by {
        if j < t.lasers.len() {
            assert(t.blocks[i].id != t.lasers[j].id);
        }
    }
}

/// Replacing the blocks by ones with the same ids, bounds and heat limit keeps
/// the terrain well formed.
pub proof fn lemma_same_ids(t: Terrain, bs: Seq<Block>)
    requires
        t.wf(),
        bs.len() == t.blocks.len(),
        forall|i: int| 0 <= i < bs.len() ==> {
            &&& (#[trigger] bs[i]).id == t.blocks[i].id
            &&& bs[i].in_bounds()
            &&& bs[i].heat.0 < BLOCK_MAX_HEAT
        },
    ensures
        (Terrain { blocks: bs, ..t }).wf(),
{
    assert forall|i: int, j: int| 0 <= i < bs.len() && 0 <= j < bs.len() && i != j implies #[trigger] bs[i].id != #[trigger] bs[j].id by {
        assert(t.blocks[i].id != t.blocks[j].id);
    }
    assert forall|i: int, j: int| 0 <= i < bs.len() && 0 <= j < t.lasers.len() implies #[trigger] bs[i].id != #[trigger] t.lasers[j].id by {
        assert(t.blocks[i].id != t.lasers[j].id);
    }
    assert forall|i: int| 0 <= i < bs.len() implies (#[trigger] bs[i]).id < t.next_id by {
        assert(t.blocks[i].id < t.next_id);
    }
}

/// The block registry: every live block and laser, each under a unique id.
pub struct World {
    pub blocks: Vec<Block>,
    pub lasers: Vec<Laser>,
    pub next_id: u64,
    pub field: WinSize,
}

impl View for World {
    type V = Terrain;

    open spec fn view(&self) -> Terrain {
        Terrain {
            blocks: self.blocks@,
            lasers: self.lasers@,
            next_id: self.next_id as int,
            field: self.field,
        }
    }
}

impl World {
    /// An empty world on the given field.
    pub fn new(field: WinSize) -> (r: World)
        requires
            field.wf(),
        ensures
            r@.wf(),
            r@.blocks.len() == 0,
            r@.lasers.len() == 0,
            r@.next_id == 0,
            r@.field == field,
    {
        World { blocks: Vec::new(), lasers: Vec::new(), next_id: 0, field }
    }

    /// Adds a block at base heat under a fresh id, which it returns.
    pub fn spawn_block(&mut self, pos: Position, size: BlockSize, kind: BlockKind, support: SupportState) -> (id: u64)
        requires
            old(self)@.wf(),
            old(self).next_id < u64::MAX,
            pos.in_bounds(size.limit()),
        ensures
            final(self)@.wf(),
            id == old(self).next_id,
            final(self)@ == (Terrain {
                blocks: old(self)@.blocks.push(Block { id, pos, size, heat: BlockHeat(1000), support, kind }),
                next_id: old(self)@.next_id + 1,
                ..old(self)@
            }),
    {
        let id = self.next_id;
        self.blocks.push(Block { id, pos, size, heat: BlockHeat::new(), support, kind });
        self.next_id = id + 1;
        proof {
            lemma_push_block(old(self)@, Block { id, pos, size, heat: BlockHeat(1000), support, kind });
        }
        id
    }

    /// Adds a laser under a fresh id, which it returns.
    pub fn spawn_laser(&mut self, pos: Position) -> (id: u64)
        requires
            old(self)@.wf(),
            old(self).next_id < u64::MAX,
            pos.in_bounds(COORD_LIMIT as int),
        ensures
            final(self)@.wf(),
            id == old(self).next_id,
            final(self)@ == (Terrain {
                lasers: old(self)@.lasers.push(Laser { id, pos }),
                next_id: old(self)@.next_id + 1,
                ..old(self)@
            }),
    {
        let id = self.next_id;
        self.lasers.push(Laser { id, pos });
        self.next_id = id + 1;
        proof {
            lemma_push_laser(old(self)@, Laser { id, pos });
        }
        id
    }
}

} // verus!
