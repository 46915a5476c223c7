use vstd::prelude::*;
use crate::block::{Block, SupportState};
use crate::geometry::{rects_overlap, Aabb, Position, Rect};
use crate::grid::GridIndex;
use crate::support::Unsupported;
use crate::world::{lemma_same_ids, Terrain, World};

verus! {

/// Some marker names the block with this id.
pub open spec fn is_marked(ms: Seq<Unsupported>, id: u64) -> bool {
    exists|k: int| 0 <= k < ms.len() && (#[trigger] ms[k]).id == id
}

/// The blocks with every marked block set falling.
pub open spec fn flag_falling(bs: Seq<Block>, ms: Seq<Unsupported>) -> Seq<Block> {
    Seq::new(
        bs.len(),
        |i: int|
            if is_marked(ms, bs[i].id) {
                Block { support: SupportState::Falling, ..bs[i] }
            } else {
                bs[i]
            },
    )
}

/// The box tested ahead of a falling block: its own box moved one unit down
/// and one unit left.
pub open spec fn descent_rect(b: Block) -> Rect {
    let e = b.size.spec_edge();
    Rect {
        min_x: 2 * (b.pos.x - 1) - e,
        max_x: 2 * (b.pos.x - 1) + e,
        min_y: 2 * (b.pos.y - 1) - e,
        max_y: 2 * (b.pos.y - 1) + e,
    }
}

/// The descent box of block `i` meets a block that is not falling.
pub open spec fn lands(bs: Seq<Block>, i: int) -> bool {
    exists|j: int|
        0 <= j < bs.len() && bs[j].support != SupportState::Falling && rects_overlap(descent_rect(bs[i]), #[trigger] bs[j].rect())
}

/// One more unit down would take the block's lower edge below the floor of a
/// field of height `h`.
pub open spec fn at_floor(b: Block, h: int) -> bool {
    2 * (b.pos.y - 1) - b.size.spec_edge() < -h
}

/// Block `i` after one settling step: a falling block that lands or stands on
/// the floor comes to rest, supported; any other falling block moves one unit
/// down; blocks that are not falling stay as they are.
pub open spec fn settled_block(bs: Seq<Block>, i: int, h: int) -> Block {
    let b = bs[i];
    if b.support == SupportState::Falling {
        if lands(bs, i) || at_floor(b, h) {
            Block { support: SupportState::Supported, ..b }
        } else {
            Block { pos: Position { x: b.pos.x, y: (b.pos.y - 1) as i64 }, ..b }
        }
    } else {
        b
    }
}

pub open spec fn fall_blocks(bs: Seq<Block>, h: int) -> Seq<Block> {
    Seq::new(bs.len(), |i: int| settled_block(bs, i, h))
}

/// The terrain after the markers are taken up and falling blocks move.
pub open spec fn after_settle(t: Terrain, ms: Seq<Unsupported>) -> Terrain {
    Terrain { blocks: fall_blocks(flag_falling(t.blocks, ms), t.field.h as int), ..t }
}

/// Whether some marker names `id`.
fn marked(markers: &Vec<Unsupported>, id: u64) -> (r: bool)
    ensures
        r == is_marked(markers@, id),
{
    let mut k: usize = 0;
    while k < markers.len()
        invariant
            k <= markers.len(),
            forall|m: int| 0 <= m < k ==> (#[trigger] markers@[m]).id != id,
        decreases markers.len() - k,
    {
        if markers[k].id == id {
            return true;
        }
        k = k + 1;
    }
    false
}

/// The settling pass. Every block named by a marker starts falling; the
/// markers are used up. Then each falling block tests the box one unit below
/// and left of it against the blocks that are not falling: on a hit, or at the
/// floor, it comes to rest and is supported; otherwise it moves one unit down.
pub fn block_falling_system(world: &mut World, markers: Vec<Unsupported>)
    requires
        old(world)@.wf(),
    ensures
        final(world)@ == after_settle(old(world)@, markers@),
        final(world)@.wf(),
        forall|i: int|
            0 <= i < old(world)@.blocks.len() && old(world)@.blocks[i].support == SupportState::Falling
                && !lands(flag_falling(old(world)@.blocks, markers@), i)
                && !at_floor(old(world)@.blocks[i], old(world).field.h as int)
                ==> #[trigger] final(world)@.blocks[i] == (Block {
                    pos: Position { x: old(world)@.blocks[i].pos.x, y: (old(world)@.blocks[i].pos.y - 1) as i64 },
                    ..old(world)@.blocks[i]
                }),
{
    let ghost t = world@;
    let h = world.field.h;
    let mut i: usize = 0;
    while i < world.blocks.len()
        invariant
            t.wf(),
            i <= world.blocks.len(),
            world@ == (Terrain { blocks: world@.blocks, ..t }),
            world.blocks.len() == t.blocks.len(),
            forall|k: int| 0 <= k < i ==> #[trigger] world.blocks@[k] == flag_falling(t.blocks, markers@)[k],
            forall|k: int| i <= k < world.blocks.len() ==> #[trigger] world.blocks@[k] == t.blocks[k],
        decreases world.blocks.len() - i,
    {
        if marked(&markers, world.blocks[i].id) {
            let mut b = world.blocks[i];
            b.support = SupportState::Falling;
            world.blocks.set(i, b);
        }
        i = i + 1;
    }
    let ghost flagged = flag_falling(t.blocks, markers@);
    proof {
        assert(world.blocks@ =~= flagged);
    }
    proof {
        assert forall|k: int| 0 <= k < world.blocks.len() implies (#[trigger] world.blocks@[k]).in_bounds() by {
            assert(t.blocks[k].in_bounds());
        }
    }
    let grid = GridIndex::build(&world.blocks);
    let mut next: Vec<Block> = Vec::new();
    let mut i: usize = 0;
    while i < world.blocks.len()
        invariant
            t.wf(),
            h == t.field.h,
            world.blocks@ == flagged,
            flagged.len() == t.blocks.len(),
            forall|k: int| 0 <= k < flagged.len() ==> (#[trigger] flagged[k]).pos == t.blocks[k].pos && flagged[k].size == t.blocks[k].size,
            forall|k: int| 0 <= k < flagged.len() ==> (#[trigger] flagged[k]).in_bounds(),
            grid.indexes(flagged),
            i <= world.blocks.len(),
            next@ == fall_blocks(flagged, h as int).take(i as int),
        decreases world.blocks.len() - i,
    {
        let block = world.blocks[i];
        let mut moved = block;
        proof {
            assert(t.blocks[i as int].in_bounds());
        }
        if let SupportState::Falling = block.support {
            let e = block.size.edge();
            let ahead = Aabb::around(Position { x: block.pos.x - 1, y: block.pos.y - 1 }, e, e);
            let candidates = grid.query(&world.blocks, &ahead);
            let mut hit = false;
            let mut k: usize = 0;
            while k < candidates.len()
                invariant
                    world.blocks@ == flagged,
                    i < world.blocks.len(),
                    k <= candidates.len(),
                    block == flagged[i as int],
                    ahead@ == descent_rect(block),
                    forall|c: int| 0 <= c < candidates.len() ==> (#[trigger] candidates@[c]) < flagged.len()
                        && rects_overlap(ahead@, flagged[candidates@[c] as int].rect()),
                    hit ==> lands(flagged, i as int),
                    !hit ==> forall|c: int| 0 <= c < k ==> (#[trigger] flagged[candidates@[c] as int]).support == SupportState::Falling,
                ensures
                    hit ==> lands(flagged, i as int),
                    !hit ==> forall|c: int| 0 <= c < candidates.len() ==> (#[trigger] flagged[candidates@[c] as int]).support == SupportState::Falling,
                decreases candidates.len() - k,
            {
                let other = world.blocks[candidates[k]];
                if !matches!(other.support, SupportState::Falling) {
                    hit = true;
                    break;
                }
                k = k + 1;
            }
            proof {
                if !hit {
                    assert forall|j: int| 0 <= j < flagged.len() && flagged[j].support != SupportState::Falling implies !rects_overlap(descent_rect(block), #[trigger] flagged[j].rect()) by {
                        if rects_overlap(descent_rect(block), flagged[j].rect()) {
                            let c = choose|c: int| 0 <= c < candidates.len() && candidates@[c] == j as usize;
                            assert(flagged[candidates@[c] as int].support == SupportState::Falling);
                        }
                    }
                }
            }
            if hit || 2 * (block.pos.y - 1) - e < -h {
                moved.support = SupportState::Supported;
            } else {
                moved.pos = Position { x: block.pos.x, y: block.pos.y - 1 };
            }
        }
        proof {
            assert(moved == settled_block(flagged, i as int, h as int));
        }
        next.push(moved);
        proof {
            assert(fall_blocks(flagged, h as int).take(i as int + 1) =~= next@);
        }
        i = i + 1;
    }
    proof {
        let s = fall_blocks(flagged, h as int);
        assert(next@ =~= s);
        assert forall|i: int| 0 <= i < s.len() implies (#[trigger] s[i]).in_bounds() && s[i].id == t.blocks[i].id && s[i].heat.0 < crate::block::BLOCK_MAX_HEAT by {
            assert(t.blocks[i].in_bounds());
        }
        lemma_same_ids(t, next@);
    }
    world.blocks = next;
}

} // verus!
