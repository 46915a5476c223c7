use vstd::prelude::*;
use crate::block::{Block, BlockHeat, BlockKind, BlockSize, SupportState, BASE_HEAT, MEDIUM_EDGE};
use crate::damage::BlockToDecimate;
use crate::geometry::{rects_overlap, Position};
use crate::world::{lemma_push_block, Terrain, World};

verus! {

/// Fragments along each side of a large block.
pub const FRAGMENTS_PER_SIDE: i64 = 4;

/// Fragments that one large block breaks into.
pub const FRAGMENT_COUNT: u64 = 16;

/// Distance from a large block's centre to the centre of its outermost fragments.
pub const FRAGMENT_OFFSET: i64 = 24;

/// Where fragment `k` of a large block centred on `origin` lies: row `k / 4`
/// steps right, column `k % 4` steps up, from the lower left fragment.
pub open spec fn fragment_pos(origin: Position, k: int) -> Position {
    Position {
        x: (origin.x - FRAGMENT_OFFSET + MEDIUM_EDGE * (k / FRAGMENTS_PER_SIDE as int)) as i64,
        y: (origin.y - FRAGMENT_OFFSET + MEDIUM_EDGE * (k % FRAGMENTS_PER_SIDE as int)) as i64,
    }
}

/// Fragment `k`: a fresh medium block at base heat, waiting for the support scan.
pub open spec fn fragment(origin: Position, first_id: int, k: int) -> Block {
    Block {
        id: (first_id + k) as u64,
        pos: fragment_pos(origin, k),
        size: BlockSize::Medium,
        heat: BlockHeat(BASE_HEAT),
        support: SupportState::Unsupported,
        kind: BlockKind::Structure,
    }
}

/// The fragments of a large block, numbered from `first_id`.
pub open spec fn fragments_of(origin: Position, first_id: int) -> Seq<Block> {
    Seq::new(FRAGMENT_COUNT as nat, |k: int| fragment(origin, first_id, k))
}

/// The terrain after one destroyed block is replaced: a large one by its
/// fragments, a medium one by nothing.
pub open spec fn decimate(t: Terrain, e: BlockToDecimate) -> Terrain {
    match e.size {
        BlockSize::Medium => t,
        BlockSize::Large => Terrain {
            blocks: t.blocks + fragments_of(e.pos, t.next_id),
            next_id: t.next_id + FRAGMENT_COUNT,
            ..t
        },
    }
}

/// The terrain after the destroyed blocks are replaced in order.
pub open spec fn decimate_all(t: Terrain, es: Seq<BlockToDecimate>) -> Terrain
    decreases es.len(),
{
    if es.len() == 0 {
        t
    } else {
        decimate(decimate_all(t, es.drop_last()), es.last())
    }
}

/// Destroying a large block yields exactly sixteen medium fragments at base
/// heat, and no two of them overlap.
pub proof fn lemma_large_breaks_into_sixteen(t: Terrain, e: BlockToDecimate)
    requires
        e.size == BlockSize::Large,
        e.in_bounds(),
    ensures
        decimate(t, e).blocks.len() == t.blocks.len() + FRAGMENT_COUNT,
        forall|k: int| 0 <= k < t.blocks.len() ==> #[trigger] decimate(t, e).blocks[k] == t.blocks[k],
        forall|k: int| t.blocks.len() <= k < decimate(t, e).blocks.len() ==> {
            &&& (#[trigger] decimate(t, e).blocks[k]).size == BlockSize::Medium
            &&& decimate(t, e).blocks[k].heat.0 == BASE_HEAT
        },
        forall|a: int, b: int|
            t.blocks.len() <= a < decimate(t, e).blocks.len() && t.blocks.len() <= b < decimate(t, e).blocks.len() && a != b
            ==> !rects_overlap(#[trigger] decimate(t, e).blocks[a].rect(), #[trigger] decimate(t, e).blocks[b].rect()),
{
    let n = t.blocks.len();
    let bs = decimate(t, e).blocks;
    let fs = fragments_of(e.pos, t.next_id);
    assert forall|a: int, b: int| n <= a < bs.len() && n <= b < bs.len() && a != b
        implies !rects_overlap(#[trigger] bs[a].rect(), #[trigger] bs[b].rect()) by {
        let (ka, kb) = (a - n, b - n);
        assert(bs[a] == fs[ka] && bs[b] == fs[kb]);
        let (ra, ca) = (ka / 4, ka % 4);
        let (rb, cb) = (kb / 4, kb % 4);
        assert(ka == 4 * ra + ca && kb == 4 * rb + cb);
        assert(ra != rb || ca != cb);
    }
    assert forall|k: int| n <= k < bs.len() implies {
        &&& (#[trigger] bs[k]).size == BlockSize::Medium
        &&& bs[k].heat.0 == BASE_HEAT
    } by {
        assert(bs[k] == fs[k - n]);
    }
}

/// Spawns the fragments of one destroyed block.
pub fn decimate_block(world: &mut World, event: &BlockToDecimate)
    requires
        old(world)@.wf(),
        event.in_bounds(),
        old(world).next_id + FRAGMENT_COUNT <= u64::MAX,
    ensures
        final(world)@ == decimate(old(world)@, *event),
        final(world)@.wf(),
        event.size == BlockSize::Large ==> final(world)@.blocks.len() == old(world)@.blocks.len() + FRAGMENT_COUNT,
        event.size == BlockSize::Medium ==> final(world)@.blocks.len() == old(world)@.blocks.len(),
{
    if let BlockSize::Medium = event.size {
        return;
    }
    let ghost t = world@;
    let x = event.pos.x - FRAGMENT_OFFSET;
    let y = event.pos.y - FRAGMENT_OFFSET;
    let mut row: i64 = 0;
    while row < FRAGMENTS_PER_SIDE
        invariant
            0 <= row <= FRAGMENTS_PER_SIDE,
            t.wf(),
            event.in_bounds(),
            event.size == BlockSize::Large,
            x == event.pos.x - FRAGMENT_OFFSET,
            y == event.pos.y - FRAGMENT_OFFSET,
            t.next_id + FRAGMENT_COUNT <= u64::MAX,
            world@ == (Terrain {
                blocks: t.blocks + fragments_of(event.pos, t.next_id).take(4 * row),
                next_id: t.next_id + 4 * row,
                ..t
            }),
            world@.wf(),
        decreases FRAGMENTS_PER_SIDE - row,
    {
        let mut col: i64 = 0;
        while col < FRAGMENTS_PER_SIDE
            invariant
                0 <= row < FRAGMENTS_PER_SIDE,
                0 <= col <= FRAGMENTS_PER_SIDE,
                t.wf(),
                event.in_bounds(),
                event.size == BlockSize::Large,
                x == event.pos.x - FRAGMENT_OFFSET,
                y == event.pos.y - FRAGMENT_OFFSET,
                t.next_id + FRAGMENT_COUNT <= u64::MAX,
                world@ == (Terrain {
                    blocks: t.blocks + fragments_of(event.pos, t.next_id).take(4 * row + col),
                    next_id: t.next_id + 4 * row + col,
                    ..t
                }),
                world@.wf(),
            decreases FRAGMENTS_PER_SIDE - col,
        {
            let ghost k = 4 * row + col;
            let ghost before = world@;
            let id = world.next_id;
            let piece = Block {
                id,
                pos: Position { x: x + row * MEDIUM_EDGE, y: y + col * MEDIUM_EDGE },
                size: BlockSize::Medium,
                heat: BlockHeat::new(),
                support: SupportState::Unsupported,
                kind: BlockKind::Structure,
            };
            proof {
                assert(k / 4 == row && k % 4 == col);
                assert(piece == fragment(event.pos, t.next_id, k));
                lemma_push_block(before, piece);
            }
            world.blocks.push(piece);
            world.next_id = id + 1;
            proof {
                assert(fragments_of(event.pos, t.next_id).take(k + 1) =~= fragments_of(event.pos, t.next_id).take(k).push(piece));
                assert(t.blocks + fragments_of(event.pos, t.next_id).take(k + 1) =~= (t.blocks + fragments_of(event.pos, t.next_id).take(k)).push(piece));
            }
            col = col + 1;
        }
        row = row + 1;
    }
    proof {
        assert(fragments_of(event.pos, t.next_id).take(16) =~= fragments_of(event.pos, t.next_id));
    }
}

/// Replaces every destroyed block, in order: each large one by its sixteen
/// medium fragments, each medium one by nothing.
pub fn block_decimate_system(world: &mut World, events: &Vec<BlockToDecimate>)
    requires
        old(world)@.wf(),
        forall|k: int| 0 <= k < events.len() ==> (#[trigger] events@[k]).in_bounds(),
        old(world).next_id + FRAGMENT_COUNT * events.len() <= u64::MAX,
    ensures
        final(world)@ == decimate_all(old(world)@, events@),
        final(world)@.wf(),
{
    let ghost t = world@;
    let mut i: usize = 0;
    while i < events.len()
        invariant
            i <= events.len(),
            forall|k: int| 0 <= k < events.len() ==> (#[trigger] events@[k]).in_bounds(),
            world@ == decimate_all(t, events@.take(i as int)),
            world@.wf(),
            world.next_id <= t.next_id + FRAGMENT_COUNT * i,
            t.next_id + FRAGMENT_COUNT * events.len() <= u64::MAX,
        decreases events.len() - i,
    {
        assert(events@.take(i as int + 1).drop_last() =~= events@.take(i as int));
        proof {
            assert(FRAGMENT_COUNT * i + FRAGMENT_COUNT <= FRAGMENT_COUNT * events.len()) by (nonlinear_arith)
                requires i < events.len();
        }
        decimate_block(world, &events[i]);
        i = i + 1;
    }
    assert(events@.take(events.len() as int) =~= events@);
}

} // verus!
