use vstd::prelude::*;
use crate::block::{Block, SupportState};
use crate::geometry::{rects_overlap, Aabb, Position, Rect};
use crate::grid::GridIndex;
use crate::world::{lemma_same_ids, Terrain, World};

verus! {

/// A block that the support scan found without support; the settling pass
/// sets it falling.
#[derive(Clone, Copy, Debug, PartialEq, Eq, Structural)]
pub struct Unsupported {
    pub id: u64,
    pub pos: Position,
}

/// The vertical probe of a block: one unit wide, centred on the block's `x`,
/// reaching from the block's centre up by the field's height `h`.
pub open spec fn probe_rect(b: Block, h: int) -> Rect {
    Rect { min_x: 2 * b.pos.x - 1, max_x: 2 * b.pos.x + 1, min_y: 2 * b.pos.y, max_y: 2 * b.pos.y + 2 * h }
}

/// The probe of block `i` meets the box of some other block.
pub open spec fn probe_hits(bs: Seq<Block>, i: int, h: int) -> bool {
    exists|j: int| 0 <= j < bs.len() && j != i && rects_overlap(probe_rect(bs[i], h), #[trigger] bs[j].rect())
}

/// Block `i` after the scan: an unsupported block whose probe meets another
/// block is supported; every other block is left as it is.
pub open spec fn scanned_block(bs: Seq<Block>, i: int, h: int) -> Block {
    if bs[i].support == SupportState::Unsupported && probe_hits(bs, i, h) {
        Block { support: SupportState::Supported, ..bs[i] }
    } else {
        bs[i]
    }
}

pub open spec fn scan_blocks(bs: Seq<Block>, h: int) -> Seq<Block> {
    Seq::new(bs.len(), |i: int| scanned_block(bs, i, h))
}

/// One marker for each unsupported block, in registry order.
pub open spec fn markers_of(bs: Seq<Block>) -> Seq<Unsupported>
    decreases bs.len(),
{
    if bs.len() == 0 {
        Seq::empty()
    } else {
        let rest = markers_of(bs.drop_last());
        let b = bs.last();
        if b.support == SupportState::Unsupported { rest.push(Unsupported { id: b.id, pos: b.pos }) } else { rest }
    }
}

/// The terrain after the support scan.
pub open spec fn after_scan(t: Terrain) -> Terrain {
    Terrain { blocks: scan_blocks(t.blocks, t.field.h as int), ..t }
}

/// The markers that the support scan emits.
pub open spec fn scan_markers(t: Terrain) -> Seq<Unsupported> {
    markers_of(after_scan(t).blocks)
}

/// The scan changes nothing but support states, so the probes it casts the
/// second time meet what they met the first time.
proof fn lemma_scan_keeps_probes(bs: Seq<Block>, h: int, i: int)
    requires
        0 <= i < bs.len(),
    ensures
        probe_hits(scan_blocks(bs, h), i, h) == probe_hits(bs, i, h),
{
    let s = scan_blocks(bs, h);
    if probe_hits(bs, i, h) {
        let j = choose|j: int| 0 <= j < bs.len() && j != i && rects_overlap(probe_rect(bs[i], h), #[trigger] bs[j].rect());
        assert(s[j].rect() == bs[j].rect());
    }
    if probe_hits(s, i, h) {
        let j = choose|j: int| 0 <= j < s.len() && j != i && rects_overlap(probe_rect(s[i], h), #[trigger] s[j].rect());
        assert(s[j].rect() == bs[j].rect());
    }
}

/// Running the support scan twice in a row gives the same classification, and
/// the same markers, as running it once.
pub proof fn lemma_scan_idempotent(t: Terrain)
    ensures
        after_scan(after_scan(t)) == after_scan(t),
        scan_markers(after_scan(t)) == scan_markers(t),
{
    let h = t.field.h as int;
    let s = scan_blocks(t.blocks, h);
    assert forall|i: int| 0 <= i < s.len() implies #[trigger] scanned_block(s, i, h) == s[i] by {
        lemma_scan_keeps_probes(t.blocks, h, i);
    }
    assert(scan_blocks(s, h) =~= s);
}

/// The support scan. Every unsupported block casts its probe upward; if the
/// probe meets another block the block is supported, else it stays
/// unsupported and a marker for it is returned. Other blocks are untouched.
pub fn block_support_scan_system(world: &mut World) -> (markers: Vec<Unsupported>)
    requires
        old(world)@.wf(),
    ensures
        final(world)@ == after_scan(old(world)@),
        markers@ == scan_markers(old(world)@),
        final(world)@.wf(),
        forall|i: int| 0 <= i < old(world)@.blocks.len() && old(world)@.blocks[i].support == SupportState::Unsupported ==>
            ((#[trigger] final(world)@.blocks[i]).support == SupportState::Supported <==> probe_hits(old(world)@.blocks, i, old(world).field.h as int)),
{
    let ghost t = world@;
    let h = world.field.h;
    let grid = GridIndex::build(&world.blocks);
    let mut next: Vec<Block> = Vec::new();
    let mut markers: Vec<Unsupported> = Vec::new();
    let mut i: usize = 0;
    while i < world.blocks.len()
        invariant
            world@ == t,
            t.wf(),
            h == t.field.h,
            grid.indexes(t.blocks),
            i <= world.blocks.len(),
            next@ == scan_blocks(t.blocks, h as int).take(i as int),
            markers@ == markers_of(next@),
        decreases world.blocks.len() - i,
    {
        let block = world.blocks[i];
        let mut scanned = block;
        if let SupportState::Unsupported = block.support {
            let probe = Aabb {
                min_x: 2 * block.pos.x - 1,
                max_x: 2 * block.pos.x + 1,
                min_y: 2 * block.pos.y,
                max_y: 2 * block.pos.y + 2 * h,
            };
            let candidates = grid.query(&world.blocks, &probe);
            let mut hit = false;
            let mut k: usize = 0;
            while k < candidates.len()
                invariant
                    world@ == t,
                    i < world.blocks.len(),
                    k <= candidates.len(),
                    block == t.blocks[i as int],
                    probe@ == probe_rect(block, h as int),
                    forall|c: int| 0 <= c < candidates.len() ==> (#[trigger] candidates@[c]) < t.blocks.len()
                        && rects_overlap(probe@, t.blocks[candidates@[c] as int].rect()),
                    hit ==> probe_hits(t.blocks, i as int, h as int),
                    !hit ==> forall|c: int| 0 <= c < k ==> #[trigger] candidates@[c] == i,
                decreases candidates.len() - k,
            {
                if candidates[k] != i {
                    hit = true;
                }
                k = k + 1;
            }
            proof {
                if !hit {
                    assert forall|j: int| 0 <= j < t.blocks.len() && j != i implies !rects_overlap(probe_rect(block, h as int), #[trigger] t.blocks[j].rect()) by {
                        if rects_overlap(probe_rect(block, h as int), t.blocks[j].rect()) {
                            let c = choose|c: int| 0 <= c < candidates.len() && candidates@[c] == j as usize;
                            assert(candidates@[c] == i);
                        }
                    }
                }
            }
            if hit {
                scanned.support = SupportState::Supported;
            } else {
                markers.push(Unsupported { id: block.id, pos: block.pos });
            }
        }
        proof {
            assert(scanned == scanned_block(t.blocks, i as int, h as int));
        }
        let ghost before = next@;
        next.push(scanned);
        proof {
            assert(scan_blocks(t.blocks, h as int).take(i as int + 1) =~= next@);
            assert(next@.drop_last() =~= before);
        }
        i = i + 1;
    }
    proof {
        assert(next@ =~= scan_blocks(t.blocks, h as int));
        lemma_same_ids(t, next@);
    }
    world.blocks = next;
    markers
}

} // verus!
