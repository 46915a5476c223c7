use vstd::prelude::*;
use crate::block::Block;
use crate::damage::{
    after_hits, full_pass, hit_events, laser_hit_system, lemma_after_hits_wf, lemma_hit_pass,
    lemma_live_blocks, warmer, BlockToDecimate,
};
use crate::fragment::{block_decimate_system, decimate_all, fragments_of, FRAGMENT_COUNT};
use crate::settle::{after_settle, block_falling_system};
use crate::support::{after_scan, block_support_scan_system, scan_markers};
use crate::world::{block_ids_distinct, Terrain, World};

verus! {

/// One tick of the simulation: damage, then fragmentation of what was
/// destroyed, then the support scan, then settling.
pub open spec fn tick_model(t: Terrain) -> Terrain {
    let f = decimate_all(after_hits(t), hit_events(t));
    after_settle(after_scan(f), scan_markers(f))
}

/// A block present both before and after is at least as hot after.
pub open spec fn keeps_heat(before: Seq<Block>, after: Seq<Block>) -> bool {
    forall|i: int, j: int|
        0 <= i < before.len() && 0 <= j < after.len() && #[trigger] before[i].id == #[trigger] after[j].id
            ==> before[i].heat.0 <= after[j].heat.0
}

/// Fragmentation keeps the blocks it is given, in place, and appends blocks
/// with ids not handed out before.
pub proof fn lemma_decimate_all(t: Terrain, es: Seq<BlockToDecimate>)
    requires
        0 <= t.next_id,
        t.next_id + FRAGMENT_COUNT * es.len() <= u64::MAX,
    ensures
        ({
            let r = decimate_all(t, es);
            &&& r.blocks.len() >= t.blocks.len()
            &&& t.next_id <= r.next_id <= t.next_id + FRAGMENT_COUNT * es.len()
            &&& forall|i: int| 0 <= i < t.blocks.len() ==> #[trigger] r.blocks[i] == t.blocks[i]
            &&& forall|i: int| t.blocks.len() <= i < r.blocks.len() ==> (#[trigger] r.blocks[i]).id >= t.next_id
        }),
    decreases es.len(),
{
    if es.len() > 0 {
        lemma_decimate_all(t, es.drop_last());
        let r0 = decimate_all(t, es.drop_last());
        let r = decimate_all(t, es);
        let fs = fragments_of(es.last().pos, r0.next_id);
        if r.blocks.len() > r0.blocks.len() {
            assert forall|i: int| r0.blocks.len() <= i < r.blocks.len() implies (#[trigger] r.blocks[i]).id >= t.next_id by {
                assert(r.blocks[i] == fs[i - r0.blocks.len()]);
            }
        }
    }
}

/// Heat never goes down: a block still present after a tick has at least the
/// heat it had before.
pub proof fn lemma_tick_keeps_heat(t: Terrain)
    requires
        t.wf(),
        t.next_id + FRAGMENT_COUNT * t.lasers.len() <= u64::MAX,
    ensures
        keeps_heat(t.blocks, tick_model(t).blocks),
{
    let p = full_pass(t);
    let d = after_hits(t);
    let es = hit_events(t);
    lemma_after_hits_wf(t);
    lemma_hit_pass(t.blocks, t.lasers, t.lasers.len());
    assert(block_ids_distinct(p.blocks)) by {
        assert forall|i: int, j: int| 0 <= i < p.blocks.len() && 0 <= j < p.blocks.len() && i != j implies #[trigger] p.blocks[i].id != #[trigger] p.blocks[j].id by {
            assert(warmer(t.blocks[i], p.blocks[i]));
            assert(warmer(t.blocks[j], p.blocks[j]));
        }
    }
    lemma_live_blocks(p.blocks, p.gone);
    assert(t.next_id + FRAGMENT_COUNT * es.len() <= u64::MAX) by (nonlinear_arith)
        requires
            es.len() <= t.lasers.len(),
            t.next_id + FRAGMENT_COUNT * t.lasers.len() <= u64::MAX,
    ;
    lemma_decimate_all(d, es);
    let f = decimate_all(d, es);
    let z = tick_model(t);
    assert forall|i: int, j: int|
        0 <= i < t.blocks.len() && 0 <= j < z.blocks.len() && #[trigger] t.blocks[i].id == #[trigger] z.blocks[j].id
        implies t.blocks[i].heat.0 <= z.blocks[j].heat.0 by {
        assert(z.blocks[j].id == f.blocks[j].id && z.blocks[j].heat == f.blocks[j].heat);
        if j < d.blocks.len() {
            assert(f.blocks[j] == d.blocks[j]);
            assert(p.blocks.contains(d.blocks[j]));
            let m = choose|m: int| 0 <= m < p.blocks.len() && p.blocks[m] == d.blocks[j];
            assert(warmer(t.blocks[m], p.blocks[m]));
            assert(t.blocks[m].id == t.blocks[i].id);
        } else {
            assert(f.blocks[j].id >= t.next_id);
        }
    }
}

/// Runs one tick: lasers hit, destroyed blocks break up, unsupported blocks
/// are found and set falling, and falling blocks move or land. Returns the
/// blocks destroyed in this tick.
pub fn tick(world: &mut World) -> (events: Vec<BlockToDecimate>)
    requires
        old(world)@.wf(),
        old(world).next_id + FRAGMENT_COUNT * old(world).lasers.len() <= u64::MAX,
    ensures
        final(world)@ == tick_model(old(world)@),
        events@ == hit_events(old(world)@),
        final(world)@.wf(),
        keeps_heat(old(world)@.blocks, final(world)@.blocks),
{
    let ghost t = world@;
    let events = laser_hit_system(world);
    proof {
        assert(world.next_id + FRAGMENT_COUNT * events.len() <= u64::MAX) by (nonlinear_arith)
            requires
                events.len() <= t.lasers.len(),
                world.next_id == t.next_id,
                t.next_id + FRAGMENT_COUNT * t.lasers.len() <= u64::MAX,
        ;
    }
    block_decimate_system(world, &events);
    let markers = block_support_scan_system(world);
    block_falling_system(world, markers);
    proof {
        lemma_tick_keeps_heat(t);
    }
    events
}

} // verus!
