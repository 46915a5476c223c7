use vstd::prelude::*;
use crate::block::{Block, BlockHeat, BlockSize, BLOCK_MAX_HEAT, LASER_HEAT};
use crate::despawned::{despawned_ids, DespawnedList};
use crate::geometry::{rects_overlap, Position, COORD_LIMIT};
use crate::grid::{lemma_same_rects, GridIndex};
use crate::world::{block_ids_distinct, laser_ids_distinct, Laser, Terrain, World};

verus! {

/// A block destroyed by laser fire: where it stood and how large it was.
#[derive(Clone, Copy, Debug, PartialEq, Eq, Structural)]
pub struct BlockToDecimate {
    pub pos: Position,
    pub size: BlockSize,
}

impl BlockToDecimate {
    /// The destroyed block lay within the bound of its size class.
    pub open spec fn in_bounds(self) -> bool {
        self.pos.in_bounds(self.size.limit())
    }
}

/// The state of a collision pass after some of the lasers were tested.
pub struct HitPass {
    /// The blocks with the heat they have reached so far.
    pub blocks: Seq<Block>,
    /// The ids of the lasers spent and of the blocks destroyed so far.
    pub gone: Set<u64>,
    /// One record per destroyed block, in the order of destruction.
    pub events: Seq<BlockToDecimate>,
}

/// Block `j` is still standing and the laser's box meets its box.
pub open spec fn is_target(bs: Seq<Block>, gone: Set<u64>, l: Laser, j: int) -> bool {
    0 <= j < bs.len() && !gone.contains(bs[j].id) && rects_overlap(l.rect(), bs[j].rect())
}

/// Block `t` is the first target of the laser in registry order.
pub open spec fn is_first_target(bs: Seq<Block>, gone: Set<u64>, l: Laser, t: int) -> bool {
    is_target(bs, gone, l, t) && forall|k: int| 0 <= k < t ==> !is_target(bs, gone, l, k)
}

/// The block after one more laser hit.
pub open spec fn heated(b: Block) -> Block {
    Block { heat: BlockHeat((b.heat.0 + LASER_HEAT) as u32), ..b }
}

/// Testing one laser: it heats its first target and is spent; a block that
/// reaches the threshold is destroyed and recorded. A laser that meets nothing
/// leaves the pass as it was.
pub open spec fn laser_step(p: HitPass, l: Laser) -> HitPass {
    if !p.gone.contains(l.id) && exists|t: int| is_first_target(p.blocks, p.gone, l, t) {
        let t = choose|t: int| is_first_target(p.blocks, p.gone, l, t);
        let b = heated(p.blocks[t]);
        let destroyed = b.heat.0 >= BLOCK_MAX_HEAT;
        let gone = if destroyed { p.gone.insert(b.id) } else { p.gone };
        HitPass {
            blocks: p.blocks.update(t, b),
            gone: gone.insert(l.id),
            events: if destroyed { p.events.push(BlockToDecimate { pos: b.pos, size: b.size }) } else { p.events },
        }
    } else {
        p
    }
}

/// The pass after the first `n` lasers, in order.
pub open spec fn hit_pass(bs: Seq<Block>, ls: Seq<Laser>, n: nat) -> HitPass
    decreases n,
{
    if n == 0 {
        HitPass { blocks: bs, gone: Set::empty(), events: Seq::empty() }
    } else {
        laser_step(hit_pass(bs, ls, (n - 1) as nat), ls[n - 1])
    }
}

/// The blocks whose ids are not in `gone`, in order.
pub open spec fn live_blocks(bs: Seq<Block>, gone: Set<u64>) -> Seq<Block>
    decreases bs.len(),
{
    if bs.len() == 0 {
        bs
    } else {
        let rest = live_blocks(bs.drop_last(), gone);
        if gone.contains(bs.last().id) { rest } else { rest.push(bs.last()) }
    }
}

/// The lasers whose ids are not in `gone`, in order.
pub open spec fn live_lasers(ls: Seq<Laser>, gone: Set<u64>) -> Seq<Laser>
    decreases ls.len(),
{
    if ls.len() == 0 {
        ls
    } else {
        let rest = live_lasers(ls.drop_last(), gone);
        if gone.contains(ls.last().id) { rest } else { rest.push(ls.last()) }
    }
}

/// The collision pass over all lasers of the terrain.
pub open spec fn full_pass(t: Terrain) -> HitPass {
    hit_pass(t.blocks, t.lasers, t.lasers.len())
}

/// The terrain after the collision pass: destroyed blocks and spent lasers are gone.
pub open spec fn after_hits(t: Terrain) -> Terrain {
    let p = full_pass(t);
    Terrain { blocks: live_blocks(p.blocks, p.gone), lasers: live_lasers(t.lasers, p.gone), ..t }
}

/// The blocks destroyed by the collision pass.
pub open spec fn hit_events(t: Terrain) -> Seq<BlockToDecimate> {
    full_pass(t).events
}

/// `b` is `a` with its heat raised or kept.
pub open spec fn warmer(a: Block, b: Block) -> bool {
    b == Block { heat: b.heat, ..a } && a.heat.0 <= b.heat.0
}

/// What holds of the pass at every step.
pub proof fn lemma_hit_pass(bs: Seq<Block>, ls: Seq<Laser>, n: nat)
    requires
        forall|j: int| 0 <= j < bs.len() ==> (#[trigger] bs[j]).heat.0 < BLOCK_MAX_HEAT,
        forall|j: int| 0 <= j < bs.len() ==> (#[trigger] bs[j]).in_bounds(),
        n <= ls.len(),
    ensures
        ({
            let p = hit_pass(bs, ls, n);
            &&& p.blocks.len() == bs.len()
            &&& forall|j: int| 0 <= j < bs.len() ==> warmer(bs[j], #[trigger] p.blocks[j])
            &&& forall|j: int| 0 <= j < bs.len() ==> (#[trigger] p.blocks[j]).heat.0 < BLOCK_MAX_HEAT + LASER_HEAT
            &&& forall|j: int| 0 <= j < bs.len() && !p.gone.contains(#[trigger] p.blocks[j].id) ==> p.blocks[j].heat.0 < BLOCK_MAX_HEAT
            &&& p.events.len() <= n
            &&& forall|k: int| 0 <= k < p.events.len() ==> (#[trigger] p.events[k]).in_bounds()
        }),
    decreases n,
{
    if n > 0 {
        lemma_hit_pass(bs, ls, (n - 1) as nat);
        let p = hit_pass(bs, ls, (n - 1) as nat);
        let l = ls[n - 1];
        if !p.gone.contains(l.id) && exists|t: int| is_first_target(p.blocks, p.gone, l, t) {
            let t = choose|t: int| is_first_target(p.blocks, p.gone, l, t);
            let q = hit_pass(bs, ls, n);
            assert(p.blocks[t].heat.0 < BLOCK_MAX_HEAT);
            assert forall|j: int| 0 <= j < bs.len() implies warmer(bs[j], #[trigger] q.blocks[j]) by {
                assert(warmer(bs[j], p.blocks[j]));
            }
            assert forall|k: int| 0 <= k < q.events.len() implies (#[trigger] q.events[k]).in_bounds() by {
                if k < p.events.len() {
                    assert(p.events[k].in_bounds());
                } else {
                    assert(warmer(bs[t], p.blocks[t]));
                    assert(bs[t].in_bounds());
                }
            }
        }
    }
}

/// Every live block is one of the given blocks, whose id is not in `gone`; live blocks keep distinct ids.
pub proof fn lemma_live_blocks(bs: Seq<Block>, gone: Set<u64>)
    requires
        block_ids_distinct(bs),
    ensures
        block_ids_distinct(live_blocks(bs, gone)),
        forall|i: int| 0 <= i < live_blocks(bs, gone).len() ==> {
            &&& bs.contains(#[trigger] live_blocks(bs, gone)[i])
            &&& !gone.contains(live_blocks(bs, gone)[i].id)
        },
    decreases bs.len(),
{
    if bs.len() > 0 {
        let front = bs.drop_last();
        assert(block_ids_distinct(front)) by {
            assert forall|i: int, j: int| 0 <= i < front.len() && 0 <= j < front.len() && i != j implies #[trigger] front[i].id != #[trigger] front[j].id by {
                assert(bs[i].id != bs[j].id);
            }
        }
        lemma_live_blocks(front, gone);
        let rest = live_blocks(front, gone);
        let out = live_blocks(bs, gone);
        assert forall|i: int| 0 <= i < rest.len() implies #[trigger] rest[i].id != bs.last().id by {
            assert(front.contains(rest[i]));
            let m = choose|m: int| 0 <= m < front.len() && front[m] == rest[i];
            assert(bs[m] == rest[i]);
            assert(bs[m].id != bs[bs.len() - 1].id);
        }
        assert forall|i: int| 0 <= i < out.len() implies bs.contains(#[trigger] out[i]) && !gone.contains(out[i].id) by {
            if i < rest.len() {
                assert(out[i] == rest[i]);
                assert(front.contains(rest[i]));
                let m = choose|m: int| 0 <= m < front.len() && front[m] == rest[i];
                assert(bs[m] == rest[i]);
            } else {
                assert(out[i] == bs[bs.len() - 1]);
            }
        }
        assert forall|i: int, j: int| 0 <= i < out.len() && 0 <= j < out.len() && i != j implies #[trigger] out[i].id != #[trigger] out[j].id by {
            if i < rest.len() && j < rest.len() {
                assert(out[i] == rest[i] && out[j] == rest[j]);
            } else if i < rest.len() {
                assert(out[i] == rest[i]);
            } else if j < rest.len() {
                assert(out[j] == rest[j]);
            }
        }
    }
}

/// Every live laser is one of the given lasers; live lasers keep distinct ids.
pub proof fn lemma_live_lasers(ls: Seq<Laser>, gone: Set<u64>)
    requires
        laser_ids_distinct(ls),
    ensures
        laser_ids_distinct(live_lasers(ls, gone)),
        forall|i: int| 0 <= i < live_lasers(ls, gone).len() ==> ls.contains(#[trigger] live_lasers(ls, gone)[i]),
    decreases ls.len(),
{
    if ls.len() > 0 {
        let front = ls.drop_last();
        assert(laser_ids_distinct(front)) by {
            assert forall|i: int, j: int| 0 <= i < front.len() && 0 <= j < front.len() && i != j implies #[trigger] front[i].id != #[trigger] front[j].id by {
                assert(ls[i].id != ls[j].id);
            }
        }
        lemma_live_lasers(front, gone);
        let rest = live_lasers(front, gone);
        let out = live_lasers(ls, gone);
        assert forall|i: int| 0 <= i < rest.len() implies #[trigger] rest[i].id != ls.last().id by {
            assert(front.contains(rest[i]));
            let m = choose|m: int| 0 <= m < front.len() && front[m] == rest[i];
            assert(ls[m] == rest[i]);
            assert(ls[m].id != ls[ls.len() - 1].id);
        }
        assert forall|i: int| 0 <= i < out.len() implies ls.contains(#[trigger] out[i]) by {
            if i < rest.len() {
                assert(out[i] == rest[i]);
                assert(front.contains(rest[i]));
                let m = choose|m: int| 0 <= m < front.len() && front[m] == rest[i];
                assert(ls[m] == rest[i]);
            } else {
                assert(out[i] == ls[ls.len() - 1]);
            }
        }
        assert forall|i: int, j: int| 0 <= i < out.len() && 0 <= j < out.len() && i != j implies #[trigger] out[i].id != #[trigger] out[j].id by {
            if i < rest.len() && j < rest.len() {
                assert(out[i] == rest[i] && out[j] == rest[j]);
            } else if i < rest.len() {
                assert(out[i] == rest[i]);
            } else if j < rest.len() {
                assert(out[j] == rest[j]);
            }
        }
    }
}

/// After the collision pass a well-formed terrain is still well formed.
pub proof fn lemma_after_hits_wf(t: Terrain)
    requires
        t.wf(),
    ensures
        after_hits(t).wf(),
        hit_events(t).len() <= t.lasers.len(),
        forall|k: int| 0 <= k < hit_events(t).len() ==> (#[trigger] hit_events(t)[k]).in_bounds(),
{
    let p = full_pass(t);
    lemma_hit_pass(t.blocks, t.lasers, t.lasers.len());
    assert(block_ids_distinct(p.blocks)) by {
        assert forall|i: int, j: int| 0 <= i < p.blocks.len() && 0 <= j < p.blocks.len() && i != j implies #[trigger] p.blocks[i].id != #[trigger] p.blocks[j].id by {
            assert(warmer(t.blocks[i], p.blocks[i]));
            assert(warmer(t.blocks[j], p.blocks[j]));
            assert(t.blocks[i].id != t.blocks[j].id);
        }
    }
    lemma_live_blocks(p.blocks, p.gone);
    lemma_live_lasers(t.lasers, p.gone);
    let a = after_hits(t);
    assert forall|i: int| 0 <= i < a.blocks.len() implies {
        &&& (#[trigger] a.blocks[i]).in_bounds()
        &&& a.blocks[i].heat.0 < BLOCK_MAX_HEAT
        &&& a.blocks[i].id < a.next_id
    } by {
        assert(p.blocks.contains(a.blocks[i]));
        let m = choose|m: int| 0 <= m < p.blocks.len() && p.blocks[m] == a.blocks[i];
        assert(warmer(t.blocks[m], p.blocks[m]));
        assert(t.blocks[m].in_bounds());
    }
    assert forall|i: int| 0 <= i < a.lasers.len() implies {
        &&& (#[trigger] a.lasers[i]).pos.in_bounds(COORD_LIMIT as int)
        &&& a.lasers[i].id < a.next_id
    } by {
        assert(t.lasers.contains(a.lasers[i]));
    }
    assert forall|i: int, j: int| 0 <= i < a.blocks.len() && 0 <= j < a.lasers.len() implies #[trigger] a.blocks[i].id != #[trigger] a.lasers[j].id by {
        assert(p.blocks.contains(a.blocks[i]));
        let m = choose|m: int| 0 <= m < p.blocks.len() && p.blocks[m] == a.blocks[i];
        assert(warmer(t.blocks[m], p.blocks[m]));
        assert(t.lasers.contains(a.lasers[j]));
        let n = choose|n: int| 0 <= n < t.lasers.len() && t.lasers[n] == a.lasers[j];
        assert(t.blocks[m].id != t.lasers[n].id);
    }
}

/// The first block that the laser hits, in registry order, among those not yet despawned.
fn first_target(grid: &GridIndex, blocks: &Vec<Block>, despawned: &DespawnedList, laser: &Laser) -> (r: Option<usize>)
    requires
        grid.indexes(blocks@),
        forall|j: int| 0 <= j < blocks.len() ==> (#[trigger] blocks@[j]).in_bounds(),
        laser.pos.in_bounds(COORD_LIMIT as int),
    ensures
        match r {
            Some(t) => is_first_target(blocks@, despawned_ids(*despawned), *laser, t as int),
            None => forall|j: int| !is_target(blocks@, despawned_ids(*despawned), *laser, j),
        },
{
    let ghost gone = despawned_ids(*despawned);
    let candidates = grid.query(blocks, &laser.aabb());
    let mut best: Option<usize> = None;
    let mut k: usize = 0;
    while k < candidates.len()
        invariant
            k <= candidates.len(),
            gone == despawned_ids(*despawned),
            forall|c: int| 0 <= c < candidates.len() ==> (#[trigger] candidates@[c]) < blocks.len()
                && rects_overlap(laser.rect(), blocks@[candidates@[c] as int].rect()),
            match best {
                Some(b) => is_target(blocks@, gone, *laser, b as int)
                    && forall|c: int| 0 <= c < k && is_target(blocks@, gone, *laser, #[trigger] candidates@[c] as int) ==> b <= candidates@[c],
                None => forall|c: int| 0 <= c < k ==> !is_target(blocks@, gone, *laser, #[trigger] candidates@[c] as int),
            },
        decreases candidates.len() - k,
    {
        let c = candidates[k];
        if !despawned.contains(blocks[c].id) {
            match best {
                Some(b) => {
                    if c < b {
                        best = Some(c);
                    }
                },
                None => {
                    best = Some(c);
                },
            }
        }
        k = k + 1;
    }
    proof {
        match best {
            Some(b) => {
                assert forall|j: int| 0 <= j < b implies !is_target(blocks@, gone, *laser, j) by {
                    if is_target(blocks@, gone, *laser, j) {
                        let c = choose|c: int| 0 <= c < candidates.len() && candidates@[c] == j as usize;
                        assert(b <= candidates@[c]);
                    }
                }
            },
            None => {
                assert forall|j: int| !is_target(blocks@, gone, *laser, j) by {
                    if is_target(blocks@, gone, *laser, j) {
                        let c = choose|c: int| 0 <= c < candidates.len() && candidates@[c] == j as usize;
                        assert(!is_target(blocks@, gone, *laser, candidates@[c] as int));
                    }
                }
            },
        }
    }
    best
}

/// The blocks whose ids are not despawned, in order.
fn retain_live_blocks(blocks: &Vec<Block>, despawned: &DespawnedList) -> (r: Vec<Block>)
    ensures
        r@ == live_blocks(blocks@, despawned_ids(*despawned)),
{
    let mut r: Vec<Block> = Vec::new();
    let mut i: usize = 0;
    while i < blocks.len()
        invariant
            i <= blocks.len(),
            r@ == live_blocks(blocks@.take(i as int), despawned_ids(*despawned)),
        decreases blocks.len() - i,
    {
        assert(blocks@.take(i as int + 1).drop_last() =~= blocks@.take(i as int));
        if !despawned.contains(blocks[i].id) {
            r.push(blocks[i]);
        }
        i = i + 1;
    }
    assert(blocks@.take(blocks.len() as int) =~= blocks@);
    r
}

/// The lasers whose ids are not despawned, in order.
fn retain_live_lasers(lasers: &Vec<Laser>, despawned: &DespawnedList) -> (r: Vec<Laser>)
    ensures
        r@ == live_lasers(lasers@, despawned_ids(*despawned)),
{
    let mut r: Vec<Laser> = Vec::new();
    let mut i: usize = 0;
    while i < lasers.len()
        invariant
            i <= lasers.len(),
            r@ == live_lasers(lasers@.take(i as int), despawned_ids(*despawned)),
        decreases lasers.len() - i,
    {
        assert(lasers@.take(i as int + 1).drop_last() =~= lasers@.take(i as int));
        if !despawned.contains(lasers[i].id) {
            r.push(lasers[i]);
        }
        i = i + 1;
    }
    assert(lasers@.take(lasers.len() as int) =~= lasers@);
    r
}

/// The damage pass. Each laser, in order, heats the first standing block that
/// its box meets by `LASER_HEAT` and is spent; a block whose heat reaches
/// `BLOCK_MAX_HEAT` is destroyed and recorded. Spent lasers and destroyed
/// blocks leave the world; the records are returned in order of destruction.
pub fn laser_hit_system(world: &mut World) -> (events: Vec<BlockToDecimate>)
    requires
        old(world)@.wf(),
    ensures
        final(world)@ == after_hits(old(world)@),
        events@ == hit_events(old(world)@),
        final(world)@.wf(),
        events.len() <= old(world)@.lasers.len(),
        forall|k: int| 0 <= k < events.len() ==> (#[trigger] events@[k]).in_bounds(),
{
    let ghost t = world@;
    let grid = GridIndex::build(&world.blocks);
    let mut despawned = DespawnedList::new();
    let mut events: Vec<BlockToDecimate> = Vec::new();
    let mut i: usize = 0;
    proof {
        lemma_after_hits_wf(t);
    }
    while i < world.lasers.len()
        invariant
            t.wf(),
            i <= world.lasers.len(),
            world.lasers@ == t.lasers,
            world.next_id == t.next_id,
            world.field == t.field,
            grid.indexes(t.blocks),
            (HitPass { blocks: world.blocks@, gone: despawned_ids(despawned), events: events@ }) == hit_pass(t.blocks, t.lasers, i as nat),
        decreases world.lasers.len() - i,
    {
        proof {
            lemma_hit_pass(t.blocks, t.lasers, i as nat);
            assert forall|j: int| 0 <= j < world.blocks.len() implies (#[trigger] world.blocks@[j]).in_bounds() && world.blocks@[j].rect() == t.blocks[j].rect() by {
                assert(warmer(t.blocks[j], world.blocks@[j]));
            }
            lemma_same_rects(grid, t.blocks, world.blocks@);
        }
        let laser = world.lasers[i];
        if !despawned.contains(laser.id) {
            match first_target(&grid, &world.blocks, &despawned, &laser) {
                Some(j) => {
                    let ghost gone = despawned_ids(despawned);
                    proof {
                        assert(warmer(t.blocks[j as int], world.blocks@[j as int]));
                        let c = choose|c: int| is_first_target(world.blocks@, gone, laser, c);
                        if c < j {
                            assert(!is_target(world.blocks@, gone, laser, c));
                        } else if j < c {
                            assert(!is_target(world.blocks@, gone, laser, j as int));
                        }
                    }
                    let mut block = world.blocks[j];
                    block.heat = BlockHeat(block.heat.0 + LASER_HEAT);
                    world.blocks.set(j, block);
                    if block.heat.0 >= BLOCK_MAX_HEAT {
                        despawned.insert(block.id);
                        events.push(BlockToDecimate { pos: block.pos, size: block.size });
                    }
                    despawned.insert(laser.id);
                },
                None => {},
            }
        }
        i = i + 1;
    }
    proof {
        assert(t.lasers.len() == i);
    }
    world.blocks = retain_live_blocks(&world.blocks, &despawned);
    world.lasers = retain_live_lasers(&world.lasers, &despawned);
    events
}

} // verus!
