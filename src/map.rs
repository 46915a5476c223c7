use vstd::prelude::*;
use crate::block::{Block, BlockHeat, BlockKind, BlockSize, SupportState, BASE_HEAT};
use crate::geometry::Position;
use crate::world::{lemma_push_block, Terrain, WinSize, World};

verus! {

/// Cells in one row of the map.
pub const NUMBER_COLS: usize = 16;

/// Edge of one map cell on the field.
pub const GRID_WIDTH: i64 = 64;

/// Distance from a cell's corner to its centre.
pub const BLOCK_LARGE_SPRITE_OFFSET: i64 = 32;

/// Most cells a map may hold.
pub const MAP_LIMIT: usize = 16_777_216;

/// The byte that ends a line of the map file.
pub const NEWLINE: u8 = 10;

/// The map file as read, line breaks included.
pub struct RawMap(pub Vec<u8>);

/// The map cells in row-major order, sixteen to a row.
pub struct BlockMap(pub Vec<u8>);

pub open spec fn without_newlines(s: Seq<u8>) -> Seq<u8>
    decreases s.len(),
{
    if s.len() == 0 {
        s
    } else {
        let rest = without_newlines(s.drop_last());
        if s.last() == NEWLINE { rest } else { rest.push(s.last()) }
    }
}

/// The map with its line breaks taken out.
pub fn block_map_setup_system(raw: RawMap) -> (r: BlockMap)
    ensures
        r.0@ == without_newlines(raw.0@),
{
    let bytes = raw.0;
    let mut cells: Vec<u8> = Vec::new();
    let mut i: usize = 0;
    while i < bytes.len()
        invariant
            i <= bytes.len(),
            cells@ == without_newlines(bytes@.take(i as int)),
        decreases bytes.len() - i,
    {
        assert(bytes@.take(i as int + 1).drop_last() =~= bytes@.take(i as int));
        if bytes[i] != NEWLINE {
            cells.push(bytes[i]);
        }
        i = i + 1;
    }
    assert(bytes@.take(bytes.len() as int) =~= bytes@);
    BlockMap(cells)
}

/// The (column, row) of every cell holding `selector`, in map order.
pub open spec fn cells_of(m: Seq<u8>, selector: char) -> Seq<(usize, usize)>
    decreases m.len(),
{
    if m.len() == 0 {
        Seq::empty()
    } else {
        let rest = cells_of(m.drop_last(), selector);
        let n = m.len() - 1;
        if m.last() as u32 == selector as u32 {
            rest.push(((n % NUMBER_COLS as int) as usize, (n / NUMBER_COLS as int) as usize))
        } else {
            rest
        }
    }
}

/// No more cells are found than the map holds, and each lies in a column of
/// the map and a row within its length.
pub proof fn lemma_cells_of(m: Seq<u8>, selector: char)
    ensures
        cells_of(m, selector).len() <= m.len(),
        forall|k: int| 0 <= k < cells_of(m, selector).len() ==> {
            &&& (#[trigger] cells_of(m, selector)[k]).0 < NUMBER_COLS
            &&& cells_of(m, selector)[k].1 as int * NUMBER_COLS as int <= m.len()
        },
    decreases m.len(),
{
    if m.len() > 0 {
        lemma_cells_of(m.drop_last(), selector);
        let rest = cells_of(m.drop_last(), selector);
        let out = cells_of(m, selector);
        assert forall|k: int| 0 <= k < out.len() implies {
            &&& (#[trigger] out[k]).0 < NUMBER_COLS
            &&& out[k].1 as int * NUMBER_COLS as int <= m.len()
        } by {
            if k < rest.len() {
                assert(out[k] == rest[k]);
            }
        }
    }
}

/// The (column, row) of every cell of the map holding `block_selector`.
pub fn get_blocks_from_map(block_selector: char, block_map: &BlockMap) -> (r: Vec<(usize, usize)>)
    ensures
        r@ == cells_of(block_map.0@, block_selector),
{
    let m = &block_map.0;
    let mut r: Vec<(usize, usize)> = Vec::new();
    let mut n: usize = 0;
    while n < m.len()
        invariant
            n <= m.len(),
            r@ == cells_of(m@.take(n as int), block_selector),
        decreases m.len() - n,
    {
        assert(m@.take(n as int + 1).drop_last() =~= m@.take(n as int));
        if m[n] as u32 == block_selector as u32 {
            r.push((n % NUMBER_COLS, n / NUMBER_COLS));
        }
        n = n + 1;
    }
    assert(m@.take(m.len() as int) =~= m@);
    r
}

/// The centre on the field of the map cell at (`col`, `row`); rows count down
/// from the top edge, columns right from the left edge.
pub open spec fn cell_center(col: int, row: int, field: WinSize) -> Position {
    Position {
        x: (col * GRID_WIDTH - field.w / 2 + BLOCK_LARGE_SPRITE_OFFSET) as i64,
        y: (-(row * GRID_WIDTH - field.h / 2 + BLOCK_LARGE_SPRITE_OFFSET)) as i64,
    }
}

/// The large blocks placed on the given cells, numbered from `first_id`.
pub open spec fn placed_blocks(cells: Seq<(usize, usize)>, field: WinSize, kind: BlockKind, first_id: int) -> Seq<Block> {
    Seq::new(
        cells.len(),
        |k: int|
            Block {
                id: (first_id + k) as u64,
                pos: cell_center(cells[k].0 as int, cells[k].1 as int, field),
                size: BlockSize::Large,
                heat: BlockHeat(BASE_HEAT),
                support: SupportState::Supported,
                kind,
            },
    )
}

/// The terrain after a large block of `kind` is placed on each map cell holding `selector`.
pub open spec fn after_placing(t: Terrain, m: Seq<u8>, selector: char, kind: BlockKind) -> Terrain {
    let cells = cells_of(m, selector);
    Terrain {
        blocks: t.blocks + placed_blocks(cells, t.field, kind, t.next_id),
        next_id: t.next_id + cells.len(),
        ..t
    }
}

/// Places a resting large block of `kind` on each map cell holding `selector`.
fn place_blocks(world: &mut World, block_map: &BlockMap, selector: char, kind: BlockKind)
    requires
        old(world)@.wf(),
        block_map.0.len() <= MAP_LIMIT,
        old(world).next_id + block_map.0.len() <= u64::MAX,
    ensures
        final(world)@ == after_placing(old(world)@, block_map.0@, selector, kind),
        final(world)@.wf(),
{
    let ghost t = world@;
    let cells = get_blocks_from_map(selector, block_map);
    proof {
        lemma_cells_of(block_map.0@, selector);
    }
    let half_w = world.field.w / 2;
    let half_h = world.field.h / 2;
    let mut k: usize = 0;
    while k < cells.len()
        invariant
            t.wf(),
            cells@ == cells_of(block_map.0@, selector),
            cells.len() <= block_map.0.len() <= MAP_LIMIT,
            t.next_id + block_map.0.len() <= u64::MAX,
            forall|c: int| 0 <= c < cells.len() ==> {
                &&& (#[trigger] cells@[c]).0 < NUMBER_COLS
                &&& cells@[c].1 as int * NUMBER_COLS as int <= block_map.0.len()
            },
            half_w == t.field.w / 2,
            half_h == t.field.h / 2,
            k <= cells.len(),
            world@ == (Terrain {
                blocks: t.blocks + placed_blocks(cells@, t.field, kind, t.next_id).take(k as int),
                next_id: t.next_id + k,
                ..t
            }),
            world@.wf(),
        decreases cells.len() - k,
    {
        let (col, row) = cells[k];
        proof {
            assert(cells@[k as int].1 as int * 16 <= block_map.0.len());
        }
        let x = col as i64 * GRID_WIDTH - half_w + BLOCK_LARGE_SPRITE_OFFSET;
        let y = -(row as i64 * GRID_WIDTH - half_h + BLOCK_LARGE_SPRITE_OFFSET);
        let ghost before = world@;
        let id = world.next_id;
        let block = Block {
            id,
            pos: Position { x, y },
            size: BlockSize::Large,
            heat: BlockHeat::new(),
            support: SupportState::Supported,
            kind,
        };
        proof {
            assert(block == placed_blocks(cells@, t.field, kind, t.next_id)[k as int]);
            lemma_push_block(before, block);
        }
        world.blocks.push(block);
        world.next_id = id + 1;
        proof {
            assert(placed_blocks(cells@, t.field, kind, t.next_id).take(k as int + 1) =~= placed_blocks(cells@, t.field, kind, t.next_id).take(k as int).push(block));
            assert(t.blocks + placed_blocks(cells@, t.field, kind, t.next_id).take(k as int + 1) =~= (t.blocks + placed_blocks(cells@, t.field, kind, t.next_id).take(k as int)).push(block));
        }
        k = k + 1;
    }
    proof {
        assert(placed_blocks(cells@, t.field, kind, t.next_id).take(cells.len() as int) =~= placed_blocks(cells@, t.field, kind, t.next_id));
    }
}

/// Places a resting large structural block on every `#` cell of the map.
pub fn block_large_setup_system(world: &mut World, block_map: &BlockMap)
    requires
        old(world)@.wf(),
        block_map.0.len() <= MAP_LIMIT,
        old(world).next_id + block_map.0.len() <= u64::MAX,
    ensures
        final(world)@ == after_placing(old(world)@, block_map.0@, '#', BlockKind::Structure),
        final(world)@.wf(),
{
    place_blocks(world, block_map, '#', BlockKind::Structure);
}

/// Places a resting large support beam on every `S` cell of the map.
pub fn block_support_setup_system(world: &mut World, block_map: &BlockMap)
    requires
        old(world)@.wf(),
        block_map.0.len() <= MAP_LIMIT,
        old(world).next_id + block_map.0.len() <= u64::MAX,
    ensures
        final(world)@ == after_placing(old(world)@, block_map.0@, 'S', BlockKind::Beam),
        final(world)@.wf(),
{
    place_blocks(world, block_map, 'S', BlockKind::Beam);
}

} // verus!
