use vstd::prelude::*;
use std::collections::HashMap;
use crate::block::Block;
use crate::geometry::{rects_overlap, Aabb, Rect};

verus! {

broadcast use vstd::std_specs::hash::group_hash_axioms;

/// Edge of a grid cell in half units: the width of one large block.
pub const CELL_SPAN: i64 = 128;

/// Added to a coordinate before it is divided, so that the division works on
/// a non-negative number; a multiple of `CELL_SPAN`.
pub const CELL_SHIFT: i64 = 1_125_899_906_842_624;

/// `CELL_SHIFT / CELL_SPAN`.
pub const CELL_SHIFT_CELLS: i64 = 8_796_093_022_208;

/// Largest magnitude of a half-unit coordinate that the grid handles.
pub const GRID_LIMIT: i64 = 8_796_093_022_208;

/// Distance between the keys of horizontally neighbouring cells.
pub const KEY_STRIDE: i128 = 1_099_511_627_776;

/// The cell, along one axis, that holds the half-unit coordinate `p`.
pub open spec fn cell_of(p: int) -> int {
    p / (CELL_SPAN as int)
}

/// The key under which cell (`cx`, `cy`) is kept.
pub open spec fn cell_key(cx: int, cy: int) -> i128 {
    (cx * KEY_STRIDE + cy) as i128
}

/// The rectangle is not empty and lies within the grid's range.
pub open spec fn rect_in_grid(r: Rect) -> bool {
    -GRID_LIMIT <= r.min_x < r.max_x <= GRID_LIMIT && -GRID_LIMIT <= r.min_y < r.max_y <= GRID_LIMIT
}

/// Cell (`cx`, `cy`) holds part of the rectangle.
pub open spec fn covers(r: Rect, cx: int, cy: int) -> bool {
    cell_of(r.min_x) <= cx <= cell_of(r.max_x - 1) && cell_of(r.min_y) <= cy <= cell_of(r.max_y - 1)
}

/// The bucket under `key` lists `e`.
pub open spec fn listed(m: Map<i128, Vec<usize>>, key: i128, e: usize) -> bool {
    m.contains_key(key) && m[key]@.contains(e)
}

/// Two overlapping rectangles share the cell of the lower left corner of
/// their intersection.
pub proof fn lemma_shared_cell(a: Rect, b: Rect)
    requires
        rect_in_grid(a),
        rect_in_grid(b),
        rects_overlap(a, b),
    ensures
        ({
            let cx = cell_of(if a.min_x < b.min_x { b.min_x } else { a.min_x });
            let cy = cell_of(if a.min_y < b.min_y { b.min_y } else { a.min_y });
            covers(a, cx, cy) && covers(b, cx, cy)
        }),
{
    let px = if a.min_x < b.min_x { b.min_x } else { a.min_x };
    let py = if a.min_y < b.min_y { b.min_y } else { a.min_y };
    let c = CELL_SPAN as int;
    vstd::arithmetic::div_mod::lemma_div_is_ordered(a.min_x, px, c);
    vstd::arithmetic::div_mod::lemma_div_is_ordered(b.min_x, px, c);
    vstd::arithmetic::div_mod::lemma_div_is_ordered(px, a.max_x - 1, c);
    vstd::arithmetic::div_mod::lemma_div_is_ordered(px, b.max_x - 1, c);
    vstd::arithmetic::div_mod::lemma_div_is_ordered(a.min_y, py, c);
    vstd::arithmetic::div_mod::lemma_div_is_ordered(b.min_y, py, c);
    vstd::arithmetic::div_mod::lemma_div_is_ordered(py, a.max_y - 1, c);
    vstd::arithmetic::div_mod::lemma_div_is_ordered(py, b.max_y - 1, c);
}

/// The cell along one axis holding the half-unit coordinate `p`.
fn cell(p: i64) -> (c: i64)
    requires
        -GRID_LIMIT <= p <= GRID_LIMIT,
    ensures
        c == cell_of(p as int),
        -GRID_LIMIT <= c <= GRID_LIMIT,
{
    let shifted = (p + CELL_SHIFT) as u64;
    let c = (shifted / (CELL_SPAN as u64)) as i64 - CELL_SHIFT_CELLS;
    proof {
        vstd::arithmetic::div_mod::lemma_hoist_over_denominator(p as int, CELL_SHIFT_CELLS as int, CELL_SPAN as nat);
        vstd::arithmetic::div_mod::lemma_div_is_ordered(-GRID_LIMIT as int, p as int, CELL_SPAN as int);
        vstd::arithmetic::div_mod::lemma_div_is_ordered(p as int, GRID_LIMIT as int, CELL_SPAN as int);
    }
    c
}

fn key(cx: i64, cy: i64) -> (k: i128)
    requires
        -GRID_LIMIT <= cx <= GRID_LIMIT,
        -GRID_LIMIT <= cy <= GRID_LIMIT,
    ensures
        k == cell_key(cx as int, cy as int),
{
    (cx as i128) * KEY_STRIDE + (cy as i128)
}

/// Adds `e` to the bucket under `k`; every other listing stays.
fn list_in(buckets: &mut HashMap<i128, Vec<usize>>, k: i128, e: usize)
    ensures
        listed(final(buckets)@, k, e),
        forall|q: i128, f: usize| listed(old(buckets)@, q, f) ==> #[trigger] listed(final(buckets)@, q, f),
{
    let mut bucket = match buckets.remove(&k) {
        Some(b) => b,
        None => Vec::new(),
    };
    let ghost before = bucket@;
    bucket.push(e);
    proof {
        assert(bucket@[before.len() as int] == e);
        assert forall|f: usize| before.contains(f) implies bucket@.contains(f) by {
            let m = choose|m: int| 0 <= m < before.len() && before[m] == f;
            assert(bucket@[m] == f);
        }
    }
    buckets.insert(k, bucket);
}

/// A uniform grid over the field: each cell's bucket lists the registry
/// slots of the blocks whose box reaches into the cell.
pub struct GridIndex {
    pub buckets: HashMap<i128, Vec<usize>>,
}

/// An index stays valid for blocks that keep their boxes.
pub proof fn lemma_same_rects(g: GridIndex, bs: Seq<Block>, cs: Seq<Block>)
    requires
        g.indexes(bs),
        cs.len() == bs.len(),
        forall|i: int| 0 <= i < bs.len() ==> (#[trigger] cs[i]).rect() == bs[i].rect(),
    ensures
        g.indexes(cs),
{
    assert forall|i: int, cx: int, cy: int| 0 <= i < cs.len() && #[trigger] covers(cs[i].rect(), cx, cy) implies listed(g.buckets@, cell_key(cx, cy), i as usize) by {
        assert(cs[i].rect() == bs[i].rect());
    }
}

impl GridIndex {
    /// Every block is listed in the bucket of every cell its box covers.
    pub open spec fn indexes(self, bs: Seq<Block>) -> bool {
        forall|i: int, cx: int, cy: int|
            0 <= i < bs.len() && #[trigger] covers(bs[i].rect(), cx, cy) ==> listed(self.buckets@, cell_key(cx, cy), i as usize)
    }

    /// Lists every block in the cells its box covers.
    pub fn build(blocks: &Vec<Block>) -> (g: GridIndex)
        requires
            forall|i: int| 0 <= i < blocks.len() ==> (#[trigger] blocks@[i]).in_bounds(),
        ensures
            g.indexes(blocks@),
    {
        let mut buckets: HashMap<i128, Vec<usize>> = HashMap::new();
        let mut i: usize = 0;
        while i < blocks.len()
            invariant
                i <= blocks.len(),
                forall|j: int| 0 <= j < blocks.len() ==> (#[trigger] blocks@[j]).in_bounds(),
                forall|j: int, cx: int, cy: int|
                    0 <= j < i && #[trigger] covers(blocks@[j].rect(), cx, cy) ==> listed(buckets@, cell_key(cx, cy), j as usize),
            decreases blocks.len() - i,
        {
            let r = blocks[i].aabb();
            let x0 = cell(r.min_x);
            let x1 = cell(r.max_x - 1);
            let y0 = cell(r.min_y);
            let y1 = cell(r.max_y - 1);
            let mut cx = x0;
            while cx <= x1
                invariant
                    i < blocks.len(),
                    r@ == blocks@[i as int].rect(),
                    x0 == cell_of(r.min_x as int),
                    x1 == cell_of(r.max_x - 1),
                    y0 == cell_of(r.min_y as int),
                    y1 == cell_of(r.max_y - 1),
                    -GRID_LIMIT <= x0 <= cx,
                    cx <= x1 + 1,
                    -GRID_LIMIT <= y0,
                    x1 <= GRID_LIMIT,
                    y1 <= GRID_LIMIT,
                    forall|j: int, cx: int, cy: int|
                        0 <= j < i && #[trigger] covers(blocks@[j].rect(), cx, cy) ==> listed(buckets@, cell_key(cx, cy), j as usize),
                    forall|qx: int, qy: int|
                        #[trigger] covers(r@, qx, qy) && qx < cx ==> listed(buckets@, cell_key(qx, qy), i),
                decreases x1 + 1 - cx,
            {
                let mut cy = y0;
                while cy <= y1
                    invariant
                        i < blocks.len(),
                        r@ == blocks@[i as int].rect(),
                        x0 == cell_of(r.min_x as int),
                        x1 == cell_of(r.max_x - 1),
                        y0 == cell_of(r.min_y as int),
                        y1 == cell_of(r.max_y - 1),
                        -GRID_LIMIT <= x0 <= cx <= x1 <= GRID_LIMIT,
                        -GRID_LIMIT <= y0 <= cy,
                        cy <= y1 + 1,
                        y1 <= GRID_LIMIT,
                        forall|j: int, cx: int, cy: int|
                            0 <= j < i && #[trigger] covers(blocks@[j].rect(), cx, cy) ==> listed(buckets@, cell_key(cx, cy), j as usize),
                        forall|qx: int, qy: int|
                            #[trigger] covers(r@, qx, qy) && (qx < cx || (qx == cx && qy < cy)) ==> listed(buckets@, cell_key(qx, qy), i),
                    decreases y1 + 1 - cy,
                {
                    list_in(&mut buckets, key(cx, cy), i);
                    cy = cy + 1;
                }
                cx = cx + 1;
            }
            i = i + 1;
        }
        GridIndex { buckets }
    }

    /// The registry slots of the blocks whose box meets `r`; a slot may be
    /// listed more than once.
    pub fn query(&self, blocks: &Vec<Block>, r: &Aabb) -> (out: Vec<usize>)
        requires
            self.indexes(blocks@),
            forall|i: int| 0 <= i < blocks.len() ==> (#[trigger] blocks@[i]).in_bounds(),
            rect_in_grid(r@),
        ensures
            forall|k: int| 0 <= k < out.len() ==> (#[trigger] out@[k]) < blocks.len() && rects_overlap(r@, blocks@[out@[k] as int].rect()),
            forall|j: int| 0 <= j < blocks.len() && rects_overlap(r@, #[trigger] blocks@[j].rect()) ==> out@.contains(j as usize),
    {
        let mut out: Vec<usize> = Vec::new();
        let x0 = cell(r.min_x);
        let x1 = cell(r.max_x - 1);
        let y0 = cell(r.min_y);
        let y1 = cell(r.max_y - 1);
        let mut cx = x0;
        while cx <= x1
            invariant
                self.indexes(blocks@),
                forall|i: int| 0 <= i < blocks.len() ==> (#[trigger] blocks@[i]).in_bounds(),
                rect_in_grid(r@),
                x0 == cell_of(r.min_x as int),
                x1 == cell_of(r.max_x - 1),
                y0 == cell_of(r.min_y as int),
                y1 == cell_of(r.max_y - 1),
                -GRID_LIMIT <= x0 <= cx,
                cx <= x1 + 1,
                -GRID_LIMIT <= y0,
                x1 <= GRID_LIMIT,
                y1 <= GRID_LIMIT,
                forall|k: int| 0 <= k < out.len() ==> (#[trigger] out@[k]) < blocks.len() && rects_overlap(r@, blocks@[out@[k] as int].rect()),
                forall|j: int|
                    0 <= j < blocks.len() && rects_overlap(r@, #[trigger] blocks@[j].rect())
                        && cell_of(if r.min_x < blocks@[j].rect().min_x { blocks@[j].rect().min_x } else { r.min_x as int }) < cx
                        ==> out@.contains(j as usize),
            decreases x1 + 1 - cx,
        {
            let mut cy = y0;
            while cy <= y1
                invariant
                    self.indexes(blocks@),
                    forall|i: int| 0 <= i < blocks.len() ==> (#[trigger] blocks@[i]).in_bounds(),
                    rect_in_grid(r@),
                    x0 == cell_of(r.min_x as int),
                    x1 == cell_of(r.max_x - 1),
                    y0 == cell_of(r.min_y as int),
                    y1 == cell_of(r.max_y - 1),
                    -GRID_LIMIT <= x0 <= cx <= x1 <= GRID_LIMIT,
                    -GRID_LIMIT <= y0 <= cy,
                    cy <= y1 + 1,
                    y1 <= GRID_LIMIT,
                    forall|k: int| 0 <= k < out.len() ==> (#[trigger] out@[k]) < blocks.len() && rects_overlap(r@, blocks@[out@[k] as int].rect()),
                    forall|j: int|
                        0 <= j < blocks.len() && rects_overlap(r@, #[trigger] blocks@[j].rect()) && ({
                            let wx = cell_of(if r.min_x < blocks@[j].rect().min_x { blocks@[j].rect().min_x } else { r.min_x as int });
                            let wy = cell_of(if r.min_y < blocks@[j].rect().min_y { blocks@[j].rect().min_y } else { r.min_y as int });
                            wx < cx || (wx == cx && wy < cy)
                        }) ==> out@.contains(j as usize),
                decreases y1 + 1 - cy,
            {
                let k = key(cx, cy);
                match self.buckets.get(&k) {
                    Some(bucket) => {
                        let mut e: usize = 0;
                        while e < bucket.len()
                            invariant
                                forall|i: int| 0 <= i < blocks.len() ==> (#[trigger] blocks@[i]).in_bounds(),
                                e <= bucket.len(),
                                forall|k: int| 0 <= k < out.len() ==> (#[trigger] out@[k]) < blocks.len() && rects_overlap(r@, blocks@[out@[k] as int].rect()),
                                forall|m: int| 0 <= m < e && bucket@[m] < blocks.len() && rects_overlap(r@, blocks@[bucket@[m] as int].rect())
                                    ==> out@.contains(#[trigger] bucket@[m]),
                                forall|j: int|
                                    0 <= j < blocks.len() && rects_overlap(r@, #[trigger] blocks@[j].rect()) && ({
                                        let wx = cell_of(if r.min_x < blocks@[j].rect().min_x { blocks@[j].rect().min_x } else { r.min_x as int });
                                        let wy = cell_of(if r.min_y < blocks@[j].rect().min_y { blocks@[j].rect().min_y } else { r.min_y as int });
                                        wx < cx || (wx == cx && wy < cy)
                                    }) ==> out@.contains(j as usize),
                            decreases bucket.len() - e,
                        {
                            let slot = bucket[e];
                            if slot < blocks.len() && r.collide(&blocks[slot].aabb()) {
                                let ghost before = out@;
                                out.push(slot);
                                proof {
                                    assert(out@[before.len() as int] == slot);
                                    assert forall|s: usize| before.contains(s) implies out@.contains(s) by {
                                        let m = choose|m: int| 0 <= m < before.len() && before[m] == s;
                                        assert(out@[m] == s);
                                    }
                                }
                            }
                            e = e + 1;
                        }
                        proof {
                            assert forall|j: int|
                                0 <= j < blocks.len() && rects_overlap(r@, #[trigger] blocks@[j].rect()) && ({
                                    let wx = cell_of(if r.min_x < blocks@[j].rect().min_x { blocks@[j].rect().min_x } else { r.min_x as int });
                                    let wy = cell_of(if r.min_y < blocks@[j].rect().min_y { blocks@[j].rect().min_y } else { r.min_y as int });
                                    wx == cx && wy == cy
                                }) implies out@.contains(j as usize) by {
                                assert(blocks@[j].in_bounds());
                                lemma_shared_cell(r@, blocks@[j].rect());
                                assert(covers(blocks@[j].rect(), cx as int, cy as int));
                                assert(listed(self.buckets@, k, j as usize));
                                let m = choose|m: int| 0 <= m < bucket@.len() && bucket@[m] == j as usize;
                                assert(out@.contains(bucket@[m]));
                            }
                        }
                    },
                    None => {
                        proof {
                            assert forall|j: int|
                                0 <= j < blocks.len() && rects_overlap(r@, #[trigger] blocks@[j].rect()) && ({
                                    let wx = cell_of(if r.min_x < blocks@[j].rect().min_x { blocks@[j].rect().min_x } else { r.min_x as int });
                                    let wy = cell_of(if r.min_y < blocks@[j].rect().min_y { blocks@[j].rect().min_y } else { r.min_y as int });
                                    wx == cx && wy == cy
                                }) implies false by {
                                assert(blocks@[j].in_bounds());
                                lemma_shared_cell(r@, blocks@[j].rect());
                                assert(covers(blocks@[j].rect(), cx as int, cy as int));
                                assert(listed(self.buckets@, k, j as usize));
                            }
                        }
                    },
                }
                cy = cy + 1;
            }
            proof {
                assert forall|j: int|
                    0 <= j < blocks.len() && rects_overlap(r@, #[trigger] blocks@[j].rect())
                        && cell_of(if r.min_x < blocks@[j].rect().min_x { blocks@[j].rect().min_x } else { r.min_x as int }) < cx + 1
                        implies out@.contains(j as usize) by {
                    assert(blocks@[j].in_bounds());
                    lemma_shared_cell(r@, blocks@[j].rect());
                }
            }
            cx = cx + 1;
        }
        proof {
            assert forall|j: int| 0 <= j < blocks.len() && rects_overlap(r@, #[trigger] blocks@[j].rect()) implies out@.contains(j as usize) by {
                assert(blocks@[j].in_bounds());
                lemma_shared_cell(r@, blocks@[j].rect());
            }
        }
        out
    }
}

} // verus!
