//! The integer stages of cave generation: cellular smoothing of the noise field, and the
//! assembly of a terrain from it (symmetric union, start clearings, border walls, corridors
//! into the first start's cavern and pocket removal).
use vstd::prelude::*;
use crate::types::Tile;
use crate::geometry::in_square;
use crate::distance::{offset8, ox8, oy8};
use crate::map::{cell_index, lemma_index_bounds, lemma_index_injective, Grid};

verus! {

pub const SMOOTHING_PASSES: usize = 4;

/// The cell at `(x, y)` is on the map and open.
pub open spec fn open_at(floor: Seq<bool>, size: u16, x: int, y: int) -> bool {
    0 <= x < size && 0 <= y < size && floor[y * size + x]
}

/// Open cells among the first `k` cells of the 3×3 block centered on `t` (the block counts `t`).
pub open spec fn open_count(floor: Seq<bool>, size: u16, t: Tile, k: int) -> int
    decreases k,
{
    if k <= 0 {
        0
    } else {
        open_count(floor, size, t, k - 1) + if open_at(floor, size, t.x + ox8(k - 1), t.y + oy8(k - 1)) { 1int } else { 0int }
    }
}

/// One smoothing pass: a cell is open when at least five cells of its 3×3 block are.
pub open spec fn smoothed_once(floor: Seq<bool>, size: u16, out: Seq<bool>) -> bool {
    &&& out.len() == size * size
    &&& forall|t: Tile| #![trigger cell_index(t, size)] in_square(t, size) ==>
        out[cell_index(t, size)] == (open_count(floor, size, t, 9) >= 5)
}

fn open_neighbors(floor: &Vec<bool>, g: &Grid, t: Tile) -> (c: usize)
    requires
        floor@.len() == g.size * g.size,
        in_square(t, g.size),
    ensures
        c == open_count(floor@, g.size, t, 9),
{
    let mut c: usize = 0;
    let mut k: usize = 0;
    while k < 9
        invariant
            floor@.len() == g.size * g.size,
            in_square(t, g.size),
            0 <= k <= 9,
            c == open_count(floor@, g.size, t, k as int),
            c <= k,
        decreases 9 - k,
    {
        let (dx, dy) = offset8(k);
        match g.tile(t.x as i32 + dx, t.y as i32 + dy) {
            None => {
            },
            Some(v) => {
                let i = g.idx(v);
                if floor[i] {
                    c += 1;
                }
            },
        }
        k += 1;
    }
    c
}

/// One pass of cellular smoothing.
pub fn smooth_pass(floor: &Vec<bool>, size: u16) -> (out: Vec<bool>)
    requires
        floor@.len() == size * size,
    ensures
        smoothed_once(floor@, size, out@),
{
    let g = Grid { size, cells: Vec::new() };
    let n = size as usize;
    proof {
        assert(n * n <= 0xffff * 0xffff) by (nonlinear_arith)
            requires
                n <= 0xffff,
        ;
    }
    let mut out: Vec<bool> = vec![false; n * n];
    let mut y: u16 = 0;
    while y < size
        invariant
            g.size == size,
            floor@.len() == size * size,
            out@.len() == size * size,
            y <= size,
            forall|t: Tile| #![trigger cell_index(t, size)] in_square(t, size) && t.y < y ==>
                out@[cell_index(t, size)] == (open_count(floor@, size, t, 9) >= 5),
        decreases size - y,
    {
        let mut x: u16 = 0;
        while x < size
            invariant
                g.size == size,
                floor@.len() == size * size,
                out@.len() == size * size,
                y < size,
                x <= size,
                forall|t: Tile| #![trigger cell_index(t, size)] in_square(t, size) && (t.y < y || (t.y == y && t.x < x)) ==>
                    out@[cell_index(t, size)] == (open_count(floor@, size, t, 9) >= 5),
            decreases size - x,
        {
            let t = Tile { x, y };
            let c = open_neighbors(floor, &g, t);
            let i = g.idx(t);
            out.set(i, c >= 5);
            proof {
                assert forall|u: Tile| #![trigger cell_index(u, size)] in_square(u, size) && (u.y < y || (u.y == y && u.x < x + 1)) implies
                    out@[cell_index(u, size)] == (open_count(floor@, size, u, 9) >= 5) by {
                    lemma_index_bounds(u, size);
                    if cell_index(u, size) == i as int {
                        lemma_index_injective(u, t, size);
                    }
                }
            }
            x += 1;
        }
        y += 1;
    }
    out
}

/// The field after `passes` smoothing passes.
pub open spec fn smoothed(floor: Seq<bool>, size: u16, out: Seq<bool>, passes: nat) -> bool
    decreases passes,
{
    if passes == 0 {
        out == floor
    } else {
        exists|mid: Seq<bool>| #[trigger] smoothed_once(floor, size, mid) && smoothed(mid, size, out, (passes - 1) as nat)
    }
}

/// Cellular smoothing: four passes of `smooth_pass`, rounding the noise into cavern walls.
pub fn smooth(floor: Vec<bool>, size: u16) -> (out: Vec<bool>)
    requires
        floor@.len() == size * size,
    ensures
        smoothed(floor@, size, out@, SMOOTHING_PASSES as nat),
{
    let ghost start = floor@;
    let mut cur = floor;
    let mut k: usize = 0;
    let ghost mut done: Seq<Seq<bool>> = seq![start];
    while k < SMOOTHING_PASSES
        invariant
            0 <= k <= SMOOTHING_PASSES,
            cur@.len() == size * size,
            done.len() == k + 1,
            done[0] == start,
            done[k as int] == cur@,
            forall|j: int| 0 <= j < k ==> #[trigger] smoothed_once(done[j], size, done[j + 1]),
        decreases SMOOTHING_PASSES - k,
    {
        let next = smooth_pass(&cur, size);
        proof {
            done = done.push(next@);
        }
        cur = next;
        k += 1;
    }
    proof {
        lemma_smoothed_chain(done, size, 0);
    }
    cur
}

proof fn lemma_smoothed_chain(done: Seq<Seq<bool>>, size: u16, j: int)
    requires
        0 <= j < done.len(),
        forall|i: int| 0 <= i < done.len() - 1 ==> #[trigger] smoothed_once(done[i], size, done[i + 1]),
    ensures
        smoothed(done[j], size, done.last(), (done.len() - 1 - j) as nat),
    decreases done.len() - j,
{
    if j < done.len() - 1 {
        lemma_smoothed_chain(done, size, j + 1);
        assert(smoothed_once(done[j], size, done[j + 1]));
    }
}

} // verus!
