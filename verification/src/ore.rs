//! Ore placement: clusters of one to nine tiles grown along the walls of open rooms, each placed
//! with its rotations and never touching another cluster. The first cluster sits within reach
//! of each start; cluster sizes are weighted toward one.
use vstd::prelude::*;
use crate::types::Tile;
use crate::geometry::{chebyshev, in_square, mix, rotate, rotated, spec_chebyshev};
use crate::map::{cell_index, is_floor, lemma_index_bounds, off_x, off_y, offset, Grid, Start, Terrain, TerrainCell};
use crate::map::{spec_symmetry_turns, symmetry_turns};
use crate::distance::{distance_field, offset8, wall_distance, walls_of};

verus! {

/// Map cells per ore cluster; placement retries until this many clusters are placed.
pub const CELLS_PER_CLUSTER: usize = 96;

pub const MAX_CLUSTER: usize = 9;

/// Chebyshev radius within which each start is guaranteed a first cluster.
pub const NEAR_START: i32 = 9;

pub const ORE_SALT: u64 = 0x5DEE_CE66_D1B4_2F0D;

/// How far ore keeps from start anchors: an eighth of the map, between two and five tiles.
pub open spec fn keep_out(size: u16) -> int {
    let k = size / 8;
    if k < 2 { 2 } else if k > 5 { 5 } else { k as int }
}

/// A tile where ore may lie: floor within two king moves of a wall, outside every start's
/// keep-out square and off every starting entity's tile.
pub open spec fn ore_allowed(cells: Seq<TerrainCell>, size: u16, starts: Seq<Start>, t: Tile) -> bool {
    &&& is_floor(cells, size, t)
    &&& exists|w: Tile| in_square(w, size) && #[trigger] cells[cell_index(w, size)] != TerrainCell::Floor && spec_chebyshev(t, w) <= 2
    &&& forall|i: int| 0 <= i < starts.len() ==> spec_chebyshev((#[trigger] starts[i]).anchor, t) > keep_out(size)
        && forall|j: int| 0 <= j < starts[i].entities@.len() ==> (#[trigger] starts[i].entities@[j]).1 != t
}

/// `t` is a symmetry turn of an allowed tile.
pub open spec fn ore_placed(cells: Seq<TerrainCell>, size: u16, starts: Seq<Start>, turns: Seq<u8>, t: Tile) -> bool {
    exists|k: int, u: Tile| 0 <= k < turns.len() && #[trigger] rotated(u, size, turns[k]) == t && in_square(u, size)
        && ore_allowed(cells, size, starts, u)
}

/// Walls near `t`, as the distance field states them.
proof fn lemma_ore_distance_core(cells: Seq<TerrainCell>, size: u16, t: Tile, d: int)
    requires
        cells.len() == size * size,
        in_square(t, size),
        forall|s: Tile| #[trigger] crate::distance::is_source(walls_of(cells), size, s) ==> d <= spec_chebyshev(t, s),
        exists|s: Tile| #[trigger] crate::distance::is_source(walls_of(cells), size, s) && spec_chebyshev(t, s) == d,
    ensures
        (1 <= d <= 2) <==> (is_floor(cells, size, t)
            && exists|w: Tile| in_square(w, size) && #[trigger] cells[cell_index(w, size)] != TerrainCell::Floor && spec_chebyshev(t, w) <= 2),
{
    let src = walls_of(cells);
    lemma_index_bounds(t, size);
    let s = choose|s: Tile| #[trigger] crate::distance::is_source(src, size, s) && spec_chebyshev(t, s) == d;
    lemma_index_bounds(s, size);
    assert(cells[cell_index(s, size)] != TerrainCell::Floor);
    if 1 <= d <= 2 {
        if !is_floor(cells, size, t) {
            assert(crate::distance::is_source(src, size, t));
        }
    }
    if is_floor(cells, size, t) && exists|w: Tile| in_square(w, size) && #[trigger] cells[cell_index(w, size)] != TerrainCell::Floor && spec_chebyshev(t, w) <= 2 {
        let w = choose|w: Tile| in_square(w, size) && #[trigger] cells[cell_index(w, size)] != TerrainCell::Floor && spec_chebyshev(t, w) <= 2;
        lemma_index_bounds(w, size);
        assert(crate::distance::is_source(src, size, w));
        if d == 0 {
            assert(s == t);
        }
    }
}

proof fn lemma_no_walls(cells: Seq<TerrainCell>, size: u16, t: Tile)
    requires
        cells.len() == size * size,
        !crate::distance::has_source(walls_of(cells), size),
    ensures
        !exists|w: Tile| in_square(w, size) && #[trigger] cells[cell_index(w, size)] != TerrainCell::Floor && spec_chebyshev(t, w) <= 2,
{
    if exists|w: Tile| in_square(w, size) && #[trigger] cells[cell_index(w, size)] != TerrainCell::Floor && spec_chebyshev(t, w) <= 2 {
        let w = choose|w: Tile| in_square(w, size) && #[trigger] cells[cell_index(w, size)] != TerrainCell::Floor && spec_chebyshev(t, w) <= 2;
        lemma_index_bounds(w, size);
        assert(crate::distance::is_source(walls_of(cells), size, w));
    }
}

proof fn lemma_ore_distance(cells: Seq<TerrainCell>, size: u16, dist: Seq<u16>, t: Tile)
    requires
        cells.len() == size * size,
        distance_field(walls_of(cells), size, dist),
        in_square(t, size),
    ensures
        (1 <= dist[cell_index(t, size)] <= 2) <==> (is_floor(cells, size, t)
            && exists|w: Tile| in_square(w, size) && #[trigger] cells[cell_index(w, size)] != TerrainCell::Floor && spec_chebyshev(t, w) <= 2),
{
    lemma_index_bounds(t, size);
    if crate::distance::has_source(walls_of(cells), size) {
        let d = dist[cell_index(t, size)];
        assert(forall|s: Tile| #[trigger] crate::distance::is_source(walls_of(cells), size, s) ==> d <= spec_chebyshev(t, s));
        lemma_ore_distance_core(cells, size, t, d as int);
    } else {
        lemma_no_walls(cells, size, t);
    }
}

fn keep_out_exec(size: u16) -> (k: i32)
    ensures
        k == keep_out(size),
{
    let k = size / 8;
    if k < 2 { 2 } else if k > 5 { 5 } else { k as i32 }
}

fn starts_allow(starts: &Vec<Start>, keep: i32, t: Tile, Ghost(size): Ghost<u16>) -> (r: bool)
    requires
        keep == keep_out(size),
    ensures
        r == forall|i: int| 0 <= i < starts@.len() ==> spec_chebyshev((#[trigger] starts@[i]).anchor, t) > keep_out(size)
            && forall|j: int| 0 <= j < starts@[i].entities@.len() ==> (#[trigger] starts@[i].entities@[j]).1 != t,
{
    let mut i: usize = 0;
    while i < starts.len()
        invariant
            keep == keep_out(size),
            0 <= i <= starts@.len(),
            forall|k: int| 0 <= k < i ==> spec_chebyshev((#[trigger] starts@[k]).anchor, t) > keep_out(size)
                && forall|j: int| 0 <= j < starts@[k].entities@.len() ==> (#[trigger] starts@[k].entities@[j]).1 != t,
        decreases starts.len() - i,
    {
        let s = &starts[i];
        assert(starts@[i as int] == *s);
        if chebyshev(s.anchor, t) <= keep {
            return false;
        }
        let mut j: usize = 0;
        while j < s.entities.len()
            invariant
                0 <= i < starts@.len(),
                *s == starts@[i as int],
                0 <= j <= s.entities@.len(),
                forall|m: int| 0 <= m < j ==> (#[trigger] s.entities@[m]).1 != t,
            decreases s.entities.len() - j,
        {
            if s.entities[j].1 == t {
                assert(starts@[i as int].entities@[j as int].1 == t);
                return false;
            }
            j += 1;
        }
        i += 1;
    }
    true
}

/// `t` may hold ore (see `ore_allowed`).
fn allowed(g: &Grid, dist: &Vec<u16>, starts: &Vec<Start>, keep: i32, t: Tile) -> (r: bool)
    requires
        g.wf(),
        distance_field(walls_of(g.cells@), g.size, dist@),
        keep == keep_out(g.size),
        in_square(t, g.size),
    ensures
        r == ore_allowed(g.cells@, g.size, starts@, t),
{
    proof {
        lemma_ore_distance(g.cells@, g.size, dist@, t);
    }
    let d = dist[g.idx(t)];
    if d < 1 || d > 2 {
        return false;
    }
    starts_allow(starts, keep, t, Ghost(g.size))
}

/// Some wall (a cell that is not floor) lies within `k` king moves of `t`.
pub open spec fn wall_within(cells: Seq<TerrainCell>, size: u16, t: Tile, k: int) -> bool {
    exists|w: Tile| in_square(w, size) && #[trigger] cells[cell_index(w, size)] != TerrainCell::Floor && spec_chebyshev(t, w) <= k
}

/// A room edge: an allowed tile next to a wall, with a tile at least three king moves from every
/// wall within three king moves of it (so corridors are skipped).
pub open spec fn room_edge(cells: Seq<TerrainCell>, size: u16, starts: Seq<Start>, t: Tile) -> bool {
    &&& ore_allowed(cells, size, starts, t)
    &&& wall_within(cells, size, t, 1)
    &&& exists|o: Tile| in_square(o, size) && spec_chebyshev(t, o) <= 3 && !#[trigger] wall_within(cells, size, o, 2)
}

/// The tiles of the square in row-major order.
pub open spec fn row_major(size: u16) -> Seq<Tile> {
    Seq::new((size * size) as nat, |i: int| Tile { x: (i % size as int) as u16, y: (i / size as int) as u16 })
}

/// The distance field counts king moves to the nearest wall.
proof fn lemma_wall_within(cells: Seq<TerrainCell>, size: u16, dist: Seq<u16>, t: Tile, k: int)
    requires
        cells.len() == size * size,
        distance_field(walls_of(cells), size, dist),
        in_square(t, size),
        0 <= k < u16::MAX,
    ensures
        dist[cell_index(t, size)] <= k <==> wall_within(cells, size, t, k),
{
    let src = walls_of(cells);
    lemma_index_bounds(t, size);
    let d = dist[cell_index(t, size)];
    if crate::distance::has_source(src, size) {
        assert(forall|s: Tile| #[trigger] crate::distance::is_source(src, size, s) ==> d <= spec_chebyshev(t, s));
        let s = choose|s: Tile| #[trigger] crate::distance::is_source(src, size, s) && spec_chebyshev(t, s) == d;
        lemma_index_bounds(s, size);
        assert(cells[cell_index(s, size)] != TerrainCell::Floor);
        if wall_within(cells, size, t, k) {
            let w = choose|w: Tile| in_square(w, size) && #[trigger] cells[cell_index(w, size)] != TerrainCell::Floor && spec_chebyshev(t, w) <= k;
            lemma_index_bounds(w, size);
            assert(crate::distance::is_source(src, size, w));
        }
    } else {
        if wall_within(cells, size, t, k) {
            let w = choose|w: Tile| in_square(w, size) && #[trigger] cells[cell_index(w, size)] != TerrainCell::Floor && spec_chebyshev(t, w) <= k;
            lemma_index_bounds(w, size);
            assert(crate::distance::is_source(src, size, w));
        }
    }
}

/// A room edge: an allowed wall-hugging tile with some cell at least three from any wall within
/// three king moves, so corridors are skipped.
fn edge(g: &Grid, dist: &Vec<u16>, starts: &Vec<Start>, keep: i32, t: Tile) -> (r: bool)
    requires
        g.wf(),
        distance_field(walls_of(g.cells@), g.size, dist@),
        keep == keep_out(g.size),
        in_square(t, g.size),
    ensures
        r == room_edge(g.cells@, g.size, starts@, t),
        r ==> ore_allowed(g.cells@, g.size, starts@, t),
{
    proof {
        lemma_ore_distance(g.cells@, g.size, dist@, t);
        lemma_wall_within(g.cells@, g.size, dist@, t, 1);
    }
    if !allowed(g, dist, starts, keep, t) || dist[g.idx(t)] != 1 {
        return false;
    }
    let mut dy: i32 = -3;
    while dy <= 3
        invariant
            g.wf(),
            distance_field(walls_of(g.cells@), g.size, dist@),
            -3 <= dy <= 4,
            in_square(t, g.size),
            ore_allowed(g.cells@, g.size, starts@, t),
            wall_within(g.cells@, g.size, t, 1),
            forall|o: Tile| in_square(o, g.size) && spec_chebyshev(t, o) <= 3 && o.y - t.y < dy
                ==> #[trigger] dist@[cell_index(o, g.size)] < 3,
        decreases 4 - dy,
    {
        let mut dx: i32 = -3;
        while dx <= 3
            invariant
                g.wf(),
                distance_field(walls_of(g.cells@), g.size, dist@),
                -3 <= dy <= 3,
                -3 <= dx <= 4,
                in_square(t, g.size),
                ore_allowed(g.cells@, g.size, starts@, t),
                wall_within(g.cells@, g.size, t, 1),
                forall|o: Tile| in_square(o, g.size) && spec_chebyshev(t, o) <= 3 && (o.y - t.y < dy || (o.y - t.y == dy && o.x - t.x < dx))
                    ==> #[trigger] dist@[cell_index(o, g.size)] < 3,
            decreases 4 - dx,
        {
            match g.tile(t.x as i32 + dx, t.y as i32 + dy) {
                Some(o) => {
                    if dist[g.idx(o)] >= 3 {
                        proof {
                            lemma_wall_within(g.cells@, g.size, dist@, o, 2);
                            assert(in_square(o, g.size) && spec_chebyshev(t, o) <= 3 && !wall_within(g.cells@, g.size, o, 2));
                        }
                        return true;
                    }
                    assert forall|p: Tile| in_square(p, g.size) && spec_chebyshev(t, p) <= 3 && (p.y - t.y < dy || (p.y - t.y == dy && p.x - t.x < dx + 1))
                        implies #[trigger] dist@[cell_index(p, g.size)] < 3 by {
                        if p.y - t.y == dy && p.x - t.x == dx {
                            assert(p.x == o.x && p.y == o.y);
                        }
                    }
                },
                None => {
                },
            }
            dx += 1;
        }
        dy += 1;
    }
    proof {
        assert forall|o: Tile| in_square(o, g.size) && spec_chebyshev(t, o) <= 3 implies #[trigger] wall_within(g.cells@, g.size, o, 2) by {
            lemma_index_bounds(o, g.size);
            assert(dist@[cell_index(o, g.size)] < 3);
            lemma_wall_within(g.cells@, g.size, dist@, o, 2);
        }
    }
    false
}

/// Room-edge tiles in row-major order.
fn collect_heads(g: &Grid, dist: &Vec<u16>, starts: &Vec<Start>, keep: i32) -> (heads: Vec<Tile>)
    requires
        g.wf(),
        distance_field(walls_of(g.cells@), g.size, dist@),
        keep == keep_out(g.size),
    ensures
        heads@ == row_major(g.size).filter(|t: Tile| room_edge(g.cells@, g.size, starts@, t)),
        forall|i: int| 0 <= i < heads@.len() ==> in_square(#[trigger] heads@[i], g.size) && ore_allowed(g.cells@, g.size, starts@, heads@[i]),
{
    let ghost pred = |t: Tile| room_edge(g.cells@, g.size, starts@, t);
    let ghost all = row_major(g.size);
    let mut heads: Vec<Tile> = Vec::new();
    let mut y: u16 = 0;
    while y < g.size
        invariant
            g.wf(),
            distance_field(walls_of(g.cells@), g.size, dist@),
            keep == keep_out(g.size),
            y <= g.size,
            pred == (|t: Tile| room_edge(g.cells@, g.size, starts@, t)),
            all == row_major(g.size),
            heads@ == all.take(y * g.size).filter(pred),
            forall|i: int| 0 <= i < heads@.len() ==> in_square(#[trigger] heads@[i], g.size) && ore_allowed(g.cells@, g.size, starts@, heads@[i]),
        decreases g.size - y,
    {
        let mut x: u16 = 0;
        while x < g.size
            invariant
                g.wf(),
                y < g.size,
                x <= g.size,
                distance_field(walls_of(g.cells@), g.size, dist@),
                keep == keep_out(g.size),
                pred == (|t: Tile| room_edge(g.cells@, g.size, starts@, t)),
                all == row_major(g.size),
                heads@ == all.take(y * g.size + x).filter(pred),
                forall|i: int| 0 <= i < heads@.len() ==> in_square(#[trigger] heads@[i], g.size) && ore_allowed(g.cells@, g.size, starts@, heads@[i]),
            decreases g.size - x,
        {
            let t = Tile { x, y };
            proof {
                lemma_index_bounds(t, g.size);
                let i = y * g.size + x;
                vstd::arithmetic::div_mod::lemma_fundamental_div_mod_converse(i, g.size as int, y as int, x as int);
                assert(all[i] == t);
                assert(all.take(i + 1) == all.take(i).push(t));
                all.take(i).lemma_filter_push(t, pred);
            }
            if edge(g, dist, starts, keep, t) {
                heads.push(t);
            }
            x += 1;
        }
        proof {
            assert(y * g.size + g.size == (y + 1) * g.size) by (nonlinear_arith);
        }
        y += 1;
    }
    proof {
        assert(all.take(g.size * g.size) == all);
    }
    heads
}

/// Some tile within one king move of `t` (itself included) holds ore.
pub open spec fn touches_ore(ore: Seq<bool>, size: u16, t: Tile) -> bool {
    exists|o: Tile| in_square(o, size) && spec_chebyshev(t, o) <= 1 && #[trigger] ore[cell_index(o, size)]
}

/// Position of `o` in the row-major order of the 3×3 block centred on `t`.
pub open spec fn block_slot(t: Tile, o: Tile) -> int {
    (o.x - t.x + 1) + 3 * (o.y - t.y + 1)
}

/// Some cell of the 3×3 block around `t` holds ore.
fn touching(g: &Grid, ore: &Vec<bool>, t: Tile) -> (r: bool)
    requires
        ore@.len() == g.size * g.size,
        in_square(t, g.size),
    ensures
        r == touches_ore(ore@, g.size, t),
{
    let mut k: usize = 0;
    while k < 9
        invariant
            ore@.len() == g.size * g.size,
            in_square(t, g.size),
            0 <= k <= 9,
            forall|o: Tile| in_square(o, g.size) && spec_chebyshev(t, o) <= 1 && block_slot(t, o) < k
                ==> !(#[trigger] ore@[cell_index(o, g.size)]),
        decreases 9 - k,
    {
        let (dx, dy) = offset8(k);
        match g.tile(t.x as i32 + dx, t.y as i32 + dy) {
            Some(o) => {
                proof {
                    lemma_index_bounds(o, g.size);
                }
                if ore[g.idx(o)] {
                    assert(in_square(o, g.size) && spec_chebyshev(t, o) <= 1 && ore@[cell_index(o, g.size)]);
                    return true;
                }
                assert forall|p: Tile| in_square(p, g.size) && spec_chebyshev(t, p) <= 1 && block_slot(t, p) < k + 1
                    implies !(#[trigger] ore@[cell_index(p, g.size)]) by {
                    if block_slot(t, p) == k {
                        assert(p.x == o.x && p.y == o.y);
                    }
                }
            },
            None => {
                assert forall|p: Tile| in_square(p, g.size) && spec_chebyshev(t, p) <= 1 && block_slot(t, p) < k + 1
                    implies !(#[trigger] ore@[cell_index(p, g.size)]) by {
                    if block_slot(t, p) == k {
                        assert(p.x == t.x + dx && p.y == t.y + dy);
                    }
                }
            },
        }
        k += 1;
    }
    false
}

/// Points consumed before a cluster size reaches `want`: weights 9, 8, ... for sizes 1, 2, ...
pub open spec fn consumed(want: int) -> int
    decreases want,
{
    if want <= 1 {
        0
    } else {
        consumed(want - 1) + (10 - (want - 1))
    }
}

/// The cluster size a roll gives when sizes below `want` have been passed over: size `want` takes
/// the next `10 - want` points of the roll.
pub open spec fn size_from(roll: int, want: int) -> int
    decreases 9 - want,
{
    if want < 9 && roll >= 10 - want {
        size_from(roll - (10 - want), want + 1)
    } else {
        want
    }
}

/// Cluster size from a roll below 45: weights 9..=1 for sizes 1..=9.
fn cluster_size(roll0: u64) -> (want: usize)
    requires
        roll0 < 45,
    ensures
        1 <= want <= 9,
        consumed(want as int) <= roll0 < consumed(want + 1),
        want == size_from(roll0 as int, 1),
{
    let mut roll = roll0;
    let mut want: usize = 1;
    proof {
        reveal_with_fuel(consumed, 11);
        assert(consumed(10) == 45);
    }
    while roll >= (MAX_CLUSTER - (want - 1)) as u64
        invariant
            1 <= want <= 9,
            roll + consumed(want as int) == roll0,
            roll0 < 45,
            consumed(10) == 45,
            size_from(roll as int, want as int) == size_from(roll0 as int, 1),
        decreases 10 - want,
    {
        roll -= (MAX_CLUSTER - (want - 1)) as u64;
        want += 1;
        proof {
            if want == 10 {
                assert(consumed(10) == consumed(9) + 1);
            }
        }
    }
    assert(consumed(want + 1) == consumed(want as int) + (10 - want));
    assert(want == 9 ==> roll < 1) by {
        reveal_with_fuel(consumed, 10);
    }
    want
}

fn next_draw(seed: u64, draw: &mut u64, salt: u64) -> (r: u64)
    requires
        *old(draw) < u64::MAX,
    ensures
        *final(draw) == *old(draw) + 1,
        r == crate::geometry::spec_mix(seed, *final(draw), salt),
{
    *draw = *draw + 1;
    mix(seed, *draw, salt)
}

fn contains_tile(v: &Vec<Tile>, t: Tile) -> (r: bool)
    ensures
        r == v@.contains(t),
{
    let mut i: usize = 0;
    while i < v.len()
        invariant
            0 <= i <= v@.len(),
            forall|j: int| 0 <= j < i ==> v@[j] != t,
        decreases v.len() - i,
    {
        if v[i] == t {
            assert(v@[i as int] == t);
            return true;
        }
        i += 1;
    }
    false
}

/// A tile that may join the cluster: allowed, touching no ore, and in neither the cluster nor the
/// candidates found before it.
pub open spec fn joins_frontier(cells: Seq<TerrainCell>, size: u16, starts: Seq<Start>, ore: Seq<bool>, cluster: Seq<Tile>, found: Seq<Tile>, t: Tile) -> bool {
    &&& in_square(t, size)
    &&& ore_allowed(cells, size, starts, t)
    &&& !touches_ore(ore, size, t)
    &&& !cluster.contains(t)
    &&& !found.contains(t)
}

/// Candidates found after `n` steps of the scan that visits, for each cluster tile in order, its
/// four edge neighbours in the order of `offset`.
pub open spec fn frontier_scan(cells: Seq<TerrainCell>, size: u16, starts: Seq<Start>, ore: Seq<bool>, cluster: Seq<Tile>, n: nat) -> Seq<Tile>
    decreases n,
{
    if n == 0 {
        Seq::empty()
    } else {
        let found = frontier_scan(cells, size, starts, ore, cluster, (n - 1) as nat);
        let at = cluster[(n - 1) / 4];
        let x = at.x + off_x((n - 1) % 4);
        let y = at.y + off_y((n - 1) % 4);
        let t = Tile { x: x as u16, y: y as u16 };
        if 0 <= x && 0 <= y && joins_frontier(cells, size, starts, ore, cluster, found, t) {
            found.push(t)
        } else {
            found
        }
    }
}

/// The frontier of a cluster: the scanned candidates, narrowed to those next to a wall when
/// there are any.
pub open spec fn frontier(cells: Seq<TerrainCell>, size: u16, starts: Seq<Start>, ore: Seq<bool>, cluster: Seq<Tile>) -> Seq<Tile> {
    let found = frontier_scan(cells, size, starts, ore, cluster, 4 * cluster.len());
    if exists|i: int| 0 <= i < found.len() && #[trigger] wall_within(cells, size, found[i], 1) {
        found.filter(|t: Tile| wall_within(cells, size, t, 1))
    } else {
        found
    }
}

/// Allowed tiles next to the cluster that touch no ore and are not taken yet; wall-hugging ones
/// only, when there are any.
fn frontier_of(g: &Grid, dist: &Vec<u16>, starts: &Vec<Start>, keep: i32, ore: &Vec<bool>, cluster: &Vec<Tile>) -> (f: Vec<Tile>)
    requires
        g.wf(),
        distance_field(walls_of(g.cells@), g.size, dist@),
        keep == keep_out(g.size),
        ore@.len() == g.size * g.size,
        forall|i: int| 0 <= i < cluster@.len() ==> in_square(#[trigger] cluster@[i], g.size),
    ensures
        f@ == frontier(g.cells@, g.size, starts@, ore@, cluster@),
        forall|i: int| 0 <= i < f@.len() ==> in_square(#[trigger] f@[i], g.size) && ore_allowed(g.cells@, g.size, starts@, f@[i]),
{
    let ghost cells = g.cells@;
    let mut frontier: Vec<Tile> = Vec::new();
    let mut c: usize = 0;
    while c < cluster.len()
        invariant
            g.wf(),
            cells == g.cells@,
            distance_field(walls_of(g.cells@), g.size, dist@),
            keep == keep_out(g.size),
            ore@.len() == g.size * g.size,
            forall|i: int| 0 <= i < cluster@.len() ==> in_square(#[trigger] cluster@[i], g.size),
            0 <= c <= cluster@.len(),
            frontier@ == frontier_scan(cells, g.size, starts@, ore@, cluster@, (4 * c) as nat),
            forall|i: int| 0 <= i < frontier@.len() ==> in_square(#[trigger] frontier@[i], g.size) && ore_allowed(g.cells@, g.size, starts@, frontier@[i]),
        decreases cluster.len() - c,
    {
        let at = cluster[c];
        let mut k: usize = 0;
        while k < 4
            invariant
                g.wf(),
                cells == g.cells@,
                distance_field(walls_of(g.cells@), g.size, dist@),
                keep == keep_out(g.size),
                ore@.len() == g.size * g.size,
                0 <= c < cluster@.len(),
                at == cluster@[c as int],
                in_square(at, g.size),
                0 <= k <= 4,
                frontier@ == frontier_scan(cells, g.size, starts@, ore@, cluster@, (4 * c + k) as nat),
                forall|i: int| 0 <= i < frontier@.len() ==> in_square(#[trigger] frontier@[i], g.size) && ore_allowed(g.cells@, g.size, starts@, frontier@[i]),
            decreases 4 - k,
        {
            let (dx, dy) = offset(k);
            proof {
                vstd::arithmetic::div_mod::lemma_fundamental_div_mod_converse(4 * c + k, 4, c as int, k as int);
                assert((4 * c + k + 1 - 1) as int == 4 * c + k);
            }
            let ghost found = frontier@;
            match g.tile(at.x as i32 + dx, at.y as i32 + dy) {
                Some(t) => {
                    if allowed(g, dist, starts, keep, t) && !touching(g, ore, t) && !contains_tile(cluster, t) && !contains_tile(&frontier, t) {
                        frontier.push(t);
                    }
                },
                None => {
                },
            }
            assert(frontier@ == frontier_scan(cells, g.size, starts@, ore@, cluster@, (4 * c + k + 1) as nat));
            k += 1;
        }
        c += 1;
    }
    let ghost found = frontier@;
    let ghost hug = |t: Tile| wall_within(cells, g.size, t, 1);
    let mut hugging = false;
    let mut i: usize = 0;
    while i < frontier.len()
        invariant
            g.wf(),
            cells == g.cells@,
            distance_field(walls_of(g.cells@), g.size, dist@),
            0 <= i <= frontier@.len(),
            forall|j: int| 0 <= j < frontier@.len() ==> in_square(#[trigger] frontier@[j], g.size) && ore_allowed(g.cells@, g.size, starts@, frontier@[j]),
            hugging == exists|j: int| 0 <= j < i && #[trigger] wall_within(cells, g.size, frontier@[j], 1),
        decreases frontier.len() - i,
    {
        proof {
            lemma_ore_distance(cells, g.size, dist@, frontier@[i as int]);
            lemma_wall_within(cells, g.size, dist@, frontier@[i as int], 1);
        }
        if dist[g.idx(frontier[i])] == 1 {
            hugging = true;
        }
        i += 1;
    }
    if !hugging {
        return frontier;
    }
    let mut kept: Vec<Tile> = Vec::new();
    let mut i: usize = 0;
    while i < frontier.len()
        invariant
            g.wf(),
            cells == g.cells@,
            distance_field(walls_of(g.cells@), g.size, dist@),
            hug == (|t: Tile| wall_within(cells, g.size, t, 1)),
            0 <= i <= frontier@.len(),
            forall|j: int| 0 <= j < frontier@.len() ==> in_square(#[trigger] frontier@[j], g.size) && ore_allowed(g.cells@, g.size, starts@, frontier@[j]),
            forall|j: int| 0 <= j < kept@.len() ==> in_square(#[trigger] kept@[j], g.size) && ore_allowed(g.cells@, g.size, starts@, kept@[j]),
            kept@ == frontier@.take(i as int).filter(hug),
        decreases frontier.len() - i,
    {
        let t = frontier[i];
        proof {
            lemma_ore_distance(cells, g.size, dist@, t);
            lemma_wall_within(cells, g.size, dist@, t, 1);
            assert(frontier@.take(i + 1) == frontier@.take(i as int).push(t));
            frontier@.take(i as int).lemma_filter_push(t, hug);
        }
        if dist[g.idx(t)] == 1 {
            kept.push(t);
        }
        i += 1;
    }
    proof {
        assert(frontier@.take(i as int) == frontier@);
    }
    kept
}

/// A cluster grown toward `want` tiles, with the draw counter after it: each step draws once and
/// adds the frontier tile that the draw picks; growth stops early when the frontier is empty.
pub open spec fn grown(cells: Seq<TerrainCell>, size: u16, starts: Seq<Start>, ore: Seq<bool>, seed: u64, want: int, cluster: Seq<Tile>, draw: u64) -> (Seq<Tile>, u64)
    decreases want - cluster.len(),
{
    if cluster.len() >= want {
        (cluster, draw)
    } else {
        let f = frontier(cells, size, starts, ore, cluster);
        if f.len() == 0 {
            (cluster, draw)
        } else {
            let d = (draw + 1) as u64;
            let pick = crate::geometry::spec_mix(seed, d, 4) as int % f.len() as int;
            grown(cells, size, starts, ore, seed, want, cluster.push(f[pick]), d)
        }
    }
}

/// Grows a cluster of up to `want` tiles from `head`, one random frontier tile at a time.
fn grow_cluster(
    g: &Grid,
    dist: &Vec<u16>,
    starts: &Vec<Start>,
    keep: i32,
    ore: &Vec<bool>,
    head: Tile,
    want: usize,
    seed: u64,
    draw: &mut u64,
) -> (cluster: Vec<Tile>)
    requires
        g.wf(),
        distance_field(walls_of(g.cells@), g.size, dist@),
        keep == keep_out(g.size),
        ore@.len() == g.size * g.size,
        in_square(head, g.size),
        ore_allowed(g.cells@, g.size, starts@, head),
        1 <= want <= 9,
        *old(draw) <= u64::MAX - 9,
    ensures
        1 <= cluster@.len() <= 9,
        forall|i: int| 0 <= i < cluster@.len() ==> in_square(#[trigger] cluster@[i], g.size) && ore_allowed(g.cells@, g.size, starts@, cluster@[i]),
        *old(draw) <= *final(draw) <= *old(draw) + 9,
        (cluster@, *final(draw)) == grown(g.cells@, g.size, starts@, ore@, seed, want as int, seq![head], *old(draw)),
{
    let ghost draw0 = *draw;
    let mut cluster: Vec<Tile> = Vec::new();
    cluster.push(head);
    let ghost result = grown(g.cells@, g.size, starts@, ore@, seed, want as int, seq![head], draw0);
    assert(cluster@ == seq![head]);
    while cluster.len() < want
        invariant
            g.wf(),
            distance_field(walls_of(g.cells@), g.size, dist@),
            keep == keep_out(g.size),
            ore@.len() == g.size * g.size,
            1 <= want <= 9,
            1 <= cluster@.len() <= want,
            forall|i: int| 0 <= i < cluster@.len() ==> in_square(#[trigger] cluster@[i], g.size) && ore_allowed(g.cells@, g.size, starts@, cluster@[i]),
            draw0 <= *draw <= draw0 + cluster@.len() - 1,
            draw0 <= u64::MAX - 9,
            grown(g.cells@, g.size, starts@, ore@, seed, want as int, cluster@, *draw) == result,
        ensures
            1 <= cluster@.len() <= want,
            forall|i: int| 0 <= i < cluster@.len() ==> in_square(#[trigger] cluster@[i], g.size) && ore_allowed(g.cells@, g.size, starts@, cluster@[i]),
            draw0 <= *draw <= draw0 + cluster@.len() - 1,
            (cluster@, *draw) == result,
        decreases want - cluster.len(),
    {
        let frontier = frontier_of(g, dist, starts, keep, ore, &cluster);
        if frontier.len() == 0 {
            break;
        }
        let r = next_draw(seed, draw, 4);
        let pick = (r % (frontier.len() as u64)) as usize;
        cluster.push(frontier[pick]);
    }
    cluster
}

/// The cluster turned by each symmetry turn, each copy in the cluster's order.
pub open spec fn turned_copies_of(cluster: Seq<Tile>, size: u16, turns: Seq<u8>) -> Seq<Seq<Tile>> {
    Seq::new(turns.len(), |k: int| Seq::new(cluster.len(), |i: int| rotated(cluster[i], size, turns[k])))
}

/// The contents of each copy.
pub open spec fn copy_views(copies: Seq<Vec<Tile>>) -> Seq<Seq<Tile>> {
    copies.map_values(|c: Vec<Tile>| c@)
}

/// The cluster and its turns, each copy in the cluster's order.
fn turned_copies(cluster: &Vec<Tile>, turns: &Vec<u8>, size: u16) -> (copies: Vec<Vec<Tile>>)
    requires
        forall|i: int| 0 <= i < cluster@.len() ==> in_square(#[trigger] cluster@[i], size),
    ensures
        copy_views(copies@) == turned_copies_of(cluster@, size, turns@),
        copies@.len() == turns@.len(),
        forall|k: int| 0 <= k < copies@.len() ==> (#[trigger] copies@[k])@.len() == cluster@.len(),
        forall|k: int, i: int| 0 <= k < copies@.len() && 0 <= i < cluster@.len() ==>
            (#[trigger] copies@[k]@[i]) == rotated(cluster@[i], size, turns@[k]) && in_square(copies@[k]@[i], size),
{
    let mut copies: Vec<Vec<Tile>> = Vec::new();
    let mut k: usize = 0;
    while k < turns.len()
        invariant
            forall|i: int| 0 <= i < cluster@.len() ==> in_square(#[trigger] cluster@[i], size),
            0 <= k <= turns@.len(),
            copies@.len() == k,
            forall|m: int| 0 <= m < k ==> (#[trigger] copies@[m])@.len() == cluster@.len(),
            forall|m: int, i: int| 0 <= m < k && 0 <= i < cluster@.len() ==>
                (#[trigger] copies@[m]@[i]) == rotated(cluster@[i], size, turns@[m]) && in_square(copies@[m]@[i], size),
        decreases turns.len() - k,
    {
        let mut copy: Vec<Tile> = Vec::new();
        let mut i: usize = 0;
        while i < cluster.len()
            invariant
                forall|j: int| 0 <= j < cluster@.len() ==> in_square(#[trigger] cluster@[j], size),
                0 <= k < turns@.len(),
                0 <= i <= cluster@.len(),
                copy@.len() == i,
                forall|j: int| 0 <= j < i ==> (#[trigger] copy@[j]) == rotated(cluster@[j], size, turns@[k as int]) && in_square(copy@[j], size),
            decreases cluster.len() - i,
        {
            copy.push(rotate(cluster[i], size, turns[k]));
            i += 1;
        }
        copies.push(copy);
        k += 1;
    }
    proof {
        let m = copy_views(copies@);
        let t = turned_copies_of(cluster@, size, turns@);
        assert forall|k: int| 0 <= k < t.len() implies #[trigger] m[k] == t[k] by {
            assert(m[k] =~= t[k]);
        }
        assert(m =~= t);
    }
    copies
}

/// No tile of one copy lies within a king move of a tile of an earlier copy.
pub open spec fn copies_apart(copies: Seq<Seq<Tile>>) -> bool {
    forall|a: int, b: int, x: int, y: int|
        0 <= b < a < copies.len() && 0 <= x < copies[a].len() && 0 <= y < copies[b].len()
            ==> #[trigger] spec_chebyshev(copies[a][x], copies[b][y]) > 1
}

/// No tile of one copy is within a king move of a tile of another.
fn separate(copies: &Vec<Vec<Tile>>) -> (r: bool)
    ensures
        r == copies_apart(copy_views(copies@)),
{
    let ghost m = copy_views(copies@);
    let mut i: usize = 0;
    while i < copies.len()
        invariant
            m == copy_views(copies@),
            0 <= i <= copies@.len(),
            forall|a: int, b: int, x: int, y: int|
                0 <= b < a < i && 0 <= x < copies@[a]@.len() && 0 <= y < copies@[b]@.len()
                    ==> #[trigger] spec_chebyshev(copies@[a]@[x], copies@[b]@[y]) > 1,
        decreases copies.len() - i,
    {
        let mut j: usize = 0;
        while j < i
            invariant
                m == copy_views(copies@),
                0 <= j <= i < copies@.len(),
                forall|a: int, b: int, x: int, y: int|
                    ((0 <= b < a < i) || (a == i && 0 <= b < j)) && 0 <= x < copies@[a]@.len() && 0 <= y < copies@[b]@.len()
                        ==> #[trigger] spec_chebyshev(copies@[a]@[x], copies@[b]@[y]) > 1,
            decreases i - j,
        {
            let a = &copies[i];
            let b = &copies[j];
            let mut x: usize = 0;
            while x < a.len()
                invariant
                    m == copy_views(copies@),
                    0 <= j < i < copies@.len(),
                    *a == copies@[i as int],
                    *b == copies@[j as int],
                    0 <= x <= a@.len(),
                    forall|p: int, q: int, u: int, v: int|
                        ((0 <= q < p < i) || (p == i && 0 <= q < j) || (p == i && q == j && u < x)) && 0 <= u < copies@[p]@.len() && 0 <= v < copies@[q]@.len()
                            ==> #[trigger] spec_chebyshev(copies@[p]@[u], copies@[q]@[v]) > 1,
                decreases a.len() - x,
            {
                let mut y: usize = 0;
                while y < b.len()
                    invariant
                        m == copy_views(copies@),
                        0 <= j < i < copies@.len(),
                        *a == copies@[i as int],
                        *b == copies@[j as int],
                        0 <= x < a@.len(),
                        0 <= y <= b@.len(),
                        forall|p: int, q: int, u: int, v: int|
                            ((0 <= q < p < i) || (p == i && 0 <= q < j) || (p == i && q == j && u < x) || (p == i && q == j && u == x && v < y))
                                && 0 <= u < copies@[p]@.len() && 0 <= v < copies@[q]@.len()
                                ==> #[trigger] spec_chebyshev(copies@[p]@[u], copies@[q]@[v]) > 1,
                    decreases b.len() - y,
                {
                    if chebyshev(a[x], b[y]) <= 1 {
                        assert(m[i as int] == copies@[i as int]@ && m[j as int] == copies@[j as int]@);
                        assert(spec_chebyshev(m[i as int][x as int], m[j as int][y as int]) <= 1);
                        return false;
                    }
                    y += 1;
                }
                x += 1;
            }
            j += 1;
        }
        i += 1;
    }
    assert forall|a: int, b: int, x: int, y: int|
        0 <= b < a < m.len() && 0 <= x < m[a].len() && 0 <= y < m[b].len()
            implies #[trigger] spec_chebyshev(m[a][x], m[b][y]) > 1 by {
        assert(m[a] == copies@[a]@ && m[b] == copies@[b]@);
        assert(spec_chebyshev(copies@[a]@[x], copies@[b]@[y]) > 1);
    }
    true
}

/// Ore tiles so far are all turns of allowed tiles.
pub open spec fn all_placed(cells: Seq<TerrainCell>, size: u16, starts: Seq<Start>, turns: Seq<u8>, tiles: Seq<Tile>) -> bool {
    forall|i: int| 0 <= i < tiles.len() ==> in_square(#[trigger] tiles[i], size) && ore_placed(cells, size, starts, turns, tiles[i])
}

/// Heads within reach of `anchor`.
fn close_heads(heads: &Vec<Tile>, anchor: Tile) -> (close: Vec<Tile>)
    ensures
        close@ == heads@.filter(|t: Tile| spec_chebyshev(anchor, t) <= NEAR_START),
        forall|i: int| 0 <= i < close@.len() ==> heads@.contains(#[trigger] close@[i]),
{
    let ghost pred = |t: Tile| spec_chebyshev(anchor, t) <= NEAR_START;
    let mut close: Vec<Tile> = Vec::new();
    let mut i: usize = 0;
    while i < heads.len()
        invariant
            0 <= i <= heads@.len(),
            pred == (|t: Tile| spec_chebyshev(anchor, t) <= NEAR_START),
            close@ == heads@.take(i as int).filter(pred),
            forall|j: int| 0 <= j < close@.len() ==> heads@.contains(#[trigger] close@[j]),
        decreases heads.len() - i,
    {
        proof {
            assert(heads@.take(i + 1) == heads@.take(i as int).push(heads@[i as int]));
            heads@.take(i as int).lemma_filter_push(heads@[i as int], pred);
        }
        if chebyshev(anchor, heads[i]) <= NEAR_START {
            close.push(heads[i]);
            assert(heads@[i as int] == heads[i as int]);
        }
        i += 1;
    }
    proof {
        assert(heads@.take(i as int) == heads@);
    }
    close
}

/// The fixed inputs of ore placement: the terrain, the starts, the room-edge heads, the symmetry
/// turns, the salted seed and the start anchors still owed a nearby cluster, in order.
pub struct OreSetting {
    pub cells: Seq<TerrainCell>,
    pub size: u16,
    pub starts: Seq<Start>,
    pub heads: Seq<Tile>,
    pub turns: Seq<u8>,
    pub seed: u64,
    pub near_starts: Seq<Tile>,
}

/// Ore placement so far: the next start owed a cluster, the ore cells, the ore tiles in placement
/// order, the copies placed and the draw counter.
pub struct OreProgress {
    pub near: usize,
    pub ore: Seq<bool>,
    pub tiles: Seq<Tile>,
    pub placed: usize,
    pub draw: u64,
}

pub open spec fn ore_setting(cells: Seq<TerrainCell>, size: u16, starts: Seq<Start>, heads: Seq<Tile>, turns: Seq<u8>, seed: u64, near_starts: Seq<Tile>) -> OreSetting {
    OreSetting { cells, size, starts, heads, turns, seed, near_starts }
}

pub open spec fn ore_progress(near: usize, ore: Seq<bool>, tiles: Seq<Tile>, placed: usize, draw: u64) -> OreProgress {
    OreProgress { near, ore, tiles, placed, draw }
}

/// The copies one after another.
pub open spec fn joined(copies: Seq<Seq<Tile>>) -> Seq<Tile>
    decreases copies.len(),
{
    if copies.len() == 0 {
        Seq::empty()
    } else {
        joined(copies.drop_last()) + copies.last()
    }
}

/// `ore` with the cells of `ts` marked.
pub open spec fn with_ore(ore: Seq<bool>, size: u16, ts: Seq<Tile>) -> Seq<bool> {
    Seq::new(ore.len(), |i: int| ore[i] || exists|j: int| 0 <= j < ts.len() && #[trigger] cell_index(ts[j], size) == i)
}

proof fn lemma_with_ore_push(ore: Seq<bool>, size: u16, ts: Seq<Tile>, t: Tile)
    requires
        0 <= cell_index(t, size) < ore.len(),
    ensures
        with_ore(ore, size, ts.push(t)) == with_ore(ore, size, ts).update(cell_index(t, size), true),
{
    let l = with_ore(ore, size, ts.push(t));
    let r = with_ore(ore, size, ts).update(cell_index(t, size), true);
    assert forall|i: int| 0 <= i < ore.len() implies l[i] == r[i] by {
        if i == cell_index(t, size) {
            assert(ts.push(t)[ts.len() as int] == t);
        } else {
            if exists|j: int| 0 <= j < ts.len() + 1 && #[trigger] cell_index(ts.push(t)[j], size) == i {
                let j = choose|j: int| 0 <= j < ts.len() + 1 && #[trigger] cell_index(ts.push(t)[j], size) == i;
                assert(j < ts.len());
                assert(ts.push(t)[j] == ts[j]);
            }
            if exists|j: int| 0 <= j < ts.len() && #[trigger] cell_index(ts[j], size) == i {
                let j = choose|j: int| 0 <= j < ts.len() && #[trigger] cell_index(ts[j], size) == i;
                assert(ts.push(t)[j] == ts[j]);
            }
        }
    }
    assert(l =~= r);
}

/// The heads an attempt draws from: those within reach of the next start still owed a cluster,
/// or all of them once every start has one.
pub open spec fn head_pool(w: OreSetting, s: OreProgress) -> Seq<Tile> {
    if s.near < w.near_starts.len() {
        w.heads.filter(|t: Tile| spec_chebyshev(w.near_starts[s.near as int], t) <= NEAR_START)
    } else {
        w.heads
    }
}

/// One placement attempt (see `try_place`).
pub open spec fn attempt(w: OreSetting, s: OreProgress) -> OreProgress {
    let pool = head_pool(w, s);
    if pool.len() == 0 {
        s
    } else {
        let d1 = (s.draw + 1) as u64;
        let head = pool[crate::geometry::spec_mix(w.seed, d1, 1) as int % pool.len() as int];
        if touches_ore(s.ore, w.size, head) {
            ore_progress(s.near, s.ore, s.tiles, s.placed, d1)
        } else {
            let d2 = (d1 + 1) as u64;
            let want = size_from(crate::geometry::spec_mix(w.seed, d2, 3) as int % 45, 1);
            let grown_cluster = grown(w.cells, w.size, w.starts, s.ore, w.seed, want, seq![head], d2);
            let copies = turned_copies_of(grown_cluster.0, w.size, w.turns);
            if !copies_apart(copies) {
                ore_progress(s.near, s.ore, s.tiles, s.placed, grown_cluster.1)
            } else {
                let near = if s.near < w.near_starts.len() { (s.near + 1) as usize } else { s.near };
                let added = joined(copies);
                ore_progress(near, with_ore(s.ore, w.size, added), s.tiles + added, (s.placed + w.turns.len()) as usize, grown_cluster.1)
            }
        }
    }
}

/// One placement attempt: pick a head (near the next start still owed a cluster, if any), grow
/// a cluster of a random size from it, and place it with its turns unless the copies touch.
fn try_place(
    g: &Grid,
    dist: &Vec<u16>,
    starts: &Vec<Start>,
    keep: i32,
    heads: &Vec<Tile>,
    turns: &Vec<u8>,
    seed: u64,
    near_starts: &Vec<Tile>,
    near: &mut usize,
    ore: &mut Vec<bool>,
    tiles: &mut Vec<Tile>,
    placed: &mut usize,
    draw: &mut u64,
)
    requires
        g.wf(),
        distance_field(walls_of(g.cells@), g.size, dist@),
        keep == keep_out(g.size),
        heads@.len() > 0,
        forall|i: int| 0 <= i < heads@.len() ==> in_square(#[trigger] heads@[i], g.size) && ore_allowed(g.cells@, g.size, starts@, heads@[i]),
        turns@.len() <= 4,
        *old(near) <= near_starts@.len(),
        old(ore)@.len() == g.size * g.size,
        all_placed(g.cells@, g.size, starts@, turns@, old(tiles)@),
        *old(draw) <= u64::MAX - 11,
        *old(placed) <= usize::MAX - 4,
    ensures
        ore_progress(*final(near), final(ore)@, final(tiles)@, *final(placed), *final(draw)) == attempt(
            ore_setting(g.cells@, g.size, starts@, heads@, turns@, seed, near_starts@),
            ore_progress(*old(near), old(ore)@, old(tiles)@, *old(placed), *old(draw)),
        ),
        *final(near) <= near_starts@.len(),
        final(ore)@.len() == g.size * g.size,
        all_placed(g.cells@, g.size, starts@, turns@, final(tiles)@),
        *old(draw) <= *final(draw) <= *old(draw) + 11,
        *old(placed) <= *final(placed) <= *old(placed) + 4,
{
    let size = g.size;
    let ghost w = ore_setting(g.cells@, g.size, starts@, heads@, turns@, seed, near_starts@);
    let ghost s0 = ore_progress(*near, ore@, tiles@, *placed, *draw);
    let ghost pool = head_pool(w, s0);
    let head = if *near < near_starts.len() {
        let close = close_heads(heads, near_starts[*near]);
        assert(close@ == pool);
        if close.len() == 0 {
            return;
        }
        let r = next_draw(seed, draw, 1);
        let h = close[(r % (close.len() as u64)) as usize];
        proof {
            let j = choose|j: int| 0 <= j < heads@.len() && heads@[j] == h;
        }
        h
    } else {
        let r = next_draw(seed, draw, 1);
        heads[(r % (heads.len() as u64)) as usize]
    };
    assert(pool.len() > 0 && head == pool[crate::geometry::spec_mix(seed, *draw, 1) as int % pool.len() as int]);
    if touching(g, ore, head) {
        return;
    }
    let roll = next_draw(seed, draw, 3) % 45;
    let want = cluster_size(roll);
    let cluster = grow_cluster(g, dist, starts, keep, ore, head, want, seed, draw);
    let copies = turned_copies(&cluster, turns, size);
    if !separate(&copies) {
        return;
    }
    let ghost spec_copies = turned_copies_of(cluster@, size, turns@);
    let ghost tiles0 = tiles@;
    let ghost ore0 = ore@;
    let ghost mut added: Seq<Tile> = Seq::empty();
    proof {
        assert(spec_copies.take(0) =~= Seq::<Seq<Tile>>::empty());
        assert(tiles@ =~= tiles0 + added);
        assert(ore@ =~= with_ore(ore0, size, added));
    }
    let mut k: usize = 0;
    while k < copies.len()
        invariant
            g.wf(),
            size == g.size,
            copies@.len() == turns@.len(),
            turns@.len() <= 4,
            copy_views(copies@) == spec_copies,
            spec_copies == turned_copies_of(cluster@, size, turns@),
            forall|m: int| 0 <= m < copies@.len() ==> (#[trigger] copies@[m])@.len() == cluster@.len(),
            forall|m: int, i: int| 0 <= m < copies@.len() && 0 <= i < cluster@.len() ==>
                (#[trigger] copies@[m]@[i]) == rotated(cluster@[i], size, turns@[m]) && in_square(copies@[m]@[i], size),
            forall|i: int| 0 <= i < cluster@.len() ==> in_square(#[trigger] cluster@[i], size) && ore_allowed(g.cells@, size, starts@, cluster@[i]),
            0 <= k <= copies@.len(),
            ore0.len() == size * size,
            ore@.len() == size * size,
            added == joined(spec_copies.take(k as int)),
            tiles@ == tiles0 + added,
            ore@ == with_ore(ore0, size, added),
            all_placed(g.cells@, size, starts@, turns@, tiles@),
            *placed == *old(placed) + k,
            *old(placed) <= usize::MAX - 4,
        decreases copies.len() - k,
    {
        let copy = &copies[k];
        proof {
            assert(copy_views(copies@)[k as int] == copy@);
            assert(copy@.take(0) =~= Seq::<Tile>::empty());
            assert(added + copy@.take(0) =~= added);
        }
        let mut i: usize = 0;
        while i < copy.len()
            invariant
                g.wf(),
                size == g.size,
                0 <= k < copies@.len(),
                *copy == copies@[k as int],
                copy@ == spec_copies[k as int],
                copy@.len() == cluster@.len(),
                forall|j: int| 0 <= j < cluster@.len() ==>
                    (#[trigger] copy@[j]) == rotated(cluster@[j], size, turns@[k as int]) && in_square(copy@[j], size),
                forall|j: int| 0 <= j < cluster@.len() ==> in_square(#[trigger] cluster@[j], size) && ore_allowed(g.cells@, size, starts@, cluster@[j]),
                0 <= k < turns@.len(),
                0 <= i <= copy@.len(),
                ore0.len() == size * size,
                ore@.len() == size * size,
                added == joined(spec_copies.take(k as int)) + copy@.take(i as int),
                tiles@ == tiles0 + added,
                ore@ == with_ore(ore0, size, added),
                all_placed(g.cells@, size, starts@, turns@, tiles@),
            decreases copy.len() - i,
        {
            let t = copy[i];
            let idx = g.idx(t);
            ore.set(idx, true);
            let ghost before = tiles@;
            tiles.push(t);
            proof {
                lemma_with_ore_push(ore0, size, added, t);
                assert(copy@.take(i + 1) =~= copy@.take(i as int).push(t));
                assert(joined(spec_copies.take(k as int)) + copy@.take(i + 1) =~= added.push(t));
                added = added.push(t);
                assert(tiles@ =~= tiles0 + added);
                assert(t == rotated(cluster@[i as int], size, turns@[k as int]));
                assert(ore_placed(g.cells@, size, starts@, turns@, t)) by {
                    let u = cluster@[i as int];
                    assert(in_square(u, size) && ore_allowed(g.cells@, size, starts@, u));
                }
                assert forall|j: int| 0 <= j < tiles@.len() implies in_square(#[trigger] tiles@[j], size) && ore_placed(g.cells@, size, starts@, turns@, tiles@[j]) by {
                    if j < before.len() {
                        assert(tiles@[j] == before[j]);
                    }
                }
            }
            i += 1;
        }
        proof {
            assert(copy@.take(i as int) =~= copy@);
            assert(spec_copies.take(k + 1).drop_last() =~= spec_copies.take(k as int));
            assert(spec_copies.take(k + 1).last() == spec_copies[k as int]);
        }
        *placed = *placed + 1;
        k += 1;
    }
    proof {
        assert(spec_copies.take(k as int) =~= spec_copies);
    }
    if *near < near_starts.len() {
        *near = *near + 1;
    }
}

/// Attempts go on while any are left and fewer than `target` copies are placed.
pub open spec fn run_attempts(w: OreSetting, s: OreProgress, target: int, left: nat) -> OreProgress
    decreases left,
{
    if left == 0 || s.placed >= target {
        s
    } else {
        run_attempts(w, attempt(w, s), target, (left - 1) as nat)
    }
}

/// Copies to place: one cluster per `CELLS_PER_CLUSTER` map cells, and at least one per turn.
pub open spec fn cluster_target(size: u16, turns: Seq<u8>) -> int {
    let by_area = (size * size) / (CELLS_PER_CLUSTER as int);
    if by_area > turns.len() { by_area } else { turns.len() as int }
}

/// The start anchors owed a nearby cluster: every start's, or on a symmetric map only the first,
/// whose turns reach the others.
pub open spec fn near_anchors(starts: Seq<Start>, turns: Seq<u8>) -> Seq<Tile> {
    if turns.len() > 1 {
        seq![starts[0].anchor]
    } else {
        starts.map_values(|st: Start| st.anchor)
    }
}

/// The ore tiles of a map, in placement order: attempts from an empty layout, up to forty per
/// copy owed, until the target is met.
pub open spec fn ore_layout(seed: u64, symmetric: bool, player_count: u8, cells: Seq<TerrainCell>, size: u16, starts: Seq<Start>) -> Seq<Tile> {
    let turns = spec_symmetry_turns(symmetric, player_count);
    let heads = row_major(size).filter(|t: Tile| room_edge(cells, size, starts, t));
    if heads.len() == 0 {
        Seq::empty()
    } else {
        let target = cluster_target(size, turns);
        let w = ore_setting(cells, size, starts, heads, turns, seed ^ ORE_SALT, near_anchors(starts, turns));
        let s0 = ore_progress(0, Seq::new((size * size) as nat, |i: int| false), Seq::empty(), 0, 0);
        run_attempts(w, s0, target, (target * 40) as nat).tiles
    }
}

/// Ore tiles: clusters grown along the walls of open rooms, never in corridors or room
/// interiors, each placed with its symmetry turns and never touching another cluster; the
/// first cluster sits within reach of each start (of the first only, on symmetric maps, whose
/// turns cover the others). Every tile is a symmetry turn of a floor tile within two king moves
/// of a wall, outside every start's keep-out square and off every starting entity.
pub fn ore_tiles(seed: u64, symmetric: bool, player_count: u8, terrain: &Terrain, starts: &Vec<Start>) -> (tiles: Vec<Tile>)
    requires
        terrain.cells@.len() == terrain.width * terrain.width,
        spec_symmetry_turns(symmetric, player_count).len() > 1 ==> starts@.len() >= 1,
    ensures
        tiles@ == ore_layout(seed, symmetric, player_count, terrain.cells@, terrain.width, starts@),
        all_placed(terrain.cells@, terrain.width, starts@, spec_symmetry_turns(symmetric, player_count), tiles@),
{
    let size = terrain.width;
    let n = size as usize;
    proof {
        assert(n * n <= 0xffff * 0xffff) by (nonlinear_arith)
            requires
                n <= 0xffff,
        ;
    }
    let turns = symmetry_turns(symmetric, player_count);
    let g = Grid { size, cells: crate::draft::copy_vec(&terrain.cells) };
    let dist = wall_distance(&g);
    let seed = seed ^ ORE_SALT;
    let keep = keep_out_exec(size);
    let heads = collect_heads(&g, &dist, starts, keep);
    let mut tiles: Vec<Tile> = Vec::new();
    if heads.len() == 0 {
        return tiles;
    }
    let mut ore: Vec<bool> = vec![false; n * n];
    proof {
        assert(ore@ =~= Seq::new((size * size) as nat, |i: int| false));
    }
    let by_area = n * n / CELLS_PER_CLUSTER;
    let target = if by_area > turns.len() { by_area } else { turns.len() };
    let mut placed: usize = 0;
    let mut draw: u64 = 0;
    let near_starts: Vec<Tile> = if turns.len() > 1 {
        vec![starts[0].anchor]
    } else {
        let mut v: Vec<Tile> = Vec::new();
        let mut i: usize = 0;
        while i < starts.len()
            invariant
                0 <= i <= starts@.len(),
                v@.len() == i,
                forall|j: int| 0 <= j < i ==> #[trigger] v@[j] == starts@[j].anchor,
            decreases starts.len() - i,
        {
            v.push(starts[i].anchor);
            i += 1;
        }
        assert(v@ =~= starts@.map_values(|st: Start| st.anchor));
        v
    };
    let ghost target0 = cluster_target(size, turns@);
    let ghost w = ore_setting(g.cells@, size, starts@, heads@, turns@, seed, near_starts@);
    let ghost layout = run_attempts(w, ore_progress(0, ore@, tiles@, 0, 0), target as int, (target * 40) as nat);
    assert(near_starts@ == near_anchors(starts@, turns@));
    assert(target == target0);
    let mut near: usize = 0;
    let limit = target * 40;
    let mut attempt: usize = 0;
    while attempt < limit && placed < target
        invariant
            g.wf(),
            g.size == size,
            g.cells@ == terrain.cells@,
            distance_field(walls_of(g.cells@), size, dist@),
            keep == keep_out(size),
            heads@.len() > 0,
            forall|i: int| 0 <= i < heads@.len() ==> in_square(#[trigger] heads@[i], size) && ore_allowed(g.cells@, size, starts@, heads@[i]),
            turns@ == spec_symmetry_turns(symmetric, player_count),
            near <= near_starts@.len(),
            ore@.len() == size * size,
            all_placed(g.cells@, size, starts@, turns@, tiles@),
            limit <= 0xffff * 0xffff / 96 * 40 + 160,
            attempt <= limit,
            draw <= attempt * 11,
            placed <= target + 4,
            target <= 0xffff * 0xffff / 96 + 4,
            limit == target * 40,
            w == ore_setting(g.cells@, size, starts@, heads@, turns@, seed, near_starts@),
            run_attempts(w, ore_progress(near, ore@, tiles@, placed, draw), target as int, (limit - attempt) as nat) == layout,
        decreases limit - attempt,
    {
        try_place(&g, &dist, starts, keep, &heads, &turns, seed, &near_starts, &mut near, &mut ore, &mut tiles, &mut placed, &mut draw);
        attempt += 1;
    }
    proof {
        assert(run_attempts(w, ore_progress(near, ore@, tiles@, placed, draw), target as int, (limit - attempt) as nat)
            == ore_progress(near, ore@, tiles@, placed, draw));
    }
    tiles
}

// ---- laws ------------------------------------------------------------------------------------

proof fn lemma_scan_clear(cells: Seq<TerrainCell>, size: u16, starts: Seq<Start>, ore: Seq<bool>, cluster: Seq<Tile>, n: nat)
    ensures
        forall|i: int| 0 <= i < frontier_scan(cells, size, starts, ore, cluster, n).len()
            ==> !touches_ore(ore, size, #[trigger] frontier_scan(cells, size, starts, ore, cluster, n)[i])
                && in_square(frontier_scan(cells, size, starts, ore, cluster, n)[i], size),
    decreases n,
{
    if n > 0 {
        lemma_scan_clear(cells, size, starts, ore, cluster, (n - 1) as nat);
        let found = frontier_scan(cells, size, starts, ore, cluster, (n - 1) as nat);
        let now = frontier_scan(cells, size, starts, ore, cluster, n);
        assert forall|i: int| 0 <= i < now.len() implies !touches_ore(ore, size, #[trigger] now[i]) && in_square(now[i], size) by {
            if i < found.len() {
                assert(now[i] == found[i]);
            }
        }
    }
}

proof fn lemma_frontier_clear(cells: Seq<TerrainCell>, size: u16, starts: Seq<Start>, ore: Seq<bool>, cluster: Seq<Tile>)
    ensures
        forall|i: int| 0 <= i < frontier(cells, size, starts, ore, cluster).len()
            ==> !touches_ore(ore, size, #[trigger] frontier(cells, size, starts, ore, cluster)[i])
                && in_square(frontier(cells, size, starts, ore, cluster)[i], size),
{
    let found = frontier_scan(cells, size, starts, ore, cluster, 4 * cluster.len());
    lemma_scan_clear(cells, size, starts, ore, cluster, 4 * cluster.len());
    let f = frontier(cells, size, starts, ore, cluster);
    assert forall|i: int| 0 <= i < f.len() implies !touches_ore(ore, size, #[trigger] f[i]) && in_square(f[i], size) by {
        if exists|j: int| 0 <= j < found.len() && #[trigger] wall_within(cells, size, found[j], 1) {
            let p = |t: Tile| wall_within(cells, size, t, 1);
            assert(f == found.filter(p));
            assert(f.contains(f[i]));
            found.lemma_filter_contains_rev(p, f[i]);
            assert(found.contains(f[i]));
            let j = choose|j: int| 0 <= j < found.len() && found[j] == f[i];
        }
    }
}

proof fn lemma_grown(cells: Seq<TerrainCell>, size: u16, starts: Seq<Start>, ore: Seq<bool>, seed: u64, want: int, cluster: Seq<Tile>, draw: u64)
    ensures
        ({
            let r = grown(cells, size, starts, ore, seed, want, cluster, draw).0;
            &&& cluster.len() <= r.len()
            &&& r.len() <= (if cluster.len() >= want { cluster.len() as int } else { want })
            &&& r.subrange(0, cluster.len() as int) == cluster
            &&& forall|i: int| cluster.len() <= i < r.len() ==> !touches_ore(ore, size, #[trigger] r[i]) && in_square(r[i], size)
        }),
    decreases want - cluster.len(),
{
    if cluster.len() < want {
        let f = frontier(cells, size, starts, ore, cluster);
        if f.len() > 0 {
            let d = (draw + 1) as u64;
            let pick = crate::geometry::spec_mix(seed, d, 4) as int % f.len() as int;
            let next = cluster.push(f[pick]);
            lemma_frontier_clear(cells, size, starts, ore, cluster);
            lemma_grown(cells, size, starts, ore, seed, want, next, d);
            let r = grown(cells, size, starts, ore, seed, want, next, d).0;
            assert(r == grown(cells, size, starts, ore, seed, want, cluster, draw).0);
            assert(r.subrange(0, cluster.len() as int) == next.subrange(0, cluster.len() as int)) by {
                assert forall|i: int| 0 <= i < cluster.len() implies r[i] == next[i] by {
                    assert(r.subrange(0, next.len() as int)[i] == next[i]);
                }
            }
            assert(next.subrange(0, cluster.len() as int) == cluster);
            assert forall|i: int| cluster.len() <= i < r.len() implies !touches_ore(ore, size, #[trigger] r[i]) && in_square(r[i], size) by {
                if i == cluster.len() {
                    assert(r.subrange(0, next.len() as int)[i] == next[i]);
                    assert(!touches_ore(ore, size, f[pick]) && in_square(f[pick], size));
                }
            }
        } else {
            assert(cluster.subrange(0, cluster.len() as int) == cluster);
        }
    } else {
        assert(cluster.subrange(0, cluster.len() as int) == cluster);
    }
}

proof fn lemma_size_from(roll: int, want: int)
    requires
        1 <= want <= 9,
    ensures
        want <= size_from(roll, want) <= 9,
    decreases 9 - want,
{
    if want < 9 && roll >= 10 - want {
        lemma_size_from(roll - (10 - want), want + 1);
    }
}

/// Every placement attempt either leaves the ore tiles as they were or adds the copies of one
/// cluster of one to nine tiles, turned by each symmetry turn: the copies keep more than a king
/// move apart, and no tile of the cluster as grown touches ore placed before.
pub proof fn law_attempt_places_one_cluster(w: OreSetting, s: OreProgress)
    ensures
        attempt(w, s).tiles == s.tiles || exists|c: Seq<Tile>| {
            &&& 1 <= c.len() <= MAX_CLUSTER
            &&& copies_apart(turned_copies_of(c, w.size, w.turns))
            &&& forall|i: int| 0 <= i < c.len() ==> !touches_ore(s.ore, w.size, #[trigger] c[i])
            &&& #[trigger] attempt(w, s).tiles == s.tiles + joined(turned_copies_of(c, w.size, w.turns))
        },
{
    let pool = head_pool(w, s);
    if pool.len() > 0 {
        let d1 = (s.draw + 1) as u64;
        let head = pool[crate::geometry::spec_mix(w.seed, d1, 1) as int % pool.len() as int];
        if !touches_ore(s.ore, w.size, head) {
            let d2 = (d1 + 1) as u64;
            let want = size_from(crate::geometry::spec_mix(w.seed, d2, 3) as int % 45, 1);
            lemma_size_from(crate::geometry::spec_mix(w.seed, d2, 3) as int % 45, 1);
            lemma_grown(w.cells, w.size, w.starts, s.ore, w.seed, want, seq![head], d2);
            let c = grown(w.cells, w.size, w.starts, s.ore, w.seed, want, seq![head], d2).0;
            if copies_apart(turned_copies_of(c, w.size, w.turns)) {
                assert forall|i: int| 0 <= i < c.len() implies !touches_ore(s.ore, w.size, #[trigger] c[i]) by {
                    if i == 0 {
                        assert(c.subrange(0, 1)[0] == c[0]);
                    }
                }
                assert(attempt(w, s).tiles == s.tiles + joined(turned_copies_of(c, w.size, w.turns)));
            }
        }
    }
}

/// The tiles lie on the map, and every turn of a tile is a tile.
pub open spec fn turn_closed(tiles: Seq<Tile>, size: u16, turns: Seq<u8>) -> bool {
    &&& forall|i: int| 0 <= i < tiles.len() ==> in_square(#[trigger] tiles[i], size)
    &&& forall|i: int, k: int| 0 <= i < tiles.len() && 0 <= k < turns.len()
        ==> tiles.contains(rotated(#[trigger] tiles[i], size, #[trigger] turns[k]))
}

proof fn lemma_joined_index(copies: Seq<Seq<Tile>>, j: int) -> (ki: (int, int))
    requires
        0 <= j < joined(copies).len(),
    ensures
        0 <= ki.0 < copies.len(),
        0 <= ki.1 < copies[ki.0].len(),
        joined(copies)[j] == copies[ki.0][ki.1],
    decreases copies.len(),
{
    let prev = joined(copies.drop_last());
    if j < prev.len() {
        let r = lemma_joined_index(copies.drop_last(), j);
        assert(copies.drop_last()[r.0] == copies[r.0]);
        r
    } else {
        (copies.len() - 1, j - prev.len())
    }
}

proof fn lemma_joined_has(copies: Seq<Seq<Tile>>, k: int, i: int)
    requires
        0 <= k < copies.len(),
        0 <= i < copies[k].len(),
    ensures
        joined(copies).contains(copies[k][i]),
    decreases copies.len(),
{
    let prev = joined(copies.drop_last());
    if k < copies.len() - 1 {
        assert(copies.drop_last()[k] == copies[k]);
        lemma_joined_has(copies.drop_last(), k, i);
        let j = choose|j: int| 0 <= j < prev.len() && prev[j] == copies[k][i];
        assert(joined(copies)[j] == copies[k][i]);
    } else {
        assert(joined(copies)[prev.len() + i] == copies[k][i]);
    }
}

proof fn lemma_pool_in_square(w: OreSetting, s: OreProgress)
    requires
        forall|i: int| 0 <= i < w.heads.len() ==> in_square(#[trigger] w.heads[i], w.size),
    ensures
        forall|i: int| 0 <= i < head_pool(w, s).len() ==> in_square(#[trigger] head_pool(w, s)[i], w.size),
{
    if s.near < w.near_starts.len() {
        let p = |t: Tile| spec_chebyshev(w.near_starts[s.near as int], t) <= NEAR_START;
        w.heads.filter_lemma(p);
        assert(head_pool(w, s) == w.heads.filter(p));
        assert forall|i: int| 0 <= i < head_pool(w, s).len() implies in_square(#[trigger] head_pool(w, s)[i], w.size) by {
            let x = head_pool(w, s)[i];
            assert(w.heads.filter(p).contains(x));
            w.heads.lemma_filter_contains_rev(p, x);
            let j = choose|j: int| 0 <= j < w.heads.len() && w.heads[j] == x;
        }
    }
}

/// A tile of the turned copies lies on the map, and each of its turns is a tile of the copies.
proof fn lemma_copy_turn(c: Seq<Tile>, size: u16, turns: Seq<u8>, j: int, k: int)
    requires
        crate::terrain::turn_group(turns),
        forall|i: int| 0 <= i < c.len() ==> in_square(#[trigger] c[i], size),
        0 <= j < joined(turned_copies_of(c, size, turns)).len(),
        0 <= k < turns.len(),
    ensures
        in_square(joined(turned_copies_of(c, size, turns))[j], size),
        joined(turned_copies_of(c, size, turns)).contains(rotated(joined(turned_copies_of(c, size, turns))[j], size, turns[k])),
{
    let copies = turned_copies_of(c, size, turns);
    let (a, b) = lemma_joined_index(copies, j);
    let x = joined(copies)[j];
    assert(x == rotated(c[b], size, turns[a]));
    crate::geometry::lemma_turned_in_square(c[b], size, (turns[a] % 4) as nat);
    assert(crate::terrain::composes(turns, a, k));
    let m = choose|m: int| 0 <= m < turns.len() && turns[m] == (turns[a] + turns[k]) % 4;
    crate::terrain::lemma_rotated_compose(c[b], size, turns[a], turns[k]);
    assert(rotated(x, size, turns[k]) == copies[m][b]);
    lemma_joined_has(copies, m, b);
}

/// Appending tiles on the map whose turns are among them keeps the tiles closed under turns.
proof fn lemma_concat_closed(tiles: Seq<Tile>, added: Seq<Tile>, size: u16, turns: Seq<u8>)
    requires
        turn_closed(tiles, size, turns),
        forall|j: int| 0 <= j < added.len() ==> in_square(#[trigger] added[j], size),
        forall|j: int, k: int| 0 <= j < added.len() && 0 <= k < turns.len() ==> added.contains(rotated(#[trigger] added[j], size, #[trigger] turns[k])),
    ensures
        turn_closed(tiles + added, size, turns),
{
    let nt = tiles + added;
    assert forall|i: int| 0 <= i < nt.len() implies in_square(#[trigger] nt[i], size) by {
        if i >= tiles.len() {
            assert(nt[i] == added[i - tiles.len()]);
        }
    }
    assert forall|i: int, k: int| 0 <= i < nt.len() && 0 <= k < turns.len()
        implies nt.contains(rotated(#[trigger] nt[i], size, #[trigger] turns[k])) by {
        if i < tiles.len() {
            assert(nt[i] == tiles[i]);
            assert(tiles.contains(rotated(tiles[i], size, turns[k])));
            let q = choose|q: int| 0 <= q < tiles.len() && tiles[q] == rotated(tiles[i], size, turns[k]);
            assert(nt[q] == tiles[q]);
        } else {
            let j = i - tiles.len();
            assert(nt[i] == added[j]);
            assert(added.contains(rotated(added[j], size, turns[k])));
            let q = choose|q: int| 0 <= q < added.len() && added[q] == rotated(added[j], size, turns[k]);
            assert(nt[tiles.len() + q] == added[q]);
        }
    }
}

/// Adding a cluster with all its turns keeps the tiles closed under a group of turns.
proof fn lemma_added_closed(c: Seq<Tile>, size: u16, turns: Seq<u8>, tiles: Seq<Tile>)
    requires
        crate::terrain::turn_group(turns),
        forall|i: int| 0 <= i < c.len() ==> in_square(#[trigger] c[i], size),
        turn_closed(tiles, size, turns),
    ensures
        turn_closed(tiles + joined(turned_copies_of(c, size, turns)), size, turns),
{
    let added = joined(turned_copies_of(c, size, turns));
    assert forall|j: int| 0 <= j < added.len() implies in_square(#[trigger] added[j], size) by {
        lemma_copy_turn(c, size, turns, j, 0);
    }
    assert forall|j: int, k: int| 0 <= j < added.len() && 0 <= k < turns.len()
        implies added.contains(rotated(#[trigger] added[j], size, #[trigger] turns[k])) by {
        lemma_copy_turn(c, size, turns, j, k);
    }
    lemma_concat_closed(tiles, added, size, turns);
}

/// A placement attempt keeps the ore tiles closed under a group of turns.
proof fn lemma_attempt_closed(w: OreSetting, s: OreProgress)
    requires
        crate::terrain::turn_group(w.turns),
        forall|i: int| 0 <= i < w.heads.len() ==> in_square(#[trigger] w.heads[i], w.size),
        turn_closed(s.tiles, w.size, w.turns),
    ensures
        turn_closed(attempt(w, s).tiles, w.size, w.turns),
{
    let pool = head_pool(w, s);
    if pool.len() > 0 {
        let d1 = (s.draw + 1) as u64;
        let head = pool[crate::geometry::spec_mix(w.seed, d1, 1) as int % pool.len() as int];
        if !touches_ore(s.ore, w.size, head) {
            let d2 = (d1 + 1) as u64;
            let want = size_from(crate::geometry::spec_mix(w.seed, d2, 3) as int % 45, 1);
            let c = grown(w.cells, w.size, w.starts, s.ore, w.seed, want, seq![head], d2).0;
            let copies = turned_copies_of(c, w.size, w.turns);
            if copies_apart(copies) {
                lemma_size_from(crate::geometry::spec_mix(w.seed, d2, 3) as int % 45, 1);
                lemma_grown(w.cells, w.size, w.starts, s.ore, w.seed, want, seq![head], d2);
                lemma_pool_in_square(w, s);
                assert(in_square(head, w.size));
                assert forall|i: int| 0 <= i < c.len() implies in_square(#[trigger] c[i], w.size) by {
                    if i == 0 {
                        assert(c.subrange(0, 1)[0] == c[0]);
                    }
                }
                lemma_added_closed(c, w.size, w.turns, s.tiles);
                assert(attempt(w, s).tiles == s.tiles + joined(copies));
            }
        }
    }
}

proof fn lemma_run_closed(w: OreSetting, s: OreProgress, target: int, left: nat)
    requires
        crate::terrain::turn_group(w.turns),
        forall|i: int| 0 <= i < w.heads.len() ==> in_square(#[trigger] w.heads[i], w.size),
        turn_closed(s.tiles, w.size, w.turns),
    ensures
        turn_closed(run_attempts(w, s, target, left).tiles, w.size, w.turns),
    decreases left,
{
    if left > 0 && s.placed < target {
        lemma_attempt_closed(w, s);
        lemma_run_closed(w, attempt(w, s), target, (left - 1) as nat);
    }
}

/// The ore comes in turned copies: every ore tile lies on the map, and each of its turns by the
/// map's symmetry is an ore tile too.
pub proof fn law_ore_turn_closed(seed: u64, symmetric: bool, player_count: u8, cells: Seq<TerrainCell>, size: u16, starts: Seq<Start>)
    ensures
        turn_closed(ore_layout(seed, symmetric, player_count, cells, size, starts), size, spec_symmetry_turns(symmetric, player_count)),
{
    let turns = spec_symmetry_turns(symmetric, player_count);
    let p = |t: Tile| room_edge(cells, size, starts, t);
    let heads = row_major(size).filter(p);
    if heads.len() > 0 {
        crate::terrain::law_symmetry_turns_form_group(symmetric, player_count);
        row_major(size).filter_lemma(p);
        let target = cluster_target(size, turns);
        let w = ore_setting(cells, size, starts, heads, turns, seed ^ ORE_SALT, near_anchors(starts, turns));
        let s0 = ore_progress(0, Seq::new((size * size) as nat, |i: int| false), Seq::empty(), 0, 0);
        assert forall|i: int| 0 <= i < w.heads.len() implies in_square(#[trigger] w.heads[i], w.size) by {
            assert(room_edge(cells, size, starts, heads[i]));
        }
        lemma_run_closed(w, s0, target, (target * 40) as nat);
    }
}

} // verus!
