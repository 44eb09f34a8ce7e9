//! Assembling the cave terrain from the smoothed field: symmetric union, start clearings and
//! border walls, corridors dug from every other cavern into the first start's, and removal of
//! whatever stays unreachable.
use vstd::prelude::*;
use crate::types::{Tile, TypeKey};
use crate::geometry::{in_square, lemma_turned_in_square, law_full_turn, law_turns_compose, quarter, rotate, rotated, turned};
use crate::map::{
    spec_start_turns, spec_symmetry_turns, start_anchor, start_of,
    adjacent4, cell_index, count_unmarked, floor_path, is_floor, lemma_extend_path,
    lemma_index_bounds, lemma_index_injective, reachable, Grid, Start, Terrain, TerrainCell,
};
use crate::corridor::{corridor, in_main, interior, main_distance, order_before, search_route};

verus! {

/// Radius of the round open clearing around each start anchor.
pub const START_CLEARING: i32 = 7;

pub open spec fn on_border(t: Tile, size: u16) -> bool {
    t.x == 0 || t.y == 0 || t.x == size - 1 || t.y == size - 1
}

/// Some rotation of `t` by the symmetry turns is open in the field.
pub open spec fn sym_open(floor: Seq<bool>, size: u16, turns: Seq<u8>, t: Tile) -> bool {
    exists|k: int| 0 <= k < turns.len() && floor[cell_index(rotated(t, size, #[trigger] turns[k]), size)]
}

/// `t` lies in the round clearing of some start.
pub open spec fn near_start(starts: Seq<Start>, t: Tile) -> bool {
    exists|i: int| 0 <= i < starts.len() && {
        let a = (#[trigger] starts[i]).anchor;
        (a.x - t.x) * (a.x - t.x) + (a.y - t.y) * (a.y - t.y) <= START_CLEARING * START_CLEARING
    }
}

/// The floor before corridors: off the border, open under some symmetry turn or in a clearing.
pub open spec fn initial_floor(floor: Seq<bool>, size: u16, turns: Seq<u8>, starts: Seq<Start>, t: Tile) -> bool {
    !on_border(t, size) && (sym_open(floor, size, turns, t) || near_start(starts, t))
}

/// Every anchor and starting-entity tile of the starts.
pub open spec fn of_start(s: Start, t: Tile) -> bool {
    s.anchor == t || exists|j: int| 0 <= j < s.entities@.len() && (#[trigger] s.entities@[j]).1 == t
}

pub open spec fn start_tile(starts: Seq<Start>, t: Tile) -> bool {
    exists|i: int| 0 <= i < starts.len() && #[trigger] of_start(starts[i], t)
}

pub open spec fn starts_in_square(starts: Seq<Start>, size: u16) -> bool {
    forall|i: int| 0 <= i < starts.len() ==> in_square((#[trigger] starts[i]).anchor, size)
        && forall|j: int| 0 <= j < starts[i].entities@.len() ==> in_square((#[trigger] starts[i].entities@[j]).1, size)
}

pub open spec fn borders_walled(cells: Seq<TerrainCell>, size: u16) -> bool {
    forall|t: Tile| #![trigger cell_index(t, size)] in_square(t, size) && on_border(t, size) ==> cells[cell_index(t, size)] == TerrainCell::Wall
}

pub proof fn lemma_turned_interior(t: Tile, size: u16, q: nat)
    requires
        in_square(t, size),
        interior(t, size),
    ensures
        in_square(turned(t, size, q), size),
        interior(turned(t, size, q), size),
    decreases q,
{
    if q > 0 {
        lemma_turned_interior(t, size, (q - 1) as nat);
    }
}

fn near_start_exec(starts: &Vec<Start>, t: Tile, size: u16) -> (r: bool)
    requires
        size <= 32768,
        in_square(t, size),
        starts_in_square(starts@, size),
    ensures
        r == near_start(starts@, t),
{
    let mut i: usize = 0;
    while i < starts.len()
        invariant
            size <= 32768,
            in_square(t, size),
            starts_in_square(starts@, size),
            0 <= i <= starts@.len(),
            forall|j: int| 0 <= j < i ==> {
                let a = (#[trigger] starts@[j]).anchor;
                (a.x - t.x) * (a.x - t.x) + (a.y - t.y) * (a.y - t.y) > START_CLEARING * START_CLEARING
            },
        decreases starts.len() - i,
    {
        let a = starts[i].anchor;
        assert(in_square(starts@[i as int].anchor, size));
        let dx: i32 = a.x as i32 - t.x as i32;
        let dy: i32 = a.y as i32 - t.y as i32;
        assert(0 <= dx * dx <= 32767 * 32767) by (nonlinear_arith)
            requires
                -32767 <= dx <= 32767,
        ;
        assert(0 <= dy * dy <= 32767 * 32767) by (nonlinear_arith)
            requires
                -32767 <= dy <= 32767,
        ;
        if dx * dx + dy * dy <= START_CLEARING * START_CLEARING {
            return true;
        }
        i += 1;
    }
    false
}

fn sym_open_exec(floor: &Vec<bool>, g: &Grid, turns: &Vec<u8>, t: Tile) -> (r: bool)
    requires
        floor@.len() == g.size * g.size,
        in_square(t, g.size),
    ensures
        r == sym_open(floor@, g.size, turns@, t),
{
    let mut k: usize = 0;
    while k < turns.len()
        invariant
            floor@.len() == g.size * g.size,
            in_square(t, g.size),
            0 <= k <= turns@.len(),
            forall|j: int| 0 <= j < k ==> !floor@[cell_index(rotated(t, g.size, #[trigger] turns@[j]), g.size)],
        decreases turns.len() - k,
    {
        let r = rotate(t, g.size, turns[k]);
        if floor[g.idx(r)] {
            return true;
        }
        k += 1;
    }
    false
}

/// The floor before corridors, cell by cell.
fn initial_grid(size: u16, turns: &Vec<u8>, floor: &Vec<bool>, starts: &Vec<Start>) -> (g: Grid)
    requires
        floor@.len() == size * size,
        size <= 32768,
        starts_in_square(starts@, size),
    ensures
        g.size == size,
        g.wf(),
        forall|t: Tile| #![trigger cell_index(t, size)] in_square(t, size) ==>
            g.cells@[cell_index(t, size)] == (if initial_floor(floor@, size, turns@, starts@, t) { TerrainCell::Floor } else { TerrainCell::Wall }),
        turn_group(turns@) && starts_symmetric(starts@, size, turns@) ==> floor_symmetric(g.cells@, size, turns@),
{
    let n = size as usize;
    proof {
        assert(n * n <= 0xffff * 0xffff) by (nonlinear_arith)
            requires
                n <= 0xffff,
        ;
    }
    let mut g = Grid { size, cells: vec![TerrainCell::Wall; n * n] };
    proof {
        assert forall|t: Tile| #![trigger cell_index(t, size)] in_square(t, size) implies
            g.cells@[cell_index(t, size)] == (if t.y < 0 && initial_floor(floor@, size, turns@, starts@, t) { TerrainCell::Floor } else { TerrainCell::Wall }) by {
            lemma_index_bounds(t, size);
        }
    }
    let mut y: u16 = 0;
    while y < size
        invariant
            g.size == size,
            g.wf(),
            floor@.len() == size * size,
            size <= 32768,
            starts_in_square(starts@, size),
            y <= size,
            forall|t: Tile| #![trigger cell_index(t, size)] in_square(t, size) ==>
                g.cells@[cell_index(t, size)] == (if t.y < y && initial_floor(floor@, size, turns@, starts@, t) { TerrainCell::Floor } else { TerrainCell::Wall }),
        decreases size - y,
    {
        let mut x: u16 = 0;
        while x < size
            invariant
                g.size == size,
                g.wf(),
                floor@.len() == size * size,
                size <= 32768,
                starts_in_square(starts@, size),
                y < size,
                x <= size,
                forall|t: Tile| #![trigger cell_index(t, size)] in_square(t, size) ==>
                    g.cells@[cell_index(t, size)] == (if (t.y < y || (t.y == y && t.x < x)) && initial_floor(floor@, size, turns@, starts@, t) { TerrainCell::Floor } else { TerrainCell::Wall }),
            decreases size - x,
        {
            let t = Tile { x, y };
            let border = x == 0 || y == 0 || x == size - 1 || y == size - 1;
            let open = sym_open_exec(floor, &g, turns, t);
            let i = g.idx(t);
            if !border && (open || near_start_exec(starts, t, size)) {
                g.cells.set(i, TerrainCell::Floor);
            }
            proof {
                assert forall|u: Tile| #![trigger cell_index(u, size)] in_square(u, size) implies
                    g.cells@[cell_index(u, size)] == (if (u.y < y || (u.y == y && u.x < x + 1)) && initial_floor(floor@, size, turns@, starts@, u) { TerrainCell::Floor } else { TerrainCell::Wall }) by {
                    lemma_index_bounds(u, size);
                    if cell_index(u, size) == i as int {
                        lemma_index_injective(u, t, size);
                    }
                }
            }
            x += 1;
        }
        y += 1;
    }
    proof {
        if turn_group(turns@) && starts_symmetric(starts@, size, turns@) {
            lemma_initial_grid_symmetric(g.cells@, floor@, size, turns@, starts@);
        }
    }
    g
}

// ---- symmetry ----------------------------------------------------------------------------------

/// Some turn of the set is `v`.
pub open spec fn has_turn(turns: Seq<u8>, v: int) -> bool {
    exists|k: int| 0 <= k < turns.len() && turns[k] == v
}

/// The composition of the `i`-th and `j`-th turns is a turn of the set.
pub open spec fn composes(turns: Seq<u8>, i: int, j: int) -> bool {
    has_turn(turns, (turns[i] + turns[j]) % 4)
}

/// The turns form a group of quarter turns: they start with the identity, stay below a full
/// turn, and compose within the set.
pub open spec fn turn_group(turns: Seq<u8>) -> bool {
    &&& turns.len() > 0
    &&& turns[0] == 0
    &&& forall|i: int| 0 <= i < turns.len() ==> #[trigger] turns[i] < 4
    &&& forall|i: int, j: int| 0 <= i < turns.len() && 0 <= j < turns.len() ==> #[trigger] composes(turns, i, j)
}

/// Turning the `i`-th start's anchor by the `k`-th turn gives a start anchor.
pub open spec fn anchor_turns(starts: Seq<Start>, size: u16, turns: Seq<u8>, i: int, k: int) -> bool {
    exists|j: int| 0 <= j < starts.len() && starts[j].anchor == rotated(starts[i].anchor, size, turns[k])
}

/// Turning any start anchor by any of the turns gives a start anchor.
pub open spec fn starts_symmetric(starts: Seq<Start>, size: u16, turns: Seq<u8>) -> bool {
    forall|i: int, k: int| 0 <= i < starts.len() && 0 <= k < turns.len() ==> #[trigger] anchor_turns(starts, size, turns, i, k)
}

/// Floor at `t` stays floor under the `k`-th turn.
pub open spec fn floor_kept(cells: Seq<TerrainCell>, size: u16, turns: Seq<u8>, t: Tile, k: int) -> bool {
    is_floor(cells, size, t) ==> is_floor(cells, size, rotated(t, size, turns[k]))
}

/// Floor is kept by every turn.
pub open spec fn floor_symmetric(cells: Seq<TerrainCell>, size: u16, turns: Seq<u8>) -> bool {
    forall|t: Tile, k: int| 0 <= k < turns.len() ==> #[trigger] floor_kept(cells, size, turns, t, k)
}

pub proof fn lemma_rotated_compose(t: Tile, size: u16, a: u8, b: u8)
    requires
        in_square(t, size),
        a < 4,
        b < 4,
    ensures
        rotated(rotated(t, size, a), size, b) == rotated(t, size, ((a + b) % 4) as u8),
{
    law_turns_compose(t, size, a as nat, b as nat);
    if a + b >= 4 {
        law_full_turn(t, size);
        law_turns_compose(t, size, 4, (a + b - 4) as nat);
        assert((4 + (a + b - 4) as nat) as nat == (a + b) as nat);
    }
}

/// Inverse of a turn within the group.
proof fn lemma_turn_inverse(turns: Seq<u8>, i: int) -> (k: int)
    requires
        turn_group(turns),
        0 <= i < turns.len(),
    ensures
        0 <= k < turns.len(),
        (turns[i] + turns[k]) % 4 == 0,
{
    assert(composes(turns, i, i));
    let j = choose|j: int| 0 <= j < turns.len() && turns[j] == (turns[i] + turns[i]) % 4;
    assert(composes(turns, j, i));
    let k = choose|k: int| 0 <= k < turns.len() && turns[k] == (turns[j] + turns[i]) % 4;
    assert(turns[i] < 4);
    k
}

pub open spec fn dist2(a: Tile, t: Tile) -> int {
    (a.x - t.x) * (a.x - t.x) + (a.y - t.y) * (a.y - t.y)
}

proof fn lemma_dist2_turned(a: Tile, t: Tile, size: u16, q: nat)
    requires
        in_square(a, size),
        in_square(t, size),
    ensures
        dist2(turned(a, size, q), turned(t, size, q)) == dist2(a, t),
    decreases q,
{
    if q > 0 {
        lemma_dist2_turned(a, t, size, (q - 1) as nat);
        lemma_turned_in_square(a, size, (q - 1) as nat);
        lemma_turned_in_square(t, size, (q - 1) as nat);
        let a1 = turned(a, size, (q - 1) as nat);
        let t1 = turned(t, size, (q - 1) as nat);
        assert(dist2(quarter(a1, size), quarter(t1, size)) == dist2(a1, t1)) by (nonlinear_arith)
            requires
                in_square(a1, size),
                in_square(t1, size),
                quarter(a1, size).x == size - 1 - a1.y,
                quarter(a1, size).y == a1.x,
                quarter(t1, size).x == size - 1 - t1.y,
                quarter(t1, size).y == t1.x,
        ;
    }
}

proof fn lemma_border_turned(t: Tile, size: u16, q: nat)
    requires
        in_square(t, size),
    ensures
        on_border(turned(t, size, q), size) == on_border(t, size),
        in_square(turned(t, size, q), size),
    decreases q,
{
    lemma_turned_in_square(t, size, q);
    if q > 0 {
        lemma_border_turned(t, size, (q - 1) as nat);
        lemma_turned_in_square(t, size, (q - 1) as nat);
    }
}

/// The floor before corridors is kept by every turn of the group.
proof fn lemma_initial_symmetric(floor: Seq<bool>, size: u16, turns: Seq<u8>, starts: Seq<Start>, t: Tile, k: int)
    requires
        turn_group(turns),
        starts_symmetric(starts, size, turns),
        starts_in_square(starts, size),
        floor.len() == size * size,
        in_square(t, size),
        0 <= k < turns.len(),
        initial_floor(floor, size, turns, starts, t),
    ensures
        initial_floor(floor, size, turns, starts, rotated(t, size, turns[k])),
{
    let q = turns[k];
    let u = rotated(t, size, q);
    lemma_border_turned(t, size, (q % 4) as nat);
    if sym_open(floor, size, turns, t) {
        let m = choose|m: int| 0 <= m < turns.len() && floor[cell_index(rotated(t, size, #[trigger] turns[m]), size)];
        let inv = lemma_turn_inverse(turns, k);
        assert(composes(turns, inv, m));
        let c = choose|c: int| 0 <= c < turns.len() && turns[c] == (turns[inv] + turns[m]) % 4;
        assert(turns[c] < 4 && turns[m] < 4 && turns[k] < 4 && turns[inv] < 4);
        lemma_rotated_compose(t, size, q, turns[c]);
        assert((q + turns[c]) % 4 == turns[m]);
        assert(rotated(u, size, turns[c]) == rotated(t, size, turns[m]));
        assert(floor[cell_index(rotated(u, size, turns[c]), size)]);
        assert(sym_open(floor, size, turns, u));
    } else {
        let i = choose|i: int| 0 <= i < starts.len() && {
            let a = (#[trigger] starts[i]).anchor;
            (a.x - t.x) * (a.x - t.x) + (a.y - t.y) * (a.y - t.y) <= START_CLEARING * START_CLEARING
        };
        assert(anchor_turns(starts, size, turns, i, k));
        let j = choose|j: int| 0 <= j < starts.len() && starts[j].anchor == rotated(starts[i].anchor, size, turns[k]);
        assert(in_square(starts[i].anchor, size));
        lemma_dist2_turned(starts[i].anchor, t, size, (q % 4) as nat);
        assert(dist2(starts[j].anchor, u) == dist2(starts[i].anchor, t));
        assert(near_start(starts, u)) by {
            let a = starts[j].anchor;
            assert((a.x - u.x) * (a.x - u.x) + (a.y - u.y) * (a.y - u.y) <= START_CLEARING * START_CLEARING);
        }
    }
}

proof fn lemma_initial_grid_symmetric(cells: Seq<TerrainCell>, floor: Seq<bool>, size: u16, turns: Seq<u8>, starts: Seq<Start>)
    requires
        turn_group(turns),
        starts_symmetric(starts, size, turns),
        starts_in_square(starts, size),
        floor.len() == size * size,
        forall|t: Tile| #![trigger cell_index(t, size)] in_square(t, size) ==>
            cells[cell_index(t, size)] == (if initial_floor(floor, size, turns, starts, t) { TerrainCell::Floor } else { TerrainCell::Wall }),
    ensures
        floor_symmetric(cells, size, turns),
{
    assert forall|t: Tile, k: int| 0 <= k < turns.len() implies #[trigger] floor_kept(cells, size, turns, t, k) by {
        if is_floor(cells, size, t) {
            lemma_initial_symmetric(floor, size, turns, starts, t, k);
            assert(turns[k] < 4);
            lemma_turned_in_square(t, size, (turns[k] % 4) as nat);
        }
    }
}

proof fn lemma_carve_symmetric(before: Seq<TerrainCell>, after: Seq<TerrainCell>, size: u16, turns: Seq<u8>, t: Tile)
    requires
        turn_group(turns),
        in_square(t, size),
        floor_symmetric(before, size, turns),
        forall|u: Tile| #![trigger cell_index(u, size)] in_square(u, size) ==>
            after[cell_index(u, size)] == (if exists|k: int| 0 <= k < turns.len() && rotated(t, size, #[trigger] turns[k]) == u {
                TerrainCell::Floor
            } else {
                before[cell_index(u, size)]
            }),
    ensures
        floor_symmetric(after, size, turns),
{
    assert forall|u: Tile, k: int| 0 <= k < turns.len() implies #[trigger] floor_kept(after, size, turns, u, k) by {
        if is_floor(after, size, u) {
            assert(turns[k] < 4);
            lemma_turned_in_square(u, size, (turns[k] % 4) as nat);
            let v = rotated(u, size, turns[k]);
            if exists|m: int| 0 <= m < turns.len() && rotated(t, size, #[trigger] turns[m]) == u {
                let m = choose|m: int| 0 <= m < turns.len() && rotated(t, size, #[trigger] turns[m]) == u;
                assert(composes(turns, m, k));
                let c = choose|c: int| 0 <= c < turns.len() && turns[c] == (turns[m] + turns[k]) % 4;
                assert(turns[m] < 4);
                lemma_rotated_compose(t, size, turns[m], turns[k]);
                assert(rotated(t, size, turns[c]) == v);
            } else {
                assert(is_floor(before, size, u));
                assert(floor_kept(before, size, turns, u, k));
                assert(is_floor(before, size, v));
            }
        }
    }
}

/// The symmetry turns of every configuration form a group of quarter turns.
pub proof fn law_symmetry_turns_form_group(symmetric: bool, player_count: u8)
    ensures
        turn_group(spec_symmetry_turns(symmetric, player_count)),
{
    let t = spec_symmetry_turns(symmetric, player_count);
    assert forall|i: int, j: int| 0 <= i < t.len() && 0 <= j < t.len() implies #[trigger] composes(t, i, j) by {
        let v = (t[i] + t[j]) % 4;
        if t.len() == 4 {
            assert(t[v] == v);
        } else if t.len() == 2 {
            if v == 0 {
                assert(t[0] == v);
            } else {
                assert(t[1] == v);
            }
        } else {
            assert(t[0] == v);
        }
    }
}

/// On symmetric maps of two or four players the start layout is symmetric: every symmetry
/// turn of a start anchor is a start anchor.
pub proof fn law_start_layout_symmetric(size: u16, players: u8, roster: Seq<TypeKey>, s: Seq<Start>)
    requires
        size >= 16,
        players == 2 || players == 4,
        s.len() == spec_start_turns(players).len(),
        forall|k: int| 0 <= k < s.len() ==> start_of(#[trigger] s[k], size, spec_start_turns(players)[k], roster),
    ensures
        starts_symmetric(s, size, spec_symmetry_turns(true, players)),
{
    let st = spec_start_turns(players);
    let sym = spec_symmetry_turns(true, players);
    assert(in_square(start_anchor(), size));
    assert forall|i: int, k: int| 0 <= i < s.len() && 0 <= k < sym.len() implies #[trigger] anchor_turns(s, size, sym, i, k) by {
        assert(start_of(s[i], size, st[i], roster));
        lemma_rotated_compose(start_anchor(), size, st[i], sym[k]);
        let v = (st[i] + sym[k]) % 4;
        if players == 4 {
            assert(start_of(s[v], size, st[v], roster));
            assert(s[v].anchor == rotated(s[i].anchor, size, sym[k]));
        } else {
            let j: int = if v == 0 { 0 } else { 1 };
            assert(start_of(s[j], size, st[j], roster));
            assert(s[j].anchor == rotated(s[i].anchor, size, sym[k]));
        }
    }
}

pub open spec fn tile_of(i: int, size: u16) -> Tile {
    Tile { x: (i % (size as int)) as u16, y: (i / (size as int)) as u16 }
}

proof fn lemma_tile_of_index(t: Tile, size: u16)
    requires
        in_square(t, size),
    ensures
        tile_of(cell_index(t, size), size) == t,
{
    let i = cell_index(t, size);
    vstd::arithmetic::div_mod::lemma_fundamental_div_mod_converse(i, size as int, t.y as int, t.x as int);
}

/// Per cell: floor and reachable from `anchor`.
pub open spec fn conn_marks(cells: Seq<TerrainCell>, size: u16, anchor: Tile) -> Seq<bool> {
    Seq::new((size * size) as nat, |i: int| is_floor(cells, size, tile_of(i, size)) && reachable(cells, size, anchor, tile_of(i, size)))
}

proof fn lemma_count_mono(a: Seq<bool>, b: Seq<bool>)
    requires
        a.len() == b.len(),
        forall|i: int| 0 <= i < a.len() && #[trigger] a[i] ==> b[i],
    ensures
        count_unmarked(b) <= count_unmarked(a),
    decreases a.len(),
{
    if a.len() > 0 {
        lemma_count_mono(a.drop_last(), b.drop_last());
    }
}

proof fn lemma_count_strict(a: Seq<bool>, b: Seq<bool>, j: int)
    requires
        a.len() == b.len(),
        forall|i: int| 0 <= i < a.len() && #[trigger] a[i] ==> b[i],
        0 <= j < a.len(),
        !a[j],
        b[j],
    ensures
        count_unmarked(b) < count_unmarked(a),
    decreases a.len(),
{
    if j < a.len() - 1 {
        lemma_count_strict(a.drop_last(), b.drop_last(), j);
    } else {
        lemma_count_mono(a.drop_last(), b.drop_last());
    }
}

/// More floor keeps every floor walk a floor walk.
proof fn lemma_path_grows(old_cells: Seq<TerrainCell>, cells: Seq<TerrainCell>, size: u16, p: Seq<Tile>)
    requires
        floor_path(old_cells, size, p),
        forall|t: Tile| #![trigger cell_index(t, size)] is_floor(old_cells, size, t) ==> is_floor(cells, size, t),
    ensures
        floor_path(cells, size, p),
{
    assert forall|i: int| 0 <= i < p.len() implies is_floor(cells, size, #[trigger] p[i]) by {
        assert(is_floor(old_cells, size, p[i]));
    }
}

proof fn lemma_reach_grows(old_cells: Seq<TerrainCell>, cells: Seq<TerrainCell>, size: u16, anchor: Tile, t: Tile)
    requires
        reachable(old_cells, size, anchor, t),
        forall|u: Tile| #![trigger cell_index(u, size)] is_floor(old_cells, size, u) ==> is_floor(cells, size, u),
    ensures
        reachable(cells, size, anchor, t),
{
    let p = choose|p: Seq<Tile>| #[trigger] floor_path(old_cells, size, p) && p[0] == anchor && p.last() == t;
    lemma_path_grows(old_cells, cells, size, p);
}

/// Walking a corridor backward from a reachable end reaches its start.
proof fn lemma_corridor_reaches(cells: Seq<TerrainCell>, size: u16, anchor: Tile, q: Seq<Tile>, k: int)
    requires
        q.len() >= 1,
        0 <= k < q.len(),
        forall|j: int| 0 <= j < q.len() ==> is_floor(cells, size, #[trigger] q[j]),
        forall|j: int| 0 <= j < q.len() - 1 ==> #[trigger] adjacent4(q[j], q[j + 1]),
        reachable(cells, size, anchor, q.last()),
    ensures
        reachable(cells, size, anchor, q[k]),
    decreases q.len() - k,
{
    if k < q.len() - 1 {
        lemma_corridor_reaches(cells, size, anchor, q, k + 1);
        let p = choose|p: Seq<Tile>| #[trigger] floor_path(cells, size, p) && p[0] == anchor && p.last() == q[k + 1];
        assert(adjacent4(q[k], q[k + 1]));
        lemma_extend_path(cells, size, p, q[k]);
    } else {
        assert(q[k] == q.last());
    }
}

/// Every tile along a floor walk from `anchor` is reachable from it.
proof fn lemma_walk_reachable(cells: Seq<TerrainCell>, size: u16, p: Seq<Tile>, k: int)
    requires
        floor_path(cells, size, p),
        0 <= k < p.len(),
    ensures
        reachable(cells, size, p[0], p[k]),
{
    let q = p.take(k + 1);
    assert forall|i: int| 0 <= i < q.len() implies is_floor(cells, size, #[trigger] q[i]) by {
        assert(q[i] == p[i]);
    }
    assert forall|i: int| 0 <= i < q.len() - 1 implies #[trigger] adjacent4(q[i], q[i + 1]) by {
        assert(q[i] == p[i] && q[i + 1] == p[i + 1]);
        assert(adjacent4(p[i], p[i + 1]));
    }
    assert(floor_path(cells, size, q));
}

proof fn lemma_reachable_is_floor(cells: Seq<TerrainCell>, size: u16, anchor: Tile, t: Tile)
    requires
        reachable(cells, size, anchor, t),
    ensures
        is_floor(cells, size, t),
        is_floor(cells, size, anchor),
{
    let p = choose|p: Seq<Tile>| #[trigger] floor_path(cells, size, p) && p[0] == anchor && p.last() == t;
    assert(is_floor(cells, size, p[p.len() - 1]));
    assert(is_floor(cells, size, p[0]));
}

/// Carves every tile of `path`, with its rotations.
/// `u` is a turn of a cell of `p`.
pub open spec fn dug_by(p: Seq<Tile>, size: u16, turns: Seq<u8>, u: Tile) -> bool {
    exists|k: int, j: int| 0 <= k < p.len() && 0 <= j < turns.len() && #[trigger] rotated(p[k], size, turns[j]) == u
}

fn carve_path(g: &mut Grid, path: &Vec<Tile>, turns: &Vec<u8>)
    requires
        old(g).wf(),
        turns@.len() > 0,
        turns@[0] == 0,
        forall|k: int| 0 <= k < path@.len() ==> in_square(#[trigger] path@[k], old(g).size) && interior(path@[k], old(g).size),
        borders_walled(old(g).cells@, old(g).size),
    ensures
        final(g).wf(),
        final(g).size == old(g).size,
        borders_walled(final(g).cells@, final(g).size),
        forall|t: Tile| #![trigger cell_index(t, old(g).size)] is_floor(old(g).cells@, old(g).size, t) ==> is_floor(final(g).cells@, old(g).size, t),
        forall|k: int| 0 <= k < path@.len() ==> is_floor(final(g).cells@, old(g).size, #[trigger] path@[k]),
        turn_group(turns@) && floor_symmetric(old(g).cells@, old(g).size, turns@) ==> floor_symmetric(final(g).cells@, old(g).size, turns@),
        forall|u: Tile| #![trigger cell_index(u, old(g).size)] in_square(u, old(g).size) ==> final(g).cells@[cell_index(u, old(g).size)]
            == (if dug_by(path@, old(g).size, turns@, u) { TerrainCell::Floor } else { old(g).cells@[cell_index(u, old(g).size)] }),
{
    let ghost size = g.size;
    let ghost cells0 = g.cells@;
    let mut k: usize = 0;
    while k < path.len()
        invariant
            g.wf(),
            g.size == size,
            turns@.len() > 0,
            turns@[0] == 0,
            0 <= k <= path@.len(),
            forall|j: int| 0 <= j < path@.len() ==> in_square(#[trigger] path@[j], size) && interior(path@[j], size),
            borders_walled(g.cells@, size),
            forall|t: Tile| #![trigger cell_index(t, size)] is_floor(cells0, size, t) ==> is_floor(g.cells@, size, t),
            forall|j: int| 0 <= j < k ==> is_floor(g.cells@, size, #[trigger] path@[j]),
            turn_group(turns@) && floor_symmetric(cells0, size, turns@) ==> floor_symmetric(g.cells@, size, turns@),
            cells0.len() == size * size,
            forall|u: Tile| #![trigger cell_index(u, size)] in_square(u, size) ==> g.cells@[cell_index(u, size)]
                == (if dug_by(path@.take(k as int), size, turns@, u) { TerrainCell::Floor } else { cells0[cell_index(u, size)] }),
        decreases path.len() - k,
    {
        let t = path[k];
        let ghost before = g.cells@;
        g.carve(t, turns);
        proof {
            if turn_group(turns@) && floor_symmetric(cells0, size, turns@) {
                lemma_carve_symmetric(before, g.cells@, size, turns@, t);
            }
            assert(rotated(t, size, turns@[0]) == t);
            assert forall|u: Tile| #![trigger cell_index(u, size)] in_square(u, size) && on_border(u, size) implies g.cells@[cell_index(u, size)] == TerrainCell::Wall by {
                if exists|q: int| 0 <= q < turns@.len() && rotated(t, size, #[trigger] turns@[q]) == u {
                    let q = choose|q: int| 0 <= q < turns@.len() && rotated(t, size, #[trigger] turns@[q]) == u;
                    lemma_turned_interior(t, size, (turns@[q] % 4) as nat);
                }
            }
            assert forall|u: Tile| #![trigger cell_index(u, size)] is_floor(cells0, size, u) implies is_floor(g.cells@, size, u) by {
                assert(is_floor(before, size, u));
            }
            assert forall|j: int| 0 <= j < k + 1 implies is_floor(g.cells@, size, #[trigger] path@[j]) by {
                if j < k {
                    assert(is_floor(before, size, path@[j]));
                } else {
                    assert(rotated(t, size, turns@[0]) == path@[j]);
                }
            }
            let pk = path@.take(k as int);
            let pk1 = path@.take(k + 1);
            assert forall|u: Tile| #![trigger cell_index(u, size)] in_square(u, size) implies g.cells@[cell_index(u, size)]
                == (if dug_by(pk1, size, turns@, u) { TerrainCell::Floor } else { cells0[cell_index(u, size)] }) by {
                if dug_by(pk, size, turns@, u) {
                    let (a, b) = choose|a: int, b: int| 0 <= a < pk.len() && 0 <= b < turns@.len() && #[trigger] rotated(pk[a], size, turns@[b]) == u;
                    assert(pk1[a] == pk[a]);
                    assert(rotated(pk1[a], size, turns@[b]) == u);
                }
                if exists|q: int| 0 <= q < turns@.len() && rotated(t, size, #[trigger] turns@[q]) == u {
                    let q = choose|q: int| 0 <= q < turns@.len() && rotated(t, size, #[trigger] turns@[q]) == u;
                    assert(pk1[k as int] == t);
                    assert(rotated(pk1[k as int], size, turns@[q]) == u);
                }
                if dug_by(pk1, size, turns@, u) {
                    let (a, b) = choose|a: int, b: int| 0 <= a < pk1.len() && 0 <= b < turns@.len() && #[trigger] rotated(pk1[a], size, turns@[b]) == u;
                    if a < k {
                        assert(pk[a] == pk1[a]);
                        assert(rotated(pk[a], size, turns@[b]) == u);
                    } else {
                        assert(pk1[a] == t);
                    }
                }
            }
        }
        k += 1;
    }
    proof {
        assert(path@.take(k as int) == path@);
    }
}

/// `main` marks exactly the cells reachable from `anchor`.
pub open spec fn marks_reach(main: Seq<bool>, cells: Seq<TerrainCell>, size: u16, anchor: Tile) -> bool {
    &&& main.len() == size * size
    &&& forall|t: Tile| #![trigger cell_index(t, size)] in_square(t, size) ==> (main[cell_index(t, size)] <==> reachable(cells, size, anchor, t))
}

/// The route `corridor_to` digs on `cells` from the cavern of `anchor`: from the first floor cell
/// outside the cavern in (distance, column, row) order, the shortest route the search walks back
/// into the cavern.
pub open spec fn route_choice(cells: Seq<TerrainCell>, size: u16, anchor: Tile, p: Seq<Tile>) -> bool {
    exists|main: Seq<bool>| #[trigger] marks_reach(main, cells, size, anchor)
        && corridor(cells, size, main, p)
        && main_distance(main, size, p[0], p.len() - 1)
        && (forall|u: Tile, d: int| #[trigger] main_distance(main, size, u, d) && is_floor(cells, size, u) && interior(u, size)
            && !main[cell_index(u, size)] && u != p[0] ==> order_before(p.len() - 1, p[0], d, u))
        && p == search_route(main, size, p[0], p.len() - 1)
}

/// No route is left: the cavern of `anchor` is empty or holds every interior floor cell.
pub open spec fn caverns_joined(cells: Seq<TerrainCell>, size: u16, anchor: Tile) -> bool {
    (exists|m: Tile| in_square(m, size) && #[trigger] reachable(cells, size, anchor, m)) ==> forall|t: Tile| #![trigger cell_index(t, size)]
        is_floor(cells, size, t) && interior(t, size) ==> reachable(cells, size, anchor, t)
}

/// `cells2` is `cells` with route `p` dug, together with its turns.
pub open spec fn dug_route(cells: Seq<TerrainCell>, size: u16, turns: Seq<u8>, p: Seq<Tile>, cells2: Seq<TerrainCell>) -> bool {
    &&& cells2.len() == cells.len()
    &&& forall|u: Tile| #![trigger cell_index(u, size)] in_square(u, size) ==> cells2[cell_index(u, size)]
        == (if dug_by(p, size, turns, u) { TerrainCell::Floor } else { cells[cell_index(u, size)] })
}

/// Grids `gs` with routes `ps` dug one after another, each as `corridor_to` picks it, until no
/// route is left.
pub open spec fn dig_trace(size: u16, anchor: Tile, turns: Seq<u8>, gs: Seq<Seq<TerrainCell>>, ps: Seq<Seq<Tile>>) -> bool {
    &&& gs.len() == ps.len() + 1
    &&& forall|i: int| 0 <= i < ps.len() ==> #[trigger] route_choice(gs[i], size, anchor, ps[i]) && dug_route(gs[i], size, turns, ps[i], gs[i + 1])
    &&& caverns_joined(gs.last(), size, anchor)
}

/// `dug` is `cells` after corridors are dug from the cavern of `anchor` until no route is left.
pub open spec fn dug_from(cells: Seq<TerrainCell>, size: u16, anchor: Tile, turns: Seq<u8>, dug: Seq<TerrainCell>) -> bool {
    exists|gs: Seq<Seq<TerrainCell>>, ps: Seq<Seq<Tile>>| #[trigger] dig_trace(size, anchor, turns, gs, ps) && gs[0] == cells && gs.last() == dug
}

/// Digs corridors until every floor cell is reachable from `anchor` (when `anchor` is floor).
fn connect_caverns(g: &mut Grid, anchor: Tile, turns: &Vec<u8>)
    requires
        old(g).wf(),
        in_square(anchor, old(g).size),
        turns@.len() > 0,
        turns@[0] == 0,
        borders_walled(old(g).cells@, old(g).size),
    ensures
        final(g).wf(),
        final(g).size == old(g).size,
        borders_walled(final(g).cells@, final(g).size),
        forall|t: Tile| #![trigger cell_index(t, old(g).size)] is_floor(old(g).cells@, old(g).size, t) ==> is_floor(final(g).cells@, old(g).size, t),
        is_floor(final(g).cells@, final(g).size, anchor) ==> forall|t: Tile| #![trigger cell_index(t, final(g).size)]
            is_floor(final(g).cells@, final(g).size, t) ==> reachable(final(g).cells@, final(g).size, anchor, t),
        turn_group(turns@) && floor_symmetric(old(g).cells@, old(g).size, turns@) ==> floor_symmetric(final(g).cells@, old(g).size, turns@),
        dug_from(old(g).cells@, old(g).size, anchor, turns@, final(g).cells@),
{
    let ghost size = g.size;
    let ghost cells0 = g.cells@;
    let ghost mut gs: Seq<Seq<TerrainCell>> = seq![g.cells@];
    let ghost mut ps: Seq<Seq<Tile>> = seq![];
    loop
        invariant
            g.wf(),
            g.size == size,
            in_square(anchor, size),
            turns@.len() > 0,
            turns@[0] == 0,
            borders_walled(g.cells@, size),
            forall|t: Tile| #![trigger cell_index(t, size)] is_floor(cells0, size, t) ==> is_floor(g.cells@, size, t),
            turn_group(turns@) && floor_symmetric(cells0, size, turns@) ==> floor_symmetric(g.cells@, size, turns@),
            gs.len() == ps.len() + 1,
            gs[0] == cells0,
            gs.last() == g.cells@,
            forall|i: int| 0 <= i < ps.len() ==> #[trigger] route_choice(gs[i], size, anchor, ps[i]) && dug_route(gs[i], size, turns@, ps[i], gs[i + 1]),
        ensures
            is_floor(g.cells@, size, anchor) ==> forall|t: Tile| #![trigger cell_index(t, size)]
                is_floor(g.cells@, size, t) ==> reachable(g.cells@, size, anchor, t),
            dug_from(cells0, size, anchor, turns@, g.cells@),
        decreases count_unmarked(conn_marks(g.cells@, size, anchor)),
    {
        let main = g.component(anchor);
        proof {
            assert forall|c: Tile| #![trigger cell_index(c, size)] in_square(c, size) && main@[cell_index(c, size)] implies interior(c, size) by {
                lemma_reachable_is_floor(g.cells@, size, anchor, c);
                lemma_index_bounds(c, size);
            }
        }
        match g.corridor_to(&main) {
            None => {
                proof {
                    if is_floor(g.cells@, size, anchor) {
                        let p = seq![anchor];
                        assert(floor_path(g.cells@, size, p));
                        assert(reachable(g.cells@, size, anchor, anchor));
                        assert(in_main(main@, size, anchor));
                        assert forall|t: Tile| #![trigger cell_index(t, size)] is_floor(g.cells@, size, t) implies reachable(g.cells@, size, anchor, t) by {
                            lemma_index_bounds(t, size);
                        }
                    }
                    assert(caverns_joined(g.cells@, size, anchor)) by {
                        if exists|m: Tile| in_square(m, size) && #[trigger] reachable(g.cells@, size, anchor, m) {
                            let m = choose|m: Tile| in_square(m, size) && #[trigger] reachable(g.cells@, size, anchor, m);
                            lemma_index_bounds(m, size);
                            assert(in_main(main@, size, m));
                            assert forall|t: Tile| #![trigger cell_index(t, size)] is_floor(g.cells@, size, t) && interior(t, size)
                                implies reachable(g.cells@, size, anchor, t) by {
                                lemma_index_bounds(t, size);
                            }
                        }
                    }
                    assert(dig_trace(size, anchor, turns@, gs, ps));
                }
                break;
            },
            Some(path) => {
                let ghost before = g.cells@;
                carve_path(g, &path, turns);
                proof {
                    assert(marks_reach(main@, before, size, anchor));
                    assert(route_choice(before, size, anchor, path@));
                    assert(dug_route(before, size, turns@, path@, g.cells@));
                    let gs2 = gs.push(g.cells@);
                    let ps2 = ps.push(path@);
                    assert forall|i: int| 0 <= i < ps2.len() implies #[trigger] route_choice(gs2[i], size, anchor, ps2[i]) && dug_route(gs2[i], size, turns@, ps2[i], gs2[i + 1]) by {
                        if i < ps.len() {
                            assert(gs2[i] == gs[i] && gs2[i + 1] == gs[i + 1] && ps2[i] == ps[i]);
                        } else {
                            assert(gs2[i] == before && ps2[i] == path@);
                        }
                    }
                    gs = gs2;
                    ps = ps2;
                    let t0 = path@[0];
                    let m = path@.last();
                    assert(corridor(before, size, main@, path@));
                    assert(in_square(t0, size));
                    assert(in_square(m, size));
                    assert(reachable(before, size, anchor, m));
                    lemma_reach_grows(before, g.cells@, size, anchor, m);
                    lemma_corridor_reaches(g.cells@, size, anchor, path@, 0);
                    let a = conn_marks(before, size, anchor);
                    let b = conn_marks(g.cells@, size, anchor);
                    assert forall|i: int| 0 <= i < a.len() && #[trigger] a[i] implies b[i] by {
                        lemma_reach_grows(before, g.cells@, size, anchor, tile_of(i, size));
                    }
                    lemma_tile_of_index(t0, size);
                    lemma_index_bounds(t0, size);
                    let j = cell_index(t0, size);
                    assert(!a[j]);
                    assert(b[j]);
                    lemma_count_strict(a, b, j);
                    assert forall|t: Tile| #![trigger cell_index(t, size)] is_floor(cells0, size, t) implies is_floor(g.cells@, size, t) by {
                        assert(is_floor(before, size, t));
                    }
                }
            },
        }
    }
}

/// Walls every cell that `main` does not mark.
fn remove_pockets(g: Grid, main: &Vec<bool>) -> (r: Grid)
    requires
        g.wf(),
        main@.len() == g.size * g.size,
    ensures
        r.wf(),
        r.size == g.size,
        forall|t: Tile| #![trigger cell_index(t, g.size)] in_square(t, g.size) ==>
            r.cells@[cell_index(t, g.size)] == (if main@[cell_index(t, g.size)] { g.cells@[cell_index(t, g.size)] } else { TerrainCell::Wall }),
{
    let size = g.size;
    let ghost cells0 = g.cells@;
    let mut cells = g.cells;
    let mut i: usize = 0;
    while i < main.len()
        invariant
            main@.len() == size * size,
            cells0.len() == size * size,
            cells@.len() == cells0.len(),
            0 <= i <= main@.len(),
            forall|j: int| 0 <= j < cells0.len() ==> cells@[j] == (if j < i && !main@[j] { TerrainCell::Wall } else { cells0[j] }),
        decreases main.len() - i,
    {
        if !main[i] {
            cells.set(i, TerrainCell::Wall);
        }
        i += 1;
    }
    proof {
        assert forall|t: Tile| #![trigger cell_index(t, size)] in_square(t, size) implies
            cells@[cell_index(t, size)] == (if main@[cell_index(t, size)] { cells0[cell_index(t, size)] } else { TerrainCell::Wall }) by {
            lemma_index_bounds(t, size);
        }
    }
    Grid { size, cells }
}

fn start_tiles_in(g: &Grid, main: &Vec<bool>, starts: &Vec<Start>) -> (r: bool)
    requires
        main@.len() == g.size * g.size,
        starts_in_square(starts@, g.size),
    ensures
        r == forall|t: Tile| #[trigger] start_tile(starts@, t) ==> main@[cell_index(t, g.size)],
{
    let mut i: usize = 0;
    while i < starts.len()
        invariant
            main@.len() == g.size * g.size,
            starts_in_square(starts@, g.size),
            0 <= i <= starts@.len(),
            forall|k: int, t: Tile| 0 <= k < i && #[trigger] of_start(starts@[k], t) ==> main@[cell_index(t, g.size)],
        decreases starts.len() - i,
    {
        let s = &starts[i];
        assert(in_square(starts@[i as int].anchor, g.size));
        if !main[g.idx(s.anchor)] {
            assert(of_start(starts@[i as int], s.anchor));
            assert(start_tile(starts@, s.anchor));
            return false;
        }
        let mut j: usize = 0;
        while j < s.entities.len()
            invariant
                main@.len() == g.size * g.size,
                starts_in_square(starts@, g.size),
                0 <= i < starts@.len(),
                *s == starts@[i as int],
                0 <= j <= s.entities@.len(),
                main@[cell_index(s.anchor, g.size)],
                forall|m: int| 0 <= m < j ==> main@[cell_index((#[trigger] s.entities@[m]).1, g.size)],
            decreases s.entities.len() - j,
        {
            assert(in_square(starts@[i as int].entities@[j as int].1, g.size));
            if !main[g.idx(s.entities[j].1)] {
                assert(of_start(starts@[i as int], s.entities@[j as int].1));
                assert(start_tile(starts@, s.entities@[j as int].1));
                return false;
            }
            j += 1;
        }
        proof {
            assert forall|k: int, t: Tile| 0 <= k < i + 1 && #[trigger] of_start(starts@[k], t) implies main@[cell_index(t, g.size)] by {
                if k == i && starts@[k].anchor != t {
                    let m = choose|m: int| 0 <= m < starts@[k].entities@.len() && (#[trigger] starts@[k].entities@[m]).1 == t;
                    assert(main@[cell_index(s.entities@[m].1, g.size)]);
                }
            }
        }
        i += 1;
    }
    proof {
        assert forall|t: Tile| #[trigger] start_tile(starts@, t) implies main@[cell_index(t, g.size)] by {
            let k = choose|k: int| 0 <= k < starts@.len() && #[trigger] of_start(starts@[k], t);
        }
    }
    true
}

/// The grid before any corridor: floor exactly where `initial_floor` holds.
pub open spec fn initial_cells(floor: Seq<bool>, size: u16, turns: Seq<u8>, starts: Seq<Start>, cells: Seq<TerrainCell>) -> bool {
    &&& cells.len() == size * size
    &&& forall|t: Tile| #![trigger cell_index(t, size)] in_square(t, size) ==>
        cells[cell_index(t, size)] == (if initial_floor(floor, size, turns, starts, t) { TerrainCell::Floor } else { TerrainCell::Wall })
}

/// The terrain assembled from `init` through the dug grid `dug`: it fails exactly when a start
/// tile lies outside the first start's cavern in `dug`; otherwise its floor is exactly that cavern.
pub open spec fn assembled(init: Seq<TerrainCell>, dug: Seq<TerrainCell>, size: u16, turns: Seq<u8>, starts: Seq<Start>, r: Result<Terrain, String>) -> bool {
    &&& dug_from(init, size, starts[0].anchor, turns, dug)
    &&& (r is Err <==> exists|t: Tile| #[trigger] start_tile(starts, t) && !reachable(dug, size, starts[0].anchor, t))
    &&& r matches Ok(tr) ==> tr.width == size && tr.height == size && tr.cells@.len() == size * size
    &&& r matches Ok(tr) ==> forall|t: Tile| #![trigger cell_index(t, size)] in_square(t, size) ==>
        tr.cells@[cell_index(t, size)] == (if reachable(dug, size, starts[0].anchor, t) { TerrainCell::Floor } else { TerrainCell::Wall })
}

proof fn lemma_index_of_tile(i: int, size: u16)
    requires
        0 <= i < size * size,
    ensures
        in_square(tile_of(i, size), size),
        cell_index(tile_of(i, size), size) == i,
{
    let s = size as int;
    assert(s > 0) by (nonlinear_arith)
        requires
            0 <= i < s * s,
            s >= 0,
    ;
    vstd::arithmetic::div_mod::lemma_fundamental_div_mod(i, s);
    let y = i / s;
    let x = i % s;
    assert(0 <= x < s);
    assert(0 <= y < s) by (nonlinear_arith)
        requires
            i == s * y + x,
            0 <= x < s,
            0 <= i < s * s,
    ;
    assert(y * s + x == i) by (nonlinear_arith)
        requires
            i == s * y + x,
    ;
}

/// Two grids over the same square that agree on every tile are the same.
proof fn lemma_cells_ext(a: Seq<TerrainCell>, b: Seq<TerrainCell>, size: u16)
    requires
        a.len() == size * size,
        b.len() == size * size,
        forall|t: Tile| #![trigger cell_index(t, size)] in_square(t, size) ==> a[cell_index(t, size)] == b[cell_index(t, size)],
    ensures
        a == b,
{
    assert forall|i: int| 0 <= i < a.len() implies a[i] == b[i] by {
        lemma_index_of_tile(i, size);
        assert(a[cell_index(tile_of(i, size), size)] == b[cell_index(tile_of(i, size), size)]);
    }
    assert(a =~= b);
}

/// On a given grid the corridor to dig is determined: any two routes that `corridor_to` may
/// return from the cavern of `anchor` are the same.
pub proof fn law_route_determined(cells: Seq<TerrainCell>, size: u16, anchor: Tile, p1: Seq<Tile>, p2: Seq<Tile>)
    requires
        route_choice(cells, size, anchor, p1),
        route_choice(cells, size, anchor, p2),
    ensures
        p1 == p2,
{
    let main1 = choose|main: Seq<bool>| #[trigger] marks_reach(main, cells, size, anchor)
        && corridor(cells, size, main, p1)
        && main_distance(main, size, p1[0], p1.len() - 1)
        && (forall|u: Tile, d: int| #[trigger] main_distance(main, size, u, d) && is_floor(cells, size, u) && interior(u, size)
            && !main[cell_index(u, size)] && u != p1[0] ==> order_before(p1.len() - 1, p1[0], d, u))
        && p1 == search_route(main, size, p1[0], p1.len() - 1);
    let main2 = choose|main: Seq<bool>| #[trigger] marks_reach(main, cells, size, anchor)
        && corridor(cells, size, main, p2)
        && main_distance(main, size, p2[0], p2.len() - 1)
        && (forall|u: Tile, d: int| #[trigger] main_distance(main, size, u, d) && is_floor(cells, size, u) && interior(u, size)
            && !main[cell_index(u, size)] && u != p2[0] ==> order_before(p2.len() - 1, p2[0], d, u))
        && p2 == search_route(main, size, p2[0], p2.len() - 1);
    assert forall|i: int| 0 <= i < main1.len() implies main1[i] == main2[i] by {
        lemma_index_of_tile(i, size);
        let t = tile_of(i, size);
        assert(main1[cell_index(t, size)] == main2[cell_index(t, size)]);
    }
    assert(main1 =~= main2);
    let a = p1[0];
    let b = p2[0];
    assert(interior(a, size) && interior(b, size));
    if a != b {
        assert(order_before(p1.len() - 1, a, p2.len() - 1, b));
        assert(order_before(p2.len() - 1, b, p1.len() - 1, a));
    }
    crate::corridor::lemma_md_unique(main1, size, a, p1.len() - 1, p2.len() - 1);
}

/// A grid with a corridor left to dig does not have its caverns joined.
proof fn lemma_route_unjoined(cells: Seq<TerrainCell>, size: u16, anchor: Tile, p: Seq<Tile>)
    requires
        route_choice(cells, size, anchor, p),
    ensures
        !caverns_joined(cells, size, anchor),
{
    let main = choose|main: Seq<bool>| #[trigger] marks_reach(main, cells, size, anchor)
        && corridor(cells, size, main, p)
        && main_distance(main, size, p[0], p.len() - 1)
        && (forall|u: Tile, d: int| #[trigger] main_distance(main, size, u, d) && is_floor(cells, size, u) && interior(u, size)
            && !main[cell_index(u, size)] && u != p[0] ==> order_before(p.len() - 1, p[0], d, u))
        && p == search_route(main, size, p[0], p.len() - 1);
    let m = p.last();
    assert(in_main(main, size, m));
    assert(reachable(cells, size, anchor, m));
    assert(interior(p[0], size));
    if caverns_joined(cells, size, anchor) {
        assert(in_square(m, size) && reachable(cells, size, anchor, m));
        assert(reachable(cells, size, anchor, p[0]));
        assert(main[cell_index(p[0], size)]);
    }
}

proof fn lemma_traces_agree(
    size: u16, anchor: Tile, turns: Seq<u8>,
    gs1: Seq<Seq<TerrainCell>>, ps1: Seq<Seq<Tile>>, gs2: Seq<Seq<TerrainCell>>, ps2: Seq<Seq<Tile>>, i: int,
)
    requires
        dig_trace(size, anchor, turns, gs1, ps1),
        dig_trace(size, anchor, turns, gs2, ps2),
        gs1[0] == gs2[0],
        gs1[0].len() == size * size,
        0 <= i <= ps1.len(),
        i <= ps2.len(),
    ensures
        gs1[i] == gs2[i],
        gs1[i].len() == size * size,
    decreases i,
{
    if i > 0 {
        lemma_traces_agree(size, anchor, turns, gs1, ps1, gs2, ps2, i - 1);
        let j = i - 1;
        assert(route_choice(gs1[j], size, anchor, ps1[j]) && dug_route(gs1[j], size, turns, ps1[j], gs1[j + 1]));
        assert(route_choice(gs2[j], size, anchor, ps2[j]) && dug_route(gs2[j], size, turns, ps2[j], gs2[j + 1]));
        law_route_determined(gs1[j], size, anchor, ps1[j], ps2[j]);
        lemma_cells_ext(gs1[i], gs2[i], size);
    }
}

/// Digging is determined: from one grid, the corridors dug until no route is left give one grid.
pub proof fn law_dig_determined(cells: Seq<TerrainCell>, size: u16, anchor: Tile, turns: Seq<u8>, d1: Seq<TerrainCell>, d2: Seq<TerrainCell>)
    requires
        cells.len() == size * size,
        dug_from(cells, size, anchor, turns, d1),
        dug_from(cells, size, anchor, turns, d2),
    ensures
        d1 == d2,
{
    let (gs1, ps1) = choose|gs: Seq<Seq<TerrainCell>>, ps: Seq<Seq<Tile>>| #[trigger] dig_trace(size, anchor, turns, gs, ps) && gs[0] == cells && gs.last() == d1;
    let (gs2, ps2) = choose|gs: Seq<Seq<TerrainCell>>, ps: Seq<Seq<Tile>>| #[trigger] dig_trace(size, anchor, turns, gs, ps) && gs[0] == cells && gs.last() == d2;
    if ps1.len() < ps2.len() {
        let n = ps1.len() as int;
        lemma_traces_agree(size, anchor, turns, gs1, ps1, gs2, ps2, n);
        assert(route_choice(gs2[n], size, anchor, ps2[n]));
        lemma_route_unjoined(gs2[n], size, anchor, ps2[n]);
    } else if ps2.len() < ps1.len() {
        let n = ps2.len() as int;
        lemma_traces_agree(size, anchor, turns, gs1, ps1, gs2, ps2, n);
        assert(route_choice(gs1[n], size, anchor, ps1[n]));
        lemma_route_unjoined(gs1[n], size, anchor, ps1[n]);
    } else {
        lemma_traces_agree(size, anchor, turns, gs1, ps1, gs2, ps2, ps1.len() as int);
    }
}

/// The terrain is a function of its inputs: any two results that `assemble_terrain` may give for
/// one field, size, symmetry and start set fail together or hold the same cells.
pub proof fn law_terrain_determined(
    floor: Seq<bool>, size: u16, turns: Seq<u8>, starts: Seq<Start>,
    init1: Seq<TerrainCell>, dug1: Seq<TerrainCell>, r1: Result<Terrain, String>,
    init2: Seq<TerrainCell>, dug2: Seq<TerrainCell>, r2: Result<Terrain, String>,
)
    requires
        initial_cells(floor, size, turns, starts, init1),
        assembled(init1, dug1, size, turns, starts, r1),
        initial_cells(floor, size, turns, starts, init2),
        assembled(init2, dug2, size, turns, starts, r2),
    ensures
        r1 is Err <==> r2 is Err,
        r1 matches Ok(a) ==> r2 matches Ok(b) && a.width == b.width && a.height == b.height && a.cells@ == b.cells@,
{
    lemma_cells_ext(init1, init2, size);
    law_dig_determined(init1, size, starts[0].anchor, turns, dug1, dug2);
    if let Ok(a) = r1 {
        if let Ok(b) = r2 {
            assert forall|t: Tile| #![trigger cell_index(t, size)] in_square(t, size) implies a.cells@[cell_index(t, size)] == b.cells@[cell_index(t, size)] by {
            }
            lemma_cells_ext(a.cells@, b.cells@, size);
        }
    }
}

/// Assembles the terrain: the symmetric union of the field with start clearings inside a
/// border wall, corridors dug (with their rotations) until every cavern connects to the first
/// start's, and everything still unreachable walled. Fails when a start tile is left outside the
/// first start's cavern.
pub fn assemble_terrain(size: u16, turns: &Vec<u8>, floor: &Vec<bool>, starts: &Vec<Start>) -> (r: Result<Terrain, String>)
    requires
        floor@.len() == size * size,
        size <= 32768,
        starts@.len() >= 1,
        starts_in_square(starts@, size),
        turns@.len() > 0,
        turns@[0] == 0,
    ensures
        r is Err ==> exists|t: Tile| #[trigger] start_tile(starts@, t) && !initial_floor(floor@, size, turns@, starts@, t),
        r matches Ok(tr) ==> {
            &&& tr.width == size
            &&& tr.height == size
            &&& tr.cells@.len() == size * size
            &&& borders_walled(tr.cells@, size)
            &&& forall|t: Tile| #![trigger cell_index(t, size)] in_square(t, size) && initial_floor(floor@, size, turns@, starts@, t) ==> is_floor(tr.cells@, size, t)
            &&& forall|t: Tile| #![trigger cell_index(t, size)] is_floor(tr.cells@, size, t) ==> reachable(tr.cells@, size, starts@[0].anchor, t)
            &&& forall|t: Tile| #[trigger] start_tile(starts@, t) ==> is_floor(tr.cells@, size, t)
            &&& turn_group(turns@) && starts_symmetric(starts@, size, turns@) ==> floor_symmetric(tr.cells@, size, turns@)
        },
        exists|init: Seq<TerrainCell>, dug: Seq<TerrainCell>| #[trigger] initial_cells(floor@, size, turns@, starts@, init)
            && #[trigger] assembled(init, dug, size, turns@, starts@, r),
{
    let mut g = initial_grid(size, turns, floor, starts);
    let ghost initial = g.cells@;
    let anchor = starts[0].anchor;
    proof {
        assert(in_square(starts@[0].anchor, size));
        assert forall|t: Tile| #![trigger cell_index(t, size)] in_square(t, size) && on_border(t, size) implies g.cells@[cell_index(t, size)] == TerrainCell::Wall by {
        }
    }
    connect_caverns(&mut g, anchor, turns);
    let ghost dug = g.cells@;
    let main = g.component(anchor);
    let all_in = start_tiles_in(&g, &main, starts);
    proof {
        assert(initial_cells(floor@, size, turns@, starts@, initial));
        assert((exists|t: Tile| #[trigger] start_tile(starts@, t) && !reachable(dug, size, anchor, t)) <==> !all_in) by {
            if exists|t: Tile| #[trigger] start_tile(starts@, t) && !reachable(dug, size, anchor, t) {
                let t = choose|t: Tile| #[trigger] start_tile(starts@, t) && !reachable(dug, size, anchor, t);
                let k = choose|k: int| 0 <= k < starts@.len() && #[trigger] of_start(starts@[k], t);
                if starts@[k].anchor != t {
                    let j = choose|j: int| 0 <= j < starts@[k].entities@.len() && (#[trigger] starts@[k].entities@[j]).1 == t;
                    assert(in_square(starts@[k].entities@[j].1, size));
                }
                assert(in_square(t, size));
                assert(!main@[cell_index(t, size)]);
            }
            if !all_in {
                let t = choose|t: Tile| #[trigger] start_tile(starts@, t) && !main@[cell_index(t, size)];
                let k = choose|k: int| 0 <= k < starts@.len() && #[trigger] of_start(starts@[k], t);
                if starts@[k].anchor != t {
                    let j = choose|j: int| 0 <= j < starts@[k].entities@.len() && (#[trigger] starts@[k].entities@[j]).1 == t;
                    assert(in_square(starts@[k].entities@[j].1, size));
                }
                assert(in_square(t, size));
            }
        }
    }
    if !all_in {
        proof {
            let t = choose|t: Tile| #[trigger] start_tile(starts@, t) && !main@[cell_index(t, size)];
            assert(of_start(starts@[0], anchor));
            assert(start_tile(starts@, anchor));
            if initial_floor(floor@, size, turns@, starts@, t) && initial_floor(floor@, size, turns@, starts@, anchor) {
                let k = choose|k: int| 0 <= k < starts@.len() && #[trigger] of_start(starts@[k], t);
                if starts@[k].anchor != t {
                    let j = choose|j: int| 0 <= j < starts@[k].entities@.len() && (#[trigger] starts@[k].entities@[j]).1 == t;
                    assert(in_square(starts@[k].entities@[j].1, size));
                }
                assert(in_square(t, size));
                assert(is_floor(initial, size, anchor));
                assert(is_floor(dug, size, anchor));
                assert(is_floor(initial, size, t));
                assert(is_floor(dug, size, t));
                assert(reachable(dug, size, anchor, t));
                assert(false);
            }
        }
        let e: Result<Terrain, String> = Err("a start cannot reach the first start".to_string());
        proof {
            assert(assembled(initial, dug, size, turns@, starts@, e));
        }
        return e;
    }
    let g = remove_pockets(g, &main);
    proof {
        let fin = g.cells@;
        assert(of_start(starts@[0], anchor));
        assert(start_tile(starts@, anchor));
        assert(main@[cell_index(anchor, size)]);
        lemma_reachable_is_floor(dug, size, anchor, anchor);
        assert(is_floor(dug, size, anchor));
        assert forall|t: Tile| #![trigger cell_index(t, size)] in_square(t, size) && on_border(t, size) implies fin[cell_index(t, size)] == TerrainCell::Wall by {
        }
        // the final floor is exactly the cells reachable in the dug grid
        assert forall|t: Tile| #![trigger cell_index(t, size)] in_square(t, size) implies
            (is_floor(fin, size, t) <==> reachable(dug, size, anchor, t)) by {
            if reachable(dug, size, anchor, t) {
                lemma_reachable_is_floor(dug, size, anchor, t);
            }
        }
        assert forall|t: Tile| #![trigger cell_index(t, size)] in_square(t, size) && initial_floor(floor@, size, turns@, starts@, t) implies is_floor(fin, size, t) by {
            assert(is_floor(initial, size, t));
            assert(is_floor(dug, size, t));
        }
        assert forall|t: Tile| #![trigger cell_index(t, size)] is_floor(fin, size, t) implies reachable(fin, size, anchor, t) by {
            let p = choose|p: Seq<Tile>| #[trigger] floor_path(dug, size, p) && p[0] == anchor && p.last() == t;
            assert forall|i: int| 0 <= i < p.len() implies is_floor(fin, size, #[trigger] p[i]) by {
                lemma_walk_reachable(dug, size, p, i);
                assert(is_floor(dug, size, p[i]));
            }
            assert(floor_path(fin, size, p));
        }
        assert forall|t: Tile| #[trigger] start_tile(starts@, t) implies is_floor(fin, size, t) by {
            let k = choose|k: int| 0 <= k < starts@.len() && #[trigger] of_start(starts@[k], t);
            if starts@[k].anchor != t {
                let j = choose|j: int| 0 <= j < starts@[k].entities@.len() && (#[trigger] starts@[k].entities@[j]).1 == t;
                assert(in_square(starts@[k].entities@[j].1, size));
            }
            assert(in_square(t, size));
            assert(main@[cell_index(t, size)]);
        }
        if turn_group(turns@) && starts_symmetric(starts@, size, turns@) {
            assert forall|t: Tile| #![trigger cell_index(t, size)] in_square(t, size) implies (is_floor(fin, size, t) <==> is_floor(dug, size, t)) by {
                if is_floor(dug, size, t) {
                    assert(reachable(dug, size, anchor, t));
                }
            }
            assert forall|t: Tile, k: int| 0 <= k < turns@.len() implies #[trigger] floor_kept(fin, size, turns@, t, k) by {
                if is_floor(fin, size, t) {
                    assert(floor_kept(dug, size, turns@, t, k));
                    assert(turns@[k] < 4);
                    lemma_turned_in_square(t, size, (turns@[k] % 4) as nat);
                }
            }
        }
    }
    let ghost fin = g.cells@;
    proof {
        assert forall|t: Tile| #![trigger cell_index(t, size)] in_square(t, size) implies
            fin[cell_index(t, size)] == (if reachable(dug, size, anchor, t) { TerrainCell::Floor } else { TerrainCell::Wall }) by {
            if reachable(dug, size, anchor, t) {
                lemma_reachable_is_floor(dug, size, anchor, t);
            }
        }
    }
    let r = Ok(Terrain { width: size, height: size, cells: g.cells });
    proof {
        assert(assembled(initial, dug, size, turns@, starts@, r));
    }
    r
}

} // verus!
