//! The start layout and the integer parts of cave-map generation: symmetric union, start
//! clearings, floor components, corridor digging, pocket removal and start reachability.
use vstd::prelude::*;
use crate::types::{Direction, Tile, TypeKey};
use crate::geometry::{
    in_square, lemma_turned_in_square, rotate, rotate_direction, rotated, turned_direction,
};

verus! {

/// Rotation applied to the player-0 start for each player, by player count.
pub open spec fn spec_start_turns(players: u8) -> Seq<u8> {
    if players == 2 {
        seq![0u8, 2u8]
    } else if players == 3 {
        seq![0u8, 2u8, 1u8]
    } else {
        seq![0u8, 1u8, 2u8, 3u8]
    }
}

pub fn start_turns(players: u8) -> (r: Vec<u8>)
    ensures
        r@ == spec_start_turns(players),
{
    if players == 2 {
        vec![0, 2]
    } else if players == 3 {
        vec![0, 2, 1]
    } else {
        vec![0, 1, 2, 3]
    }
}

/// Quarter turns that must leave the terrain unchanged.
pub open spec fn spec_symmetry_turns(symmetric: bool, player_count: u8) -> Seq<u8> {
    if !symmetric {
        seq![0u8]
    } else if player_count == 4 {
        seq![0u8, 1u8, 2u8, 3u8]
    } else {
        seq![0u8, 2u8]
    }
}

pub fn symmetry_turns(symmetric: bool, player_count: u8) -> (r: Vec<u8>)
    ensures
        r@ == spec_symmetry_turns(symmetric, player_count),
{
    if !symmetric {
        vec![0]
    } else if player_count == 4 {
        vec![0, 1, 2, 3]
    } else {
        vec![0, 2]
    }
}

/// A player's start: its clearing anchor and its starting entities with tile and facing.
#[derive(Debug, Clone, PartialEq, Eq)]
pub struct Start {
    pub anchor: Tile,
    pub entities: Vec<(TypeKey, Tile, Direction)>,
}

pub open spec fn start_anchor() -> Tile {
    Tile { x: 4, y: 4 }
}

/// Tiles of the starting roster around player 0's anchor.
pub open spec fn start_slot(i: int) -> Tile {
    if i == 0 {
        Tile { x: 4, y: 7 }
    } else if i == 1 {
        Tile { x: 6, y: 5 }
    } else {
        Tile { x: 3, y: 3 }
    }
}

/// Player 0's layout turned by `q` quarters.
pub open spec fn start_of(s: Start, size: u16, q: u8, roster: Seq<TypeKey>) -> bool {
    &&& s.anchor == rotated(start_anchor(), size, q)
    &&& s.entities@.len() == roster.len()
    &&& forall|i: int| 0 <= i < roster.len() ==> {
        &&& (#[trigger] s.entities@[i]).0@ == roster[i]@
        &&& s.entities@[i].1 == rotated(start_slot(i), size, q)
        &&& s.entities@[i].2 == turned_direction(Direction::Se, q)
    }
}

fn slot(i: usize) -> (t: Tile)
    requires
        i < 3,
    ensures
        t == start_slot(i as int),
{
    if i == 0 {
        Tile { x: 4, y: 7 }
    } else if i == 1 {
        Tile { x: 6, y: 5 }
    } else {
        Tile { x: 3, y: 3 }
    }
}

fn turned_start(size: u16, q: u8, roster: &Vec<TypeKey>) -> (s: Start)
    requires
        size >= 16,
        roster@.len() <= 3,
    ensures
        start_of(s, size, q, roster@),
{
    let mut entities: Vec<(TypeKey, Tile, Direction)> = Vec::new();
    let mut i: usize = 0;
    while i < roster.len()
        invariant
            size >= 16,
            roster@.len() <= 3,
            0 <= i <= roster@.len(),
            entities@.len() == i,
            forall|j: int| 0 <= j < i ==> {
                &&& (#[trigger] entities@[j]).0@ == roster@[j]@
                &&& entities@[j].1 == rotated(start_slot(j), size, q)
                &&& entities@[j].2 == turned_direction(Direction::Se, q)
            },
        decreases roster.len() - i,
    {
        let t = slot(i);
        entities.push((roster[i].clone(), rotate(t, size, q), rotate_direction(Direction::Se, q)));
        i += 1;
    }
    Start { anchor: rotate(Tile { x: 4, y: 4 }, size, q), entities }
}

/// Player 0 keeps the top-left layout; the other starts are its rotations. The map must be at
/// least 16 tiles wide and the roster must fit the three start slots.
pub fn starts(size: u16, players: u8, roster: &Vec<TypeKey>) -> (r: Result<Vec<Start>, String>)
    ensures
        r is Ok <==> size >= 16 && roster@.len() <= 3,
        r matches Ok(v) ==> v@.len() == spec_start_turns(players).len()
            && forall|k: int| 0 <= k < v@.len() ==> start_of(#[trigger] v@[k], size, spec_start_turns(players)[k], roster@),
{
    if size < 16 {
        return Err("map generation needs at least 16 tiles".to_string());
    }
    if roster.len() > 3 {
        return Err("starting roster exceeds start slots".to_string());
    }
    let turns = start_turns(players);
    let mut out: Vec<Start> = Vec::new();
    let mut k: usize = 0;
    while k < turns.len()
        invariant
            size >= 16,
            roster@.len() <= 3,
            turns@ == spec_start_turns(players),
            0 <= k <= turns@.len(),
            out@.len() == k,
            forall|j: int| 0 <= j < k ==> start_of(#[trigger] out@[j], size, turns@[j], roster@),
        decreases turns.len() - k,
    {
        out.push(turned_start(size, turns[k], roster));
        k += 1;
    }
    Ok(out)
}

/// The start anchors are distinct tiles of the map, one per player of two to four.
pub proof fn law_start_anchors_distinct(size: u16, players: u8)
    requires
        size >= 16,
    ensures
        forall|a: int, b: int| 0 <= a < b < spec_start_turns(players).len() ==>
            rotated(start_anchor(), size, #[trigger] spec_start_turns(players)[a]) != rotated(start_anchor(), size, #[trigger] spec_start_turns(players)[b]),
        forall|a: int| 0 <= a < spec_start_turns(players).len() ==> in_square(rotated(start_anchor(), size, #[trigger] spec_start_turns(players)[a]), size),
{
    reveal_with_fuel(crate::geometry::turned, 4);
    assert forall|a: int| 0 <= a < spec_start_turns(players).len() implies in_square(rotated(start_anchor(), size, #[trigger] spec_start_turns(players)[a]), size) by {
        lemma_turned_in_square(start_anchor(), size, (spec_start_turns(players)[a] % 4) as nat);
    }
}

// ---- the cell grid ---------------------------------------------------------------------------

#[derive(Debug, Clone, Copy, PartialEq, Eq, Structural)]
pub enum TerrainCell {
    Floor,
    Wall,
}

/// A square terrain, row by row.
#[derive(Debug, Clone, PartialEq, Eq)]
pub struct Terrain {
    pub width: u16,
    pub height: u16,
    pub cells: Vec<TerrainCell>,
}

/// Row-major index of a tile.
pub open spec fn cell_index(t: Tile, size: u16) -> int {
    t.y * size + t.x
}

pub open spec fn is_floor(cells: Seq<TerrainCell>, size: u16, t: Tile) -> bool {
    in_square(t, size) && cells[cell_index(t, size)] == TerrainCell::Floor
}

/// Tiles sharing an edge.
pub open spec fn adjacent4(a: Tile, b: Tile) -> bool {
    ||| a.x == b.x && (a.y + 1 == b.y || b.y + 1 == a.y)
    ||| a.y == b.y && (a.x + 1 == b.x || b.x + 1 == a.x)
}

/// A walk over floor tiles, each step to an edge neighbor.
pub open spec fn floor_path(cells: Seq<TerrainCell>, size: u16, p: Seq<Tile>) -> bool {
    &&& p.len() > 0
    &&& forall|i: int| 0 <= i < p.len() ==> is_floor(cells, size, #[trigger] p[i])
    &&& forall|i: int| 0 <= i < p.len() - 1 ==> #[trigger] adjacent4(p[i], p[i + 1])
}

/// `to` lies in the four-neighbor floor component of `from`.
pub open spec fn reachable(cells: Seq<TerrainCell>, size: u16, from: Tile, to: Tile) -> bool {
    exists|p: Seq<Tile>| #[trigger] floor_path(cells, size, p) && p[0] == from && p.last() == to
}

pub proof fn lemma_index_bounds(t: Tile, size: u16)
    requires
        in_square(t, size),
    ensures
        0 <= cell_index(t, size) < size * size,
{
    assert(t.y * size + t.x < size * size) by (nonlinear_arith)
        requires
            t.y < size,
            t.x < size,
    ;
}

pub proof fn lemma_index_injective(a: Tile, b: Tile, size: u16)
    requires
        in_square(a, size),
        in_square(b, size),
        cell_index(a, size) == cell_index(b, size),
    ensures
        a == b,
{
    assert(a.y == b.y && a.x == b.x) by (nonlinear_arith)
        requires
            a.y * size + a.x == b.y * size + b.x,
            a.x < size,
            b.x < size,
            a.y < size,
            b.y < size,
    ;
}

pub(crate) proof fn lemma_extend_path(cells: Seq<TerrainCell>, size: u16, p: Seq<Tile>, v: Tile)
    requires
        floor_path(cells, size, p),
        is_floor(cells, size, v),
        adjacent4(p.last(), v),
    ensures
        floor_path(cells, size, p.push(v)),
        p.push(v)[0] == p[0],
        p.push(v).last() == v,
{
    let q = p.push(v);
    assert forall|i: int| 0 <= i < q.len() implies is_floor(cells, size, #[trigger] q[i]) by {
        if i < p.len() {
            assert(q[i] == p[i]);
        }
    }
    assert forall|i: int| 0 <= i < q.len() - 1 implies #[trigger] adjacent4(q[i], q[i + 1]) by {
        if i < p.len() - 1 {
            assert(adjacent4(p[i], p[i + 1]));
        }
    }
}

/// Number of unmarked cells.
pub open spec fn count_unmarked(s: Seq<bool>) -> nat
    decreases s.len(),
{
    if s.len() == 0 {
        0
    } else {
        count_unmarked(s.drop_last()) + if s.last() { 0nat } else { 1nat }
    }
}

pub(crate) proof fn lemma_mark_decreases(s: Seq<bool>, i: int)
    requires
        0 <= i < s.len(),
        !s[i],
    ensures
        count_unmarked(s.update(i, true)) + 1 == count_unmarked(s),
    decreases s.len(),
{
    let u = s.update(i, true);
    if i < s.len() - 1 {
        assert(u.drop_last() == s.drop_last().update(i, true));
        lemma_mark_decreases(s.drop_last(), i);
    } else {
        assert(u.drop_last() == s.drop_last());
    }
}

/// Horizontal and vertical offsets of the four edge neighbors: north, east, south, west.
pub open spec fn off_x(k: int) -> int {
    if k == 1 { 1 } else if k == 3 { -1 } else { 0 }
}

pub open spec fn off_y(k: int) -> int {
    if k == 0 { -1 } else if k == 2 { 1 } else { 0 }
}

/// `w` is the `k`-th edge neighbor of `t`.
pub open spec fn neighbor_at(t: Tile, k: int, w: Tile) -> bool {
    w.x == t.x + off_x(k) && w.y == t.y + off_y(k)
}

pub(crate) fn offset(k: usize) -> (r: (i32, i32))
    requires
        k < 4,
    ensures
        r.0 == off_x(k as int),
        r.1 == off_y(k as int),
{
    if k == 0 {
        (0, -1)
    } else if k == 1 {
        (1, 0)
    } else if k == 2 {
        (0, 1)
    } else {
        (-1, 0)
    }
}

/// The marked cells are closed under floor edge-neighbors, except for tiles still queued.
pub open spec fn closed_except(cells: Seq<TerrainCell>, size: u16, seen: Seq<bool>, queue: Seq<Tile>) -> bool {
    forall|u: Tile, v: Tile| #[trigger] adjacent4(u, v) && in_square(u, size) && seen[cell_index(u, size)]
        && !queue.contains(u) && is_floor(cells, size, v) ==> seen[cell_index(v, size)]
}

proof fn lemma_closed_reaches(cells: Seq<TerrainCell>, size: u16, seen: Seq<bool>, p: Seq<Tile>, k: int)
    requires
        floor_path(cells, size, p),
        seen[cell_index(p[0], size)],
        closed_except(cells, size, seen, seq![]),
        0 <= k < p.len(),
    ensures
        seen[cell_index(p[k], size)],
    decreases k,
{
    if k > 0 {
        lemma_closed_reaches(cells, size, seen, p, k - 1);
        let j = k - 1;
        assert(adjacent4(p[j], p[j + 1]));
        assert(is_floor(cells, size, p[k - 1]));
        assert(is_floor(cells, size, p[k]));
    }
}

pub struct Grid {
    pub size: u16,
    pub cells: Vec<TerrainCell>,
}

impl Grid {
    pub open spec fn wf(&self) -> bool {
        self.cells@.len() == self.size * self.size
    }

    pub fn n(&self) -> (r: usize)
        ensures
            r == self.size,
    {
        self.size as usize
    }

    pub fn idx(&self, t: Tile) -> (r: usize)
        requires
            in_square(t, self.size),
        ensures
            r == cell_index(t, self.size),
            r < self.size * self.size,
    {
        proof {
            lemma_index_bounds(t, self.size);
            assert(self.size * self.size <= 0xffff * 0xffff) by (nonlinear_arith)
                requires
                    self.size <= 0xffff,
            ;
            assert(t.y * self.size <= t.y * self.size + t.x);
        }
        let n = self.size as usize;
        (t.y as usize) * n + (t.x as usize)
    }

    /// The tile at `(x, y)` when it lies on the map.
    pub fn tile(&self, x: i32, y: i32) -> (r: Option<Tile>)
        ensures
            r is Some <==> 0 <= x < self.size && 0 <= y < self.size,
            r matches Some(t) ==> t.x == x && t.y == y,
    {
        if x >= 0 && y >= 0 && x < self.size as i32 && y < self.size as i32 {
            Some(Tile { x: x as u16, y: y as u16 })
        } else {
            None
        }
    }

    /// Turns `t` into floor together with its rotations by `turns`.
    pub fn carve(&mut self, t: Tile, turns: &Vec<u8>)
        requires
            old(self).wf(),
            in_square(t, old(self).size),
        ensures
            final(self).wf(),
            final(self).size == old(self).size,
            forall|u: Tile| #![trigger cell_index(u, old(self).size)] in_square(u, old(self).size) ==>
                final(self).cells@[cell_index(u, old(self).size)] == (if exists|k: int| 0 <= k < turns@.len() && rotated(t, old(self).size, #[trigger] turns@[k]) == u {
                    TerrainCell::Floor
                } else {
                    old(self).cells@[cell_index(u, old(self).size)]
                }),
    {
        let ghost size = self.size;
        let ghost before = self.cells@;
        let mut k: usize = 0;
        while k < turns.len()
            invariant
                self.size == size,
                self.wf(),
                in_square(t, size),
                before.len() == size * size,
                0 <= k <= turns@.len(),
                forall|u: Tile| #![trigger cell_index(u, size)] in_square(u, size) ==>
                    self.cells@[cell_index(u, size)] == (if exists|j: int| 0 <= j < k && rotated(t, size, #[trigger] turns@[j]) == u {
                        TerrainCell::Floor
                    } else {
                        before[cell_index(u, size)]
                    }),
            decreases turns.len() - k,
        {
            let r = rotate(t, self.size, turns[k]);
            let i = self.idx(r);
            self.cells.set(i, TerrainCell::Floor);
            proof {
                assert forall|u: Tile| #![trigger cell_index(u, size)] in_square(u, size) implies
                    self.cells@[cell_index(u, size)] == (if exists|j: int| 0 <= j < k + 1 && rotated(t, size, #[trigger] turns@[j]) == u {
                        TerrainCell::Floor
                    } else {
                        before[cell_index(u, size)]
                    }) by {
                    lemma_index_bounds(u, size);
                    if cell_index(u, size) == i as int {
                        lemma_index_injective(u, r, size);
                        assert(rotated(t, size, turns@[k as int]) == u);
                    } else {
                        if exists|j: int| 0 <= j < k + 1 && rotated(t, size, #[trigger] turns@[j]) == u {
                            let j = choose|j: int| 0 <= j < k + 1 && rotated(t, size, #[trigger] turns@[j]) == u;
                            if j == k {
                                assert(r == u);
                            }
                        }
                    }
                }
            }
            k += 1;
        }
    }

    /// The four-neighbor floor component containing `from`, as a mark per cell.
    pub fn component(&self, from: Tile) -> (seen: Vec<bool>)
        requires
            self.wf(),
            in_square(from, self.size),
        ensures
            seen@.len() == self.size * self.size,
            forall|t: Tile| #![trigger cell_index(t, self.size)] in_square(t, self.size) ==>
                (seen@[cell_index(t, self.size)] <==> reachable(self.cells@, self.size, from, t)),
    {
        let ghost size = self.size;
        let ghost cells = self.cells@;
        let n = self.n();
        proof {
            assert(n * n <= 0xffff * 0xffff) by (nonlinear_arith)
                requires
                    n <= 0xffff,
            ;
        }
        let mut seen: Vec<bool> = vec![false; n * n];
        let start = self.idx(from);
        if self.cells[start] != TerrainCell::Floor {
            proof {
                assert forall|t: Tile| #![trigger cell_index(t, size)] in_square(t, size) implies
                    (seen@[cell_index(t, size)] <==> reachable(cells, size, from, t)) by {
                    lemma_index_bounds(t, size);
                    if reachable(cells, size, from, t) {
                        let p = choose|p: Seq<Tile>| #[trigger] floor_path(cells, size, p) && p[0] == from && p.last() == t;
                        assert(is_floor(cells, size, p[0]));
                    }
                }
            }
            return seen;
        }
        let mut queue: std::collections::VecDeque<Tile> = std::collections::VecDeque::new();
        queue.push_back(from);
        seen.set(start, true);
        proof {
            let p = seq![from];
            assert(floor_path(cells, size, p));
            assert(reachable(cells, size, from, from));
            assert forall|t: Tile| #![trigger cell_index(t, size)] in_square(t, size) && seen@[cell_index(t, size)] implies reachable(cells, size, from, t) by {
                lemma_index_bounds(t, size);
                if cell_index(t, size) == start as int {
                    lemma_index_injective(t, from, size);
                }
            }
            assert forall|i: int| 0 <= i < queue@.len() implies in_square(#[trigger] queue@[i], size) && seen@[cell_index(queue@[i], size)] by {
                assert(queue@[i] == from);
            }
            assert forall|u: Tile, v: Tile| #[trigger] adjacent4(u, v) && in_square(u, size) && seen@[cell_index(u, size)]
                && !queue@.contains(u) && is_floor(cells, size, v) implies seen@[cell_index(v, size)] by {
                lemma_index_bounds(u, size);
                if cell_index(u, size) == start as int {
                    lemma_index_injective(u, from, size);
                    assert(queue@[0] == from);
                }
            }
        }
        while queue.len() > 0
            invariant
                size == self.size,
                cells == self.cells@,
                self.wf(),
                in_square(from, size),
                seen@.len() == size * size,
                seen@[cell_index(from, size)],
                forall|t: Tile| #![trigger cell_index(t, size)] in_square(t, size) && seen@[cell_index(t, size)] ==> reachable(cells, size, from, t),
                forall|i: int| 0 <= i < queue@.len() ==> in_square(#[trigger] queue@[i], size) && seen@[cell_index(queue@[i], size)],
                queue@.no_duplicates(),
                closed_except(cells, size, seen@, queue@),
            decreases 2 * count_unmarked(seen@) + queue@.len(),
        {
            let ghost seen0 = seen@;
            let ghost queue0 = queue@;
            let t = match queue.pop_front() {
                Some(t) => t,
                None => {
                    return seen;
                },
            };
            proof {
                assert(queue0[0] == t);
                assert(in_square(t, size) && seen@[cell_index(t, size)]);
                assert(!queue@.contains(t)) by {
                    if queue@.contains(t) {
                        let j = choose|j: int| 0 <= j < queue@.len() && queue@[j] == t;
                        assert(queue0[j + 1] == t);
                    }
                }
                assert forall|u: Tile| queue@.contains(u) implies queue0.contains(u) by {
                    let j = choose|j: int| 0 <= j < queue@.len() && queue@[j] == u;
                    assert(queue0[j + 1] == u);
                }
                assert forall|u: Tile| queue0.contains(u) && u != t implies queue@.contains(u) by {
                    let j = choose|j: int| 0 <= j < queue0.len() && queue0[j] == u;
                    assert(j != 0);
                    assert(queue@[j - 1] == u);
                }
                lemma_index_bounds(t, size);
                lemma_index_bounds(from, size);
            }
            let mut k: usize = 0;
            while k < 4
                invariant
                    size == self.size,
                    cells == self.cells@,
                    self.wf(),
                    in_square(from, size),
                    in_square(t, size),
                    !queue@.contains(t),
                    seen@.len() == size * size,
                    seen@[cell_index(from, size)],
                    seen@[cell_index(t, size)],
                    0 <= k <= 4,
                    forall|u: Tile| #![trigger cell_index(u, size)] in_square(u, size) && seen@[cell_index(u, size)] ==> reachable(cells, size, from, u),
                    forall|i: int| 0 <= i < queue@.len() ==> in_square(#[trigger] queue@[i], size) && seen@[cell_index(queue@[i], size)],
                    queue@.no_duplicates(),
                    forall|u: Tile, v: Tile| #[trigger] adjacent4(u, v) && in_square(u, size) && seen@[cell_index(u, size)]
                        && !queue@.contains(u) && u != t && is_floor(cells, size, v) ==> seen@[cell_index(v, size)],
                    forall|j: int, v: Tile| 0 <= j < k && #[trigger] neighbor_at(t, j, v) && is_floor(cells, size, v) ==> seen@[cell_index(v, size)],
                    2 * count_unmarked(seen@) + queue@.len() < 2 * count_unmarked(seen0) + queue0.len(),
                decreases 4 - k,
            {
                let (dx, dy) = offset(k);
                match self.tile(t.x as i32 + dx, t.y as i32 + dy) {
                    None => {
                    },
                    Some(v) => {
                        let i = self.idx(v);
                        if self.cells[i] == TerrainCell::Floor && !seen[i] {
                            let ghost seen1 = seen@;
                            let ghost queue1 = queue@;
                            proof {
                                lemma_mark_decreases(seen1, i as int);
                                assert(adjacent4(t, v));
                                let p = choose|p: Seq<Tile>| #[trigger] floor_path(cells, size, p) && p[0] == from && p.last() == t;
                                lemma_extend_path(cells, size, p, v);
                                assert(floor_path(cells, size, p.push(v)));
                                assert(!queue1.contains(v)) by {
                                    if queue1.contains(v) {
                                        let j = choose|j: int| 0 <= j < queue1.len() && queue1[j] == v;
                                        assert(seen1[cell_index(queue1[j], size)]);
                                    }
                                }
                            }
                            seen.set(i, true);
                            queue.push_back(v);
                            proof {
                                lemma_index_bounds(t, size);
                                lemma_index_bounds(from, size);
                                assert forall|u: Tile| #![trigger cell_index(u, size)] in_square(u, size) && seen@[cell_index(u, size)] implies reachable(cells, size, from, u) by {
                                    lemma_index_bounds(u, size);
                                    if cell_index(u, size) == i as int {
                                        lemma_index_injective(u, v, size);
                                        let p = choose|p: Seq<Tile>| #[trigger] floor_path(cells, size, p) && p[0] == from && p.last() == t;
                                        lemma_extend_path(cells, size, p, v);
                                        assert(floor_path(cells, size, p.push(v)));
                                    } else {
                                        assert(seen1[cell_index(u, size)]);
                                    }
                                }
                                assert forall|q: int| 0 <= q < queue@.len() implies in_square(#[trigger] queue@[q], size) && seen@[cell_index(queue@[q], size)] by {
                                    if q < queue1.len() {
                                        assert(queue@[q] == queue1[q]);
                                        lemma_index_bounds(queue1[q], size);
                                    }
                                }
                                assert(!queue@.contains(t)) by {
                                    if queue@.contains(t) {
                                        let j = choose|j: int| 0 <= j < queue@.len() && queue@[j] == t;
                                        if j < queue1.len() {
                                            assert(queue1[j] == t);
                                        }
                                    }
                                }
                                assert forall|u: Tile, w: Tile| #[trigger] adjacent4(u, w) && in_square(u, size) && seen@[cell_index(u, size)]
                                    && !queue@.contains(u) && u != t && is_floor(cells, size, w) implies seen@[cell_index(w, size)] by {
                                    lemma_index_bounds(u, size);
                                    lemma_index_bounds(w, size);
                                    if cell_index(u, size) == i as int {
                                        lemma_index_injective(u, v, size);
                                        assert(queue@[queue@.len() - 1] == v);
                                    } else {
                                        assert(seen1[cell_index(u, size)]);
                                        if queue1.contains(u) {
                                            let j = choose|j: int| 0 <= j < queue1.len() && queue1[j] == u;
                                            assert(queue@[j] == u);
                                        }
                                        assert(seen1[cell_index(w, size)]);
                                    }
                                }
                                assert forall|j: int, w: Tile| 0 <= j < k + 1 && #[trigger] neighbor_at(t, j, w) && is_floor(cells, size, w) implies seen@[cell_index(w, size)] by {
                                    lemma_index_bounds(w, size);
                                    if j == k {
                                        assert(w == v);
                                    } else {
                                        assert(seen1[cell_index(w, size)]);
                                    }
                                }
                            }
                        } else {
                            proof {
                                assert forall|j: int, w: Tile| 0 <= j < k + 1 && #[trigger] neighbor_at(t, j, w) && is_floor(cells, size, w) implies seen@[cell_index(w, size)] by {
                                    if j == k {
                                        assert(w == v);
                                    }
                                }
                            }
                        }
                    },
                }
                k += 1;
            }
            proof {
                assert forall|u: Tile, v: Tile| #[trigger] adjacent4(u, v) && in_square(u, size) && seen@[cell_index(u, size)]
                    && !queue@.contains(u) && is_floor(cells, size, v) implies seen@[cell_index(v, size)] by {
                    if u == t {
                        if v.x == t.x && v.y + 1 == t.y {
                            assert(neighbor_at(t, 0, v));
                        } else if v.x == t.x + 1 && v.y == t.y {
                            assert(neighbor_at(t, 1, v));
                        } else if v.x == t.x && v.y == t.y + 1 {
                            assert(neighbor_at(t, 2, v));
                        } else {
                            assert(neighbor_at(t, 3, v));
                        }
                    }
                }
            }
        }
        proof {
            assert(queue@ =~= Seq::<Tile>::empty());
            assert forall|t: Tile| #![trigger cell_index(t, size)] in_square(t, size) implies
                (seen@[cell_index(t, size)] <==> reachable(cells, size, from, t)) by {
                if reachable(cells, size, from, t) {
                    let p = choose|p: Seq<Tile>| #[trigger] floor_path(cells, size, p) && p[0] == from && p.last() == t;
                    lemma_closed_reaches(cells, size, seen@, p, p.len() - 1);
                }
            }
        }
        seen
    }
}

} // verus!
