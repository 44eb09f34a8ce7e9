//! Movement on the running world: which cells a unit may enter, legal steps under four- or
//! eight-neighbor rules without cutting corners, breadth-first distance fields toward a goal and
//! their cache, the next step down a field, local detours around blocking units, committed and
//! failed moves, line of sight, the deterministic counter hash and entity ranks, and the work
//! targets of constructors and miners.
use vstd::prelude::*;
use crate::types::{Direction, EntityId, EventKey, PlayerId, Rect, Tick, Tile};
use crate::geometry::{chebyshev, in_rect, mix_round, mix_step, spec_chebyshev, spec_in_rect, MIX_GOLDEN};
use crate::draft::{entity_lt, entity_lt_exec};
use crate::orders::PlannedBlueprint;
use crate::map::TerrainCell;
use crate::distance::{count_unset, lemma_set_decreases};
use crate::terrain::dist2;

verus! {

/// Which neighbors a mover may step to.
#[derive(Debug, Clone, Copy, PartialEq, Eq, Structural)]
pub enum Neighbors {
    Four,
    Eight,
}

/// What holds a cell this tick: nothing, a claim by a site or spawn, a mobile unit, or a
/// structure.
#[derive(Debug, Clone, Copy, PartialEq, Eq, Structural)]
pub enum Holder {
    Free,
    Reserved,
    Mobile,
    Fixed,
}

/// The terrain and this tick's occupancy, row by row.
#[derive(Debug, Clone, PartialEq, Eq)]
pub struct StepGrid {
    pub width: u16,
    pub height: u16,
    pub cells: Vec<TerrainCell>,
    pub holders: Vec<Holder>,
}

/// A field value for cells no goal reaches.
pub const UNREACHABLE: u16 = 0xffff;

/// The fixed neighbor order: axis steps first (north, east, south, west), then diagonals.
pub open spec fn dir_dx(k: int) -> int {
    if k == 1 || k == 4 || k == 5 { 1 } else if k == 3 || k == 6 || k == 7 { -1 } else { 0 }
}

pub open spec fn dir_dy(k: int) -> int {
    if k == 0 || k == 4 || k == 7 { -1 } else if k == 2 || k == 5 || k == 6 { 1 } else { 0 }
}

pub open spec fn dir_facing(k: int) -> Direction {
    if k == 0 { Direction::N }
    else if k == 1 { Direction::E }
    else if k == 2 { Direction::S }
    else if k == 3 { Direction::W }
    else if k == 4 { Direction::Ne }
    else if k == 5 { Direction::Se }
    else if k == 6 { Direction::Sw }
    else { Direction::Nw }
}

pub open spec fn dir_count(n: Neighbors) -> int {
    match n {
        Neighbors::Four => 4,
        Neighbors::Eight => 8,
    }
}

pub(crate) fn dir_at(k: usize) -> (r: (i32, i32, Direction))
    requires
        k < 8,
    ensures
        r.0 == dir_dx(k as int),
        r.1 == dir_dy(k as int),
        r.2 == dir_facing(k as int),
{
    match k {
        0 => (0, -1, Direction::N),
        1 => (1, 0, Direction::E),
        2 => (0, 1, Direction::S),
        3 => (-1, 0, Direction::W),
        4 => (1, -1, Direction::Ne),
        5 => (1, 1, Direction::Se),
        6 => (-1, 1, Direction::Sw),
        _ => (-1, -1, Direction::Nw),
    }
}

pub(crate) fn dir_count_exec(n: Neighbors) -> (r: usize)
    ensures
        r == dir_count(n),
{
    match n {
        Neighbors::Four => 4,
        Neighbors::Eight => 8,
    }
}

// ---- the grid ---------------------------------------------------------------------------------

impl StepGrid {
    pub open spec fn wf(&self) -> bool {
        &&& self.cells@.len() == self.width * self.height
        &&& self.holders@.len() == self.width * self.height
    }

    pub open spec fn contains(&self, t: Tile) -> bool {
        t.x < self.width && t.y < self.height
    }

    pub open spec fn index(&self, t: Tile) -> int {
        t.y * self.width + t.x
    }

    /// Walkable terrain not held by a structure, a site or a spawn; units do not block.
    pub open spec fn spec_traversable(&self, t: Tile) -> bool {
        &&& self.contains(t)
        &&& self.cells@[self.index(t)] == TerrainCell::Floor
        &&& self.holders@[self.index(t)] != Holder::Reserved
        &&& self.holders@[self.index(t)] != Holder::Fixed
    }

    pub open spec fn spec_offset(&self, t: Tile, dx: int, dy: int) -> Option<Tile> {
        let x = t.x + dx;
        let y = t.y + dy;
        if 0 <= x < self.width && 0 <= y < self.height {
            Some(Tile { x: x as u16, y: y as u16 })
        } else {
            None
        }
    }

    /// A legal step: the destination is traversable, and a diagonal step is allowed by the
    /// neighbor rule and cuts no corner (both axis cells beside it are traversable).
    pub open spec fn spec_step_legal(&self, from: Tile, dx: int, dy: int, n: Neighbors) -> Option<Tile> {
        if dx != 0 && dy != 0 && (n == Neighbors::Four
            || !(self.spec_offset(from, dx, 0) matches Some(a) && self.spec_traversable(a))
            || !(self.spec_offset(from, 0, dy) matches Some(b) && self.spec_traversable(b))) {
            None
        } else {
            match self.spec_offset(from, dx, dy) {
                Some(to) => if self.spec_traversable(to) { Some(to) } else { None },
                None => None,
            }
        }
    }

    pub fn idx(&self, t: Tile) -> (r: usize)
        requires
            self.wf(),
            self.contains(t),
        ensures
            r == self.index(t),
            r < self.cells@.len(),
    {
        let n = self.cells.len();
        proof {
            assert(t.y * self.width + t.x < self.width * self.height) by (nonlinear_arith)
                requires
                    t.x < self.width,
                    t.y < self.height,
            ;
        }
        proof {
            assert(t.y * self.width <= t.y * self.width + t.x);
            assert(n == self.width * self.height);
        }
        t.y as usize * self.width as usize + t.x as usize
    }

    pub fn traversable(&self, t: Tile) -> (r: bool)
        requires
            self.wf(),
            self.contains(t),
        ensures
            r == self.spec_traversable(t),
    {
        let i = self.idx(t);
        self.cells[i] == TerrainCell::Floor && self.holders[i] != Holder::Reserved && self.holders[i] != Holder::Fixed
    }

    pub fn offset(&self, t: Tile, dx: i32, dy: i32) -> (r: Option<Tile>)
        requires
            -1 <= dx <= 1,
            -1 <= dy <= 1,
        ensures
            r == self.spec_offset(t, dx as int, dy as int),
            r matches Some(o) ==> self.contains(o),
    {
        let x = t.x as i32 + dx;
        let y = t.y as i32 + dy;
        if x >= 0 && y >= 0 && x < self.width as i32 && y < self.height as i32 {
            Some(Tile { x: x as u16, y: y as u16 })
        } else {
            None
        }
    }

    pub fn step_legal(&self, from: Tile, dx: i32, dy: i32, n: Neighbors) -> (r: Option<Tile>)
        requires
            self.wf(),
            -1 <= dx <= 1,
            -1 <= dy <= 1,
        ensures
            r == self.spec_step_legal(from, dx as int, dy as int, n),
            r matches Some(o) ==> self.contains(o),
    {
        if dx != 0 && dy != 0 {
            if n == Neighbors::Four {
                return None;
            }
            let a = match self.offset(from, dx, 0) {
                Some(a) => a,
                None => {
                    return None;
                },
            };
            let b = match self.offset(from, 0, dy) {
                Some(b) => b,
                None => {
                    return None;
                },
            };
            if !self.traversable(a) || !self.traversable(b) {
                return None;
            }
        }
        match self.offset(from, dx, dy) {
            Some(to) => if self.traversable(to) { Some(to) } else { None },
            None => None,
        }
    }
}

// ---- ranks ------------------------------------------------------------------------------------

/// The counter hash: the seed and three values folded in turn.
pub open spec fn spec_hash(seed: u64, salt: u64, a: u64, b: u64) -> u64 {
    mix_step(mix_step(mix_step(seed ^ MIX_GOLDEN, salt), a), b)
}

/// A deterministic hash of the match seed and three values; no random stream is kept.
pub fn hash(seed: u64, salt: u64, a: u64, b: u64) -> (h: u64)
    ensures
        h == spec_hash(seed, salt, a, b),
{
    let h = seed ^ MIX_GOLDEN;
    let h = mix_round(h, salt);
    let h = mix_round(h, a);
    mix_round(h, b)
}

/// The two words of an entity's identity that its rank hashes.
pub open spec fn rank_words(id: EntityId) -> (u64, u64) {
    let c = id.birth_command.command;
    (((c.round as u64) << 32u64) | ((c.player as u64) << 24u64) | ((c.index & 0xff_ffffu32) as u64),
     ((id.birth_command.target_index as u64) << 48u64) | ((id.item_index as u64) << 32u64) | (id.occurrence as u64))
}

/// The rank that orders an entity's move among simultaneous ones at a tick.
pub fn entity_rank(seed: u64, tick: Tick, id: &EntityId) -> (r: u64)
    ensures
        r == spec_hash(seed, tick as u64, rank_words(*id).0, rank_words(*id).1),
{
    let c = id.birth_command.command;
    let a = ((c.round as u64) << 32u64) | ((c.player as u64) << 24u64) | ((c.index & 0xff_ffffu32) as u64);
    let b = ((id.birth_command.target_index as u64) << 48u64) | ((id.item_index as u64) << 32u64) | (id.occurrence as u64);
    hash(seed, tick as u64, a, b)
}

// ---- descending a field -----------------------------------------------------------------------

/// The field value one legal step away in direction `k`, or one more than any field value when
/// that step is illegal.
pub open spec fn step_value(g: StepGrid, field: Seq<u16>, from: Tile, n: Neighbors, k: int) -> int {
    match g.spec_step_legal(from, dir_dx(k), dir_dy(k), n) {
        Some(t) => field[g.index(t)] as int,
        None => UNREACHABLE + 1,
    }
}

/// `k` is the first direction whose legal step lowers the field the most below `here`.
pub open spec fn best_descent(g: StepGrid, field: Seq<u16>, from: Tile, n: Neighbors, here: int, k: int) -> bool {
    &&& 0 <= k < dir_count(n)
    &&& step_value(g, field, from, n, k) < here
    &&& forall|j: int| 0 <= j < dir_count(n) ==> step_value(g, field, from, n, j) >= step_value(g, field, from, n, k)
    &&& forall|j: int| 0 <= j < k ==> step_value(g, field, from, n, j) > step_value(g, field, from, n, k)
}

impl StepGrid {
    /// The next legal step strictly down the field from `from`: the lowest neighbor, the first in
    /// the fixed direction order among equals; none at the goal, off the field, or in a pit.
    pub fn descend(&self, field: &Vec<u16>, from: Tile, n: Neighbors) -> (r: Option<(Tile, Direction)>)
        requires
            self.wf(),
            self.contains(from),
            field@.len() == self.cells@.len(),
        ensures
            ({
                let here = field@[self.index(from)] as int;
                &&& r is None <==> (here == 0 || here == UNREACHABLE
                    || forall|k: int| 0 <= k < dir_count(n) ==> step_value(*self, field@, from, n, k) >= here)
                &&& r matches Some((t, d)) ==> exists|k: int| best_descent(*self, field@, from, n, here, k)
                    && self.spec_step_legal(from, dir_dx(k), dir_dy(k), n) == Some(t) && d == dir_facing(k)
            }),
    {
        let here = field[self.idx(from)];
        if here == 0 || here == UNREACHABLE {
            return None;
        }
        let count = dir_count_exec(n);
        let mut best: Option<(u16, Tile, Direction)> = None;
        let ghost mut best_k: int = 0;
        let mut k: usize = 0;
        while k < count
            invariant
                self.wf(),
                self.contains(from),
                field@.len() == self.cells@.len(),
                count == dir_count(n),
                0 <= k <= count,
                here == field@[self.index(from)],
                best is None ==> forall|j: int| 0 <= j < k ==> step_value(*self, field@, from, n, j) >= here,
                best matches Some((d, t, f)) ==> {
                    &&& 0 <= best_k < k
                    &&& step_value(*self, field@, from, n, best_k) == d as int
                    &&& d < here
                    &&& self.spec_step_legal(from, dir_dx(best_k), dir_dy(best_k), n) == Some(t)
                    &&& f == dir_facing(best_k)
                    &&& forall|j: int| 0 <= j < k ==> step_value(*self, field@, from, n, j) >= d
                    &&& forall|j: int| 0 <= j < best_k ==> step_value(*self, field@, from, n, j) > d
                },
            decreases count - k,
        {
            let (dx, dy, dir) = dir_at(k);
            if let Some(t) = self.step_legal(from, dx, dy, n) {
                let d = field[self.idx(t)];
                let better = match best {
                    Some((b, _, _)) => d < b,
                    None => true,
                };
                if d < here && better {
                    best = Some((d, t, dir));
                    proof {
                        best_k = k as int;
                    }
                }
            }
            k += 1;
        }
        match best {
            Some((_, t, d)) => {
                proof {
                    let here_i = here as int;
                    assert(best_descent(*self, field@, from, n, here_i, best_k));
                }
                Some((t, d))
            },
            None => None,
        }
    }
}

// ---- searches over legal steps ----------------------------------------------------------------

/// A legal step leads from `p` to `t`.
pub open spec fn steps_to(g: StepGrid, n: Neighbors, p: Tile, t: Tile) -> bool {
    exists|k: int| 0 <= k < dir_count(n) && #[trigger] g.spec_step_legal(p, dir_dx(k), dir_dy(k), n) == Some(t)
}

/// Where a field toward `goal` starts at zero: the goal itself when a unit may stand on it,
/// otherwise each traversable neighbor from which a legal step enters the goal's cell (axis
/// neighbors always; diagonal ones when the reverse step cuts no corner).
pub open spec fn is_seed(g: StepGrid, goal: Tile, n: Neighbors, t: Tile) -> bool {
    if g.spec_traversable(goal) {
        t == goal
    } else {
        exists|k: int| 0 <= k < dir_count(n) && #[trigger] g.spec_offset(goal, dir_dx(k), dir_dy(k)) == Some(t)
            && g.spec_traversable(t) && (k < 4 || g.spec_step_legal(t, -dir_dx(k), -dir_dy(k), n) is Some)
    }
}

/// How far a local detour may stray from where it starts, along each axis.
pub const DETOUR_RADIUS: u16 = 6;

/// What a breadth-first search walks: every legal step from the seeds of a goal, or, around a
/// stuck mover, legal steps onto free cells within the detour radius.
#[derive(Debug, Clone, Copy, PartialEq, Eq, Structural)]
pub enum Walk {
    Toward { goal: Tile },
    Around { from: Tile },
}

pub open spec fn within_detour_radius(from: Tile, t: Tile) -> bool {
    -(DETOUR_RADIUS as int) <= t.x - from.x <= DETOUR_RADIUS as int && -(DETOUR_RADIUS as int) <= t.y - from.y <= DETOUR_RADIUS as int
}

/// Where a walk starts.
pub open spec fn walk_seed(g: StepGrid, n: Neighbors, w: Walk, t: Tile) -> bool {
    match w {
        Walk::Toward { goal } => is_seed(g, goal, n, t),
        Walk::Around { from } => t == from && g.contains(from),
    }
}

/// Whether a walk may enter `t`.
pub open spec fn walk_enters(g: StepGrid, w: Walk, t: Tile) -> bool {
    match w {
        Walk::Toward { .. } => true,
        Walk::Around { from } => within_detour_radius(from, t) && g.holders@[g.index(t)] == Holder::Free,
    }
}

/// One step of a walk.
pub open spec fn walk_step(g: StepGrid, n: Neighbors, w: Walk, p: Tile, t: Tile) -> bool {
    steps_to(g, n, p, t) && walk_enters(g, w, t)
}

/// `t` is reached by the walk from a seed in at most `k` steps.
pub open spec fn reaches(g: StepGrid, n: Neighbors, w: Walk, t: Tile, k: nat) -> bool
    decreases k,
{
    if k == 0 {
        walk_seed(g, n, w, t)
    } else {
        reaches(g, n, w, t, (k - 1) as nat)
            || exists|p: Tile| #[trigger] walk_step(g, n, w, p, t) && reaches(g, n, w, p, (k - 1) as nat)
    }
}

/// `t` is reached from a seed of the field toward `goal` in at most `k` legal steps.
pub open spec fn within(g: StepGrid, goal: Tile, n: Neighbors, t: Tile, k: nat) -> bool {
    reaches(g, n, Walk::Toward { goal }, t, k)
}

/// Step counts of a walk, stated cell by cell: zero exactly at the seeds, every other reached
/// cell one step past a cell one nearer, and no step from a cell below the cap leading more than
/// one farther.
pub open spec fn walk_field(g: StepGrid, n: Neighbors, w: Walk, dist: Seq<u16>) -> bool {
    &&& dist.len() == g.cells@.len()
    &&& forall|t: Tile| #![trigger g.index(t)] g.contains(t) ==> (dist[g.index(t)] == 0 <==> walk_seed(g, n, w, t))
    &&& forall|t: Tile| #![trigger g.index(t)] g.contains(t) && 0 < dist[g.index(t)] < UNREACHABLE ==>
        exists|p: Tile| #[trigger] walk_step(g, n, w, p, t) && g.contains(p) && dist[g.index(p)] + 1 == dist[g.index(t)]
    &&& forall|p: Tile, t: Tile| #[trigger] walk_step(g, n, w, p, t) && g.contains(p) && dist[g.index(p)] < UNREACHABLE - 1 ==>
        dist[g.index(t)] <= dist[g.index(p)] + 1
}

/// A distance field toward `goal`: the step counts of the walk over every legal step from the
/// goal's seeds.
pub open spec fn field_of(g: StepGrid, goal: Tile, n: Neighbors, dist: Seq<u16>) -> bool {
    walk_field(g, n, Walk::Toward { goal }, dist)
}

pub(crate) proof fn lemma_index_injective(g: StepGrid, a: Tile, b: Tile)
    requires
        g.contains(a),
        g.contains(b),
        g.index(a) == g.index(b),
    ensures
        a == b,
{
    let w = g.width as int;
    if a.y < b.y {
        assert(a.y * w + a.x < b.y * w) by (nonlinear_arith)
            requires
                a.y < b.y,
                a.x < w,
        ;
    } else if a.y > b.y {
        assert(b.y * w + b.x < a.y * w) by (nonlinear_arith)
            requires
                b.y < a.y,
                b.x < w,
        ;
    }
}

pub(crate) proof fn lemma_index_bound(g: StepGrid, t: Tile)
    requires
        g.wf(),
        g.contains(t),
    ensures
        0 <= g.index(t) < g.cells@.len(),
{
    assert(t.y * g.width + t.x < g.width * g.height) by (nonlinear_arith)
        requires
            t.x < g.width,
            t.y < g.height,
    ;
}

proof fn lemma_step_contains(g: StepGrid, n: Neighbors, p: Tile, t: Tile)
    requires
        steps_to(g, n, p, t),
    ensures
        g.contains(t),
        g.spec_traversable(t),
{
    let k = choose|k: int| 0 <= k < dir_count(n) && #[trigger] g.spec_step_legal(p, dir_dx(k), dir_dy(k), n) == Some(t);
}

proof fn lemma_seed_contains(g: StepGrid, n: Neighbors, w: Walk, t: Tile)
    requires
        walk_seed(g, n, w, t),
    ensures
        g.contains(t),
{
    if let Walk::Toward { goal } = w {
        if !g.spec_traversable(goal) {
            let j = choose|j: int| 0 <= j < dir_count(n) && #[trigger] g.spec_offset(goal, dir_dx(j), dir_dy(j)) == Some(t)
                && g.spec_traversable(t) && (j < 4 || g.spec_step_legal(t, -dir_dx(j), -dir_dy(j), n) is Some);
        }
    }
}

/// Every reached cell of a walk is reached within its count.
proof fn lemma_walk_reaches(g: StepGrid, n: Neighbors, w: Walk, dist: Seq<u16>, t: Tile)
    requires
        walk_field(g, n, w, dist),
        g.contains(t),
        dist[g.index(t)] < UNREACHABLE,
    ensures
        reaches(g, n, w, t, dist[g.index(t)] as nat),
    decreases dist[g.index(t)],
{
    let d = dist[g.index(t)];
    if d > 0 {
        let p = choose|p: Tile| #[trigger] walk_step(g, n, w, p, t) && g.contains(p) && dist[g.index(p)] + 1 == dist[g.index(t)];
        lemma_walk_reaches(g, n, w, dist, p);
        assert(reaches(g, n, w, t, d as nat));
    }
}

/// A cell reached within `k` steps, below the cap, has a count of at most `k`.
proof fn lemma_walk_bounded(g: StepGrid, n: Neighbors, w: Walk, dist: Seq<u16>, t: Tile, k: nat)
    requires
        walk_field(g, n, w, dist),
        reaches(g, n, w, t, k),
        k < UNREACHABLE,
    ensures
        g.contains(t),
        dist[g.index(t)] <= k,
    decreases k,
{
    if k == 0 {
        lemma_seed_contains(g, n, w, t);
    } else if reaches(g, n, w, t, (k - 1) as nat) {
        lemma_walk_bounded(g, n, w, dist, t, (k - 1) as nat);
    } else {
        let p = choose|p: Tile| #[trigger] walk_step(g, n, w, p, t) && reaches(g, n, w, p, (k - 1) as nat);
        lemma_walk_bounded(g, n, w, dist, p, (k - 1) as nat);
        lemma_step_contains(g, n, p, t);
    }
}

/// A walk's counts are shortest: a reached cell is reached within its count and not within one
/// less, and a cell left unreached is not reached below the cap.
pub proof fn law_walk_is_shortest(g: StepGrid, n: Neighbors, w: Walk, dist: Seq<u16>, t: Tile)
    requires
        walk_field(g, n, w, dist),
        g.contains(t),
    ensures
        dist[g.index(t)] < UNREACHABLE ==> reaches(g, n, w, t, dist[g.index(t)] as nat),
        dist[g.index(t)] < UNREACHABLE && dist[g.index(t)] > 0 ==> !reaches(g, n, w, t, (dist[g.index(t)] - 1) as nat),
        dist[g.index(t)] == UNREACHABLE ==> !reaches(g, n, w, t, (UNREACHABLE - 1) as nat),
{
    let d = dist[g.index(t)];
    if d < UNREACHABLE {
        lemma_walk_reaches(g, n, w, dist, t);
        if d > 0 && reaches(g, n, w, t, (d - 1) as nat) {
            lemma_walk_bounded(g, n, w, dist, t, (d - 1) as nat);
        }
    } else if reaches(g, n, w, t, (UNREACHABLE - 1) as nat) {
        lemma_walk_bounded(g, n, w, dist, t, (UNREACHABLE - 1) as nat);
    }
}

/// A field holds shortest step counts from the seeds: a reached cell is reached within its
/// value and not within one less, and a cell left unreached is not reached below the cap.
pub proof fn law_field_is_shortest(g: StepGrid, goal: Tile, n: Neighbors, dist: Seq<u16>, t: Tile)
    requires
        field_of(g, goal, n, dist),
        g.contains(t),
    ensures
        dist[g.index(t)] < UNREACHABLE ==> within(g, goal, n, t, dist[g.index(t)] as nat),
        dist[g.index(t)] < UNREACHABLE && dist[g.index(t)] > 0 ==> !within(g, goal, n, t, (dist[g.index(t)] - 1) as nat),
        dist[g.index(t)] == UNREACHABLE ==> !within(g, goal, n, t, (UNREACHABLE - 1) as nat),
{
    law_walk_is_shortest(g, n, Walk::Toward { goal }, dist, t);
}

/// The search between steps: seeds at zero, every reached cell justified by a nearer one, the
/// queue holding reached cells at `level` or `level + 1` in order, nothing reached beyond
/// `level + 1`, and every cell already expanded (other than `skip`) closed.
#[verifier::opaque]
pub open spec fn search(g: StepGrid, n: Neighbors, w: Walk, dist: Seq<u16>, q: Seq<Tile>, level: int, skip: Option<Tile>) -> bool {
    &&& g.wf()
    &&& dist.len() == g.cells@.len()
    &&& 0 <= level < UNREACHABLE
    &&& forall|t: Tile| #![trigger g.index(t)] g.contains(t) ==> (dist[g.index(t)] == 0 <==> walk_seed(g, n, w, t))
    &&& forall|t: Tile| #![trigger g.index(t)] g.contains(t) && 0 < dist[g.index(t)] < UNREACHABLE ==>
        exists|p: Tile| #[trigger] walk_step(g, n, w, p, t) && g.contains(p) && dist[g.index(p)] + 1 == dist[g.index(t)]
    &&& forall|i: int| 0 <= i < q.len() ==> g.contains(#[trigger] q[i]) && level <= dist[g.index(q[i])] <= level + 1
        && dist[g.index(q[i])] != UNREACHABLE
    &&& forall|i: int, j: int| 0 <= i < j < q.len() ==> dist[g.index(#[trigger] q[i])] <= dist[g.index(#[trigger] q[j])]
    &&& q.no_duplicates()
    &&& forall|t: Tile| #![trigger g.index(t)] g.contains(t) && dist[g.index(t)] != UNREACHABLE ==> dist[g.index(t)] <= level + 1
    &&& forall|p: Tile, t: Tile| #[trigger] walk_step(g, n, w, p, t) && g.contains(p) && dist[g.index(p)] < UNREACHABLE - 1
        && !q.contains(p) && skip != Some(p) ==> dist[g.index(t)] <= dist[g.index(p)] + 1
}

proof fn lemma_search_done(g: StepGrid, n: Neighbors, w: Walk, dist: Seq<u16>, q: Seq<Tile>, level: int)
    requires
        search(g, n, w, dist, q, level, None),
        q.len() == 0,
    ensures
        walk_field(g, n, w, dist),
{
    reveal(search);
    assert forall|p: Tile, t: Tile| #[trigger] walk_step(g, n, w, p, t) && g.contains(p) && dist[g.index(p)] < UNREACHABLE - 1 implies
        dist[g.index(t)] <= dist[g.index(p)] + 1 by {
        assert(!q.contains(p));
    }
}

/// Popping the head `t` of the queue: the search stands at `t`'s distance, with `t` open.
proof fn lemma_search_pop(g: StepGrid, n: Neighbors, w: Walk, dist: Seq<u16>, q0: Seq<Tile>, q: Seq<Tile>, level: int)
    requires
        search(g, n, w, dist, q0, level, None),
        q0.len() > 0,
        q == q0.subrange(1, q0.len() as int),
    ensures
        search(g, n, w, dist, q, dist[g.index(q0[0])] as int, Some(q0[0])),
        !q.contains(q0[0]),
        g.contains(q0[0]),
        dist[g.index(q0[0])] < UNREACHABLE,
{
    reveal(search);
    let t = q0[0];
    let d = dist[g.index(t)];
    assert(!q.contains(t)) by {
        if q.contains(t) {
            let j = choose|j: int| 0 <= j < q.len() && q[j] == t;
            assert(q0[j + 1] == t);
        }
    }
    assert forall|u: Tile| q0.contains(u) && u != t implies q.contains(u) by {
        let j = choose|j: int| 0 <= j < q0.len() && q0[j] == u;
        assert(j != 0);
        assert(q[j - 1] == u);
    }
    assert forall|j: int| 0 <= j < q.len() implies g.contains(#[trigger] q[j]) && d <= dist[g.index(q[j])] <= d + 1
        && dist[g.index(q[j])] != UNREACHABLE by {
        assert(q[j] == q0[j + 1]);
        assert(dist[g.index(q0[0])] <= dist[g.index(q0[j + 1])]);
    }
    assert forall|a: int, b: int| 0 <= a < b < q.len() implies dist[g.index(#[trigger] q[a])] <= dist[g.index(#[trigger] q[b])] by {
        assert(q[a] == q0[a + 1]);
        assert(q[b] == q0[b + 1]);
    }
    assert(q.no_duplicates()) by {
        assert forall|a: int, b: int| 0 <= a < b < q.len() implies q[a] != q[b] by {
            assert(q[a] == q0[a + 1]);
            assert(q[b] == q0[b + 1]);
        }
    }
    assert forall|p: Tile, u: Tile| #[trigger] walk_step(g, n, w, p, u) && g.contains(p) && dist[g.index(p)] < UNREACHABLE - 1
        && !q.contains(p) && Some(t) != Some(p) implies dist[g.index(u)] <= dist[g.index(p)] + 1 by {
        if q0.contains(p) {
            assert(q.contains(p));
        }
    }
}

/// Reaching `v` from the open cell `t` at `d + 1` keeps the search.
proof fn lemma_search_relax(g: StepGrid, n: Neighbors, w: Walk, dist1: Seq<u16>, q1: Seq<Tile>, t: Tile, v: Tile, d: u16)
    requires
        search(g, n, w, dist1, q1, d as int, Some(t)),
        g.contains(t),
        dist1[g.index(t)] == d,
        d < UNREACHABLE - 1,
        !q1.contains(t),
        walk_step(g, n, w, t, v),
        dist1[g.index(v)] == UNREACHABLE,
    ensures
        search(g, n, w, dist1.update(g.index(v), (d + 1) as u16), q1.push(v), d as int, Some(t)),
        !q1.push(v).contains(t),
{
    reveal(search);
    lemma_step_contains(g, n, t, v);
    lemma_index_bound(g, v);
    lemma_index_bound(g, t);
    let dist = dist1.update(g.index(v), (d + 1) as u16);
    let q = q1.push(v);
    assert(v != t);
    assert forall|u: Tile| #![trigger g.index(u)] g.contains(u) && u != v implies dist[g.index(u)] == dist1[g.index(u)] by {
        lemma_index_bound(g, u);
        if g.index(u) == g.index(v) {
            lemma_index_injective(g, u, v);
        }
    }
    assert(!q1.contains(v)) by {
        if q1.contains(v) {
            let j = choose|j: int| 0 <= j < q1.len() && q1[j] == v;
            assert(g.contains(q1[j]));
        }
    }
    assert(!q.contains(t)) by {
        if q.contains(t) {
            let j = choose|j: int| 0 <= j < q.len() && q[j] == t;
            if j < q1.len() {
                assert(q1[j] == t);
            }
        }
    }
    assert forall|u: Tile| #![trigger g.index(u)] g.contains(u) implies (dist[g.index(u)] == 0 <==> walk_seed(g, n, w, u)) by {
        if u != v {
            assert(dist[g.index(u)] == dist1[g.index(u)]);
        }
    }
    assert forall|u: Tile| #![trigger g.index(u)] g.contains(u) && 0 < dist[g.index(u)] < UNREACHABLE implies
        exists|p: Tile| #[trigger] walk_step(g, n, w, p, u) && g.contains(p) && dist[g.index(p)] + 1 == dist[g.index(u)] by {
        if u == v {
            assert(dist[g.index(t)] == d);
            assert(walk_step(g, n, w, t, u));
        } else {
            assert(dist[g.index(u)] == dist1[g.index(u)]);
            let p = choose|p: Tile| #[trigger] walk_step(g, n, w, p, u) && g.contains(p) && dist1[g.index(p)] + 1 == dist1[g.index(u)];
            if p == v {
                assert(false);
            }
            assert(dist[g.index(p)] == dist1[g.index(p)]);
        }
    }
    assert forall|i: int| 0 <= i < q.len() implies g.contains(#[trigger] q[i]) && d <= dist[g.index(q[i])] <= d + 1
        && dist[g.index(q[i])] != UNREACHABLE by {
        if i < q1.len() {
            assert(q[i] == q1[i]);
            if q1[i] == v {
                assert(q1.contains(v));
            }
            assert(dist[g.index(q1[i])] == dist1[g.index(q1[i])]);
        }
    }
    assert forall|a: int, b: int| 0 <= a < b < q.len() implies dist[g.index(#[trigger] q[a])] <= dist[g.index(#[trigger] q[b])] by {
        assert(q[a] == q1[a]);
        if q1[a] == v {
            assert(q1.contains(v));
        }
        assert(dist[g.index(q1[a])] == dist1[g.index(q1[a])]);
        if b < q1.len() {
            assert(q[b] == q1[b]);
            if q1[b] == v {
                assert(q1.contains(v));
            }
            assert(dist[g.index(q1[b])] == dist1[g.index(q1[b])]);
        }
    }
    assert(q.no_duplicates()) by {
        assert forall|a: int, b: int| 0 <= a < b < q.len() implies q[a] != q[b] by {
            if b == q1.len() {
                assert(q[a] == q1[a]);
                assert(q1.contains(q1[a]));
            } else {
                assert(q[a] == q1[a]);
                assert(q[b] == q1[b]);
            }
        }
    }
    assert forall|u: Tile| #![trigger g.index(u)] g.contains(u) && dist[g.index(u)] != UNREACHABLE implies dist[g.index(u)] <= d + 1 by {
        if u != v {
            assert(dist[g.index(u)] == dist1[g.index(u)]);
        }
    }
    assert forall|p: Tile, u: Tile| #[trigger] walk_step(g, n, w, p, u) && g.contains(p) && dist[g.index(p)] < UNREACHABLE - 1
        && !q.contains(p) && Some(t) != Some(p) implies dist[g.index(u)] <= dist[g.index(p)] + 1 by {
        assert(p != v) by {
            if p == v {
                assert(q[q1.len() as int] == v);
            }
        }
        assert(!q1.contains(p)) by {
            if q1.contains(p) {
                let j = choose|j: int| 0 <= j < q1.len() && q1[j] == p;
                assert(q[j] == p);
            }
        }
        assert(dist[g.index(p)] == dist1[g.index(p)]);
        lemma_step_contains(g, n, p, u);
        if u != v {
            assert(dist[g.index(u)] == dist1[g.index(u)]);
        }
    }
}

/// Once every step from `t` has been taken, `t` is closed.
proof fn lemma_search_close(g: StepGrid, n: Neighbors, w: Walk, dist: Seq<u16>, q: Seq<Tile>, t: Tile, d: u16)
    requires
        search(g, n, w, dist, q, d as int, Some(t)),
        g.contains(t),
        dist[g.index(t)] == d,
        forall|u: Tile| #[trigger] walk_step(g, n, w, t, u) ==> dist[g.index(u)] <= d + 1,
    ensures
        search(g, n, w, dist, q, d as int, None),
{
    reveal(search);
}

proof fn lemma_search_init(g: StepGrid, n: Neighbors, w: Walk, dist: Seq<u16>, q: Seq<Tile>)
    requires
        g.wf(),
        dist.len() == g.cells@.len(),
        forall|t: Tile| #![trigger g.index(t)] g.contains(t) ==> (dist[g.index(t)] == 0 <==> walk_seed(g, n, w, t))
            && (dist[g.index(t)] == 0 || dist[g.index(t)] == UNREACHABLE),
        forall|i: int| 0 <= i < q.len() ==> g.contains(#[trigger] q[i]) && dist[g.index(q[i])] == 0,
        forall|t: Tile| #![trigger g.index(t)] g.contains(t) && dist[g.index(t)] == 0 ==> q.contains(t),
        q.no_duplicates(),
    ensures
        search(g, n, w, dist, q, 0, None),
{
    reveal(search);
}

/// What a cell of the field starts at, before the search: the seeds at zero, every other cell
/// unreached.
pub open spec fn seeded(g: StepGrid, goal: Tile, n: Neighbors, t: Tile) -> u16 {
    if is_seed(g, goal, n, t) { 0 } else { UNREACHABLE }
}

impl StepGrid {
    /// The field before the search: the seeds at zero and queued.
    #[verifier::spinoff_prover]
    fn seed_field(&self, goal: Tile, n: Neighbors) -> (r: (Vec<u16>, std::collections::VecDeque<Tile>))
        requires
            self.wf(),
            self.contains(goal),
        ensures
            r.0@.len() == self.cells@.len(),
            forall|t: Tile| #![trigger self.index(t)] self.contains(t) ==> r.0@[self.index(t)] == seeded(*self, goal, n, t),
            forall|i: int| 0 <= i < r.1@.len() ==> self.contains(#[trigger] r.1@[i]) && r.0@[self.index(r.1@[i])] == 0,
            forall|t: Tile| #![trigger self.index(t)] self.contains(t) && r.0@[self.index(t)] == 0 ==> r.1@.contains(t),
            r.1@.no_duplicates(),
    {
        let cells = self.cells.len();
        let mut dist: Vec<u16> = vec![UNREACHABLE; cells];
        let mut queue: std::collections::VecDeque<Tile> = std::collections::VecDeque::new();
        if self.traversable(goal) {
            let i = self.idx(goal);
            dist.set(i, 0);
            queue.push_back(goal);
            proof {
                assert forall|t: Tile| #![trigger self.index(t)] self.contains(t) implies dist@[self.index(t)] == seeded(*self, goal, n, t) by {
                    lemma_index_bound(*self, t);
                    if self.index(t) == self.index(goal) {
                        lemma_index_injective(*self, t, goal);
                    }
                }
                assert forall|t: Tile| #![trigger self.index(t)] self.contains(t) && dist@[self.index(t)] == 0 implies queue@.contains(t) by {
                    assert(queue@[0] == goal);
                }
            }
            return (dist, queue);
        }
        let count = dir_count_exec(n);
        let mut k: usize = 0;
        proof {
            assert forall|t: Tile| #![trigger self.index(t)] self.contains(t) implies dist@[self.index(t)] == UNREACHABLE by {
                lemma_index_bound(*self, t);
            }
        }
        while k < count
            invariant
                self.wf(),
                self.contains(goal),
                !self.spec_traversable(goal),
                count == dir_count(n),
                0 <= k <= count,
                dist@.len() == self.cells@.len(),
                forall|t: Tile| #![trigger self.index(t)] self.contains(t) ==> dist@[self.index(t)] == (if exists|j: int| 0 <= j < k
                    && #[trigger] self.spec_offset(goal, dir_dx(j), dir_dy(j)) == Some(t) && self.spec_traversable(t)
                    && (j < 4 || self.spec_step_legal(t, -dir_dx(j), -dir_dy(j), n) is Some) { 0u16 } else { UNREACHABLE }),
                forall|i: int| 0 <= i < queue@.len() ==> self.contains(#[trigger] queue@[i]) && dist@[self.index(queue@[i])] == 0,
                forall|t: Tile| #![trigger self.index(t)] self.contains(t) && dist@[self.index(t)] == 0 ==> queue@.contains(t),
                queue@.no_duplicates(),
            decreases count - k,
        {
            let (dx, dy, _) = dir_at(k);
            let ghost before = dist@;
            let ghost q0 = queue@;
            let cand = self.offset(goal, dx, dy);
            let mut hit = false;
            if let Some(t) = cand {
                hit = self.traversable(t) && (k < 4 || self.step_legal(t, -dx, -dy, n).is_some());
            }
            if hit {
                let t = cand.unwrap();
                let i = self.idx(t);
                if dist[i] == UNREACHABLE {
                    dist.set(i, 0);
                    queue.push_back(t);
                    proof {
                        assert(!q0.contains(t)) by {
                            if q0.contains(t) {
                                let j = choose|j: int| 0 <= j < q0.len() && q0[j] == t;
                            }
                        }
                        assert forall|j: int| 0 <= j < queue@.len() implies self.contains(#[trigger] queue@[j]) && dist@[self.index(queue@[j])] == 0 by {
                            if j < q0.len() {
                                assert(queue@[j] == q0[j]);
                                lemma_index_bound(*self, q0[j]);
                            }
                        }
                        assert forall|u: Tile| #![trigger self.index(u)] self.contains(u) && dist@[self.index(u)] == 0 implies queue@.contains(u) by {
                            lemma_index_bound(*self, u);
                            if u == t {
                                assert(queue@[q0.len() as int] == t);
                            } else {
                                if self.index(u) == self.index(t) {
                                    lemma_index_injective(*self, u, t);
                                }
                                assert(q0.contains(u));
                                let j = choose|j: int| 0 <= j < q0.len() && q0[j] == u;
                                assert(queue@[j] == u);
                            }
                        }
                    }
                }
            }
            proof {
                assert forall|u: Tile| #![trigger self.index(u)] self.contains(u) implies dist@[self.index(u)] == (if exists|j: int| 0 <= j < k + 1
                    && #[trigger] self.spec_offset(goal, dir_dx(j), dir_dy(j)) == Some(u) && self.spec_traversable(u)
                    && (j < 4 || self.spec_step_legal(u, -dir_dx(j), -dir_dy(j), n) is Some) { 0u16 } else { UNREACHABLE }) by {
                    lemma_index_bound(*self, u);
                    let old_hit = exists|j: int| 0 <= j < k
                        && #[trigger] self.spec_offset(goal, dir_dx(j), dir_dy(j)) == Some(u) && self.spec_traversable(u)
                        && (j < 4 || self.spec_step_legal(u, -dir_dx(j), -dir_dy(j), n) is Some);
                    let here = self.spec_offset(goal, dir_dx(k as int), dir_dy(k as int)) == Some(u) && self.spec_traversable(u)
                        && (k < 4 || self.spec_step_legal(u, -dir_dx(k as int), -dir_dy(k as int), n) is Some);
                    let new_hit = exists|j: int| 0 <= j < k + 1
                        && #[trigger] self.spec_offset(goal, dir_dx(j), dir_dy(j)) == Some(u) && self.spec_traversable(u)
                        && (j < 4 || self.spec_step_legal(u, -dir_dx(j), -dir_dy(j), n) is Some);
                    assert(new_hit == (old_hit || here)) by {
                        if new_hit {
                            let j = choose|j: int| 0 <= j < k + 1
                                && #[trigger] self.spec_offset(goal, dir_dx(j), dir_dy(j)) == Some(u) && self.spec_traversable(u)
                                && (j < 4 || self.spec_step_legal(u, -dir_dx(j), -dir_dy(j), n) is Some);
                            if j < k {
                                assert(old_hit);
                            }
                        }
                        if old_hit {
                            let j = choose|j: int| 0 <= j < k
                                && #[trigger] self.spec_offset(goal, dir_dx(j), dir_dy(j)) == Some(u) && self.spec_traversable(u)
                                && (j < 4 || self.spec_step_legal(u, -dir_dx(j), -dir_dy(j), n) is Some);
                            assert(0 <= j < k + 1);
                        }
                    }
                    if here {
                        assert(hit);
                    } else if hit {
                        let t = cand.unwrap();
                        assert(u != t);
                        if self.index(u) == self.index(t) {
                            lemma_index_injective(*self, u, t);
                        }
                    }
                }
            }
            k += 1;
        }
        (dist, queue)
    }
}

impl StepGrid {
    /// Whether the walk may enter `t`.
    fn walk_enters_exec(&self, w: Walk, t: Tile) -> (r: bool)
        requires
            self.wf(),
            self.contains(t),
        ensures
            r == walk_enters(*self, w, t),
    {
        match w {
            Walk::Toward { .. } => true,
            Walk::Around { from } => {
                let dx = t.x as i32 - from.x as i32;
                let dy = t.y as i32 - from.y as i32;
                let r = DETOUR_RADIUS as i32;
                -r <= dx && dx <= r && -r <= dy && dy <= r && self.holders[self.idx(t)] == Holder::Free
            },
        }
    }

    /// Takes the head of the queue and reaches every unreached cell one step of the walk from it.
    #[verifier::spinoff_prover]
    fn expand(
        &self,
        dist: &mut Vec<u16>,
        queue: &mut std::collections::VecDeque<Tile>,
        n: Neighbors,
        w: Walk,
        Ghost(level): Ghost<int>,
    ) -> (next: Ghost<int>)
        requires
            search(*self, n, w, old(dist)@, old(queue)@, level, None),
            old(queue)@.len() > 0,
        ensures
            search(*self, n, w, final(dist)@, final(queue)@, next@, None),
            2 * count_unset(final(dist)@) + final(queue)@.len() < 2 * count_unset(old(dist)@) + old(queue)@.len(),
    {
        let ghost dist0 = dist@;
        let ghost queue0 = queue@;
        proof {
            reveal(search);
        }
        let t = match queue.pop_front() {
            Some(t) => t,
            None => {
                return Ghost(level);
            },
        };
        proof {
            lemma_search_pop(*self, n, w, dist0, queue0, queue@, level);
        }
        let d = dist[self.idx(t)];
        if d == UNREACHABLE - 1 {
            proof {
                lemma_search_close(*self, n, w, dist@, queue@, t, d);
            }
            return Ghost(d as int);
        }
        let count = dir_count_exec(n);
        let mut k: usize = 0;
        while k < count
            invariant
                search(*self, n, w, dist@, queue@, d as int, Some(t)),
                self.wf(),
                self.contains(t),
                count == dir_count(n),
                0 <= k <= count,
                dist@.len() == self.cells@.len(),
                dist@[self.index(t)] == d,
                d < UNREACHABLE - 1,
                !queue@.contains(t),
                forall|j: int| 0 <= j < k ==> (#[trigger] self.spec_step_legal(t, dir_dx(j), dir_dy(j), n) matches Some(u)
                    ==> (walk_enters(*self, w, u) ==> dist@[self.index(u)] <= d + 1)),
                2 * count_unset(dist@) + queue@.len() < 2 * count_unset(dist0) + queue0.len(),
            decreases count - k,
        {
            let (dx, dy, _) = dir_at(k);
            let ghost dist1 = dist@;
            let ghost queue1 = queue@;
            let step = self.step_legal(t, dx, dy, n);
            if let Some(v) = step {
                let i = self.idx(v);
                if self.walk_enters_exec(w, v) && dist[i] == UNREACHABLE {
                    proof {
                        assert(walk_step(*self, n, w, t, v)) by {
                            assert(self.spec_step_legal(t, dir_dx(k as int), dir_dy(k as int), n) == Some(v));
                        }
                        lemma_search_relax(*self, n, w, dist1, queue1, t, v, d);
                        lemma_set_decreases(dist1, i as int, (d + 1) as u16);
                    }
                    dist.set(i, d + 1);
                    queue.push_back(v);
                } else {
                    proof {
                        reveal(search);
                    }
                }
            }
            proof {
                lemma_index_bound(*self, t);
                assert(dist@[self.index(t)] == d);
                assert forall|j: int| 0 <= j < k + 1 implies (#[trigger] self.spec_step_legal(t, dir_dx(j), dir_dy(j), n) matches Some(u)
                    ==> (walk_enters(*self, w, u) ==> dist@[self.index(u)] <= d + 1)) by {
                    if let Some(u) = self.spec_step_legal(t, dir_dx(j), dir_dy(j), n) {
                        lemma_index_bound(*self, u);
                        if j < k {
                            if walk_enters(*self, w, u) {
                                assert(dist1[self.index(u)] <= d + 1);
                            }
                        } else {
                            assert(step == Some(u));
                        }
                    }
                }
            }
            k += 1;
        }
        proof {
            assert forall|u: Tile| #[trigger] walk_step(*self, n, w, t, u) implies dist@[self.index(u)] <= d + 1 by {
                let j = choose|j: int| 0 <= j < dir_count(n) && #[trigger] self.spec_step_legal(t, dir_dx(j), dir_dy(j), n) == Some(u);
            }
            lemma_search_close(*self, n, w, dist@, queue@, t, d);
        }
        Ghost(d as int)
    }

    /// The distance field toward `goal`: for each cell, the fewest legal steps from a seed, or
    /// `UNREACHABLE` for cells no seed reaches in fewer steps (cells at one less are not expanded).
    pub fn build_field(&self, goal: Tile, n: Neighbors) -> (dist: Vec<u16>)
        requires
            self.wf(),
            self.contains(goal),
        ensures
            field_of(*self, goal, n, dist@),
            forall|t: Tile| #![trigger dist@[self.index(t)]] self.contains(t) ==> {
                &&& dist@[self.index(t)] < UNREACHABLE ==> within(*self, goal, n, t, dist@[self.index(t)] as nat)
                &&& 0 < dist@[self.index(t)] < UNREACHABLE ==> !within(*self, goal, n, t, (dist@[self.index(t)] - 1) as nat)
                &&& dist@[self.index(t)] == UNREACHABLE ==> !within(*self, goal, n, t, (UNREACHABLE - 1) as nat)
            },
    {
        let (mut dist, mut queue) = self.seed_field(goal, n);
        proof {
            assert forall|t: Tile| #![trigger self.index(t)] self.contains(t) implies (dist@[self.index(t)] == 0 <==> walk_seed(*self, n, Walk::Toward { goal }, t))
                && (dist@[self.index(t)] == 0 || dist@[self.index(t)] == UNREACHABLE) by {
                assert(dist@[self.index(t)] == seeded(*self, goal, n, t));
            }
            lemma_search_init(*self, n, Walk::Toward { goal }, dist@, queue@);
        }
        let ghost mut level: int = 0;
        while queue.len() > 0
            invariant
                self.wf(),
                search(*self, n, Walk::Toward { goal }, dist@, queue@, level, None),
            decreases 2 * count_unset(dist@) + queue@.len(),
        {
            let next = self.expand(&mut dist, &mut queue, n, Walk::Toward { goal }, Ghost(level));
            proof {
                level = next@;
            }
        }
        proof {
            lemma_search_done(*self, n, Walk::Toward { goal }, dist@, queue@, level);
            assert forall|t: Tile| #![trigger dist@[self.index(t)]] self.contains(t) implies {
                &&& dist@[self.index(t)] < UNREACHABLE ==> within(*self, goal, n, t, dist@[self.index(t)] as nat)
                &&& 0 < dist@[self.index(t)] < UNREACHABLE ==> !within(*self, goal, n, t, (dist@[self.index(t)] - 1) as nat)
                &&& dist@[self.index(t)] == UNREACHABLE ==> !within(*self, goal, n, t, (UNREACHABLE - 1) as nat)
            } by {
                law_field_is_shortest(*self, goal, n, dist@, t);
            }
        }
        dist
    }
}

// ---- the field cache ---------------------------------------------------------------------------

/// How many fields the cache keeps before it starts over.
pub const FIELD_CACHE_CAPACITY: usize = 256;

/// Fields already built, keyed by goal cell and neighbor rule, for one version of the
/// structures on the map; a new version empties it.
#[derive(Debug)]
pub struct FieldCache {
    pub version: u32,
    pub fields: std::collections::BTreeMap<u64, std::rc::Rc<Vec<u16>>>,
}

/// The cache key of a field: the goal's cell, and whether diagonal steps count.
pub open spec fn field_key(g: StepGrid, goal: Tile, n: Neighbors) -> u64 {
    (g.index(goal) * 2 + (if n == Neighbors::Eight { 1int } else { 0int })) as u64
}

/// Two distance fields toward the same goal under the same rule are the same field.
pub proof fn law_field_is_unique(g: StepGrid, goal: Tile, n: Neighbors, a: Seq<u16>, b: Seq<u16>)
    requires
        g.wf(),
        field_of(g, goal, n, a),
        field_of(g, goal, n, b),
    ensures
        a == b,
{
    assert forall|i: int| 0 <= i < a.len() implies a[i] == b[i] by {
        let w = g.width as int;
        let t = Tile { x: (i % w) as u16, y: (i / w) as u16 };
        assert(w > 0) by {
            if w == 0 {
                assert(g.cells@.len() == 0) by (nonlinear_arith)
                    requires
                        g.cells@.len() == g.width * g.height,
                        g.width == 0,
                ;
            }
        }
        vstd::arithmetic::div_mod::lemma_fundamental_div_mod(i, w);
        assert(i / w < g.height) by (nonlinear_arith)
            requires
                0 <= i < g.width * g.height,
                w == g.width,
                w > 0,
                i == w * (i / w) + i % w,
                0 <= i % w < w,
        ;
        assert(g.index(t) == i) by (nonlinear_arith)
            requires
                i == w * (i / w) + i % w,
                t.x == i % w,
                t.y == i / w,
                w == g.width,
        ;
        law_field_is_shortest(g, goal, n, a, t);
        law_field_is_shortest(g, goal, n, b, t);
        let (x, y) = (a[i], b[i]);
        if x < y {
            if y < UNREACHABLE {
                lemma_reaches_grows(g, n, Walk::Toward { goal }, t, x as nat, (y - 1) as nat);
            } else {
                lemma_reaches_grows(g, n, Walk::Toward { goal }, t, x as nat, (UNREACHABLE - 1) as nat);
            }
        } else if y < x {
            if x < UNREACHABLE {
                lemma_reaches_grows(g, n, Walk::Toward { goal }, t, y as nat, (x - 1) as nat);
            } else {
                lemma_reaches_grows(g, n, Walk::Toward { goal }, t, y as nat, (UNREACHABLE - 1) as nat);
            }
        }
    }
}

proof fn lemma_key_injective(g: StepGrid, a: Tile, na: Neighbors, b: Tile, nb: Neighbors)
    requires
        g.wf(),
        g.contains(a),
        g.contains(b),
        field_key(g, a, na) == field_key(g, b, nb),
    ensures
        a == b,
        na == nb,
{
    lemma_index_bound(g, a);
    lemma_index_bound(g, b);
    assert(g.cells@.len() <= 0xffff * 0xffff) by (nonlinear_arith)
        requires
            g.cells@.len() == g.width * g.height,
            g.width <= 0xffff,
            g.height <= 0xffff,
    ;
    let ka = g.index(a) * 2 + (if na == Neighbors::Eight { 1int } else { 0int });
    let kb = g.index(b) * 2 + (if nb == Neighbors::Eight { 1int } else { 0int });
    assert(ka == kb);
    assert(na == nb);
    lemma_index_injective(g, a, b);
}

impl FieldCache {
    /// Every field kept is the distance field of its key's goal and rule on `g`, when the cache
    /// is at `version`.
    pub open spec fn holds_fields_of(&self, g: StepGrid, version: u32) -> bool {
        &&& self.fields@.len() <= FIELD_CACHE_CAPACITY
        &&& self.version == version ==> forall|k: u64| #[trigger] self.fields@.contains_key(k) ==>
            exists|goal: Tile, n: Neighbors| g.contains(goal) && field_key(g, goal, n) == k && field_of(g, goal, n, self.fields@[k]@)
    }

    pub fn new() -> (c: FieldCache)
        ensures
            c.version == 0,
            c.fields@ == Map::<u64, std::rc::Rc<Vec<u16>>>::empty(),
    {
        FieldCache { version: 0, fields: std::collections::BTreeMap::new() }
    }

    /// The distance field toward `goal` on `g` under rule `n`, from the cache when it holds it
    /// for this structure version, otherwise built and kept.
    #[verifier::spinoff_prover]
    pub fn field(&mut self, g: &StepGrid, version: u32, goal: Tile, n: Neighbors) -> (r: std::rc::Rc<Vec<u16>>)
        requires
            g.wf(),
            g.contains(goal),
            old(self).holds_fields_of(*g, version),
        ensures
            field_of(*g, goal, n, r@),
            final(self).version == version,
            final(self).holds_fields_of(*g, version),
            final(self).fields@.len() <= FIELD_CACHE_CAPACITY,
    {
        broadcast use vstd::std_specs::btree::group_btree_axioms;
        if self.version != version {
            self.fields.clear();
            self.version = version;
        }
        let at = g.idx(goal);
        proof {
            assert(g.cells@.len() <= 0xffff * 0xffff) by (nonlinear_arith)
                requires
                    g.cells@.len() == g.width * g.height,
                    g.width <= 0xffff,
                    g.height <= 0xffff,
            ;
        }
        let key: u64 = (at as u64) * 2 + if n == Neighbors::Eight { 1 } else { 0 };
        proof {
            assert(key == field_key(*g, goal, n));
        }
        let cached = match self.fields.get(&key) {
            Some(f) => Some(f.clone()),
            None => None,
        };
        if let Some(f) = cached {
            proof {
                let (goal2, n2) = choose|goal2: Tile, n2: Neighbors| g.contains(goal2) && field_key(*g, goal2, n2) == key
                    && field_of(*g, goal2, n2, self.fields@[key]@);
                lemma_key_injective(*g, goal2, n2, goal, n);
            }
            return f;
        }
        if self.fields.len() >= FIELD_CACHE_CAPACITY {
            self.fields.clear();
        }
        let field = std::rc::Rc::new(g.build_field(goal, n));
        let ghost before = self.fields@;
        self.fields.insert(key, field.clone());
        proof {
            assert forall|k: u64| #[trigger] self.fields@.contains_key(k) implies
                exists|goal3: Tile, n3: Neighbors| g.contains(goal3) && field_key(*g, goal3, n3) == k && field_of(*g, goal3, n3, self.fields@[k]@) by {
                if k == key {
                    assert(field_key(*g, goal, n) == k && field_of(*g, goal, n, self.fields@[k]@));
                } else {
                    assert(before.contains_key(k));
                }
            }
            assert(self.fields@.dom() == before.dom().insert(key));
            assert(before.len() < FIELD_CACHE_CAPACITY);
        }
        field
    }
}

// ---- local detours -----------------------------------------------------------------------------

/// Each cell the walk reached past its seed records a cell one nearer from which a step of the
/// walk leads to it.
#[verifier::opaque]
pub open spec fn parents_ok(g: StepGrid, n: Neighbors, w: Walk, dist: Seq<u16>, parent: Seq<Tile>) -> bool {
    &&& parent.len() == dist.len()
    &&& forall|v: Tile| #![trigger g.index(v)] g.contains(v) && 0 < dist[g.index(v)] < UNREACHABLE ==> {
        &&& g.contains(parent[g.index(v)])
        &&& walk_step(g, n, w, parent[g.index(v)], v)
        &&& dist[g.index(parent[g.index(v)])] + 1 == dist[g.index(v)]
    }
}

proof fn lemma_parents_relax(g: StepGrid, n: Neighbors, w: Walk, dist1: Seq<u16>, parent1: Seq<Tile>, t: Tile, v: Tile, d: u16)
    requires
        g.wf(),
        dist1.len() == g.cells@.len(),
        parents_ok(g, n, w, dist1, parent1),
        g.contains(t),
        dist1[g.index(t)] == d,
        d < UNREACHABLE - 1,
        walk_step(g, n, w, t, v),
        dist1[g.index(v)] == UNREACHABLE,
    ensures
        parents_ok(g, n, w, dist1.update(g.index(v), (d + 1) as u16), parent1.update(g.index(v), t)),
{
    reveal(parents_ok);
    lemma_step_contains(g, n, t, v);
    lemma_index_bound(g, v);
    lemma_index_bound(g, t);
    let dist = dist1.update(g.index(v), (d + 1) as u16);
    let parent = parent1.update(g.index(v), t);
    assert forall|u: Tile| #![trigger g.index(u)] g.contains(u) && 0 < dist[g.index(u)] < UNREACHABLE implies {
        &&& g.contains(parent[g.index(u)])
        &&& walk_step(g, n, w, parent[g.index(u)], u)
        &&& dist[g.index(parent[g.index(u)])] + 1 == dist[g.index(u)]
    } by {
        lemma_index_bound(g, u);
        if u == v {
            assert(parent[g.index(u)] == t);
            if g.index(t) == g.index(v) {
                lemma_index_injective(g, t, v);
            }
        } else {
            if g.index(u) == g.index(v) {
                lemma_index_injective(g, u, v);
            }
            let p = parent1[g.index(u)];
            assert(parent[g.index(u)] == p);
            assert(dist[g.index(u)] == dist1[g.index(u)]);
            lemma_index_bound(g, p);
            if g.index(p) == g.index(v) {
                lemma_index_injective(g, p, v);
            }
        }
    }
}

impl StepGrid {
    /// The search around `from` before it starts: `from` at zero and queued, every other cell
    /// unreached.
    fn seed_around(&self, from: Tile) -> (r: (Vec<u16>, std::collections::VecDeque<Tile>))
        requires
            self.wf(),
            self.contains(from),
        ensures
            r.0@.len() == self.cells@.len(),
            forall|t: Tile| #![trigger self.index(t)] self.contains(t) ==> r.0@[self.index(t)] == (if t == from { 0u16 } else { UNREACHABLE }),
            r.1@ == seq![from],
    {
        let cells = self.cells.len();
        let mut dist: Vec<u16> = vec![UNREACHABLE; cells];
        let mut queue: std::collections::VecDeque<Tile> = std::collections::VecDeque::new();
        let i = self.idx(from);
        dist.set(i, 0);
        queue.push_back(from);
        proof {
            assert forall|t: Tile| #![trigger self.index(t)] self.contains(t) implies dist@[self.index(t)] == (if t == from { 0u16 } else { UNREACHABLE }) by {
                lemma_index_bound(*self, t);
                if self.index(t) == self.index(from) {
                    lemma_index_injective(*self, t, from);
                }
            }
            assert(queue@ =~= seq![from]);
        }
        (dist, queue)
    }

    /// One step of the search around a stuck mover, recording for each newly reached cell the
    /// cell it was reached from.
    #[verifier::spinoff_prover]
    fn expand_around(
        &self,
        dist: &mut Vec<u16>,
        queue: &mut std::collections::VecDeque<Tile>,
        parent: &mut Vec<Tile>,
        n: Neighbors,
        w: Walk,
        Ghost(level): Ghost<int>,
    ) -> (next: Ghost<int>)
        requires
            search(*self, n, w, old(dist)@, old(queue)@, level, None),
            parents_ok(*self, n, w, old(dist)@, old(parent)@),
            old(parent)@.len() == self.cells@.len(),
            old(queue)@.len() > 0,
        ensures
            search(*self, n, w, final(dist)@, final(queue)@, next@, None),
            parents_ok(*self, n, w, final(dist)@, final(parent)@),
            final(parent)@.len() == self.cells@.len(),
            2 * count_unset(final(dist)@) + final(queue)@.len() < 2 * count_unset(old(dist)@) + old(queue)@.len(),
    {
        let ghost dist0 = dist@;
        let ghost queue0 = queue@;
        proof {
            reveal(search);
        }
        let t = match queue.pop_front() {
            Some(t) => t,
            None => {
                return Ghost(level);
            },
        };
        proof {
            lemma_search_pop(*self, n, w, dist0, queue0, queue@, level);
        }
        let d = dist[self.idx(t)];
        if d == UNREACHABLE - 1 {
            proof {
                lemma_search_close(*self, n, w, dist@, queue@, t, d);
            }
            return Ghost(d as int);
        }
        let count = dir_count_exec(n);
        let mut k: usize = 0;
        while k < count
            invariant
                search(*self, n, w, dist@, queue@, d as int, Some(t)),
                parents_ok(*self, n, w, dist@, parent@),
                parent@.len() == self.cells@.len(),
                self.wf(),
                self.contains(t),
                count == dir_count(n),
                0 <= k <= count,
                dist@.len() == self.cells@.len(),
                dist@[self.index(t)] == d,
                d < UNREACHABLE - 1,
                !queue@.contains(t),
                forall|j: int| 0 <= j < k ==> (#[trigger] self.spec_step_legal(t, dir_dx(j), dir_dy(j), n) matches Some(u)
                    ==> (walk_enters(*self, w, u) ==> dist@[self.index(u)] <= d + 1)),
                2 * count_unset(dist@) + queue@.len() < 2 * count_unset(dist0) + queue0.len(),
            decreases count - k,
        {
            let (dx, dy, _) = dir_at(k);
            let ghost dist1 = dist@;
            let ghost queue1 = queue@;
            let ghost parent1 = parent@;
            let step = self.step_legal(t, dx, dy, n);
            if let Some(v) = step {
                let i = self.idx(v);
                if self.walk_enters_exec(w, v) && dist[i] == UNREACHABLE {
                    proof {
                        assert(walk_step(*self, n, w, t, v)) by {
                            assert(self.spec_step_legal(t, dir_dx(k as int), dir_dy(k as int), n) == Some(v));
                        }
                        lemma_search_relax(*self, n, w, dist1, queue1, t, v, d);
                        lemma_parents_relax(*self, n, w, dist1, parent1, t, v, d);
                        lemma_set_decreases(dist1, i as int, (d + 1) as u16);
                    }
                    dist.set(i, d + 1);
                    parent.set(i, t);
                    queue.push_back(v);
                } else {
                    proof {
                        reveal(search);
                    }
                }
            }
            proof {
                lemma_index_bound(*self, t);
                assert(dist@[self.index(t)] == d);
                assert forall|j: int| 0 <= j < k + 1 implies (#[trigger] self.spec_step_legal(t, dir_dx(j), dir_dy(j), n) matches Some(u)
                    ==> (walk_enters(*self, w, u) ==> dist@[self.index(u)] <= d + 1)) by {
                    if let Some(u) = self.spec_step_legal(t, dir_dx(j), dir_dy(j), n) {
                        lemma_index_bound(*self, u);
                        if j < k {
                            if walk_enters(*self, w, u) {
                                assert(dist1[self.index(u)] <= d + 1);
                            }
                        } else {
                            assert(step == Some(u));
                        }
                    }
                }
            }
            k += 1;
        }
        proof {
            assert forall|u: Tile| #[trigger] walk_step(*self, n, w, t, u) implies dist@[self.index(u)] <= d + 1 by {
                let j = choose|j: int| 0 <= j < dir_count(n) && #[trigger] self.spec_step_legal(t, dir_dx(j), dir_dy(j), n) == Some(u);
            }
            lemma_search_close(*self, n, w, dist@, queue@, t, d);
        }
        Ghost(d as int)
    }
}

/// Somewhere a stuck mover may detour to: reached by the walk around `from`, and lower on the
/// field than `from`.
pub open spec fn detour_target(g: StepGrid, n: Neighbors, field: Seq<u16>, from: Tile, t: Tile) -> bool {
    &&& g.contains(t)
    &&& t != from
    &&& reaches(g, n, Walk::Around { from }, t, (UNREACHABLE - 1) as nat)
    &&& field[g.index(t)] < field[g.index(from)]
}

/// `k` is the fewest steps of the walk around `from` that reach `t`.
pub open spec fn fewest(g: StepGrid, n: Neighbors, from: Tile, t: Tile, k: nat) -> bool {
    &&& reaches(g, n, Walk::Around { from }, t, k)
    &&& (k == 0 || !reaches(g, n, Walk::Around { from }, t, (k - 1) as nat))
}

/// Detour targets are ranked by field value, then by steps, then by tile (column, then row).
pub open spec fn detour_before(fa: int, ka: int, a: Tile, fb: int, kb: int, b: Tile) -> bool {
    ||| fa < fb
    ||| fa == fb && ka < kb
    ||| fa == fb && ka == kb && a.x < b.x
    ||| fa == fb && ka == kb && a.x == b.x && a.y < b.y
}

/// `p` leads from `from` by steps of the walk around it, ending at its last cell.
pub open spec fn detour_path(g: StepGrid, n: Neighbors, from: Tile, p: Seq<Tile>) -> bool {
    &&& p.len() > 0
    &&& walk_step(g, n, Walk::Around { from }, from, p[0])
    &&& forall|i: int| 0 <= i < p.len() - 1 ==> walk_step(g, n, Walk::Around { from }, #[trigger] p[i], p[i + 1])
}

proof fn lemma_reaches_grows(g: StepGrid, n: Neighbors, w: Walk, t: Tile, j: nat, k: nat)
    requires
        reaches(g, n, w, t, j),
        j <= k,
    ensures
        reaches(g, n, w, t, k),
    decreases k - j,
{
    if j < k {
        assert(reaches(g, n, w, t, (j + 1) as nat));
        lemma_reaches_grows(g, n, w, t, (j + 1) as nat, k);
    }
}

/// Over the walk's counts: a cell is reached below the cap exactly when it has a count, and
/// its count is the one fewest number of steps.
proof fn lemma_counts_are_fewest(g: StepGrid, n: Neighbors, from: Tile, dist: Seq<u16>, t: Tile)
    requires
        walk_field(g, n, Walk::Around { from }, dist),
        g.contains(t),
    ensures
        reaches(g, n, Walk::Around { from }, t, (UNREACHABLE - 1) as nat) <==> dist[g.index(t)] < UNREACHABLE,
        dist[g.index(t)] < UNREACHABLE ==> fewest(g, n, from, t, dist[g.index(t)] as nat),
        forall|k: nat| #[trigger] fewest(g, n, from, t, k) && k < UNREACHABLE ==> k == dist[g.index(t)],
{
    let w = Walk::Around { from };
    law_walk_is_shortest(g, n, w, dist, t);
    let d = dist[g.index(t)];
    if d < UNREACHABLE {
        lemma_reaches_grows(g, n, w, t, d as nat, (UNREACHABLE - 1) as nat);
        assert forall|k: nat| #[trigger] fewest(g, n, from, t, k) && k < UNREACHABLE implies k == d by {
            if k < d {
                lemma_reaches_grows(g, n, w, t, k, (d - 1) as nat);
            } else if k > d {
                lemma_reaches_grows(g, n, w, t, d as nat, (k - 1) as nat);
            }
        }
    } else {
        assert forall|k: nat| #[trigger] fewest(g, n, from, t, k) && k < UNREACHABLE implies k == dist[g.index(t)] by {
            lemma_reaches_grows(g, n, w, t, k, (UNREACHABLE - 1) as nat);
        }
    }
}

/// A local detour from `from` on `field`: nothing when `from` is at the goal, off the field, or
/// no cell the walk around it reaches is lower; otherwise a fewest-steps path, `from` excluded, to
/// the target ranked first by field value, then steps, then tile.
pub open spec fn detour_result(g: StepGrid, n: Neighbors, field: Seq<u16>, from: Tile, r: Seq<Tile>) -> bool {
    let here = field[g.index(from)];
    &&& r.len() == 0 <==> (here == 0 || here == UNREACHABLE || !exists|t: Tile| #[trigger] detour_target(g, n, field, from, t))
    &&& r.len() > 0 ==> {
        let end = r[r.len() - 1];
        &&& detour_path(g, n, from, r)
        &&& detour_target(g, n, field, from, end)
        &&& fewest(g, n, from, end, r.len())
        &&& forall|t: Tile, k: nat| #[trigger] detour_target(g, n, field, from, t) && #[trigger] fewest(g, n, from, t, k)
            && t != end ==> detour_before(field[g.index(end)] as int, r.len() as int, end, field[g.index(t)] as int, k as int, t)
    }
}

/// A cell the scan may pick: reached around `from`, other than `from`, lower than `here`.
pub open spec fn detour_cand(g: StepGrid, dist: Seq<u16>, field: Seq<u16>, from: Tile, here: u16, t: Tile) -> bool {
    &&& g.contains(t)
    &&& t != from
    &&& dist[g.index(t)] < UNREACHABLE
    &&& field[g.index(t)] < here
}

pub open spec fn in_rows(t: Tile, x_lo: int, x_hi: int, y_lo: int, y: int) -> bool {
    x_lo <= t.x <= x_hi && y_lo <= t.y < y
}

/// The best candidate among the tiles with `f` at hand: none, or one before every other.
pub open spec fn best_so_far(g: StepGrid, dist: Seq<u16>, field: Seq<u16>, from: Tile, here: u16,
    seen: spec_fn(Tile) -> bool, best: Option<(u16, u16, Tile)>) -> bool {
    match best {
        None => forall|t: Tile| #[trigger] seen(t) ==> !detour_cand(g, dist, field, from, here, t),
        Some((f, d, b)) => {
            &&& seen(b)
            &&& detour_cand(g, dist, field, from, here, b)
            &&& f == field[g.index(b)]
            &&& d == dist[g.index(b)]
            &&& forall|t: Tile| #[trigger] seen(t) && detour_cand(g, dist, field, from, here, t) && t != b ==>
                detour_before(f as int, d as int, b, field[g.index(t)] as int, dist[g.index(t)] as int, t)
        },
    }
}

/// Every candidate lies within the detour radius of `from`.
pub open spec fn cands_near(g: StepGrid, dist: Seq<u16>, field: Seq<u16>, from: Tile, here: u16) -> bool {
    forall|u: Tile| #[trigger] detour_cand(g, dist, field, from, here, u) ==> within_detour_radius(from, u)
}

proof fn lemma_parent_of(g: StepGrid, n: Neighbors, from: Tile, dist: Seq<u16>, parent: Seq<Tile>, c: Tile)
    requires
        g.wf(),
        g.contains(c),
        0 < dist[g.index(c)] < UNREACHABLE,
        walk_field(g, n, Walk::Around { from }, dist),
        parents_ok(g, n, Walk::Around { from }, dist, parent),
    ensures
        g.contains(parent[g.index(c)]),
        walk_step(g, n, Walk::Around { from }, parent[g.index(c)], c),
        dist[g.index(parent[g.index(c)])] + 1 == dist[g.index(c)],
        dist[g.index(parent[g.index(c)])] == 0 <==> parent[g.index(c)] == from,
{
    reveal(parents_ok);
    let p = parent[g.index(c)];
    assert(walk_seed(g, n, Walk::Around { from }, p) <==> p == from);
}

/// The tiles in reverse order.
fn reversed(v: Vec<Tile>) -> (r: Vec<Tile>)
    ensures
        r@.len() == v@.len(),
        forall|i: int| 0 <= i < v@.len() ==> r@[i] == v@[v@.len() - 1 - i],
{
    let ghost v0 = v@;
    let len = v.len();
    let mut back = v;
    let mut out: Vec<Tile> = Vec::new();
    while back.len() > 0
        invariant
            len == v0.len(),
            out@.len() + back@.len() == len,
            back@ == v0.take(back@.len() as int),
            forall|i: int| 0 <= i < out@.len() ==> out@[i] == v0[len - 1 - i],
        decreases back.len(),
    {
        let x = back.pop().unwrap();
        out.push(x);
    }
    out
}

impl StepGrid {
    /// The step counts and parents of the walk around `from`.
    fn detour_counts(&self, from: Tile, n: Neighbors) -> (r: (Vec<u16>, Vec<Tile>))
        requires
            self.wf(),
            self.contains(from),
        ensures
            walk_field(*self, n, Walk::Around { from }, r.0@),
            parents_ok(*self, n, Walk::Around { from }, r.0@, r.1@),
            r.1@.len() == self.cells@.len(),
    {
        let w = Walk::Around { from };
        let (mut dist, mut queue) = self.seed_around(from);
        let cells = self.cells.len();
        let mut parent: Vec<Tile> = vec![from; cells];
        proof {
            reveal(parents_ok);
            assert forall|t: Tile| #![trigger self.index(t)] self.contains(t) implies (dist@[self.index(t)] == 0 <==> walk_seed(*self, n, w, t))
                && (dist@[self.index(t)] == 0 || dist@[self.index(t)] == UNREACHABLE) by {
            }
            assert forall|t: Tile| #![trigger self.index(t)] self.contains(t) && dist@[self.index(t)] == 0 implies queue@.contains(t) by {
                assert(queue@[0] == from);
            }
            lemma_search_init(*self, n, w, dist@, queue@);
        }
        let ghost mut level: int = 0;
        while queue.len() > 0
            invariant
                self.wf(),
                search(*self, n, w, dist@, queue@, level, None),
                parents_ok(*self, n, w, dist@, parent@),
                parent@.len() == self.cells@.len(),
            decreases 2 * count_unset(dist@) + queue@.len(),
        {
            let next = self.expand_around(&mut dist, &mut queue, &mut parent, n, w, Ghost(level));
            proof {
                level = next@;
            }
        }
        proof {
            lemma_search_done(*self, n, w, dist@, queue@, level);
        }
        (dist, parent)
    }

    /// The best candidate near `from`: lowest field value, then fewest steps, then smallest tile.
    #[verifier::spinoff_prover]
    fn best_detour(&self, dist: &Vec<u16>, field: &Vec<u16>, from: Tile, here: u16) -> (best: Option<(u16, u16, Tile)>)
        requires
            self.wf(),
            self.contains(from),
            dist@.len() == self.cells@.len(),
            field@.len() == self.cells@.len(),
            cands_near(*self, dist@, field@, from, here),
        ensures
            best_so_far(*self, dist@, field@, from, here, |t: Tile| true, best),
    {
        let ghost d = dist@;
        let ghost f = field@;
        let x_lo: u32 = if from.x >= DETOUR_RADIUS { (from.x - DETOUR_RADIUS) as u32 } else { 0 };
        let y_lo: u32 = if from.y >= DETOUR_RADIUS { (from.y - DETOUR_RADIUS) as u32 } else { 0 };
        let x_hi: u32 = if (from.x as u32) + (DETOUR_RADIUS as u32) < self.width as u32 { (from.x as u32) + (DETOUR_RADIUS as u32) } else { self.width as u32 - 1 };
        let y_hi: u32 = if (from.y as u32) + (DETOUR_RADIUS as u32) < self.height as u32 { (from.y as u32) + (DETOUR_RADIUS as u32) } else { self.height as u32 - 1 };
        let mut best: Option<(u16, u16, Tile)> = None;
        let mut y: u32 = y_lo;
        while y <= y_hi
            invariant
                self.wf(),
                dist@ == d,
                field@ == f,
                d.len() == self.cells@.len(),
                f.len() == self.cells@.len(),
                y_lo <= y <= y_hi + 1,
                y_hi < self.height,
                x_hi < self.width,
                x_lo <= from.x <= x_hi,
                best_so_far(*self, d, f, from, here, |t: Tile| in_rows(t, x_lo as int, x_hi as int, y_lo as int, y as int), best),
            decreases y_hi + 1 - y,
        {
            let mut x: u32 = x_lo;
            proof {
                let seen0 = |u: Tile| in_rows(u, x_lo as int, x_hi as int, y_lo as int, y as int);
                let seen1 = |u: Tile| in_rows(u, x_lo as int, x_hi as int, y_lo as int, y as int) || (u.y == y && x_lo <= u.x < x);
                assert forall|u: Tile| #[trigger] seen1(u) == seen0(u) by {}
                assert(seen1 =~= seen0);
            }
            while x <= x_hi
                invariant
                    self.wf(),
                    dist@ == d,
                    field@ == f,
                    d.len() == self.cells@.len(),
                    f.len() == self.cells@.len(),
                    y_lo <= y <= y_hi,
                    x_lo <= x <= x_hi + 1,
                    y_hi < self.height,
                    x_hi < self.width,
                    x_lo <= from.x <= x_hi,
                    best_so_far(*self, d, f, from, here, |t: Tile| in_rows(t, x_lo as int, x_hi as int, y_lo as int, y as int)
                        || (t.y == y && x_lo <= t.x < x), best),
                decreases x_hi + 1 - x,
            {
                let t = Tile { x: x as u16, y: y as u16 };
                let i = self.idx(t);
                let ghost before = best;
                if t != from && dist[i] != UNREACHABLE && field[i] < here {
                    let better = match best {
                        None => true,
                        Some((bf, bd, b)) => field[i] < bf || (field[i] == bf && (dist[i] < bd || (dist[i] == bd
                            && (t.x < b.x || (t.x == b.x && t.y < b.y))))),
                    };
                    if better {
                        best = Some((field[i], dist[i], t));
                    }
                }
                proof {
                    let seen0 = |u: Tile| in_rows(u, x_lo as int, x_hi as int, y_lo as int, y as int) || (u.y == y && x_lo <= u.x < x);
                    let seen1 = |u: Tile| in_rows(u, x_lo as int, x_hi as int, y_lo as int, y as int) || (u.y == y && x_lo <= u.x < x + 1);
                    assert(best_so_far(*self, d, f, from, here, seen0, before));
                    match best {
                        None => {
                            assert forall|u: Tile| #[trigger] seen1(u) implies !detour_cand(*self, d, f, from, here, u) by {
                                if !seen0(u) {
                                    assert(u == t);
                                }
                            }
                        },
                        Some((bf, bd, b)) => {
                            assert forall|u: Tile| #[trigger] seen1(u) && detour_cand(*self, d, f, from, here, u) && u != b implies
                                detour_before(bf as int, bd as int, b, f[self.index(u)] as int, d[self.index(u)] as int, u) by {
                                if !seen0(u) {
                                    assert(u == t);
                                } else if let Some((pf, pd, pb)) = before {
                                    if pb != b {
                                        assert(b == t);
                                        if u != pb {
                                            assert(detour_before(pf as int, pd as int, pb, f[self.index(u)] as int, d[self.index(u)] as int, u));
                                        }
                                    }
                                }
                            }
                            assert(seen1(b));
                        },
                    }
                    assert(best_so_far(*self, d, f, from, here, seen1, best));
                }
                x += 1;
            }
            proof {
                let seen0 = |u: Tile| in_rows(u, x_lo as int, x_hi as int, y_lo as int, y as int) || (u.y == y && x_lo <= u.x < x);
                let seen1 = |u: Tile| in_rows(u, x_lo as int, x_hi as int, y_lo as int, (y + 1) as int);
                assert(best_so_far(*self, d, f, from, here, seen0, best));
                assert forall|u: Tile| #[trigger] seen1(u) == seen0(u) by {}
                assert(seen1 =~= seen0);
            }
            y += 1;
        }
        proof {
            let seen = |u: Tile| in_rows(u, x_lo as int, x_hi as int, y_lo as int, y as int);
            assert forall|u: Tile| detour_cand(*self, d, f, from, here, u) implies #[trigger] seen(u) by {
                assert(within_detour_radius(from, u));
            }
            assert(best_so_far(*self, d, f, from, here, seen, best));
            let all = |u: Tile| true;
            match best {
                None => {
                    assert forall|u: Tile| #[trigger] all(u) implies !detour_cand(*self, d, f, from, here, u) by {
                        if detour_cand(*self, d, f, from, here, u) {
                            assert(seen(u));
                        }
                    }
                },
                Some((bf, bd, b)) => {
                    assert forall|u: Tile| #[trigger] all(u) && detour_cand(*self, d, f, from, here, u) && u != b implies
                        detour_before(bf as int, bd as int, b, f[self.index(u)] as int, d[self.index(u)] as int, u) by {
                        assert(seen(u));
                    }
                },
            }
        }
        best
    }

    /// The path from `from` to `end` along the recorded parents, `from` excluded.
    #[verifier::spinoff_prover]
    fn path_back(&self, dist: &Vec<u16>, parent: &Vec<Tile>, from: Tile, end: Tile, n: Neighbors) -> (path: Vec<Tile>)
        requires
            self.wf(),
            self.contains(end),
            0 < dist@[self.index(end)] < UNREACHABLE,
            dist@.len() == self.cells@.len(),
            parent@.len() == self.cells@.len(),
            walk_field(*self, n, Walk::Around { from }, dist@),
            parents_ok(*self, n, Walk::Around { from }, dist@, parent@),
        ensures
            path@.len() == dist@[self.index(end)],
            path@[path@.len() - 1] == end,
            detour_path(*self, n, from, path@),
    {
        let w = Walk::Around { from };
        let ghost d = dist@;
        let mut back: Vec<Tile> = Vec::new();
        back.push(end);
        let mut c = end;
        while parent[self.idx(c)] != from
            invariant
                self.wf(),
                self.contains(c),
                0 < d[self.index(c)] < UNREACHABLE,
                dist@ == d,
                d.len() == self.cells@.len(),
                parent@.len() == self.cells@.len(),
                w == (Walk::Around { from }),
                parents_ok(*self, n, w, d, parent@),
                walk_field(*self, n, w, d),
                back@.len() >= 1,
                back@[0] == end,
                back@[back@.len() - 1] == c,
                d[self.index(c)] + (back@.len() - 1) == d[self.index(end)],
                forall|i: int| 0 <= i < back@.len() - 1 ==> walk_step(*self, n, w, #[trigger] back@[i + 1], back@[i]),
            decreases d[self.index(c)],
        {
            let p = parent[self.idx(c)];
            proof {
                lemma_parent_of(*self, n, from, d, parent@, c);
            }
            let ghost back0 = back@;
            back.push(p);
            proof {
                assert forall|i: int| 0 <= i < back@.len() - 1 implies walk_step(*self, n, w, #[trigger] back@[i + 1], back@[i]) by {
                    if i < back0.len() - 1 {
                        assert(back@[i + 1] == back0[i + 1] && back@[i] == back0[i]);
                    }
                }
            }
            c = p;
        }
        proof {
            lemma_parent_of(*self, n, from, d, parent@, c);
        }
        let ghost back0 = back@;
        let out = reversed(back);
        proof {
            let len = back0.len();
            assert(out@[out@.len() - 1] == back0[0]);
            assert(out@[0] == back0[len - 1]);
            assert forall|i: int| 0 <= i < out@.len() - 1 implies walk_step(*self, n, w, #[trigger] out@[i], out@[i + 1]) by {
                let j = len - 2 - i;
                assert(out@[i] == back0[j + 1] && out@[i + 1] == back0[j]);
            }
        }
        out
    }

    /// A short way around a blockage: a breadth-first search from `from`, at most six cells away
    /// along each axis and over free cells only, toward the cell lowest on the field below
    /// `from`'s value (then fewest steps, then smallest tile); the path to it, `from` excluded, or
    /// nothing when no reachable cell is lower.
    #[verifier::spinoff_prover]
    pub fn local_detour(&self, field: &Vec<u16>, from: Tile, n: Neighbors) -> (r: Vec<Tile>)
        requires
            self.wf(),
            self.contains(from),
            field@.len() == self.cells@.len(),
        ensures
            detour_result(*self, n, field@, from, r@),
    {
        let here = field[self.idx(from)];
        if here == 0 || here == UNREACHABLE {
            return Vec::new();
        }
        let w = Walk::Around { from };
        let (dist, parent) = self.detour_counts(from, n);
        let ghost d = dist@;
        let ghost f = field@;
        proof {
            assert forall|u: Tile| #[trigger] detour_cand(*self, d, f, from, here, u) implies within_detour_radius(from, u) by {
                let p = choose|p: Tile| #[trigger] walk_step(*self, n, w, p, u) && self.contains(p) && d[self.index(p)] + 1 == d[self.index(u)];
            }
            assert forall|u: Tile| #[trigger] detour_target(*self, n, f, from, u) <==> detour_cand(*self, d, f, from, here, u) by {
                if self.contains(u) {
                    lemma_counts_are_fewest(*self, n, from, d, u);
                }
            }
        }
        let best = self.best_detour(&dist, field, from, here);
        let end = match best {
            None => {
                proof {
                    assert forall|u: Tile| !#[trigger] detour_target(*self, n, f, from, u) by {
                        assert((|t: Tile| true)(u));
                    }
                }
                return Vec::new();
            },
            Some((_, _, e)) => e,
        };
        proof {
            assert((|t: Tile| true)(end));
            assert(d[self.index(end)] != 0) by {
                if d[self.index(end)] == 0 {
                    assert(walk_seed(*self, n, w, end));
                }
            }
        }
        let path = self.path_back(&dist, &parent, from, end, n);
        proof {
            lemma_counts_are_fewest(*self, n, from, d, end);
            assert(detour_cand(*self, d, f, from, here, end));
            assert(detour_target(*self, n, f, from, end));
            assert(path@.len() > 0);
            assert(path@[path@.len() - 1] == end);
            assert(fewest(*self, n, from, end, path@.len()));
            assert forall|t: Tile, k: nat| #[trigger] detour_target(*self, n, f, from, t) && #[trigger] fewest(*self, n, from, t, k)
                && t != end implies detour_before(f[self.index(end)] as int, path@.len() as int, end, f[self.index(t)] as int, k as int, t) by {
                lemma_counts_are_fewest(*self, n, from, d, t);
                assert((|t: Tile| true)(t));
            }
        }
        path
    }
}

// ---- moves ------------------------------------------------------------------------------------

/// What a move or a failed move changes of a mover.
#[derive(Debug, Clone, PartialEq, Eq)]
pub struct MoveState {
    pub tile: Tile,
    pub last_move_direction: Direction,
    pub next_move_tick: Tick,
    pub failed_move_attempts: u32,
    pub blocked_step: Option<Tile>,
    pub resolved_destination: Option<Tile>,
    pub local_detour: Vec<Tile>,
}

/// How many failed moves in a row send a mover looking for a detour.
pub const DETOUR_AFTER_FAILURES: u32 = 3;

/// A detour whose first step has just been taken loses that step.
pub open spec fn detour_after_step(d: Seq<Tile>, to: Tile) -> Seq<Tile> {
    if d.len() > 0 && d[0] == to { d.drop_first() } else { d }
}

/// How a failed move toward `to` leaves a mover: in place and facing as before, the step
/// recorded as blocked, a retry next tick, one more failure (saturating); on the third failure in
/// a row a mover with a destination takes the local detour toward it on the field `g` gives and
/// starts counting again.
pub open spec fn fail_recorded(g: StepGrid, n: Neighbors, tick: Tick, before: MoveState, to: Tile, after: MoveState) -> bool {
    let failed = if before.failed_move_attempts == u32::MAX { u32::MAX } else { (before.failed_move_attempts + 1) as u32 };
    &&& after.tile == before.tile
    &&& after.last_move_direction == before.last_move_direction
    &&& after.resolved_destination == before.resolved_destination
    &&& after.blocked_step == Some(to)
    &&& after.next_move_tick == tick + 1
    &&& if failed >= DETOUR_AFTER_FAILURES && before.resolved_destination is Some {
        &&& after.failed_move_attempts == 0
        &&& exists|f: Seq<u16>| field_of(g, before.resolved_destination->0, n, f)
            && detour_result(g, n, f, before.tile, after.local_detour@)
    } else {
        &&& after.failed_move_attempts == failed
        &&& after.local_detour == before.local_detour
    }
}

impl StepGrid {
    /// Moves the mover onto `to`: the cell it leaves is free and the one it enters is held, its
    /// facing and next move tick are set, its failures are forgotten, and a detour step taken is
    /// dropped.
    pub fn commit_move(&mut self, m: &mut MoveState, to: Tile, dir: Direction, tick: Tick, cooldown: Tick)
        requires
            old(self).wf(),
            old(self).contains(old(m).tile),
            old(self).contains(to),
            tick + cooldown <= Tick::MAX,
        ensures
            final(self).wf(),
            final(self).width == old(self).width,
            final(self).height == old(self).height,
            final(self).cells == old(self).cells,
            final(self).holders@ == old(self).holders@.update(old(self).index(old(m).tile), Holder::Free)
                .update(old(self).index(to), Holder::Mobile),
            final(m).tile == to,
            final(m).last_move_direction == dir,
            final(m).next_move_tick == tick + cooldown,
            final(m).failed_move_attempts == 0,
            final(m).blocked_step is None,
            final(m).resolved_destination == old(m).resolved_destination,
            final(m).local_detour@ == detour_after_step(old(m).local_detour@, to),
    {
        let from_i = self.idx(m.tile);
        let to_i = self.idx(to);
        self.holders.set(from_i, Holder::Free);
        self.holders.set(to_i, Holder::Mobile);
        m.tile = to;
        m.last_move_direction = dir;
        m.next_move_tick = tick + cooldown;
        m.failed_move_attempts = 0;
        m.blocked_step = None;
        if m.local_detour.len() > 0 && m.local_detour[0] == to {
            m.local_detour.remove(0);
        }
        proof {
            assert(m.local_detour@ =~= detour_after_step(old(m).local_detour@, to));
        }
    }

    /// Records a failed move toward `to`: one more failure, the blocked step, a retry next tick;
    /// after the third failure in a row a mover with a destination looks for a local detour on
    /// the field toward it and starts counting again.
    pub fn fail_move(&self, cache: &mut FieldCache, version: u32, m: &mut MoveState, to: Tile, tick: Tick, n: Neighbors)
        requires
            self.wf(),
            self.contains(old(m).tile),
            old(m).resolved_destination matches Some(goal) ==> self.contains(goal),
            tick < Tick::MAX,
            old(cache).holds_fields_of(*self, version),
        ensures
            final(cache).holds_fields_of(*self, version),
            fail_recorded(*self, n, tick, *old(m), to, *final(m)),
    {
        m.failed_move_attempts = m.failed_move_attempts.saturating_add(1);
        m.blocked_step = Some(to);
        m.next_move_tick = tick + 1;
        if m.failed_move_attempts >= DETOUR_AFTER_FAILURES {
            if let Some(goal) = m.resolved_destination {
                let field = cache.field(self, version, goal, n);
                let detour = self.local_detour(&field, m.tile, n);
                m.local_detour = detour;
                m.failed_move_attempts = 0;
            }
        }
    }
}

// ---- choosing a blueprint ----------------------------------------------------------------------

/// Derived order of event keys: tick, round, player rank, command index.
pub open spec fn event_lt(a: EventKey, b: EventKey) -> bool {
    ||| a.tick < b.tick
    ||| a.tick == b.tick && a.round < b.round
    ||| a.tick == b.tick && a.round == b.round && a.player_rank < b.player_rank
    ||| a.tick == b.tick && a.round == b.round && a.player_rank == b.player_rank && a.command_index < b.command_index
}

fn event_lt_exec(a: &EventKey, b: &EventKey) -> (r: bool)
    ensures
        r == event_lt(*a, *b),
{
    if a.tick != b.tick {
        return a.tick < b.tick;
    }
    if a.round != b.round {
        return a.round < b.round;
    }
    if a.player_rank != b.player_rank {
        return a.player_rank < b.player_rank;
    }
    a.command_index < b.command_index
}

/// Blueprints are tried oldest first: by creation precedence, then id, then position.
pub open spec fn blueprint_before(bps: Seq<PlannedBlueprint>, i: int, j: int) -> bool {
    ||| event_lt(bps[i].precedence, bps[j].precedence)
    ||| bps[i].precedence == bps[j].precedence && entity_lt(bps[i].id, bps[j].id)
    ||| bps[i].precedence == bps[j].precedence && bps[i].id == bps[j].id && i < j
}

fn blueprint_before_exec(bps: &Vec<PlannedBlueprint>, i: usize, j: usize) -> (r: bool)
    requires
        i < bps@.len(),
        j < bps@.len(),
    ensures
        r == blueprint_before(bps@, i as int, j as int),
{
    let (a, b) = (&bps[i], &bps[j]);
    if a.precedence != b.precedence {
        return event_lt_exec(&a.precedence, &b.precedence);
    }
    if a.id != b.id {
        return entity_lt_exec(&a.id, &b.id);
    }
    i < j
}

/// The blueprints a constructor may take: its owner's, inside its work area.
pub open spec fn blueprint_candidate(bps: Seq<PlannedBlueprint>, owner: PlayerId, area: Rect, i: int) -> bool {
    0 <= i < bps.len() && bps[i].owner == owner && spec_in_rect(bps[i].tile, area)
}

/// A candidate the constructor can work: started, or its tile still free; and either next to
/// the constructor or reachable from it by legal steps without standing on it.
pub open spec fn blueprint_workable(g: StepGrid, n: Neighbors, from: Tile, bp: PlannedBlueprint) -> bool {
    &&& (bp.site_id is Some || g.holders@[g.index(bp.tile)] == Holder::Free)
    &&& (spec_chebyshev(from, bp.tile) == 1
        || (within(g, bp.tile, n, from, (UNREACHABLE - 1) as nat) && !is_seed(g, bp.tile, n, from)))
}

/// `order` lists the candidates, each once, oldest first.
pub open spec fn candidates_in_order(bps: Seq<PlannedBlueprint>, owner: PlayerId, area: Rect, order: Seq<usize>) -> bool {
    &&& forall|i: int| #![trigger blueprint_candidate(bps, owner, area, i)] #![trigger order.contains(i as usize)]
        0 <= i < bps.len() ==> (blueprint_candidate(bps, owner, area, i) <==> order.contains(i as usize))
    &&& forall|a: int, b: int| 0 <= a < b < order.len() ==> blueprint_before(bps, #[trigger] order[a] as int, #[trigger] order[b] as int)
    &&& forall|a: int| 0 <= a < order.len() ==> #[trigger] order[a] < bps.len()
}

proof fn lemma_blueprint_order(bps: Seq<PlannedBlueprint>, i: int, j: int, k: int)
    ensures
        i != j ==> (blueprint_before(bps, i, j) || blueprint_before(bps, j, i)),
        !(blueprint_before(bps, i, j) && blueprint_before(bps, j, i)),
        blueprint_before(bps, i, j) && blueprint_before(bps, j, k) ==> blueprint_before(bps, i, k),
        !blueprint_before(bps, i, i),
{
}

/// The candidates, oldest first.
fn ordered_candidates(bps: &Vec<PlannedBlueprint>, owner: PlayerId, area: &Rect) -> (order: Vec<usize>)
    ensures
        candidates_in_order(bps@, owner, *area, order@),
{
    let mut order: Vec<usize> = Vec::new();
    let mut i: usize = 0;
    while i < bps.len()
        invariant
            0 <= i <= bps@.len(),
            forall|j: int| 0 <= j < bps@.len() ==> (blueprint_candidate(bps@, owner, *area, j) && j < i <==> order@.contains(j as usize)),
            forall|a: int, b: int| 0 <= a < b < order@.len() ==> blueprint_before(bps@, #[trigger] order@[a] as int, #[trigger] order@[b] as int),
            forall|a: int| 0 <= a < order@.len() ==> #[trigger] order@[a] < i,
        decreases bps.len() - i,
    {
        if bps[i].owner == owner && in_rect(bps[i].tile, area) {
            let mut p: usize = 0;
            while p < order.len() && blueprint_before_exec(bps, order[p], i)
                invariant
                    0 <= p <= order@.len(),
                    i < bps@.len(),
                    forall|a: int| 0 <= a < order@.len() ==> #[trigger] order@[a] < i,
                    forall|a: int| 0 <= a < p ==> blueprint_before(bps@, #[trigger] order@[a] as int, i as int),
                decreases order.len() - p,
            {
                p += 1;
            }
            let ghost before = order@;
            proof {
                assert forall|a: int| p <= a < before.len() implies blueprint_before(bps@, i as int, #[trigger] before[a] as int) by {
                    lemma_blueprint_order(bps@, before[p as int] as int, i as int, 0);
                    if a > p {
                        lemma_blueprint_order(bps@, i as int, before[p as int] as int, before[a] as int);
                    }
                }
            }
            order.insert(p, i);
            proof {
                assert forall|a: int, b: int| 0 <= a < b < order@.len() implies blueprint_before(bps@, #[trigger] order@[a] as int, #[trigger] order@[b] as int) by {
                    if a < p && b > p {
                        assert(order@[a] == before[a] && order@[b] == before[b - 1]);
                        lemma_blueprint_order(bps@, before[a] as int, i as int, before[b - 1] as int);
                    } else if b < p {
                        assert(order@[a] == before[a] && order@[b] == before[b]);
                    } else if a > p {
                        assert(order@[a] == before[a - 1] && order@[b] == before[b - 1]);
                    } else if a == p {
                        assert(order@[b] == before[b - 1]);
                    } else {
                        assert(order@[a] == before[a]);
                    }
                }
                assert forall|j: int| 0 <= j < bps@.len() implies (blueprint_candidate(bps@, owner, *area, j) && j < i + 1 <==> order@.contains(j as usize)) by {
                    if order@.contains(j as usize) {
                        let m = choose|m: int| 0 <= m < order@.len() && order@[m] == j as usize;
                        if m < p {
                            assert(before[m] == j as usize);
                            assert(before.contains(j as usize));
                        } else if m > p {
                            assert(before[m - 1] == j as usize);
                            assert(before.contains(j as usize));
                        }
                    }
                    if blueprint_candidate(bps@, owner, *area, j) && j < i {
                        assert(before.contains(j as usize));
                        let m = choose|m: int| 0 <= m < before.len() && before[m] == j as usize;
                        if m < p {
                            assert(order@[m] == j as usize);
                        } else {
                            assert(order@[m + 1] == j as usize);
                        }
                    }
                    if j == i {
                        assert(order@[p as int] == i);
                    }
                }
                assert forall|a: int| 0 <= a < order@.len() implies #[trigger] order@[a] < i + 1 by {
                    if a < p {
                        assert(order@[a] == before[a]);
                    } else if a > p {
                        assert(order@[a] == before[a - 1]);
                    }
                }
            }
        } else {
            proof {
                assert forall|j: int| 0 <= j < bps@.len() implies (blueprint_candidate(bps@, owner, *area, j) && j < i + 1 <==> order@.contains(j as usize)) by {
                    if order@.contains(j as usize) {
                        let m = choose|m: int| 0 <= m < order@.len() && order@[m] == j as usize;
                        assert(order@[m] < i);
                    }
                }
            }
        }
        i += 1;
    }
    order
}

proof fn lemma_first_workable(g: StepGrid, n: Neighbors, from: Tile, bps: Seq<PlannedBlueprint>, owner: PlayerId, area: Rect,
    order: Seq<usize>, k: int)
    requires
        candidates_in_order(bps, owner, area, order),
        bps.len() <= usize::MAX,
        0 <= k < order.len(),
        forall|m: int| 0 <= m < k ==> !blueprint_workable(g, n, from, #[trigger] bps[order[m] as int]),
    ensures
        forall|i: int| #[trigger] blueprint_candidate(bps, owner, area, i) && i != order[k] as int
            && blueprint_before(bps, i, order[k] as int) ==> !blueprint_workable(g, n, from, bps[i]),
{
    let b = order[k] as int;
    assert forall|i: int| #[trigger] blueprint_candidate(bps, owner, area, i) && i != b
        && blueprint_before(bps, i, b) implies !blueprint_workable(g, n, from, bps[i]) by {
        assert(order.contains(i as usize));
        let m = choose|m: int| 0 <= m < order.len() && order[m] == i as usize;
        if m > k {
            assert(blueprint_before(bps, order[k] as int, order[m] as int));
            lemma_blueprint_order(bps, i, b, 0);
        } else if m < k {
            assert(!blueprint_workable(g, n, from, bps[order[m] as int]));
        }
    }
}

proof fn lemma_none_workable(g: StepGrid, n: Neighbors, from: Tile, bps: Seq<PlannedBlueprint>, owner: PlayerId, area: Rect,
    order: Seq<usize>)
    requires
        candidates_in_order(bps, owner, area, order),
        bps.len() <= usize::MAX,
        forall|m: int| 0 <= m < order.len() ==> !blueprint_workable(g, n, from, #[trigger] bps[order[m] as int]),
    ensures
        forall|i: int| #[trigger] blueprint_candidate(bps, owner, area, i) ==> !blueprint_workable(g, n, from, bps[i]),
{
    assert forall|i: int| #[trigger] blueprint_candidate(bps, owner, area, i) implies !blueprint_workable(g, n, from, bps[i]) by {
        assert(order.contains(i as usize));
        let m = choose|m: int| 0 <= m < order.len() && order[m] == i as usize;
        assert(!blueprint_workable(g, n, from, bps[order[m] as int]));
    }
}

impl StepGrid {
    /// The blueprint a constructor at `from` takes in its work area: the oldest of its owner's
    /// there that it can work (see `blueprint_workable`), or none.
    #[verifier::spinoff_prover]
    pub fn choose_blueprint(
        &self,
        cache: &mut FieldCache,
        version: u32,
        owner: PlayerId,
        from: Tile,
        n: Neighbors,
        area: &Rect,
        blueprints: &Vec<PlannedBlueprint>,
    ) -> (r: Option<usize>)
        requires
            self.wf(),
            self.contains(from),
            forall|i: int| 0 <= i < blueprints@.len() ==> self.contains(#[trigger] blueprints@[i].tile),
            old(cache).holds_fields_of(*self, version),
        ensures
            final(cache).holds_fields_of(*self, version),
            r is None ==> forall|i: int| #[trigger] blueprint_candidate(blueprints@, owner, *area, i)
                ==> !blueprint_workable(*self, n, from, blueprints@[i]),
            r matches Some(b) ==> {
                &&& blueprint_candidate(blueprints@, owner, *area, b as int)
                &&& blueprint_workable(*self, n, from, blueprints@[b as int])
                &&& forall|i: int| #[trigger] blueprint_candidate(blueprints@, owner, *area, i) && i != b
                    && blueprint_before(blueprints@, i, b as int) ==> !blueprint_workable(*self, n, from, blueprints@[i])
            },
    {
        let order = ordered_candidates(blueprints, owner, area);
        let count = blueprints.len();
        let mut k: usize = 0;
        while k < order.len()
            invariant
                self.wf(),
                self.contains(from),
                forall|i: int| 0 <= i < blueprints@.len() ==> self.contains(#[trigger] blueprints@[i].tile),
                cache.holds_fields_of(*self, version),
                candidates_in_order(blueprints@, owner, *area, order@),
                count == blueprints@.len(),
                0 <= k <= order@.len(),
                forall|m: int| 0 <= m < k ==> !blueprint_workable(*self, n, from, #[trigger] blueprints@[order@[m] as int]),
            decreases order.len() - k,
        {
            let b = order[k];
            let bp = &blueprints[b];
            let tile = bp.tile;
            let started = bp.site_id.is_some();
            if !started && self.holders[self.idx(tile)] != Holder::Free {
                k += 1;
                continue;
            }
            if chebyshev(from, tile) == 1 {
                proof {
                    assert(order@.contains(b));
                    lemma_first_workable(*self, n, from, blueprints@, owner, *area, order@, k as int);
                }
                return Some(b);
            }
            let f = cache.field(self, version, tile, n);
            let d = f[self.idx(from)];
            proof {
                law_field_is_shortest(*self, tile, n, f@, from);
                if d < UNREACHABLE {
                    lemma_reaches_grows(*self, n, Walk::Toward { goal: tile }, from, d as nat, (UNREACHABLE - 1) as nat);
                }
            }
            if d != UNREACHABLE && d != 0 {
                proof {
                    assert(order@.contains(b));
                    lemma_first_workable(*self, n, from, blueprints@, owner, *area, order@, k as int);
                }
                return Some(b);
            }
            k += 1;
        }
        proof {
            lemma_none_workable(*self, n, from, blueprints@, owner, *area, order@);
        }
        None
    }
}

// ---- ore ------------------------------------------------------------------------------------

/// An ore tile a miner may head for: inside its area, with ore left, and walkable.
pub open spec fn ore_option(g: StepGrid, ore: Seq<bool>, area: Rect, t: Tile) -> bool {
    &&& g.contains(t)
    &&& spec_in_rect(t, area)
    &&& ore[g.index(t)]
    &&& g.spec_traversable(t)
}

/// Nearer first, then the smaller tile (column, then row).
pub open spec fn ore_before(from: Tile, a: Tile, b: Tile) -> bool {
    ||| dist2(from, a) < dist2(from, b)
    ||| dist2(from, a) == dist2(from, b) && (a.x < b.x || (a.x == b.x && a.y < b.y))
}

fn dist2_exec(a: Tile, b: Tile) -> (d: u64)
    ensures
        d == dist2(a, b),
{
    let dx: u64 = if a.x >= b.x { (a.x - b.x) as u64 } else { (b.x - a.x) as u64 };
    let dy: u64 = if a.y >= b.y { (a.y - b.y) as u64 } else { (b.y - a.y) as u64 };
    proof {
        assert(dx * dx == (a.x - b.x) * (a.x - b.x)) by (nonlinear_arith)
            requires
                dx == a.x - b.x || dx == b.x - a.x,
        ;
        assert(dy * dy == (a.y - b.y) * (a.y - b.y)) by (nonlinear_arith)
            requires
                dy == a.y - b.y || dy == b.y - a.y,
        ;
        assert(dx * dx <= 0xffff * 0xffff && dy * dy <= 0xffff * 0xffff) by (nonlinear_arith)
            requires
                dx <= 0xffff,
                dy <= 0xffff,
        ;
    }
    dx * dx + dy * dy
}

impl StepGrid {
    /// The ore tile nearest to `from` inside `area` that still holds ore and can be walked on;
    /// ties go to the smaller tile.
    #[verifier::spinoff_prover]
    pub fn nearest_ore(&self, ore: &Vec<bool>, from: Tile, area: &Rect) -> (r: Option<Tile>)
        requires
            self.wf(),
            ore@.len() == self.cells@.len(),
        ensures
            r is None ==> forall|t: Tile| !#[trigger] ore_option(*self, ore@, *area, t),
            r matches Some(b) ==> ore_option(*self, ore@, *area, b)
                && forall|t: Tile| #[trigger] ore_option(*self, ore@, *area, t) && t != b ==> ore_before(from, b, t),
    {
        let mut best: Option<(u64, Tile)> = None;
        if self.width == 0 || self.height == 0 || area.min.y > area.max.y || area.min.x > area.max.x {
            proof {
                assert forall|t: Tile| !#[trigger] ore_option(*self, ore@, *area, t) by {}
            }
            return None;
        }
        let y_hi = if area.max.y < self.height - 1 { area.max.y } else { self.height - 1 };
        let x_hi = if area.max.x < self.width - 1 { area.max.x } else { self.width - 1 };
        if area.min.y > y_hi || area.min.x > x_hi {
            proof {
                assert forall|t: Tile| !#[trigger] ore_option(*self, ore@, *area, t) by {}
            }
            return None;
        }
        let mut y: u32 = area.min.y as u32;
        while y <= y_hi as u32
            invariant
                self.wf(),
                ore@.len() == self.cells@.len(),
                area.min.y <= y <= y_hi + 1,
                y_hi < self.height,
                x_hi < self.width,
                y_hi <= area.max.y,
                x_hi <= area.max.x,
                area.min.x <= x_hi,
                x_hi == (if area.max.x < self.width - 1 { area.max.x } else { (self.width - 1) as u16 }),
                y_hi == (if area.max.y < self.height - 1 { area.max.y } else { (self.height - 1) as u16 }),
                best is None ==> forall|t: Tile| #[trigger] ore_option(*self, ore@, *area, t) ==> t.y >= y,
                best matches Some((d, b)) ==> {
                    &&& ore_option(*self, ore@, *area, b)
                    &&& b.y < y
                    &&& d == dist2(from, b)
                    &&& forall|t: Tile| #[trigger] ore_option(*self, ore@, *area, t) && t.y < y && t != b ==> ore_before(from, b, t)
                },
            decreases y_hi + 1 - y,
        {
            let mut x: u32 = area.min.x as u32;
            while x <= x_hi as u32
                invariant
                    self.wf(),
                    ore@.len() == self.cells@.len(),
                    area.min.y <= y <= y_hi,
                    area.min.x <= x <= x_hi + 1,
                    y_hi < self.height,
                    x_hi < self.width,
                    y_hi <= area.max.y,
                    x_hi <= area.max.x,
                    x_hi == (if area.max.x < self.width - 1 { area.max.x } else { (self.width - 1) as u16 }),
                    y_hi == (if area.max.y < self.height - 1 { area.max.y } else { (self.height - 1) as u16 }),
                    best is None ==> forall|t: Tile| #[trigger] ore_option(*self, ore@, *area, t) ==> t.y > y || (t.y == y && t.x >= x),
                    best matches Some((d, b)) ==> {
                        &&& ore_option(*self, ore@, *area, b)
                        &&& (b.y < y || (b.y == y && b.x < x))
                        &&& d == dist2(from, b)
                        &&& forall|t: Tile| #[trigger] ore_option(*self, ore@, *area, t) && (t.y < y || (t.y == y && t.x < x)) && t != b
                            ==> ore_before(from, b, t)
                    },
                decreases x_hi + 1 - x,
            {
                let t = Tile { x: x as u16, y: y as u16 };
                let i = self.idx(t);
                if ore[i] && self.traversable(t) {
                    let d = dist2_exec(from, t);
                    let better = match best {
                        None => true,
                        Some((bd, b)) => d < bd || (d == bd && (t.x < b.x || (t.x == b.x && t.y < b.y))),
                    };
                    if better {
                        best = Some((d, t));
                    }
                }
                x += 1;
            }
            proof {
                assert forall|t: Tile| #[trigger] ore_option(*self, ore@, *area, t) && t.y == y implies t.x < x by {}
            }
            y += 1;
        }
        match best {
            Some((_, b)) => Some(b),
            None => None,
        }
    }
}

// ---- line of sight ----------------------------------------------------------------------------

/// One step of the line walk from `(i, j)` steps taken toward `(dx, dy)`: the error term decides
/// whether it advances along x, along y, or both.
pub open spec fn walk_err(dx: int, dy: int, i: int, j: int) -> int {
    dx * (j + 1) - dy * (i + 1)
}

pub open spec fn walk_next_i(dx: int, dy: int, i: int, j: int) -> int {
    if 2 * walk_err(dx, dy, i, j) >= -dy { i + 1 } else { i }
}

pub open spec fn walk_next_j(dx: int, dy: int, i: int, j: int) -> int {
    if 2 * walk_err(dx, dy, i, j) <= dx { j + 1 } else { j }
}

pub proof fn lemma_walk_step(dx: int, dy: int, i: int, j: int)
    requires
        0 <= i <= dx,
        0 <= j <= dy,
        !(i == dx && j == dy),
    ensures
        0 <= walk_next_i(dx, dy, i, j) <= dx,
        0 <= walk_next_j(dx, dy, i, j) <= dy,
        walk_next_i(dx, dy, i, j) + walk_next_j(dx, dy, i, j) > i + j,
{
    let e = walk_err(dx, dy, i, j);
    assert(e == dx * j + dx - dy * i - dy) by (nonlinear_arith)
        requires
            e == dx * (j + 1) - dy * (i + 1),
    ;
    if i == dx {
        assert(2 * e < -dy) by (nonlinear_arith)
            requires
                e == dx * j + dx - dy * i - dy,
                i == dx,
                0 <= j < dy,
                dx >= 0,
        ;
    }
    if j == dy {
        assert(2 * e > dx) by (nonlinear_arith)
            requires
                e == dx * j + dx - dy * i - dy,
                j == dy,
                0 <= i < dx,
                dy >= 0,
        ;
    }
}

/// The walk from `(x0, y0)` stepping by `(sx, sy)` toward a point `dx` columns and `dy` rows
/// away, with `(i, j)` steps taken: clear when every cell entered before the end is not rock.
pub open spec fn sight_from(cells: Seq<TerrainCell>, w: int, x0: int, y0: int, sx: int, sy: int, dx: int, dy: int, i: int, j: int) -> bool
    decreases (dx - i) + (dy - j) when 0 <= i <= dx && 0 <= j <= dy
{
    if i == dx && j == dy {
        true
    } else {
        let ni = walk_next_i(dx, dy, i, j);
        let nj = walk_next_j(dx, dy, i, j);
        proof {
            lemma_walk_step(dx, dy, i, j);
        }
        if !(ni == dx && nj == dy) && cells[(y0 + sy * nj) * w + (x0 + sx * ni)] == TerrainCell::Wall {
            false
        } else {
            sight_from(cells, w, x0, y0, sx, sy, dx, dy, ni, nj)
        }
    }
}

pub open spec fn tile_le(a: Tile, b: Tile) -> bool {
    a.x < b.x || (a.x == b.x && a.y <= b.y)
}

/// Direct fire from `a` to `b`: the integer line walked from the smaller tile to the larger,
/// blocked only by rock strictly between them.
pub open spec fn spec_line_of_sight(cells: Seq<TerrainCell>, w: int, a: Tile, b: Tile) -> bool {
    let (p, q) = if tile_le(a, b) { (a, b) } else { (b, a) };
    let dx = if q.x >= p.x { q.x - p.x } else { p.x - q.x };
    let dy = if q.y >= p.y { q.y - p.y } else { p.y - q.y };
    let sx: int = if p.x < q.x { 1 } else { -1 };
    let sy: int = if p.y < q.y { 1 } else { -1 };
    sight_from(cells, w, p.x as int, p.y as int, sx, sy, dx, dy, 0, 0)
}

pub open spec fn abs_of(v: int) -> int {
    if v >= 0 { v } else { -v }
}

pub open spec fn max_of(a: int, b: int) -> int {
    if a >= b { a } else { b }
}

/// One step of the walk keeps it within half a cell of the real segment, measured across its
/// longer axis, and always advances along that axis.
proof fn lemma_walk_keeps_near(dx: int, dy: int, i: int, j: int)
    requires
        0 <= i <= dx,
        0 <= j <= dy,
        !(i == dx && j == dy),
        2 * abs_of(i * dy - j * dx) <= max_of(dx, dy),
    ensures
        dx >= dy ==> walk_next_i(dx, dy, i, j) == i + 1,
        dy > dx ==> walk_next_j(dx, dy, i, j) == j + 1,
        2 * abs_of(walk_next_i(dx, dy, i, j) * dy - walk_next_j(dx, dy, i, j) * dx) <= max_of(dx, dy),
{
    let d = i * dy - j * dx;
    let e = walk_err(dx, dy, i, j);
    assert(e == dx - dy - d) by (nonlinear_arith)
        requires
            e == dx * (j + 1) - dy * (i + 1),
            d == i * dy - j * dx,
    ;
    let ni = walk_next_i(dx, dy, i, j);
    let nj = walk_next_j(dx, dy, i, j);
    let a = ni - i;
    let c = nj - j;
    assert(ni * dy - nj * dx == d + a * dy - c * dx) by (nonlinear_arith)
        requires
            ni == i + a,
            nj == j + c,
            d == i * dy - j * dx,
    ;
    assert(a == 0 || a == 1);
    assert(c == 0 || c == 1);
    assert(a * dy == (if a == 1 { dy } else { 0 })) by (nonlinear_arith)
        requires
            a == 0 || a == 1,
    ;
    assert(c * dx == (if c == 1 { dx } else { 0 })) by (nonlinear_arith)
        requires
            c == 0 || c == 1,
    ;
}

/// Two cells of one column (or row) within half a cell of the segment are the same cell.
proof fn lemma_near_unique(dx: int, dy: int, i: int, j1: int, j2: int)
    requires
        dx > 0,
        2 * abs_of(i * dy - j1 * dx) <= dx,
        2 * abs_of(i * dy - j2 * dx) < dx,
    ensures
        j1 == j2,
{
    assert((j2 - j1) * dx == (i * dy - j1 * dx) - (i * dy - j2 * dx)) by (nonlinear_arith);
    if j1 < j2 {
        assert((j2 - j1) * dx >= dx) by (nonlinear_arith)
            requires
                j2 - j1 >= 1,
                dx > 0,
        ;
    } else if j1 > j2 {
        assert((j1 - j2) * dx >= dx) by (nonlinear_arith)
            requires
                j1 - j2 >= 1,
                dx > 0,
        ;
        assert((j2 - j1) * dx == -((j1 - j2) * dx)) by (nonlinear_arith);
    }
}

/// A walk within half a cell of the segment that has not yet passed the rock's column (or row,
/// along the longer axis) meets the rock, which lies strictly closer than half a cell.
proof fn lemma_walk_meets_rock(
    cells: Seq<TerrainCell>, w: int, x0: int, y0: int, sx: int, sy: int, dx: int, dy: int,
    i: int, j: int, ri: int, rj: int,
)
    requires
        0 <= i <= dx,
        0 <= j <= dy,
        2 * abs_of(i * dy - j * dx) <= max_of(dx, dy),
        0 <= ri <= dx,
        0 <= rj <= dy,
        !(ri == dx && rj == dy),
        2 * abs_of(ri * dy - rj * dx) < max_of(dx, dy),
        dx >= dy ==> i < ri,
        dy > dx ==> j < rj,
        cells[(y0 + sy * rj) * w + (x0 + sx * ri)] == TerrainCell::Wall,
    ensures
        !sight_from(cells, w, x0, y0, sx, sy, dx, dy, i, j),
    decreases (dx - i) + (dy - j),
{
    assert(!(i == dx && j == dy));
    lemma_walk_step(dx, dy, i, j);
    lemma_walk_keeps_near(dx, dy, i, j);
    let ni = walk_next_i(dx, dy, i, j);
    let nj = walk_next_j(dx, dy, i, j);
    if dx >= dy {
        if ni == ri {
            lemma_near_unique(dx, dy, ri, nj, rj);
        } else {
            lemma_walk_meets_rock(cells, w, x0, y0, sx, sy, dx, dy, ni, nj, ri, rj);
        }
    } else {
        if nj == rj {
            lemma_near_unique(dy, dx, rj, ni, ri);
        } else {
            lemma_walk_meets_rock(cells, w, x0, y0, sx, sy, dx, dy, ni, nj, ri, rj);
        }
    }
}

/// Line of sight is symmetric: whether `a` sees `b` is whether `b` sees `a`.
pub proof fn law_line_of_sight_symmetric(cells: Seq<TerrainCell>, w: int, a: Tile, b: Tile)
    ensures
        spec_line_of_sight(cells, w, a, b) == spec_line_of_sight(cells, w, b, a),
{
    if a != b {
        assert(tile_le(a, b) != tile_le(b, a));
    }
}

proof fn lemma_rock_blocks_ordered(cells: Seq<TerrainCell>, w: int, p: Tile, q: Tile, r: Tile)
    requires
        tile_le(p, q),
        r != p,
        r != q,
        p.x <= r.x <= q.x,
        p.y <= r.y <= q.y || q.y <= r.y <= p.y,
        cells[r.y * w + r.x] == TerrainCell::Wall,
        2 * abs_of((r.x - p.x) * (q.y - p.y) - (r.y - p.y) * (q.x - p.x)) < max_of(abs_of(q.x - p.x), abs_of(q.y - p.y)),
    ensures
        !spec_line_of_sight(cells, w, p, q),
{
    let dx: int = q.x - p.x;
    let dy: int = if q.y >= p.y { q.y - p.y } else { p.y - q.y };
    let sx: int = if p.x < q.x { 1 } else { -1 };
    let sy: int = if p.y < q.y { 1 } else { -1 };
    let ri: int = r.x - p.x;
    let rj: int = if r.y >= p.y { r.y - p.y } else { p.y - r.y };
    assert(p.x + sx * ri == r.x) by (nonlinear_arith)
        requires
            sx == 1 || (sx == -1 && ri == 0),
            ri == r.x - p.x,
    ;
    assert(p.y + sy * rj == r.y) by (nonlinear_arith)
        requires
            (sy == 1 && rj == r.y - p.y) || (sy == -1 && rj == p.y - r.y),
    ;
    assert(q.x - p.x == sx * dx) by (nonlinear_arith)
        requires
            sx == 1 || (sx == -1 && dx == 0),
            dx == q.x - p.x,
    ;
    assert(q.y - p.y == sy * dy) by (nonlinear_arith)
        requires
            (sy == 1 && dy == q.y - p.y) || (sy == -1 && dy == p.y - q.y),
    ;
    let cross = (r.x - p.x) * (q.y - p.y) - (r.y - p.y) * (q.x - p.x);
    assert(abs_of(cross) == abs_of(ri * dy - rj * dx)) by (nonlinear_arith)
        requires
            cross == (sx * ri) * (sy * dy) - (sy * rj) * (sx * dx),
            sx == 1 || sx == -1,
            sy == 1 || sy == -1,
    ;
    assert(0 <= rj <= dy);
    assert(!(ri == dx && rj == dy));
    let m = max_of(dx, dy);
    if dx >= dy && ri == 0 {
        assert(abs_of(ri * dy - rj * dx) == rj * dx) by (nonlinear_arith)
            requires
                ri == 0,
                rj >= 0,
                dx >= 0,
        ;
        if rj > 0 {
            assert(rj * dx >= dx) by (nonlinear_arith)
                requires
                    rj >= 1,
                    dx >= 0,
            ;
        }
    }
    if dy > dx && rj == 0 {
        assert(abs_of(ri * dy - rj * dx) == ri * dy) by (nonlinear_arith)
            requires
                rj == 0,
                ri >= 0,
                dy >= 0,
        ;
        if ri > 0 {
            assert(ri * dy >= dy) by (nonlinear_arith)
                requires
                    ri >= 1,
                    dy >= 0,
            ;
        }
    }
    assert(0 * dy - 0 * dx == 0) by (nonlinear_arith);
    assert((p.y + sy * rj) * w + (p.x + sx * ri) == r.y * w + r.x);
    lemma_walk_meets_rock(cells, w, p.x as int, p.y as int, sx, sy, dx, dy, 0, 0, ri, rj);
}

/// A rock strictly between two tiles, within the box they span and nearer than half a cell to the
/// segment joining their centres (measured across its longer axis), blocks direct fire between
/// them: every cell the integer line walks stays within half a cell of the segment, one per column
/// (or row) along the longer axis, so it cannot step around such a rock.
pub proof fn law_rock_near_line_blocks_sight(cells: Seq<TerrainCell>, w: int, a: Tile, b: Tile, r: Tile)
    requires
        r != a,
        r != b,
        a.x <= r.x <= b.x || b.x <= r.x <= a.x,
        a.y <= r.y <= b.y || b.y <= r.y <= a.y,
        cells[r.y * w + r.x] == TerrainCell::Wall,
        2 * abs_of((r.x - a.x) * (b.y - a.y) - (r.y - a.y) * (b.x - a.x)) < max_of(abs_of(b.x - a.x), abs_of(b.y - a.y)),
    ensures
        !spec_line_of_sight(cells, w, a, b),
{
    if tile_le(a, b) {
        lemma_rock_blocks_ordered(cells, w, a, b, r);
    } else {
        let c1 = (r.x - a.x) * (b.y - a.y) - (r.y - a.y) * (b.x - a.x);
        let c2 = (r.x - b.x) * (a.y - b.y) - (r.y - b.y) * (a.x - b.x);
        let (ax, ay, bx, by, rx, ry) = (a.x as int, a.y as int, b.x as int, b.y as int, r.x as int, r.y as int);
        assert(c2 == -c1) by (nonlinear_arith)
            requires
                c1 == (rx - ax) * (by - ay) - (ry - ay) * (bx - ax),
                c2 == (rx - bx) * (ay - by) - (ry - by) * (ax - bx),
        ;
        assert(abs_of(a.x - b.x) == abs_of(b.x - a.x) && abs_of(a.y - b.y) == abs_of(b.y - a.y));
        lemma_rock_blocks_ordered(cells, w, b, a, r);
        law_line_of_sight_symmetric(cells, w, a, b);
    }
}

/// A blocked walk meets rock at a cell within half a cell of the segment, after the start and
/// before the end.
proof fn lemma_walk_blocked_near(
    cells: Seq<TerrainCell>, w: int, x0: int, y0: int, sx: int, sy: int, dx: int, dy: int, i: int, j: int,
) -> (rc: (int, int))
    requires
        0 <= i <= dx,
        0 <= j <= dy,
        2 * abs_of(i * dy - j * dx) <= max_of(dx, dy),
        !sight_from(cells, w, x0, y0, sx, sy, dx, dy, i, j),
    ensures
        i <= rc.0 <= dx,
        j <= rc.1 <= dy,
        rc.0 + rc.1 > i + j,
        !(rc.0 == dx && rc.1 == dy),
        2 * abs_of(rc.0 * dy - rc.1 * dx) <= max_of(dx, dy),
        cells[(y0 + sy * rc.1) * w + (x0 + sx * rc.0)] == TerrainCell::Wall,
    decreases (dx - i) + (dy - j),
{
    lemma_walk_step(dx, dy, i, j);
    lemma_walk_keeps_near(dx, dy, i, j);
    let ni = walk_next_i(dx, dy, i, j);
    let nj = walk_next_j(dx, dy, i, j);
    if !(ni == dx && nj == dy) && cells[(y0 + sy * nj) * w + (x0 + sx * ni)] == TerrainCell::Wall {
        (ni, nj)
    } else {
        lemma_walk_blocked_near(cells, w, x0, y0, sx, sy, dx, dy, ni, nj)
    }
}

proof fn lemma_blocked_ordered(cells: Seq<TerrainCell>, w: int, p: Tile, q: Tile) -> (r: Tile)
    requires
        tile_le(p, q),
        !spec_line_of_sight(cells, w, p, q),
    ensures
        r != p,
        r != q,
        p.x <= r.x <= q.x,
        p.y <= r.y <= q.y || q.y <= r.y <= p.y,
        cells[r.y * w + r.x] == TerrainCell::Wall,
        2 * abs_of((r.x - p.x) * (q.y - p.y) - (r.y - p.y) * (q.x - p.x)) <= max_of(abs_of(q.x - p.x), abs_of(q.y - p.y)),
{
    let dx: int = q.x - p.x;
    let dy: int = if q.y >= p.y { q.y - p.y } else { p.y - q.y };
    let sx: int = if p.x < q.x { 1 } else { -1 };
    let sy: int = if p.y < q.y { 1 } else { -1 };
    assert(0 * dy - 0 * dx == 0) by (nonlinear_arith);
    let (ri, rj) = lemma_walk_blocked_near(cells, w, p.x as int, p.y as int, sx, sy, dx, dy, 0, 0);
    let rx: int = p.x + sx * ri;
    let ry: int = p.y + sy * rj;
    assert(rx == (if sx == 1 { p.x + ri } else { p.x - ri })) by (nonlinear_arith)
        requires
            sx == 1 || sx == -1,
            rx == p.x + sx * ri,
    ;
    assert(ry == (if sy == 1 { p.y + rj } else { p.y - rj })) by (nonlinear_arith)
        requires
            sy == 1 || sy == -1,
            ry == p.y + sy * rj,
    ;
    let r = Tile { x: rx as u16, y: ry as u16 };
    assert(r.x == rx && r.y == ry);
    assert(q.x - p.x == sx * dx) by (nonlinear_arith)
        requires
            sx == 1 || (sx == -1 && dx == 0),
            dx == q.x - p.x,
    ;
    assert(q.y - p.y == sy * dy) by (nonlinear_arith)
        requires
            (sy == 1 && dy == q.y - p.y) || (sy == -1 && dy == p.y - q.y),
    ;
    let cross = (r.x - p.x) * (q.y - p.y) - (r.y - p.y) * (q.x - p.x);
    assert(abs_of(cross) == abs_of(ri * dy - rj * dx)) by (nonlinear_arith)
        requires
            cross == (sx * ri) * (sy * dy) - (sy * rj) * (sx * dx),
            sx == 1 || sx == -1,
            sy == 1 || sy == -1,
    ;
    if r == q {
        assert(ri == dx);
        assert(rj == dy);
    }
    r
}

/// Direct fire is blocked only by rock: when a tile cannot see another, some rock lies strictly
/// between them, within the box they span and no more than half a cell from the segment joining
/// their centres (measured across its longer axis).
pub proof fn law_blocked_sight_has_rock_near_line(cells: Seq<TerrainCell>, w: int, a: Tile, b: Tile)
    requires
        !spec_line_of_sight(cells, w, a, b),
    ensures
        exists|r: Tile| {
            &&& r != a
            &&& r != b
            &&& a.x <= r.x <= b.x || b.x <= r.x <= a.x
            &&& a.y <= r.y <= b.y || b.y <= r.y <= a.y
            &&& #[trigger] cells[r.y * w + r.x] == TerrainCell::Wall
            &&& 2 * abs_of((r.x - a.x) * (b.y - a.y) - (r.y - a.y) * (b.x - a.x)) <= max_of(abs_of(b.x - a.x), abs_of(b.y - a.y))
        },
{
    if tile_le(a, b) {
        let r = lemma_blocked_ordered(cells, w, a, b);
        assert(cells[r.y * w + r.x] == TerrainCell::Wall);
    } else {
        law_line_of_sight_symmetric(cells, w, a, b);
        let r = lemma_blocked_ordered(cells, w, b, a);
        let c1 = (r.x - a.x) * (b.y - a.y) - (r.y - a.y) * (b.x - a.x);
        let c2 = (r.x - b.x) * (a.y - b.y) - (r.y - b.y) * (a.x - b.x);
        let (ax, ay, bx, by, rx, ry) = (a.x as int, a.y as int, b.x as int, b.y as int, r.x as int, r.y as int);
        assert(c2 == -c1) by (nonlinear_arith)
            requires
                c1 == (rx - ax) * (by - ay) - (ry - ay) * (bx - ax),
                c2 == (rx - bx) * (ay - by) - (ry - by) * (ax - bx),
        ;
        assert(abs_of(a.x - b.x) == abs_of(b.x - a.x) && abs_of(a.y - b.y) == abs_of(b.y - a.y));
        assert(cells[r.y * w + r.x] == TerrainCell::Wall);
    }
}

impl StepGrid {
    /// Whether `a` and `b` see each other: the integer line between them crosses no rock.
    #[verifier::spinoff_prover]
    pub fn line_of_sight(&self, a: Tile, b: Tile) -> (r: bool)
        requires
            self.wf(),
            self.contains(a),
            self.contains(b),
        ensures
            r == spec_line_of_sight(self.cells@, self.width as int, a, b),
    {
        let (p, q) = if a.x < b.x || (a.x == b.x && a.y <= b.y) { (a, b) } else { (b, a) };
        let x0 = p.x as i64;
        let y0 = p.y as i64;
        let x1 = q.x as i64;
        let y1 = q.y as i64;
        let dx: i64 = if x1 >= x0 { x1 - x0 } else { x0 - x1 };
        let dy: i64 = if y1 >= y0 { y1 - y0 } else { y0 - y1 };
        let sx: i64 = if x0 < x1 { 1 } else { -1 };
        let sy: i64 = if y0 < y1 { 1 } else { -1 };
        let mut x = x0;
        let mut y = y0;
        let mut i: i64 = 0;
        let mut j: i64 = 0;
        let mut err: i64 = dx - dy;
        let ghost target = spec_line_of_sight(self.cells@, self.width as int, a, b);
        let w = self.width as i64;
        let n = self.cells.len();
        proof {
            assert((dx as int) * (0 + 1) == dx as int && (dy as int) * (0 + 1) == dy as int) by (nonlinear_arith);
            assert(err == walk_err(dx as int, dy as int, 0, 0));
        }
        while !(x == x1 && y == y1)
            invariant
                self.wf(),
                self.contains(p),
                self.contains(q),
                n == self.cells@.len(),
                w == self.width,
                x0 == p.x && y0 == p.y && x1 == q.x && y1 == q.y,
                dx == (if x1 >= x0 { x1 - x0 } else { x0 - x1 }),
                dy == (if y1 >= y0 { y1 - y0 } else { y0 - y1 }),
                sx == (if x0 < x1 { 1int } else { -1int }),
                sy == (if y0 < y1 { 1int } else { -1int }),
                0 <= i <= dx,
                0 <= j <= dy,
                x == (if sx == 1 { x0 + i } else { x0 - i }),
                y == (if sy == 1 { y0 + j } else { y0 - j }),
                err == walk_err(dx as int, dy as int, i as int, j as int),
                target == sight_from(self.cells@, self.width as int, x0 as int, y0 as int, sx as int, sy as int, dx as int, dy as int, i as int, j as int),
                target == spec_line_of_sight(self.cells@, self.width as int, a, b),
            decreases (dx - i) + (dy - j),
        {
            proof {
                assert(!(i == dx && j == dy)) by {
                    if i == dx && j == dy {
                        assert(x == x1 && y == y1);
                    }
                }
                lemma_walk_step(dx as int, dy as int, i as int, j as int);
                assert(-0x1_0000_0000 * 0x1_0000 <= err <= 0x1_0000_0000 * 0x1_0000) by (nonlinear_arith)
                    requires
                        err == dx * (j + 1) - dy * (i + 1),
                        0 <= i <= dx,
                        0 <= j <= dy,
                        dx <= 0xffff,
                        dy <= 0xffff,
                ;
            }
            let e2 = 2 * err;
            let ghost ni = walk_next_i(dx as int, dy as int, i as int, j as int);
            let ghost nj = walk_next_j(dx as int, dy as int, i as int, j as int);
            let ghost i0 = i as int;
            let ghost j0 = j as int;
            let ghost err0 = err as int;
            if e2 >= -dy {
                err = err - dy;
                x = x + sx;
                i = i + 1;
            }
            if e2 <= dx {
                err = err + dx;
                y = y + sy;
                j = j + 1;
            }
            proof {
                assert(i == ni && j == nj);
                let a: int = if e2 >= -dy { 1 } else { 0 };
                let c: int = if e2 <= dx { 1 } else { 0 };
                assert(err == err0 - dy * a + dx * c);
                assert(err == walk_err(dx as int, dy as int, i as int, j as int)) by (nonlinear_arith)
                    requires
                        err0 == dx * (j0 + 1) - dy * (i0 + 1),
                        err == err0 - dy * a + dx * c,
                        i == i0 + a,
                        j == j0 + c,
                ;
            }
            proof {
                assert(sx * ni == (if sx == 1 { ni } else { -ni })) by (nonlinear_arith)
                    requires
                        sx == 1 || sx == -1,
                ;
                assert(sy * nj == (if sy == 1 { nj } else { -nj })) by (nonlinear_arith)
                    requires
                        sy == 1 || sy == -1,
                ;
            }
            if !(x == x1 && y == y1) {
                proof {
                    assert(0 <= x < self.width && 0 <= y < self.height);
                    assert(y * self.width + x < self.width * self.height) by (nonlinear_arith)
                        requires
                            0 <= x < self.width,
                            0 <= y < self.height,
                    ;
                    assert(y * self.width <= y * self.width + x);
                }
                let at = (y as usize) * (self.width as usize) + (x as usize);
                if self.cells[at] == TerrainCell::Wall {
                    return false;
                }
            }
        }
        true
    }
}

} // verus!
