//! The movement step of a tick: each ready unit's next step toward its goal (a local detour
//! step, or the descent of the distance field), then the steps tried in rank order, each onto a
//! free cell, by displacing a friendly unit, or refused.
use vstd::prelude::*;
use crate::types::{BirthCommandId, CommandId, Direction, EntityId, Tick, Tile};
use crate::fields::{
    best_descent, detour_after_step, detour_result, dir_at, dir_count, dir_count_exec, dir_dx, dir_dy,
    entity_rank, fail_recorded, field_of, is_seed, rank_words, spec_hash, steps_to, walk_field, walk_seed,
    walk_step, FieldCache, Holder, MoveState, Neighbors, StepGrid, Walk, UNREACHABLE,
};

verus! {

/// Two grids with the same terrain, size and cells held by structures and sites: they differ at
/// most in which cells units stand on.
pub open spec fn same_ground(a: StepGrid, b: StepGrid) -> bool {
    &&& a.width == b.width
    &&& a.height == b.height
    &&& a.cells@ == b.cells@
    &&& a.holders@.len() == b.holders@.len()
    &&& forall|i: int| 0 <= i < a.holders@.len() ==>
        ((#[trigger] a.holders@[i] == Holder::Reserved) <==> b.holders@[i] == Holder::Reserved)
        && (a.holders@[i] == Holder::Fixed <==> b.holders@[i] == Holder::Fixed)
}

/// Units do not block legal steps, so distance fields only see the ground.
pub proof fn lemma_fields_see_ground(a: StepGrid, b: StepGrid)
    requires
        a.wf(),
        same_ground(a, b),
    ensures
        forall|goal: Tile, n: Neighbors, f: Seq<u16>| field_of(a, goal, n, f) == field_of(b, goal, n, f),
        forall|c: FieldCache, v: u32| c.holds_fields_of(a, v) == c.holds_fields_of(b, v),
{
    assert forall|t: Tile| a.spec_traversable(t) == b.spec_traversable(t) by {
        if a.contains(t) {
            crate::fields::lemma_index_bound(a, t);
        }
    }
    assert forall|p: Tile, dx: int, dy: int, n: Neighbors| a.spec_step_legal(p, dx, dy, n) == b.spec_step_legal(p, dx, dy, n) by {
    }
    assert forall|n: Neighbors, p: Tile, t: Tile| steps_to(a, n, p, t) == steps_to(b, n, p, t) by {
        if steps_to(a, n, p, t) {
            let k = choose|k: int| 0 <= k < dir_count(n) && #[trigger] a.spec_step_legal(p, dir_dx(k), dir_dy(k), n) == Some(t);
            assert(b.spec_step_legal(p, dir_dx(k), dir_dy(k), n) == Some(t));
        }
        if steps_to(b, n, p, t) {
            let k = choose|k: int| 0 <= k < dir_count(n) && #[trigger] b.spec_step_legal(p, dir_dx(k), dir_dy(k), n) == Some(t);
            assert(a.spec_step_legal(p, dir_dx(k), dir_dy(k), n) == Some(t));
        }
    }
    assert forall|goal: Tile, n: Neighbors, t: Tile| is_seed(a, goal, n, t) == is_seed(b, goal, n, t) by {
        if !a.spec_traversable(goal) {
            if is_seed(a, goal, n, t) {
                let k = choose|k: int| 0 <= k < dir_count(n) && #[trigger] a.spec_offset(goal, dir_dx(k), dir_dy(k)) == Some(t)
                    && a.spec_traversable(t) && (k < 4 || a.spec_step_legal(t, -dir_dx(k), -dir_dy(k), n) is Some);
                assert(b.spec_offset(goal, dir_dx(k), dir_dy(k)) == Some(t));
            }
            if is_seed(b, goal, n, t) {
                let k = choose|k: int| 0 <= k < dir_count(n) && #[trigger] b.spec_offset(goal, dir_dx(k), dir_dy(k)) == Some(t)
                    && b.spec_traversable(t) && (k < 4 || b.spec_step_legal(t, -dir_dx(k), -dir_dy(k), n) is Some);
                assert(a.spec_offset(goal, dir_dx(k), dir_dy(k)) == Some(t));
            }
        }
    }
    assert forall|goal: Tile, n: Neighbors, p: Tile, t: Tile|
        walk_step(a, n, Walk::Toward { goal }, p, t) == walk_step(b, n, Walk::Toward { goal }, p, t) by {
    }
    assert forall|goal: Tile, n: Neighbors, t: Tile|
        walk_seed(a, n, Walk::Toward { goal }, t) == walk_seed(b, n, Walk::Toward { goal }, t) by {
    }
    assert forall|goal: Tile, n: Neighbors, f: Seq<u16>| field_of(a, goal, n, f) == field_of(b, goal, n, f) by {
        let w = Walk::Toward { goal };
        if walk_field(a, n, w, f) {
            lemma_walk_field_transfer(a, b, n, w, f);
        }
        if walk_field(b, n, w, f) {
            lemma_walk_field_transfer(b, a, n, w, f);
        }
    }
    assert forall|c: FieldCache, v: u32| c.holds_fields_of(a, v) == c.holds_fields_of(b, v) by {
        assert forall|goal: Tile, n: Neighbors| crate::fields::field_key(a, goal, n) == crate::fields::field_key(b, goal, n) by {
        }
    }
}

proof fn lemma_walk_field_transfer(a: StepGrid, b: StepGrid, n: Neighbors, w: Walk, f: Seq<u16>)
    requires
        walk_field(a, n, w, f),
        a.width == b.width,
        a.height == b.height,
        a.cells@.len() == b.cells@.len(),
        forall|t: Tile| walk_seed(a, n, w, t) == walk_seed(b, n, w, t),
        forall|p: Tile, t: Tile| walk_step(a, n, w, p, t) == walk_step(b, n, w, p, t),
    ensures
        walk_field(b, n, w, f),
{
    assert forall|t: Tile| #![trigger b.index(t)] b.contains(t) implies (f[b.index(t)] == 0 <==> walk_seed(b, n, w, t)) by {
        assert(a.index(t) == b.index(t));
    }
    assert forall|t: Tile| #![trigger b.index(t)] b.contains(t) && 0 < f[b.index(t)] < crate::fields::UNREACHABLE implies
        exists|p: Tile| #[trigger] walk_step(b, n, w, p, t) && b.contains(p) && f[b.index(p)] + 1 == f[b.index(t)] by {
        assert(a.index(t) == b.index(t));
        let p = choose|p: Tile| #[trigger] walk_step(a, n, w, p, t) && a.contains(p) && f[a.index(p)] + 1 == f[a.index(t)];
        assert(a.index(p) == b.index(p));
        assert(walk_step(b, n, w, p, t));
    }
    assert forall|p: Tile, t: Tile| #[trigger] walk_step(b, n, w, p, t) && b.contains(p) && f[b.index(p)] < crate::fields::UNREACHABLE - 1 implies
        f[b.index(t)] <= f[b.index(p)] + 1 by {
        assert(a.index(t) == b.index(t));
        assert(a.index(p) == b.index(p));
        assert(walk_step(a, n, w, p, t));
    }
}

// ---- units and intents -------------------------------------------------------------------------

/// How a unit moves: its neighbor rule and the ticks between steps.
#[derive(Debug, Clone, Copy, PartialEq, Eq, Structural)]
pub struct Movement {
    pub neighbors: Neighbors,
    pub cooldown: Tick,
}

/// A unit standing on the map (structures hold their cells in the grid instead).
#[derive(Debug, Clone, PartialEq, Eq)]
pub struct Mover {
    pub id: EntityId,
    pub team: u8,
    pub complete: bool,
    pub movement: Option<Movement>,
    pub born_at_tick: Option<Tick>,
    pub acted: bool,
    pub goal_settled: bool,
    pub state: MoveState,
}

/// What a unit wants this tick: to hold still, or a goal to walk to.
#[derive(Debug, Clone, Copy, PartialEq, Eq, Structural)]
pub struct Intent {
    pub hold: bool,
    pub goal: Option<Tile>,
}

/// A step a unit asks for, with the rank that orders it.
#[derive(Debug, Clone, Copy, PartialEq, Eq, Structural)]
pub struct Plan {
    pub rank: u64,
    pub mover: usize,
    pub to: Tile,
    pub dir: Direction,
}

/// What came of a step asked for.
#[derive(Debug, Clone, Copy, PartialEq, Eq, Structural)]
pub enum MoveEvent {
    /// The unit was already moved this tick.
    Skipped { mover: usize },
    /// The step was refused and recorded as a failed move.
    Refused { mover: usize, to: Tile },
    /// The way is held by a settled ally with the same goal: the unit settles behind it.
    Waited { mover: usize },
    /// The unit stepped onto a free cell.
    Stepped { mover: usize, from: Tile, to: Tile },
    /// The unit stepped onto a friendly unit's cell and that unit stepped aside to `blocker_to`.
    Displaced { mover: usize, from: Tile, to: Tile, blocker: usize, blocker_to: Tile },
}

/// Every unit stands on its own cell, marked as held by a unit, and every cell so marked holds one.
pub open spec fn movers_placed(g: StepGrid, movers: Seq<Mover>) -> bool {
    &&& forall|i: int| 0 <= i < movers.len() ==> g.contains(#[trigger] movers[i].state.tile)
        && g.holders@[g.index(movers[i].state.tile)] == Holder::Mobile
    &&& forall|i: int, j: int| 0 <= i < movers.len() && 0 <= j < movers.len() && i != j
        ==> #[trigger] movers[i].state.tile != #[trigger] movers[j].state.tile
    &&& forall|t: Tile| g.contains(t) && #[trigger] g.holders@[g.index(t)] == Holder::Mobile
        ==> exists|i: int| 0 <= i < movers.len() && #[trigger] movers[i].state.tile == t
}

/// Units' destinations lie on the map.
pub open spec fn destinations_inside(g: StepGrid, movers: Seq<Mover>) -> bool {
    forall|i: int| 0 <= i < movers.len() ==> (#[trigger] movers[i].state.resolved_destination matches Some(d) ==> g.contains(d))
}

/// Unit `o` stands on `t`.
pub open spec fn stands_at(movers: Seq<Mover>, o: int, t: Tile) -> bool {
    0 <= o < movers.len() && movers[o].state.tile == t
}

/// Teams decide hostility.
pub open spec fn hostile(a: Mover, b: Mover) -> bool {
    a.team != b.team
}

/// Born this tick or later.
pub open spec fn newborn(m: Mover, tick: Tick) -> bool {
    m.born_at_tick matches Some(b) && b >= tick
}

/// `t` holds a mobile unit of `team` settled at destination `dest`.
pub open spec fn settled_ally_at(movers: Seq<Mover>, t: Tile, team: u8, dest: Option<Tile>) -> bool {
    exists|o: int| #[trigger] stands_at(movers, o, t) && movers[o].goal_settled && movers[o].movement is Some
        && movers[o].team == team && movers[o].state.resolved_destination == dest
}

/// `t` is free of units, or holds a complete mobile ally of `i` that is not settled at `i`'s
/// destination: a cell `i` could go on into.
pub open spec fn open_to(movers: Seq<Mover>, t: Tile, team: u8, dest: Option<Tile>) -> bool {
    ||| forall|o: int| !#[trigger] stands_at(movers, o, t)
    ||| (exists|o: int| #[trigger] stands_at(movers, o, t) && movers[o].complete && movers[o].movement is Some
        && movers[o].team == team) && !settled_ally_at(movers, t, team, dest)
}

/// The step `descend` takes from `from` on `f`.
pub open spec fn descends_to(g: StepGrid, f: Seq<u16>, from: Tile, n: Neighbors, t: Tile) -> bool {
    f[g.index(from)] != UNREACHABLE && exists|k: int| best_descent(g, f, from, n, f[g.index(from)] as int, k) && #[trigger] g.spec_step_legal(from, dir_dx(k), dir_dy(k), n) == Some(t)
}

/// After stepping onto `to`, unit `i` could go on down its field into an open cell.
pub open spec fn transits(g: StepGrid, movers: Seq<Mover>, i: int, to: Tile) -> bool {
    match (movers[i].state.resolved_destination, movers[i].movement) {
        (Some(goal), Some(m)) => exists|f: Seq<u16>, nt: Tile| field_of(g, goal, m.neighbors, f) && #[trigger] descends_to(g, f, to, m.neighbors, nt)
            && open_to(movers, nt, movers[i].team, movers[i].state.resolved_destination),
        _ => false,
    }
}

/// The facing of a step by `(dx, dy)`: the direction with those signs, north when there is none.
pub open spec fn facing(dx: int, dy: int) -> Direction {
    let sx = if dx > 0 { 1int } else if dx < 0 { -1int } else { 0int };
    let sy = if dy > 0 { 1int } else if dy < 0 { -1int } else { 0int };
    if sx == 0 && sy == -1 { Direction::N }
    else if sx == 1 && sy == 0 { Direction::E }
    else if sx == 0 && sy == 1 { Direction::S }
    else if sx == -1 && sy == 0 { Direction::W }
    else if sx == 1 && sy == -1 { Direction::Ne }
    else if sx == 1 && sy == 1 { Direction::Se }
    else if sx == -1 && sy == 1 { Direction::Sw }
    else if sx == -1 && sy == -1 { Direction::Nw }
    else { Direction::N }
}

pub fn direction_of(dx: i32, dy: i32) -> (d: Direction)
    ensures
        d == facing(dx as int, dy as int),
{
    let sx: i32 = if dx > 0 { 1 } else if dx < 0 { -1 } else { 0 };
    let sy: i32 = if dy > 0 { 1 } else if dy < 0 { -1 } else { 0 };
    if sx == 0 && sy == -1 { Direction::N }
    else if sx == 1 && sy == 0 { Direction::E }
    else if sx == 0 && sy == 1 { Direction::S }
    else if sx == -1 && sy == 0 { Direction::W }
    else if sx == 1 && sy == -1 { Direction::Ne }
    else if sx == 1 && sy == 1 { Direction::Se }
    else if sx == -1 && sy == 1 { Direction::Sw }
    else if sx == -1 && sy == -1 { Direction::Nw }
    else { Direction::N }
}

/// The unit standing on `t`, if any.
fn unit_at(movers: &Vec<Mover>, t: Tile) -> (r: Option<usize>)
    ensures
        r matches Some(o) ==> stands_at(movers@, o as int, t),
        r is None ==> forall|o: int| !#[trigger] stands_at(movers@, o, t),
{
    let mut i: usize = 0;
    while i < movers.len()
        invariant
            0 <= i <= movers@.len(),
            forall|o: int| 0 <= o < i ==> !#[trigger] stands_at(movers@, o, t),
        decreases movers.len() - i,
    {
        if movers[i].state.tile == t {
            return Some(i);
        }
        i += 1;
    }
    None
}

fn settled_ally_exec(movers: &Vec<Mover>, t: Tile, team: u8, dest: Option<Tile>) -> (r: bool)
    requires
        forall|a: int, b: int| 0 <= a < movers@.len() && 0 <= b < movers@.len() && a != b
            ==> #[trigger] movers@[a].state.tile != #[trigger] movers@[b].state.tile,
    ensures
        r == settled_ally_at(movers@, t, team, dest),
{
    match unit_at(movers, t) {
        None => false,
        Some(o) => {
            let b = &movers[o];
            let r = b.goal_settled && b.movement.is_some() && b.team == team
                && b.state.resolved_destination == dest;
            proof {
                assert forall|p: int| #[trigger] stands_at(movers@, p, t) implies p == o by {
                    if p != o {
                        assert(movers@[p].state.tile != movers@[o as int].state.tile);
                    }
                }
            }
            r
        },
    }
}

fn open_to_exec(movers: &Vec<Mover>, t: Tile, team: u8, dest: Option<Tile>) -> (r: bool)
    requires
        forall|a: int, b: int| 0 <= a < movers@.len() && 0 <= b < movers@.len() && a != b
            ==> #[trigger] movers@[a].state.tile != #[trigger] movers@[b].state.tile,
    ensures
        r == open_to(movers@, t, team, dest),
{
    match unit_at(movers, t) {
        None => true,
        Some(o) => {
            proof {
                assert forall|p: int| #[trigger] stands_at(movers@, p, t) implies p == o by {
                    if p != o {
                        assert(movers@[p].state.tile != movers@[o as int].state.tile);
                    }
                }
            }
            let b = &movers[o];
            b.complete && b.movement.is_some() && b.team == team && !settled_ally_exec(movers, t, team, dest)
        },
    }
}

proof fn lemma_best_descent_unique(g: StepGrid, f: Seq<u16>, from: Tile, n: Neighbors, here: int, a: int, b: int)
    requires
        best_descent(g, f, from, n, here, a),
        best_descent(g, f, from, n, here, b),
    ensures
        a == b,
{
}

/// Whether unit `i`, on `to`, could go on down its field into an open cell.
fn transits_exec(g: &StepGrid, cache: &mut FieldCache, version: u32, movers: &Vec<Mover>, i: usize, to: Tile) -> (r: bool)
    requires
        g.wf(),
        g.contains(to),
        i < movers@.len(),
        destinations_inside(*g, movers@),
        forall|a: int, b: int| 0 <= a < movers@.len() && 0 <= b < movers@.len() && a != b
            ==> #[trigger] movers@[a].state.tile != #[trigger] movers@[b].state.tile,
        old(cache).holds_fields_of(*g, version),
    ensures
        final(cache).holds_fields_of(*g, version),
        r == transits(*g, movers@, i as int, to),
{
    let goal = match movers[i].state.resolved_destination {
        None => {
            return false;
        },
        Some(goal) => goal,
    };
    let n = match movers[i].movement {
        None => {
            return false;
        },
        Some(m) => m.neighbors,
    };
    proof {
        assert(movers@[i as int].state.resolved_destination matches Some(d) ==> g.contains(d));
    }
    let field = cache.field(g, version, goal, n);
    proof {
        assert(field@.len() == g.cells@.len());
    }
    let r = match g.descend(&field, to, n) {
        None => {
            proof {
                assert forall|f: Seq<u16>, nt: Tile| field_of(*g, goal, n, f) implies !#[trigger] descends_to(*g, f, to, n, nt) by {
                    crate::fields::law_field_is_unique(*g, goal, n, f, field@);
                    if descends_to(*g, f, to, n, nt) {
                        let k = choose|k: int| best_descent(*g, f, to, n, f[g.index(to)] as int, k) && #[trigger] g.spec_step_legal(to, dir_dx(k), dir_dy(k), n) == Some(nt);
                        assert(crate::fields::step_value(*g, f, to, n, k) < f[g.index(to)]);
                    }
                }
            }
            false
        },
        Some((nt, _)) => {
            let r = open_to_exec(movers, nt, movers[i].team, movers[i].state.resolved_destination);
            proof {
                assert(descends_to(*g, field@, to, n, nt));
                assert forall|f: Seq<u16>, t2: Tile| field_of(*g, goal, n, f) && #[trigger] descends_to(*g, f, to, n, t2) implies t2 == nt by {
                    crate::fields::law_field_is_unique(*g, goal, n, f, field@);
                    let k1 = choose|k: int| best_descent(*g, f, to, n, f[g.index(to)] as int, k) && #[trigger] g.spec_step_legal(to, dir_dx(k), dir_dy(k), n) == Some(t2);
                    let k2 = choose|k: int| best_descent(*g, f, to, n, f[g.index(to)] as int, k) && #[trigger] g.spec_step_legal(to, dir_dx(k), dir_dy(k), n) == Some(nt);
                    lemma_best_descent_unique(*g, f, to, n, f[g.index(to)] as int, k1, k2);
                }
            }
            r
        },
    };
    r
}

// ---- gathering steps --------------------------------------------------------------------------

/// `b` is `a` with at most its destination, its detour and whether it is settled changed.
pub open spec fn same_but_route(a: Mover, b: Mover) -> bool {
    &&& b.id == a.id
    &&& b.team == a.team
    &&& b.complete == a.complete
    &&& b.movement == a.movement
    &&& b.born_at_tick == a.born_at_tick
    &&& b.acted == a.acted
    &&& b.state.tile == a.state.tile
    &&& b.state.last_move_direction == a.state.last_move_direction
    &&& b.state.next_move_tick == a.state.next_move_tick
    &&& b.state.failed_move_attempts == a.state.failed_move_attempts
    &&& b.state.blocked_step == a.state.blocked_step
}

/// A unit that looks for a step this tick: mobile, complete, not yet acting, not holding, born
/// before this tick, and with a goal.
pub open spec fn seeks_step(m: Mover, intent: Intent, tick: Tick) -> bool {
    &&& m.movement is Some
    &&& m.complete
    &&& !m.acted
    &&& !intent.hold
    &&& !newborn(m, tick)
    &&& intent.goal is Some
}

/// The first step of a kept detour is still one legal step away.
pub open spec fn detour_step_ok(g: StepGrid, m: Mover) -> bool {
    let d = m.state.local_detour@;
    let from = m.state.tile;
    d.len() > 0 && d[0] != from && -1 <= d[0].x - from.x <= 1 && -1 <= d[0].y - from.y <= 1
        && g.spec_step_legal(from, d[0].x - from.x, d[0].y - from.y, m.movement->0.neighbors) is Some
}

/// The step unit `i`, standing at `from`, asks for toward `to`, when it is ready to move.
pub open spec fn ask(m: Mover, i: int, tick: Tick, seed: u64, to: Tile) -> Option<Plan> {
    if m.state.next_move_tick <= tick {
        Some(Plan {
            rank: spec_hash(seed, tick as u64, rank_words(m.id).0, rank_words(m.id).1),
            mover: i as usize,
            to,
            dir: facing(to.x - m.state.tile.x, to.y - m.state.tile.y),
        })
    } else {
        None
    }
}

/// How the field toward `goal` decides unit `m` (index `i` among `ms`, its detour dropped):
/// `f` is the field, `m2` what the unit becomes and `plan` the step it asks for. At the goal it
/// settles; when the way down is held by a settled ally with the same goal it settles behind it
/// (a settled unit looks again only every eighth tick) unless a local detour exists, which it
/// takes; otherwise it is unsettled and asks for the step down.
pub open spec fn by_field(g: StepGrid, f: Seq<u16>, ms: Seq<Mover>, m: Mover, i: int, goal: Tile, tick: Tick, seed: u64, m2: Mover, plan: Option<Plan>) -> bool {
    &&& same_but_route(m, m2)
    &&& m2.state.resolved_destination == Some(goal)
    &&& field_choice(g, f, ms, m, i, goal, tick, seed, m2.goal_settled, m2.state.local_detour@, plan)
}

/// The field's decision for unit `m`: whether it ends settled, its new detour and its step.
pub open spec fn field_choice(g: StepGrid, f: Seq<u16>, ms: Seq<Mover>, m: Mover, i: int, goal: Tile, tick: Tick, seed: u64,
    settled: bool, detour: Seq<Tile>, plan: Option<Plan>) -> bool {
    let n = m.movement->0.neighbors;
    let from = m.state.tile;
    if f[g.index(from)] == 0 {
        settled && detour.len() == 0 && plan is None
    } else if exists|to: Tile| #[trigger] descends_to(g, f, from, n, to) && settled_ally_at(ms, to, m.team, Some(goal)) {
        if m.goal_settled && (tick + i) % 8 != 0 {
            settled == m.goal_settled && detour.len() == 0 && plan is None
        } else {
            exists|d: Seq<Tile>| detour_result(g, n, f, from, d) && if d.len() == 0 {
                settled && detour.len() == 0 && plan is None
            } else {
                settled == m.goal_settled && detour == d && plan == ask(m, i, tick, seed, d[0])
            }
        }
    } else {
        &&& !settled
        &&& detour.len() == 0
        &&& forall|to: Tile| #[trigger] descends_to(g, f, from, n, to) ==> plan == ask(m, i, tick, seed, to)
        &&& (forall|to: Tile| !#[trigger] descends_to(g, f, from, n, to)) ==> plan is None
    }
}

/// Unit `i` of `ms` with intent `intent` becomes `m2` and asks for `plan`: a unit that seeks a
/// step takes its goal as destination; it keeps a detour whose next step is still legal and asks
/// for that step; otherwise it drops the detour and goes by the field toward its goal.
pub open spec fn gather_one(g: StepGrid, ms: Seq<Mover>, i: int, intent: Intent, tick: Tick, seed: u64, m2: Mover, plan: Option<Plan>) -> bool {
    let m = ms[i];
    if !seeks_step(m, intent, tick) {
        m2 == m && plan is None
    } else if detour_step_ok(g, m) {
        &&& same_but_route(m, m2)
        &&& m2.goal_settled == m.goal_settled
        &&& m2.state.local_detour == m.state.local_detour
        &&& m2.state.resolved_destination == intent.goal
        &&& plan == ask(m, i, tick, seed, m.state.local_detour@[0])
    } else {
        exists|f: Seq<u16>| field_of(g, intent.goal->0, m.movement->0.neighbors, f)
            && by_field(g, f, ms, m, i, intent.goal->0, tick, seed, m2, plan)
    }
}

/// The steps gathered from the first `k` units: `st[j]` holds the units and the steps asked for
/// after the first `j`, each unit deciding in turn.
pub open spec fn gather_trace(g: StepGrid, intents: Seq<Intent>, tick: Tick, seed: u64, st: Seq<(Seq<Mover>, Seq<Plan>)>) -> bool {
    forall|j: int| 0 <= j < st.len() - 1 ==> #[trigger] gather_link(g, intents, tick, seed, st[j], st[j + 1], j)
}

/// Unit `j` turns the units and steps `a` into `b`.
pub open spec fn gather_link(g: StepGrid, intents: Seq<Intent>, tick: Tick, seed: u64, a: (Seq<Mover>, Seq<Plan>), b: (Seq<Mover>, Seq<Plan>), j: int) -> bool {
    exists|m2: Mover, plan: Option<Plan>| gather_one(g, a.0, j, intents[j], tick, seed, m2, plan)
        && b.0 == a.0.update(j, m2)
        && b.1 == (match plan { Some(p) => a.1.push(p), None => a.1 })
}

/// Goals lie on the map.
pub open spec fn goals_inside(g: StepGrid, intents: Seq<Intent>) -> bool {
    forall|i: int| 0 <= i < intents.len() ==> (#[trigger] intents[i].goal matches Some(t) ==> g.contains(t))
}

fn placeholder() -> (m: Mover) {
    Mover {
        id: EntityId {
            birth_command: BirthCommandId { command: CommandId { round: 0, player: 0, index: 0 }, target_index: 0 },
            item_index: 0,
            occurrence: 0,
        },
        team: 0,
        complete: false,
        movement: None,
        born_at_tick: None,
        acted: false,
        goal_settled: false,
        state: MoveState {
            tile: Tile { x: 0, y: 0 },
            last_move_direction: Direction::N,
            next_move_tick: 0,
            failed_move_attempts: 0,
            blocked_step: None,
            resolved_destination: None,
            local_detour: Vec::new(),
        },
    }
}

/// Takes unit `i` out, leaving a stand-in until it is put back with `set`.
fn take(movers: &mut Vec<Mover>, i: usize) -> (m: Mover)
    requires
        i < old(movers)@.len(),
    ensures
        m == old(movers)@[i as int],
        final(movers)@.len() == old(movers)@.len(),
        forall|j: int| 0 <= j < old(movers)@.len() && j != i ==> final(movers)@[j] == old(movers)@[j],
{
    let mut m = placeholder();
    movers.set_and_swap(i, &mut m);
    m
}

proof fn lemma_put_back(before: Seq<Mover>, mid: Seq<Mover>, after: Seq<Mover>, i: int, m: Mover)
    requires
        0 <= i < before.len(),
        mid.len() == before.len(),
        forall|j: int| 0 <= j < before.len() && j != i ==> mid[j] == before[j],
        after == mid.update(i, m),
    ensures
        after == before.update(i, m),
{
    assert(after =~= before.update(i, m));
}

/// The field's decision for unit `i` (see `field_choice`).
#[verifier::spinoff_prover]
fn decide_by_field(grid: &StepGrid, field: &Vec<u16>, movers: &Vec<Mover>, i: usize, goal: Tile, tick: Tick, seed: u64, rank: u64, ready: bool)
    -> (r: (bool, Vec<Tile>, Option<Plan>))
    requires
        grid.wf(),
        i < movers@.len(),
        movers_placed(*grid, movers@),
        movers@[i as int].movement is Some,
        field_of(*grid, goal, movers@[i as int].movement->0.neighbors, field@),
        rank == spec_hash(seed, tick as u64, rank_words(movers@[i as int].id).0, rank_words(movers@[i as int].id).1),
        ready == (movers@[i as int].state.next_move_tick <= tick),
    ensures
        field_choice(*grid, field@, movers@, movers@[i as int], i as int, goal, tick, seed, r.0, r.1@, r.2),
        r.2 matches Some(p) ==> grid.contains(p.to) && p.to != movers@[i as int].state.tile
            && -1 <= p.to.x - movers@[i as int].state.tile.x <= 1 && -1 <= p.to.y - movers@[i as int].state.tile.y <= 1,
{
    let n = match movers[i].movement { Some(mv) => mv.neighbors, None => Neighbors::Four };
    let from = movers[i].state.tile;
    let team = movers[i].team;
    proof {
        assert(grid.contains(from));
        assert(field@.len() == grid.cells@.len());
    }
    let here = field[grid.idx(from)];
    // What the unit becomes: whether it is settled, its new detour, and its step.
    let mut settled = movers[i].goal_settled;
    let mut detour: Vec<Tile> = Vec::new();
    let mut plan: Option<Plan> = None;
    if here == 0 {
        settled = true;
    } else {
        match grid.descend(&field, from, n) {
            Some((to, _)) => {
                proof {
                    assert(descends_to(*grid, field@, from, n, to));
                    assert forall|t2: Tile| #[trigger] descends_to(*grid, field@, from, n, t2) implies t2 == to by {
                        let k1 = choose|k: int| best_descent(*grid, field@, from, n, field@[grid.index(from)] as int, k) && #[trigger] grid.spec_step_legal(from, dir_dx(k), dir_dy(k), n) == Some(t2);
                        let k2 = choose|k: int| best_descent(*grid, field@, from, n, field@[grid.index(from)] as int, k) && #[trigger] grid.spec_step_legal(from, dir_dx(k), dir_dy(k), n) == Some(to);
                        lemma_best_descent_unique(*grid, field@, from, n, field@[grid.index(from)] as int, k1, k2);
                    }
                }
                if settled_ally_exec(movers, to, team, Some(goal)) {
                    proof {
                        vstd::arithmetic::div_mod::lemma_add_mod_noop(tick as int, i as int, 8);
                    }
                    if movers[i].goal_settled && ((tick % 8) as usize + i % 8) % 8 != 0 {
                    } else {
                        let d = grid.local_detour(&field, from, n);
                        if d.len() == 0 {
                            settled = true;
                        } else {
                            proof {
                                assert(walk_step(*grid, n, Walk::Around { from }, from, d@[0]));
                                let k = choose|k: int| 0 <= k < dir_count(n) && #[trigger] grid.spec_step_legal(from, dir_dx(k), dir_dy(k), n) == Some(d@[0]);
                            }
                            if ready {
                                let dx = d[0].x as i32 - from.x as i32;
                                let dy = d[0].y as i32 - from.y as i32;
                                plan = Some(Plan { rank, mover: i, to: d[0], dir: direction_of(dx, dy) });
                            }
                            detour = d;
                        }
                    }
                } else {
                    settled = false;
                    if ready {
                        let dx = to.x as i32 - from.x as i32;
                        let dy = to.y as i32 - from.y as i32;
                        plan = Some(Plan { rank, mover: i, to, dir: direction_of(dx, dy) });
                    }
                }
            },
            None => {
                settled = false;
                proof {
                    assert forall|t2: Tile| !#[trigger] descends_to(*grid, field@, from, n, t2) by {
                        if descends_to(*grid, field@, from, n, t2) {
                            let k = choose|k: int| best_descent(*grid, field@, from, n, field@[grid.index(from)] as int, k) && #[trigger] grid.spec_step_legal(from, dir_dx(k), dir_dy(k), n) == Some(t2);
                            assert(crate::fields::step_value(*grid, field@, from, n, k) < field@[grid.index(from)]);
                        }
                    }
                }
            },
        }
    }
    (settled, detour, plan)
}

/// Unit `i` decides its step for this tick (see `gather_one`).
#[verifier::spinoff_prover]
fn gather_unit(grid: &StepGrid, cache: &mut FieldCache, version: u32, movers: &mut Vec<Mover>, i: usize, intent: Intent, tick: Tick, seed: u64) -> (plan: Option<Plan>)
    requires
        grid.wf(),
        i < old(movers)@.len(),
        movers_placed(*grid, old(movers)@),
        intent.goal matches Some(t) ==> grid.contains(t),
        old(cache).holds_fields_of(*grid, version),
    ensures
        final(cache).holds_fields_of(*grid, version),
        exists|m2: Mover| gather_one(*grid, old(movers)@, i as int, intent, tick, seed, m2, plan)
            && final(movers)@ == old(movers)@.update(i as int, m2),
        final(movers)@.len() == old(movers)@.len(),
        same_but_route(old(movers)@[i as int], final(movers)@[i as int]),
        plan matches Some(p) ==> p.mover == i && grid.contains(p.to) && old(movers)@[i as int].movement is Some
            && p.to != old(movers)@[i as int].state.tile
            && -1 <= p.to.x - old(movers)@[i as int].state.tile.x <= 1 && -1 <= p.to.y - old(movers)@[i as int].state.tile.y <= 1,
        final(movers)@[i as int].state.resolved_destination == old(movers)@[i as int].state.resolved_destination
            || final(movers)@[i as int].state.resolved_destination == intent.goal,
{
    let ghost ms = movers@;
    let mv = match movers[i].movement {
        None => {
            proof { assert(movers@ == ms.update(i as int, ms[i as int])); }
            return None;
        },
        Some(mv) => mv,
    };
    let goal = match intent.goal {
        None => {
            proof { assert(movers@ == ms.update(i as int, ms[i as int])); }
            return None;
        },
        Some(goal) => goal,
    };
    let newborn_now = match movers[i].born_at_tick {
        Some(b) => b >= tick,
        None => false,
    };
    if !movers[i].complete || movers[i].acted || intent.hold || newborn_now {
        proof { assert(movers@ == ms.update(i as int, ms[i as int])); }
        return None;
    }
    let n = mv.neighbors;
    let from = movers[i].state.tile;
    let team = movers[i].team;
    let ready = movers[i].state.next_move_tick <= tick;
    let rank = entity_rank(seed, tick, &movers[i].id);
    proof {
        assert(grid.contains(from));
    }
    if movers[i].state.local_detour.len() > 0 {
        let next = movers[i].state.local_detour[0];
        let dx = next.x as i32 - from.x as i32;
        let dy = next.y as i32 - from.y as i32;
        if next != from && -1 <= dx && dx <= 1 && -1 <= dy && dy <= 1 && grid.step_legal(from, dx, dy, n).is_some() {
            let plan = if ready { Some(Plan { rank, mover: i, to: next, dir: direction_of(dx, dy) }) } else { None };
            let mut m = take(movers, i);
            let ghost mid = movers@;
            m.state.resolved_destination = Some(goal);
            movers.set(i, m);
            proof {
                lemma_put_back(ms, mid, movers@, i as int, m);
                assert(detour_step_ok(*grid, ms[i as int]));
                assert(gather_one(*grid, ms, i as int, intent, tick, seed, m, plan));
            }
            return plan;
        }
    }
    proof {
        assert(!detour_step_ok(*grid, ms[i as int]));
    }
    let field = cache.field(grid, version, goal, n);
    let (settled, detour, plan) = decide_by_field(grid, &field, movers, i, goal, tick, seed, rank, ready);
    let mut m = take(movers, i);
    let ghost mid = movers@;
    m.state.resolved_destination = Some(goal);
    m.state.local_detour = detour;
    m.goal_settled = settled;
    movers.set(i, m);
    proof {
        lemma_put_back(ms, mid, movers@, i as int, m);
        assert(field_choice(*grid, field@, ms, ms[i as int], i as int, goal, tick, seed, m.goal_settled, m.state.local_detour@, plan));
        assert(by_field(*grid, field@, ms, ms[i as int], i as int, goal, tick, seed, m, plan));
        assert(gather_one(*grid, ms, i as int, intent, tick, seed, m, plan));
    }
    plan
}

/// How many units decide a step: those with an intent.
pub open spec fn deciding(movers: Seq<Mover>, intents: Seq<Intent>) -> int {
    if intents.len() < movers.len() { intents.len() as int } else { movers.len() as int }
}

/// `ms1` and `plans` are what the units of `ms0` become and ask for, deciding in index order.
pub open spec fn gathered(g: StepGrid, ms0: Seq<Mover>, intents: Seq<Intent>, tick: Tick, seed: u64, ms1: Seq<Mover>, plans: Seq<Plan>) -> bool {
    exists|st: Seq<(Seq<Mover>, Seq<Plan>)>| st.len() == deciding(ms0, intents) + 1
        && st[0] == (ms0, Seq::<Plan>::empty())
        && st[deciding(ms0, intents)] == (ms1, plans)
        && gather_trace(g, intents, tick, seed, st)
}

proof fn lemma_route_keeps_placed(g: StepGrid, ms: Seq<Mover>, i: int, m2: Mover)
    requires
        movers_placed(g, ms),
        0 <= i < ms.len(),
        m2.state.tile == ms[i].state.tile,
    ensures
        movers_placed(g, ms.update(i, m2)),
{
    let ms2 = ms.update(i, m2);
    assert forall|t: Tile| g.contains(t) && #[trigger] g.holders@[g.index(t)] == Holder::Mobile
        implies exists|j: int| 0 <= j < ms2.len() && #[trigger] ms2[j].state.tile == t by {
        let j = choose|j: int| 0 <= j < ms.len() && #[trigger] ms[j].state.tile == t;
        assert(ms2[j].state.tile == t);
    }
}

/// Each unit with an intent decides its step, in index order.
fn gather_steps(grid: &StepGrid, cache: &mut FieldCache, version: u32, movers: &mut Vec<Mover>, intents: &Vec<Intent>, tick: Tick, seed: u64) -> (plans: Vec<Plan>)
    requires
        grid.wf(),
        movers_placed(*grid, old(movers)@),
        destinations_inside(*grid, old(movers)@),
        goals_inside(*grid, intents@),
        old(cache).holds_fields_of(*grid, version),
    ensures
        final(cache).holds_fields_of(*grid, version),
        gathered(*grid, old(movers)@, intents@, tick, seed, final(movers)@, plans@),
        movers_placed(*grid, final(movers)@),
        destinations_inside(*grid, final(movers)@),
        final(movers)@.len() == old(movers)@.len(),
        forall|j: int| 0 <= j < old(movers)@.len() ==> same_but_route(#[trigger] old(movers)@[j], final(movers)@[j]),
        forall|a: int, b: int| 0 <= a < b < plans@.len() ==> (#[trigger] plans@[a]).mover < (#[trigger] plans@[b]).mover,
        forall|a: int| 0 <= a < plans@.len() ==> (#[trigger] plans@[a]).mover < old(movers)@.len()
            && grid.contains(plans@[a].to) && final(movers)@[plans@[a].mover as int].movement is Some
            && plans@[a].to != final(movers)@[plans@[a].mover as int].state.tile
            && -1 <= plans@[a].to.x - final(movers)@[plans@[a].mover as int].state.tile.x <= 1
            && -1 <= plans@[a].to.y - final(movers)@[plans@[a].mover as int].state.tile.y <= 1,
{
    let ghost ms0 = movers@;
    let count = if intents.len() < movers.len() { intents.len() } else { movers.len() };
    let mut plans: Vec<Plan> = Vec::new();
    let ghost mut st: Seq<(Seq<Mover>, Seq<Plan>)> = seq![(movers@, plans@)];
    let mut i: usize = 0;
    while i < count
        invariant
            grid.wf(),
            count == deciding(ms0, intents@),
            count <= intents@.len(),
            movers@.len() == ms0.len(),
            0 <= i <= count,
            movers_placed(*grid, movers@),
            destinations_inside(*grid, movers@),
            goals_inside(*grid, intents@),
            cache.holds_fields_of(*grid, version),
            st.len() == i + 1,
            st[0] == (ms0, Seq::<Plan>::empty()),
            st[i as int] == (movers@, plans@),
            gather_trace(*grid, intents@, tick, seed, st),
            forall|j: int| 0 <= j < ms0.len() ==> same_but_route(#[trigger] ms0[j], movers@[j]),
            forall|a: int, b: int| 0 <= a < b < plans@.len() ==> (#[trigger] plans@[a]).mover < (#[trigger] plans@[b]).mover,
            forall|a: int| 0 <= a < plans@.len() ==> (#[trigger] plans@[a]).mover < i
                && grid.contains(plans@[a].to) && movers@[plans@[a].mover as int].movement is Some
                && plans@[a].to != movers@[plans@[a].mover as int].state.tile
                && -1 <= plans@[a].to.x - movers@[plans@[a].mover as int].state.tile.x <= 1
                && -1 <= plans@[a].to.y - movers@[plans@[a].mover as int].state.tile.y <= 1,
        decreases count - i,
    {
        let ghost ms = movers@;
        let ghost ps = plans@;
        let intent = intents[i];
        proof {
            assert(intents@[i as int].goal matches Some(t) ==> grid.contains(t));
        }
        let plan = gather_unit(grid, cache, version, movers, i, intent, tick, seed);
        match plan {
            Some(p) => plans.push(p),
            None => {},
        }
        proof {
            let ghost st2 = st.push((movers@, plans@));
            let m2 = choose|m2: Mover| gather_one(*grid, ms, i as int, intent, tick, seed, m2, plan) && movers@ == ms.update(i as int, m2);
            assert(intent == intents@[i as int]);
            assert(gather_one(*grid, (ms, ps).0, i as int, intents@[i as int], tick, seed, m2, plan));
            assert((movers@, plans@).1 == (match plan { Some(p) => (ms, ps).1.push(p), None => (ms, ps).1 }));
            assert((movers@, plans@).0 == (ms, ps).0.update(i as int, m2));
            assert(gather_link(*grid, intents@, tick, seed, (ms, ps), (movers@, plans@), i as int));
            assert forall|j: int| 0 <= j < st2.len() - 1 implies #[trigger] gather_link(*grid, intents@, tick, seed, st2[j], st2[j + 1], j) by {
                if j < i {
                    assert(st2[j] == st[j] && st2[j + 1] == st[j + 1]);
                } else {
                    assert(st2[j] == (ms, ps));
                    assert(st2[j + 1] == (movers@, plans@));
                }
            }
            st = st2;
            lemma_route_keeps_placed(*grid, ms, i as int, m2);
            assert forall|j: int| 0 <= j < ms0.len() implies same_but_route(#[trigger] ms0[j], movers@[j]) by {
                if j != i {
                    assert(movers@[j] == ms[j]);
                }
            }
            assert forall|j: int| 0 <= j < movers@.len() implies (#[trigger] movers@[j].state.resolved_destination matches Some(d) ==> grid.contains(d)) by {
                if j != i {
                    assert(movers@[j] == ms[j]);
                }
            }
        }
        i += 1;
    }
    plans
}

// ---- ordering steps ---------------------------------------------------------------------------

/// Steps are tried by rank, then by unit index.
pub open spec fn tried_before(a: Plan, b: Plan) -> bool {
    a.rank < b.rank || (a.rank == b.rank && a.mover < b.mover)
}

pub open spec fn in_rank_order(ps: Seq<Plan>) -> bool {
    forall|a: int, b: int| 0 <= a < b < ps.len() ==> tried_before(#[trigger] ps[a], #[trigger] ps[b])
}

/// The steps in the order they are tried.
fn rank_order(plans: &Vec<Plan>) -> (sorted: Vec<Plan>)
    requires
        forall|a: int, b: int| 0 <= a < b < plans@.len() ==> (#[trigger] plans@[a]).mover < (#[trigger] plans@[b]).mover,
    ensures
        in_rank_order(sorted@),
        sorted@.len() == plans@.len(),
        forall|p: Plan| sorted@.contains(p) <==> plans@.contains(p),
{
    let mut out: Vec<Plan> = Vec::new();
    let mut k: usize = 0;
    while k < plans.len()
        invariant
            0 <= k <= plans@.len(),
            forall|a: int, b: int| 0 <= a < b < plans@.len() ==> (#[trigger] plans@[a]).mover < (#[trigger] plans@[b]).mover,
            in_rank_order(out@),
            out@.len() == k,
            forall|p: Plan| out@.contains(p) <==> plans@.take(k as int).contains(p),
        decreases plans.len() - k,
    {
        let x = plans[k];
        proof {
            assert forall|j: int| 0 <= j < out@.len() implies (#[trigger] out@[j]).mover < x.mover by {
                assert(out@.contains(out@[j]));
                let q = choose|q: int| 0 <= q < k && #[trigger] plans@.take(k as int)[q] == out@[j];
                assert(plans@[q] == out@[j]);
            }
        }
        let mut p: usize = 0;
        while p < out.len() && !(x.rank < out[p].rank || (x.rank == out[p].rank && x.mover < out[p].mover))
            invariant
                0 <= p <= out@.len(),
                forall|j: int| 0 <= j < p ==> tried_before(#[trigger] out@[j], x),
                forall|j: int| 0 <= j < out@.len() ==> (#[trigger] out@[j]).mover < x.mover,
            decreases out.len() - p,
        {
            p += 1;
        }
        let ghost before = out@;
        out.insert(p, x);
        proof {
            assert(out@ == before.insert(p as int, x));
            assert forall|a: int, b: int| 0 <= a < b < out@.len() implies tried_before(#[trigger] out@[a], #[trigger] out@[b]) by {
                if p < before.len() {
                    assert(tried_before(x, before[p as int]));
                }
                if b < p {
                    assert(out@[a] == before[a] && out@[b] == before[b]);
                } else if b == p {
                    assert(out@[a] == before[a]);
                } else if a == p {
                    assert(out@[b] == before[b - 1]);
                    if b - 1 > p {
                        assert(tried_before(before[p as int], before[b - 1]));
                    }
                } else if a < p {
                    assert(out@[a] == before[a] && out@[b] == before[b - 1]);
                } else {
                    assert(out@[a] == before[a - 1] && out@[b] == before[b - 1]);
                }
            }
            assert(plans@.take(k + 1) == plans@.take(k as int).push(x));
            assert forall|q: Plan| out@.contains(q) <==> plans@.take(k + 1).contains(q) by {
                if out@.contains(q) {
                    let j = choose|j: int| 0 <= j < out@.len() && out@[j] == q;
                    if j < p {
                        assert(before[j] == q && before.contains(q));
                    } else if j > p {
                        assert(before[j - 1] == q && before.contains(q));
                    }
                    assert(plans@.take(k as int).push(x).contains(q) || q == x);
                    if q != x {
                        assert(plans@.take(k as int).contains(q));
                        let r = choose|r: int| 0 <= r < k && #[trigger] plans@.take(k as int)[r] == q;
                        assert(plans@.take(k + 1)[r] == q);
                    } else {
                        assert(plans@.take(k + 1)[k as int] == q);
                    }
                }
                if plans@.take(k + 1).contains(q) {
                    let r = choose|r: int| 0 <= r < k + 1 && #[trigger] plans@.take(k + 1)[r] == q;
                    if r == k {
                        assert(out@[p as int] == q);
                    } else {
                        assert(plans@.take(k as int)[r] == q);
                        assert(plans@.take(k as int).contains(q));
                        assert(before.contains(q));
                        let j = choose|j: int| 0 <= j < before.len() && before[j] == q;
                        if j < p {
                            assert(out@[j] == q);
                        } else {
                            assert(out@[j + 1] == q);
                        }
                    }
                }
            }
        }
        k += 1;
    }
    proof {
        assert(plans@.take(k as int) == plans@);
    }
    out
}

// ---- trying steps -----------------------------------------------------------------------------

/// Resolution so far: the grid, the units, which units have moved this tick, and the cell pairs
/// that diagonal steps have used.
pub struct Resolution {
    pub grid: StepGrid,
    pub movers: Seq<Mover>,
    pub touched: Seq<bool>,
    pub used: Seq<(Tile, Tile)>,
}

pub open spec fn resolution(grid: StepGrid, movers: Seq<Mover>, touched: Seq<bool>, used: Seq<(Tile, Tile)>) -> Resolution {
    Resolution { grid, movers, touched, used }
}

/// The two cells beside a step, the other diagonal of its square.
pub open spec fn corners(from: Tile, to: Tile) -> (Tile, Tile) {
    (Tile { x: to.x, y: from.y }, Tile { x: from.x, y: to.y })
}

pub open spec fn diagonal(from: Tile, to: Tile) -> bool {
    from.x != to.x && from.y != to.y
}

/// The unordered pair `{a, b}` is among `used`.
pub open spec fn pair_used(used: Seq<(Tile, Tile)>, a: Tile, b: Tile) -> bool {
    exists|k: int| 0 <= k < used.len() && (#[trigger] used[k] == (a, b) || used[k] == (b, a))
}

/// A diagonal step from `from` to `to` would cross a used diagonal.
pub open spec fn crosses_used(used: Seq<(Tile, Tile)>, from: Tile, to: Tile) -> bool {
    diagonal(from, to) && pair_used(used, corners(from, to).0, corners(from, to).1)
}

/// `b` is `a` with only its move state, and whether it is settled, changed.
pub open spec fn same_unit(a: Mover, b: Mover) -> bool {
    &&& b.id == a.id
    &&& b.team == a.team
    &&& b.complete == a.complete
    &&& b.movement == a.movement
    &&& b.born_at_tick == a.born_at_tick
    &&& b.acted == a.acted
}

/// Unit `m` after stepping onto `to`: facing `dir`, next move after its cooldown, failures
/// forgotten, a detour step taken dropped.
pub open spec fn after_step(m: Mover, to: Tile, dir: Direction, tick: Tick, m2: Mover) -> bool {
    &&& same_unit(m, m2)
    &&& m2.goal_settled == m.goal_settled
    &&& m2.state.tile == to
    &&& m2.state.last_move_direction == dir
    &&& m2.state.next_move_tick == tick + m.movement->0.cooldown
    &&& m2.state.failed_move_attempts == 0
    &&& m2.state.blocked_step is None
    &&& m2.state.resolved_destination == m.state.resolved_destination
    &&& m2.state.local_detour@ == detour_after_step(m.state.local_detour@, to)
}

/// Unit `b` after stepping aside onto `bt`: facing that way, its next move no earlier than its
/// cooldown from now, no longer settled, the rest kept.
pub open spec fn after_aside(b: Mover, bt: Tile, bd: Direction, tick: Tick, b2: Mover) -> bool {
    let due = tick + b.movement->0.cooldown;
    &&& same_unit(b, b2)
    &&& !b2.goal_settled
    &&& b2.state.tile == bt
    &&& b2.state.last_move_direction == bd
    &&& b2.state.next_move_tick == (if b.state.next_move_tick >= due { b.state.next_move_tick as int } else { due })
    &&& b2.state.failed_move_attempts == b.state.failed_move_attempts
    &&& b2.state.blocked_step == b.state.blocked_step
    &&& b2.state.resolved_destination == b.state.resolved_destination
    &&& b2.state.local_detour == b.state.local_detour
}

/// Only unit `i` changes, as `fail_move` records a failed step toward `to`.
pub open spec fn refused_as(tick: Tick, s: Resolution, i: int, to: Tile, s2: Resolution) -> bool {
    &&& s2.grid == s.grid
    &&& s2.touched == s.touched
    &&& s2.used == s.used
    &&& s2.movers.len() == s.movers.len()
    &&& forall|j: int| 0 <= j < s.movers.len() && j != i ==> #[trigger] s2.movers[j] == s.movers[j]
    &&& same_unit(s.movers[i], s2.movers[i])
    &&& s2.movers[i].goal_settled == s.movers[i].goal_settled
    &&& fail_recorded(s.grid, s.movers[i].movement->0.neighbors, tick, s.movers[i].state, to, s2.movers[i].state)
}

/// Unit `o` may step aside for unit `i`: complete, mobile, friendly, not yet moved this tick and
/// not born this tick.
pub open spec fn can_yield(s: Resolution, i: int, o: int, tick: Tick) -> bool {
    let b = s.movers[o];
    b.complete && b.movement is Some && !hostile(s.movers[i], b) && !s.touched[o] && !newborn(b, tick)
}

/// A cell blocker `o`, on `to`, may step aside to: one legal step, not where the mover comes
/// from, free, and crossing no used diagonal.
pub open spec fn aside(s: Resolution, o: int, from: Tile, to: Tile, nt: Tile) -> bool {
    &&& steps_to(s.grid, s.movers[o].movement->0.neighbors, to, nt)
    &&& nt != from
    &&& s.grid.holders@[s.grid.index(nt)] == Holder::Free
    &&& !crosses_used(s.used, to, nt)
}

/// Direction `k` leads blocker `o` to a cell `aside` allows.
pub open spec fn aside_dir(s: Resolution, o: int, from: Tile, to: Tile, k: int) -> bool {
    match s.grid.spec_step_legal(to, dir_dx(k), dir_dy(k), s.movers[o].movement->0.neighbors) {
        Some(nt) => nt != from && s.grid.holders@[s.grid.index(nt)] == Holder::Free && !crosses_used(s.used, to, nt),
        None => false,
    }
}

/// Blocker `o` may step back onto the mover's cell.
pub open spec fn swap_ok(s: Resolution, o: int, from: Tile, to: Tile) -> bool {
    s.grid.spec_step_legal(to, from.x - to.x, from.y - to.y, s.movers[o].movement->0.neighbors) is Some
}

/// Diagonals a step uses: the step's own and the one it crosses.
pub open spec fn with_step(used: Seq<(Tile, Tile)>, from: Tile, to: Tile) -> Seq<(Tile, Tile)> {
    if diagonal(from, to) { used.push((from, to)).push(corners(from, to)) } else { used }
}

/// The diagonal a step crosses.
pub open spec fn with_crossing(used: Seq<(Tile, Tile)>, from: Tile, to: Tile) -> Seq<(Tile, Tile)> {
    if diagonal(from, to) { used.push(corners(from, to)) } else { used }
}

/// Trying step `p` in state `s` gives event `ev` and state `s2`:
/// - a unit already moved this tick is skipped;
/// - a step crossing a used diagonal, or onto a reserved cell, is refused;
/// - a step onto a free cell is taken;
/// - onto a unit that cannot yield (see `can_yield`), it is refused;
/// - onto a settled ally with the same destination, the mover settles behind it and drops its detour;
/// - onto a settled unit the mover would not pass through (see `transits`), it is refused;
/// - otherwise the blocker steps aside to a cell that `aside` allows, or, when there is none,
///   back onto the mover's cell if that step is legal; the step is refused when neither is possible.
#[verifier::opaque]
pub open spec fn resolve_one(tick: Tick, s: Resolution, p: Plan, ev: MoveEvent, s2: Resolution) -> bool {
    let i = p.mover as int;
    let m = s.movers[i];
    let from = m.state.tile;
    let to = p.to;
    let g = s.grid;
    let hold = g.holders@[g.index(to)];
    if s.touched[i] {
        ev == MoveEvent::Skipped { mover: p.mover } && s2 == s
    } else if crosses_used(s.used, from, to) || hold == Holder::Reserved {
        ev == MoveEvent::Refused { mover: p.mover, to } && refused_as(tick, s, i, to, s2)
    } else if hold == Holder::Free {
        &&& ev == MoveEvent::Stepped { mover: p.mover, from, to }
        &&& s2.grid.width == g.width && s2.grid.height == g.height && s2.grid.cells == g.cells
        &&& s2.grid.holders@ == g.holders@.update(g.index(from), Holder::Free).update(g.index(to), Holder::Mobile)
        &&& s2.movers.len() == s.movers.len()
        &&& forall|j: int| 0 <= j < s.movers.len() && j != i ==> #[trigger] s2.movers[j] == s.movers[j]
        &&& after_step(m, to, p.dir, tick, s2.movers[i])
        &&& s2.touched == s.touched.update(i, true)
        &&& s2.used == with_step(s.used, from, to)
    } else if !exists|o: int| #[trigger] stands_at(s.movers, o, to) && can_yield(s, i, o, tick) {
        ev == MoveEvent::Refused { mover: p.mover, to } && refused_as(tick, s, i, to, s2)
    } else if settled_ally_at(s.movers, to, m.team, m.state.resolved_destination) {
        &&& ev == MoveEvent::Waited { mover: p.mover }
        &&& s2.grid == g && s2.touched == s.touched && s2.used == s.used
        &&& s2.movers.len() == s.movers.len()
        &&& forall|j: int| 0 <= j < s.movers.len() && j != i ==> #[trigger] s2.movers[j] == s.movers[j]
        &&& same_but_route(m, s2.movers[i])
        &&& s2.movers[i].goal_settled
        &&& s2.movers[i].state.resolved_destination == m.state.resolved_destination
        &&& s2.movers[i].state.local_detour@.len() == 0
    } else {
        exists|o: int| #[trigger] stands_at(s.movers, o, to) && can_yield(s, i, o, tick) && if s.movers[o].goal_settled && !transits(g, s.movers, i, to) {
            ev == MoveEvent::Refused { mover: p.mover, to } && refused_as(tick, s, i, to, s2)
        } else if !(exists|nt: Tile| #[trigger] aside(s, o, from, to, nt)) && !swap_ok(s, o, from, to) {
            ev == MoveEvent::Refused { mover: p.mover, to } && refused_as(tick, s, i, to, s2)
        } else {
            exists|bt: Tile| (#[trigger] aside(s, o, from, to, bt) || (!(exists|nt: Tile| #[trigger] aside(s, o, from, to, nt)) && bt == from))
                && displaced_as(tick, s, p, o, bt, ev, s2)
        }
    }
}

/// Unit `p.mover` steps onto `p.to` and blocker `o` steps aside onto `bt`.
pub open spec fn displaced_as(tick: Tick, s: Resolution, p: Plan, o: int, bt: Tile, ev: MoveEvent, s2: Resolution) -> bool {
    let i = p.mover as int;
    let from = s.movers[i].state.tile;
    let to = p.to;
    let g = s.grid;
    let mid = s.movers.update(o, s2.movers[o]);
    &&& ev == MoveEvent::Displaced { mover: p.mover, from, to, blocker: o as usize, blocker_to: bt }
    &&& s2.grid.width == g.width && s2.grid.height == g.height && s2.grid.cells == g.cells
    &&& s2.grid.holders@ == g.holders@.update(g.index(from), Holder::Free).update(g.index(to), Holder::Free)
        .update(g.index(bt), Holder::Mobile).update(g.index(to), Holder::Mobile)
    &&& s2.movers.len() == s.movers.len()
    &&& forall|j: int| 0 <= j < s.movers.len() && j != i && j != o ==> #[trigger] s2.movers[j] == s.movers[j]
    &&& after_aside(s.movers[o], bt, facing(bt.x - to.x, bt.y - to.y), tick, s2.movers[o])
    &&& after_step(s.movers[i], to, p.dir, tick, s2.movers[i])
    &&& s2.touched == s.touched.update(i, true).update(o, true)
    &&& s2.used == with_crossing(with_crossing(s.used, from, to), to, bt)
}

/// What every state of resolution keeps: the grid well formed, every unit on its own cell,
/// destinations on the map, one mark per unit.
pub open spec fn resolution_ok(s: Resolution) -> bool {
    &&& s.grid.wf()
    &&& movers_placed(s.grid, s.movers)
    &&& destinations_inside(s.grid, s.movers)
    &&& s.touched.len() == s.movers.len()
}

proof fn lemma_placed_step(g: StepGrid, ms: Seq<Mover>, i: int, to: Tile, g2: StepGrid, ms2: Seq<Mover>)
    requires
        g.wf(),
        movers_placed(g, ms),
        0 <= i < ms.len(),
        g.contains(to),
        to != ms[i].state.tile,
        g.holders@[g.index(to)] == Holder::Free,
        g2.width == g.width && g2.height == g.height && g2.cells == g.cells,
        g2.holders@ == g.holders@.update(g.index(ms[i].state.tile), Holder::Free).update(g.index(to), Holder::Mobile),
        ms2.len() == ms.len(),
        forall|j: int| 0 <= j < ms.len() && j != i ==> #[trigger] ms2[j] == ms[j],
        ms2[i].state.tile == to,
    ensures
        g2.wf(),
        movers_placed(g2, ms2),
        same_ground(g, g2),
{
    let from = ms[i].state.tile;
    crate::fields::lemma_index_bound(g, from);
    crate::fields::lemma_index_bound(g, to);
    assert forall|a: Tile, b: Tile| g.contains(a) && g.contains(b) && a != b implies g.index(a) != g.index(b) by {
        if g.index(a) == g.index(b) {
            crate::fields::lemma_index_injective(g, a, b);
        }
    }
    assert forall|j: int| 0 <= j < ms.len() && j != i implies #[trigger] ms[j].state.tile != to by {
        if ms[j].state.tile == to {
            assert(g.holders@[g.index(ms[j].state.tile)] == Holder::Mobile);
        }
    }
    assert forall|j: int| 0 <= j < ms2.len() implies g2.contains(#[trigger] ms2[j].state.tile)
        && g2.holders@[g2.index(ms2[j].state.tile)] == Holder::Mobile by {
        if j != i {
            assert(ms2[j] == ms[j]);
            crate::fields::lemma_index_bound(g, ms[j].state.tile);
            assert(ms[j].state.tile != from);
        }
    }
    assert forall|a: int, b: int| 0 <= a < ms2.len() && 0 <= b < ms2.len() && a != b
        implies #[trigger] ms2[a].state.tile != #[trigger] ms2[b].state.tile by {
        if a != i && b != i {
            assert(ms2[a] == ms[a] && ms2[b] == ms[b]);
        } else if a == i {
            assert(ms2[b] == ms[b]);
        } else {
            assert(ms2[a] == ms[a]);
        }
    }
    assert forall|t: Tile| g2.contains(t) && #[trigger] g2.holders@[g2.index(t)] == Holder::Mobile
        implies exists|j: int| 0 <= j < ms2.len() && #[trigger] ms2[j].state.tile == t by {
        crate::fields::lemma_index_bound(g, t);
        if t == to {
            assert(ms2[i].state.tile == t);
        } else {
            assert(t != from);
            assert(g.holders@[g.index(t)] == Holder::Mobile);
            let j = choose|j: int| 0 <= j < ms.len() && #[trigger] ms[j].state.tile == t;
            assert(j != i);
            assert(ms2[j].state.tile == t);
        }
    }
    assert forall|k: int| 0 <= k < g.holders@.len() implies
        ((#[trigger] g.holders@[k] == Holder::Reserved) <==> g2.holders@[k] == Holder::Reserved)
        && (g.holders@[k] == Holder::Fixed <==> g2.holders@[k] == Holder::Fixed) by {
    }
}

proof fn lemma_placed_swap(g: StepGrid, ms: Seq<Mover>, i: int, o: int, to: Tile, bt: Tile, g2: StepGrid, ms2: Seq<Mover>)
    requires
        g.wf(),
        movers_placed(g, ms),
        0 <= i < ms.len(),
        0 <= o < ms.len(),
        i != o,
        ms[o].state.tile == to,
        g.contains(bt),
        bt != to,
        bt == ms[i].state.tile || g.holders@[g.index(bt)] == Holder::Free,
        g2.width == g.width && g2.height == g.height && g2.cells == g.cells,
        g2.holders@ == g.holders@.update(g.index(ms[i].state.tile), Holder::Free).update(g.index(to), Holder::Free)
            .update(g.index(bt), Holder::Mobile).update(g.index(to), Holder::Mobile),
        ms2.len() == ms.len(),
        forall|j: int| 0 <= j < ms.len() && j != i && j != o ==> #[trigger] ms2[j] == ms[j],
        ms2[i].state.tile == to,
        ms2[o].state.tile == bt,
    ensures
        g2.wf(),
        movers_placed(g2, ms2),
        same_ground(g, g2),
{
    let from = ms[i].state.tile;
    crate::fields::lemma_index_bound(g, from);
    crate::fields::lemma_index_bound(g, to);
    crate::fields::lemma_index_bound(g, bt);
    assert forall|a: Tile, b: Tile| g.contains(a) && g.contains(b) && a != b implies g.index(a) != g.index(b) by {
        if g.index(a) == g.index(b) {
            crate::fields::lemma_index_injective(g, a, b);
        }
    }
    assert(from != to);
    assert forall|j: int| 0 <= j < ms.len() && j != i && j != o implies #[trigger] ms[j].state.tile != bt by {
        if ms[j].state.tile == bt {
            assert(g.holders@[g.index(ms[j].state.tile)] == Holder::Mobile);
        }
    }
    assert forall|j: int| 0 <= j < ms2.len() implies g2.contains(#[trigger] ms2[j].state.tile)
        && g2.holders@[g2.index(ms2[j].state.tile)] == Holder::Mobile by {
        if j != i && j != o {
            assert(ms2[j] == ms[j]);
            crate::fields::lemma_index_bound(g, ms[j].state.tile);
        }
    }
    assert forall|a: int, b: int| 0 <= a < ms2.len() && 0 <= b < ms2.len() && a != b
        implies #[trigger] ms2[a].state.tile != #[trigger] ms2[b].state.tile by {
        if a != i && a != o {
            assert(ms2[a] == ms[a]);
        }
        if b != i && b != o {
            assert(ms2[b] == ms[b]);
        }
    }
    assert forall|t: Tile| g2.contains(t) && #[trigger] g2.holders@[g2.index(t)] == Holder::Mobile
        implies exists|j: int| 0 <= j < ms2.len() && #[trigger] ms2[j].state.tile == t by {
        crate::fields::lemma_index_bound(g, t);
        if t == to {
            assert(ms2[i].state.tile == t);
        } else if t == bt {
            assert(ms2[o].state.tile == t);
        } else {
            assert(t != from);
            assert(g.holders@[g.index(t)] == Holder::Mobile);
            let j = choose|j: int| 0 <= j < ms.len() && #[trigger] ms[j].state.tile == t;
            assert(j != i && j != o);
            assert(ms2[j].state.tile == t);
        }
    }
    assert(g.holders@[g.index(from)] == Holder::Mobile);
    assert(g.holders@[g.index(to)] == Holder::Mobile);
    assert forall|k: int| 0 <= k < g.holders@.len() implies
        ((#[trigger] g.holders@[k] == Holder::Reserved) <==> g2.holders@[k] == Holder::Reserved)
        && (g.holders@[k] == Holder::Fixed <==> g2.holders@[k] == Holder::Fixed) by {
    }
}

/// Records a failed step of unit `i` toward `to` (see `fail_recorded`).
fn fail_unit(grid: &StepGrid, cache: &mut FieldCache, version: u32, movers: &mut Vec<Mover>, i: usize, to: Tile, tick: Tick)
    requires
        grid.wf(),
        movers_placed(*grid, old(movers)@),
        destinations_inside(*grid, old(movers)@),
        i < old(movers)@.len(),
        old(movers)@[i as int].movement is Some,
        grid.contains(old(movers)@[i as int].state.tile),
        old(movers)@[i as int].state.resolved_destination matches Some(d) ==> grid.contains(d),
        tick < Tick::MAX,
        old(cache).holds_fields_of(*grid, version),
    ensures
        final(cache).holds_fields_of(*grid, version),
        final(movers)@.len() == old(movers)@.len(),
        forall|j: int| 0 <= j < old(movers)@.len() && j != i ==> #[trigger] final(movers)@[j] == old(movers)@[j],
        same_unit(old(movers)@[i as int], final(movers)@[i as int]),
        final(movers)@[i as int].goal_settled == old(movers)@[i as int].goal_settled,
        fail_recorded(*grid, old(movers)@[i as int].movement->0.neighbors, tick, old(movers)@[i as int].state, to, final(movers)@[i as int].state),
        movers_placed(*grid, final(movers)@),
        destinations_inside(*grid, final(movers)@),
{
    let ghost before = movers@;
    let n = match movers[i].movement { Some(mv) => mv.neighbors, None => Neighbors::Four };
    let mut m = take(movers, i);
    let ghost mid = movers@;
    grid.fail_move(cache, version, &mut m.state, to, tick, n);
    movers.set(i, m);
    proof {
        lemma_put_back(before, mid, movers@, i as int, m);
        lemma_unit_kept(*grid, before, movers@, i as int);
    }
}

proof fn lemma_unit_kept(g: StepGrid, before: Seq<Mover>, after: Seq<Mover>, i: int)
    requires
        g.wf(),
        movers_placed(g, before),
        destinations_inside(g, before),
        0 <= i < before.len(),
        after.len() == before.len(),
        forall|j: int| 0 <= j < before.len() && j != i ==> #[trigger] after[j] == before[j],
        after[i].state.tile == before[i].state.tile,
        after[i].state.resolved_destination == before[i].state.resolved_destination,
    ensures
        movers_placed(g, after),
        destinations_inside(g, after),
{
    assert(after =~= before.update(i, after[i]));
    lemma_route_keeps_placed(g, before, i, after[i]);
}

fn rotate_left(x: u64, r: u32) -> (y: u64)
    requires
        0 < r < 64,
{
    (x << r) | (x >> ((64 - r) as u64))
}

/// `k` occurs in `order`.
pub open spec fn lists(order: Seq<usize>, k: int) -> bool {
    exists|q: int| 0 <= q < order.len() && #[trigger] order[q] == k
}

/// The fixed neighbor order shuffled by `h`: each position from the last down to the second is
/// swapped with one chosen from the rotated hash.
fn shuffled_order(count: usize, h: u64) -> (order: Vec<usize>)
    requires
        count <= 8,
    ensures
        order@.len() == count,
        forall|q: int| 0 <= q < count ==> #[trigger] order@[q] < count,
        forall|k: int| 0 <= k < count ==> #[trigger] lists(order@, k),
{
    let mut order: Vec<usize> = Vec::new();
    let mut k: usize = 0;
    while k < count
        invariant
            k <= count,
            count <= 8,
            order@.len() == k,
            forall|q: int| 0 <= q < k ==> #[trigger] order@[q] == q,
        decreases count - k,
    {
        order.push(k);
        k += 1;
    }
    proof {
        assert forall|v: int| 0 <= v < count implies #[trigger] lists(order@, v) by {
            assert(order@[v] == v);
        }
    }
    let mut k: usize = count;
    while k > 1
        invariant
            k <= count,
            count <= 8,
            order@.len() == count,
            forall|q: int| 0 <= q < count ==> #[trigger] order@[q] < count,
            forall|v: int| 0 <= v < count ==> #[trigger] lists(order@, v),
        decreases k,
    {
        k -= 1;
        let r = rotate_left(h, (k * 7) as u32);
        let j = (r % (k as u64 + 1)) as usize;
        let a = order[k];
        let b = order[j];
        let ghost before = order@;
        order.set(k, b);
        order.set(j, a);
        proof {
            assert forall|v: int| 0 <= v < count implies #[trigger] lists(order@, v) by {
                assert(lists(before, v));
                let q = choose|q: int| 0 <= q < before.len() && #[trigger] before[q] == v;
                if q == k {
                    assert(order@[j as int] == v);
                } else if q == j {
                    assert(order@[k as int] == v);
                } else {
                    assert(order@[q] == v);
                }
            }
        }
    }
    order
}

fn used_contains(used: &Vec<(Tile, Tile)>, a: Tile, b: Tile) -> (r: bool)
    ensures
        r == pair_used(used@, a, b),
{
    let mut k: usize = 0;
    while k < used.len()
        invariant
            0 <= k <= used@.len(),
            forall|j: int| 0 <= j < k ==> !(#[trigger] used@[j] == (a, b) || used@[j] == (b, a)),
        decreases used.len() - k,
    {
        let (x, y) = used[k];
        if (x == a && y == b) || (x == b && y == a) {
            assert(used@[k as int] == (a, b) || used@[k as int] == (b, a));
            return true;
        }
        k += 1;
    }
    false
}

fn crosses_used_exec(used: &Vec<(Tile, Tile)>, from: Tile, to: Tile) -> (r: bool)
    ensures
        r == crosses_used(used@, from, to),
{
    if from.x != to.x && from.y != to.y {
        used_contains(used, Tile { x: to.x, y: from.y }, Tile { x: from.x, y: to.y })
    } else {
        false
    }
}

/// Tries step `p` (see `resolve_one`).
#[verifier::spinoff_prover]
#[verifier::rlimit(60)]
fn resolve_step(grid: &mut StepGrid, cache: &mut FieldCache, version: u32, movers: &mut Vec<Mover>, touched: &mut Vec<bool>,
    used: &mut Vec<(Tile, Tile)>, p: Plan, tick: Tick, seed: u64) -> (ev: MoveEvent)
    requires
        old(grid).wf(),
        movers_placed(*old(grid), old(movers)@),
        destinations_inside(*old(grid), old(movers)@),
        old(touched)@.len() == old(movers)@.len(),
        old(cache).holds_fields_of(*old(grid), version),
        p.mover < old(movers)@.len(),
        old(grid).contains(p.to),
        old(movers)@[p.mover as int].movement is Some,
        !old(touched)@[p.mover as int] ==> p.to != old(movers)@[p.mover as int].state.tile
            && -1 <= p.to.x - old(movers)@[p.mover as int].state.tile.x <= 1
            && -1 <= p.to.y - old(movers)@[p.mover as int].state.tile.y <= 1,
        tick < Tick::MAX,
        forall|j: int| 0 <= j < old(movers)@.len() ==> (#[trigger] old(movers)@[j].movement matches Some(mv) ==> tick + mv.cooldown <= Tick::MAX),
    ensures
        resolve_one(tick, resolution(*old(grid), old(movers)@, old(touched)@, old(used)@), p, ev,
            resolution(*final(grid), final(movers)@, final(touched)@, final(used)@)),
        resolution_ok(resolution(*final(grid), final(movers)@, final(touched)@, final(used)@)),
        same_ground(*old(grid), *final(grid)),
        final(cache).holds_fields_of(*final(grid), version),
        final(movers)@.len() == old(movers)@.len(),
        forall|j: int| 0 <= j < old(movers)@.len() ==> same_unit(#[trigger] old(movers)@[j], final(movers)@[j]),
        forall|j: int| 0 <= j < old(movers)@.len() && old(touched)@[j] ==> #[trigger] final(touched)@[j],
        forall|j: int| 0 <= j < old(movers)@.len() && !final(touched)@[j] ==> #[trigger] final(movers)@[j].state.tile == old(movers)@[j].state.tile,
        forall|u: int| #[trigger] moves_unit(ev, u) ==> 0 <= u < old(movers)@.len() && !old(touched)@[u] && final(touched)@[u],
        used_grows(old(used)@, final(used)@),
        respects_used(ev, old(used)@, final(used)@),
{
    let ghost s = resolution(*grid, movers@, touched@, used@);
    proof {
        reveal(resolve_one);
    }
    let i = p.mover;
    let to = p.to;
    if touched[i] {
        return MoveEvent::Skipped { mover: i };
    }
    let from = movers[i].state.tile;
    proof {
        assert(grid.contains(from));
        assert(movers@[i as int].state.resolved_destination matches Some(d) ==> grid.contains(d));
    }
    let hold = grid.holders[grid.idx(to)];
    if crosses_used_exec(used, from, to) || hold == Holder::Reserved {
        fail_unit(grid, cache, version, movers, i, to, tick);
        return MoveEvent::Refused { mover: i, to };
    }
    let mv = match movers[i].movement { Some(mv) => mv, None => Movement { neighbors: Neighbors::Four, cooldown: 0 } };
    if hold == Holder::Free {
        let mut m = take(movers, i);
        let ghost mid = movers@;
        proof {
            assert(tick + mv.cooldown <= Tick::MAX);
        }
        grid.commit_move(&mut m.state, to, p.dir, tick, mv.cooldown);
        movers.set(i, m);
        touched.set(i, true);
        if from.x != to.x && from.y != to.y {
            used.push((from, to));
            used.push((Tile { x: to.x, y: from.y }, Tile { x: from.x, y: to.y }));
        }
        proof {
            lemma_put_back(s.movers, mid, movers@, i as int, m);
            lemma_placed_step(s.grid, s.movers, i as int, to, *grid, movers@);
            lemma_fields_see_ground(s.grid, *grid);
            assert(used@ == with_step(s.used, from, to));
            if from.x != to.x && from.y != to.y {
                assert(used@[s.used.len() as int] == (from, to));
            }
            assert forall|x: Tile, y: Tile| #[trigger] pair_used(s.used, x, y) implies pair_used(used@, x, y) by {
                let q = choose|q: int| 0 <= q < s.used.len() && (#[trigger] s.used[q] == (x, y) || s.used[q] == (y, x));
                assert(used@[q] == s.used[q]);
            }
            assert forall|j: int| 0 <= j < movers@.len() implies (#[trigger] movers@[j].state.resolved_destination matches Some(d) ==> grid.contains(d)) by {
                assert(s.movers[j].state.resolved_destination matches Some(d) ==> s.grid.contains(d));
            }
        }
        return MoveEvent::Stepped { mover: i, from, to };
    }
    let o = match unit_at(movers, to) {
        None => {
            fail_unit(grid, cache, version, movers, i, to, tick);
            return MoveEvent::Refused { mover: i, to };
        },
        Some(o) => o,
    };
    proof {
        assert forall|q: int| #[trigger] stands_at(s.movers, q, to) implies q == o by {
            if q != o {
                assert(s.movers[q].state.tile != s.movers[o as int].state.tile);
            }
        }
    }
    let b_newborn = match movers[o].born_at_tick { Some(bb) => bb >= tick, None => false };
    let yields = movers[o].complete && movers[o].movement.is_some() && movers[o].team == movers[i].team && !touched[o] && !b_newborn;
    if !yields {
        fail_unit(grid, cache, version, movers, i, to, tick);
        return MoveEvent::Refused { mover: i, to };
    }
    if settled_ally_exec(movers, to, movers[i].team, movers[i].state.resolved_destination) {
        let mut m = take(movers, i);
        let ghost mid = movers@;
        m.goal_settled = true;
        m.state.local_detour = Vec::new();
        movers.set(i, m);
        proof {
            lemma_put_back(s.movers, mid, movers@, i as int, m);
            lemma_unit_kept(*grid, s.movers, movers@, i as int);
            lemma_fields_see_ground(s.grid, *grid);
        }
        return MoveEvent::Waited { mover: i };
    }
    displace(grid, cache, version, movers, touched, used, p, o, tick, seed)
}

/// The conditions under which a step reaches the blocker's decision in `resolve_one`.
pub open spec fn reaches_blocker(tick: Tick, s: Resolution, p: Plan, o: int) -> bool {
    let i = p.mover as int;
    let m = s.movers[i];
    &&& 0 <= i < s.movers.len()
    &&& !s.touched[i]
    &&& !crosses_used(s.used, m.state.tile, p.to)
    &&& s.grid.holders@[s.grid.index(p.to)] != Holder::Reserved
    &&& s.grid.holders@[s.grid.index(p.to)] != Holder::Free
    &&& stands_at(s.movers, o, p.to)
    &&& forall|q: int| #[trigger] stands_at(s.movers, q, p.to) ==> q == o
    &&& can_yield(s, i, o, tick)
    &&& !settled_ally_at(s.movers, p.to, m.team, m.state.resolved_destination)
}

proof fn lemma_blocker_refused(tick: Tick, s: Resolution, p: Plan, o: int, ev: MoveEvent, s2: Resolution)
    requires
        reaches_blocker(tick, s, p, o),
        (s.movers[o].goal_settled && !transits(s.grid, s.movers, p.mover as int, p.to))
            || (!(exists|nt: Tile| #[trigger] aside(s, o, s.movers[p.mover as int].state.tile, p.to, nt))
                && !swap_ok(s, o, s.movers[p.mover as int].state.tile, p.to)),
        ev == (MoveEvent::Refused { mover: p.mover, to: p.to }),
        refused_as(tick, s, p.mover as int, p.to, s2),
    ensures
        resolve_one(tick, s, p, ev, s2),
{
    reveal(resolve_one);
    assert(stands_at(s.movers, o, p.to) && can_yield(s, p.mover as int, o, tick));
}

proof fn lemma_blocker_moved(tick: Tick, s: Resolution, p: Plan, o: int, bt: Tile, ev: MoveEvent, s2: Resolution)
    requires
        reaches_blocker(tick, s, p, o),
        !(s.movers[o].goal_settled && !transits(s.grid, s.movers, p.mover as int, p.to)),
        aside(s, o, s.movers[p.mover as int].state.tile, p.to, bt)
            || (!(exists|nt: Tile| #[trigger] aside(s, o, s.movers[p.mover as int].state.tile, p.to, nt))
                && bt == s.movers[p.mover as int].state.tile && swap_ok(s, o, s.movers[p.mover as int].state.tile, p.to)),
        displaced_as(tick, s, p, o, bt, ev, s2),
    ensures
        resolve_one(tick, s, p, ev, s2),
{
    reveal(resolve_one);
    assert(stands_at(s.movers, o, p.to) && can_yield(s, p.mover as int, o, tick));
    if aside(s, o, s.movers[p.mover as int].state.tile, p.to, bt) {
    }
}

/// The step onto a yielding unit's cell (see the last cases of `resolve_one`).
#[verifier::spinoff_prover]
#[verifier::rlimit(80)]
fn displace(grid: &mut StepGrid, cache: &mut FieldCache, version: u32, movers: &mut Vec<Mover>, touched: &mut Vec<bool>,
    used: &mut Vec<(Tile, Tile)>, p: Plan, o: usize, tick: Tick, seed: u64) -> (ev: MoveEvent)
    requires
        old(grid).wf(),
        movers_placed(*old(grid), old(movers)@),
        destinations_inside(*old(grid), old(movers)@),
        old(touched)@.len() == old(movers)@.len(),
        old(cache).holds_fields_of(*old(grid), version),
        p.mover < old(movers)@.len(),
        old(grid).contains(p.to),
        old(movers)@[p.mover as int].movement is Some,
        !old(touched)@[p.mover as int] ==> p.to != old(movers)@[p.mover as int].state.tile
            && -1 <= p.to.x - old(movers)@[p.mover as int].state.tile.x <= 1
            && -1 <= p.to.y - old(movers)@[p.mover as int].state.tile.y <= 1,
        tick < Tick::MAX,
        forall|j: int| 0 <= j < old(movers)@.len() ==> (#[trigger] old(movers)@[j].movement matches Some(mv) ==> tick + mv.cooldown <= Tick::MAX),
        !old(touched)@[p.mover as int],
        !crosses_used(old(used)@, old(movers)@[p.mover as int].state.tile, p.to),
        old(grid).holders@[old(grid).index(p.to)] != Holder::Reserved,
        old(grid).holders@[old(grid).index(p.to)] != Holder::Free,
        stands_at(old(movers)@, o as int, p.to),
        forall|q: int| #[trigger] stands_at(old(movers)@, q, p.to) ==> q == o,
        can_yield(resolution(*old(grid), old(movers)@, old(touched)@, old(used)@), p.mover as int, o as int, tick),
        !settled_ally_at(old(movers)@, p.to, old(movers)@[p.mover as int].team, old(movers)@[p.mover as int].state.resolved_destination),
    ensures
        resolve_one(tick, resolution(*old(grid), old(movers)@, old(touched)@, old(used)@), p, ev,
            resolution(*final(grid), final(movers)@, final(touched)@, final(used)@)),
        resolution_ok(resolution(*final(grid), final(movers)@, final(touched)@, final(used)@)),
        same_ground(*old(grid), *final(grid)),
        final(cache).holds_fields_of(*final(grid), version),
        final(movers)@.len() == old(movers)@.len(),
        forall|j: int| 0 <= j < old(movers)@.len() ==> same_unit(#[trigger] old(movers)@[j], final(movers)@[j]),
        forall|j: int| 0 <= j < old(movers)@.len() && old(touched)@[j] ==> #[trigger] final(touched)@[j],
        forall|j: int| 0 <= j < old(movers)@.len() && !final(touched)@[j] ==> #[trigger] final(movers)@[j].state.tile == old(movers)@[j].state.tile,
        forall|u: int| #[trigger] moves_unit(ev, u) ==> 0 <= u < old(movers)@.len() && !old(touched)@[u] && final(touched)@[u],
        used_grows(old(used)@, final(used)@),
        respects_used(ev, old(used)@, final(used)@),
{
    let ghost s = resolution(*grid, movers@, touched@, used@);
    let i = p.mover;
    let to = p.to;
    let from = movers[i].state.tile;
    proof {
        assert(grid.contains(from));
        assert(movers@[i as int].state.resolved_destination matches Some(d) ==> grid.contains(d));
        assert(o != i);
        assert(grid.contains(movers@[o as int].state.tile));
    }
    proof {
        assert(reaches_blocker(tick, s, p, o as int));
    }
    if movers[o].goal_settled && !transits_exec(grid, cache, version, movers, i, to) {
        fail_unit(grid, cache, version, movers, i, to, tick);
        proof {
            lemma_blocker_refused(tick, s, p, o as int, MoveEvent::Refused { mover: i, to }, resolution(*grid, movers@, touched@, used@));
        }
        return MoveEvent::Refused { mover: i, to };
    }
    let ghost passes = !(movers@[o as int].goal_settled && !transits(s.grid, s.movers, i as int, to));
    let placed = find_aside(grid, movers, touched, used, i, o, to, tick, seed);
    let (bt, bd) = match placed {
        None => {
            fail_unit(grid, cache, version, movers, i, to, tick);
            proof {
                lemma_blocker_refused(tick, s, p, o as int, MoveEvent::Refused { mover: i, to }, resolution(*grid, movers@, touched@, used@));
            }
            return MoveEvent::Refused { mover: i, to };
        },
        Some(pl) => pl,
    };
    let ghost pre_grid = *grid;
    let ev = apply_displacement(grid, movers, touched, used, p, o, bt, bd, tick);
    proof {
        lemma_displacement_ok(tick, s, p, o as int, bt, bd, ev, resolution(*grid, movers@, touched@, used@));
        assert forall|x: Tile, y: Tile| #[trigger] pair_used(s.used, x, y) implies pair_used(used@, x, y) by {
            let q = choose|q: int| 0 <= q < s.used.len() && (#[trigger] s.used[q] == (x, y) || s.used[q] == (y, x));
            let w1 = with_crossing(s.used, from, to);
            assert(w1[q] == s.used[q]);
            assert(used@[q] == w1[q]);
        }
        lemma_blocker_moved(tick, s, p, o as int, bt, ev, resolution(*grid, movers@, touched@, used@));
        lemma_fields_see_ground(s.grid, *grid);
    }
    ev
}

/// Where blocker `o`, on `to`, steps aside for unit `i`: the first cell `aside` allows in the
/// neighbor order shuffled by the two units' ranks, or else back onto `i`'s cell if that step is
/// legal.
#[verifier::spinoff_prover]
fn find_aside(grid: &StepGrid, movers: &Vec<Mover>, touched: &Vec<bool>, used: &Vec<(Tile, Tile)>, i: usize, o: usize, to: Tile,
    tick: Tick, seed: u64) -> (r: Option<(Tile, Direction)>)
    requires
        grid.wf(),
        i < movers@.len(),
        o < movers@.len(),
        movers@[o as int].movement is Some,
        grid.contains(to),
        grid.contains(movers@[i as int].state.tile),
        -1 <= movers@[i as int].state.tile.x - to.x <= 1,
        -1 <= movers@[i as int].state.tile.y - to.y <= 1,
        movers@[i as int].state.tile != to,
    ensures
        ({
            let s = resolution(*grid, movers@, touched@, used@);
            let from = movers@[i as int].state.tile;
            match r {
                Some((bt, bd)) => (aside(s, o as int, from, to, bt)
                    || (!(exists|nt: Tile| #[trigger] aside(s, o as int, from, to, nt)) && bt == from && swap_ok(s, o as int, from, to)))
                    && bd == facing(bt.x - to.x, bt.y - to.y) && grid.contains(bt) && bt != to
                    && (bt == from || grid.holders@[grid.index(bt)] == Holder::Free),
                None => !(exists|nt: Tile| #[trigger] aside(s, o as int, from, to, nt)) && !swap_ok(s, o as int, from, to),
            }
        }),
{
    let ghost s = resolution(*grid, movers@, touched@, used@);
    let from = movers[i].state.tile;
    let bmv = match movers[o].movement { Some(bm) => bm, None => Movement { neighbors: Neighbors::Four, cooldown: 0 } };
    let bn = bmv.neighbors;
    let count = dir_count_exec(bn);
    let ri = entity_rank(seed, tick, &movers[i].id);
    let ro = entity_rank(seed, tick, &movers[o].id);
    let h = crate::fields::hash(seed, tick as u64, ri, ro);
    let order = shuffled_order(count, h);
    let mut placed: Option<(Tile, Direction)> = None;
    let mut q: usize = 0;
    while q < count && placed.is_none()
        invariant
            grid.wf(),
            *grid == s.grid,
            used@ == s.used,
            movers@ == s.movers,
            count == dir_count(bn),
            bn == s.movers[o as int].movement->0.neighbors,
            order@.len() == count,
            forall|r: int| 0 <= r < count ==> #[trigger] order@[r] < count,
            0 <= q <= count,
            placed is None ==> forall|r: int| 0 <= r < q ==> !#[trigger] aside_dir(s, o as int, from, to, order@[r] as int),
            placed matches Some((bt, bd)) ==> aside(s, o as int, from, to, bt) && bd == facing(bt.x - to.x, bt.y - to.y),
        decreases count - q,
    {
        let k = order[q];
        let (dx, dy, _) = dir_at(k);
        match grid.step_legal(to, dx, dy, bn) {
            Some(nt) => {
                if nt != from && grid.holders[grid.idx(nt)] == Holder::Free && !crosses_used_exec(used, to, nt) {
                    placed = Some((nt, direction_of(dx, dy)));
                    proof {
                        assert(steps_to(s.grid, bn, to, nt));
                    }
                }
            },
            None => {},
        }
        q += 1;
    }
    if placed.is_none() {
        proof {
            assert forall|nt: Tile| !#[trigger] aside(s, o as int, from, to, nt) by {
                if aside(s, o as int, from, to, nt) {
                    let k = choose|k: int| 0 <= k < dir_count(bn) && #[trigger] s.grid.spec_step_legal(to, dir_dx(k), dir_dy(k), bn) == Some(nt);
                    assert(lists(order@, k));
                    let r = choose|r: int| 0 <= r < order@.len() && #[trigger] order@[r] == k;
                    assert(!aside_dir(s, o as int, from, to, order@[r] as int));
                }
            }
        }
        let dx = from.x as i32 - to.x as i32;
        let dy = from.y as i32 - to.y as i32;
        if grid.step_legal(to, dx, dy, bn).is_some() {
            placed = Some((from, direction_of(dx, dy)));
        }
    }
    proof {
        match placed {
            Some((bt, bd)) => {
                if bt != from {
                    let k = choose|k: int| 0 <= k < dir_count(bn) && #[trigger] s.grid.spec_step_legal(to, dir_dx(k), dir_dy(k), bn) == Some(bt);
                } else {
                    assert(grid.spec_step_legal(to, from.x - to.x, from.y - to.y, bn) is Some);
                }
            },
            None => {},
        }
    }
    placed
}

proof fn lemma_displacement_ok(tick: Tick, s: Resolution, p: Plan, o: int, bt: Tile, bd: Direction, ev: MoveEvent, s2: Resolution)
    requires
        resolution_ok(s),
        0 <= p.mover < s.movers.len(),
        0 <= o < s.movers.len(),
        o != p.mover,
        s.grid.contains(p.to),
        s.movers[o].state.tile == p.to,
        s.grid.contains(bt),
        bt != p.to,
        bt == s.movers[p.mover as int].state.tile || s.grid.holders@[s.grid.index(bt)] == Holder::Free,
        bd == facing(bt.x - p.to.x, bt.y - p.to.y),
        displacement_raw(tick, s, p, o, bt, bd, ev, s2),
        s2.grid.wf(),
    ensures
        displaced_as(tick, s, p, o, bt, ev, s2),
        resolution_ok(s2),
        same_ground(s.grid, s2.grid),
        forall|j: int| 0 <= j < s.movers.len() ==> same_unit(#[trigger] s.movers[j], s2.movers[j]),
        forall|j: int| 0 <= j < s.movers.len() && s.touched[j] ==> #[trigger] s2.touched[j],
        forall|j: int| 0 <= j < s.movers.len() && !s2.touched[j] ==> #[trigger] s2.movers[j].state.tile == s.movers[j].state.tile,
{
    let i = p.mover as int;
    assert forall|j: int| 0 <= j < s.movers.len() && j != i && j != o implies #[trigger] s2.movers[j] == s.movers[j] by {
        assert(s2.movers[j] == s.movers.update(o, s2.movers[o]).update(i, s2.movers[i])[j]);
    }
    lemma_placed_swap(s.grid, s.movers, i, o, p.to, bt, s2.grid, s2.movers);
    assert forall|j: int| 0 <= j < s2.movers.len() implies (#[trigger] s2.movers[j].state.resolved_destination matches Some(d) ==> s2.grid.contains(d)) by {
        assert(s.movers[j].state.resolved_destination matches Some(d) ==> s.grid.contains(d));
    }
}

/// The facts a displacement leaves, cell by cell and unit by unit.
pub open spec fn displacement_raw(tick: Tick, s: Resolution, p: Plan, o: int, bt: Tile, bd: Direction, ev: MoveEvent, s2: Resolution) -> bool {
    let i = p.mover as int;
    let from = s.movers[i].state.tile;
    let to = p.to;
    let g = s.grid;
    &&& ev == MoveEvent::Displaced { mover: p.mover, from, to, blocker: o as usize, blocker_to: bt }
    &&& s2.grid.width == g.width && s2.grid.height == g.height && s2.grid.cells == g.cells
    &&& s2.grid.holders@ == g.holders@.update(g.index(from), Holder::Free).update(g.index(to), Holder::Free)
        .update(g.index(bt), Holder::Mobile).update(g.index(to), Holder::Mobile)
    &&& s2.movers.len() == s.movers.len()
    &&& s2.movers == s.movers.update(o, s2.movers[o]).update(i, s2.movers[i])
    &&& after_aside(s.movers[o], bt, bd, tick, s2.movers[o])
    &&& after_step(s.movers[i], to, p.dir, tick, s2.movers[i])
    &&& s2.touched == s.touched.update(i, true).update(o, true)
    &&& s2.used == with_crossing(with_crossing(s.used, from, to), to, bt)
}

/// Unit `p.mover` steps onto `p.to` and blocker `o` steps aside onto `bt` facing `bd`.
#[verifier::spinoff_prover]
fn apply_displacement(grid: &mut StepGrid, movers: &mut Vec<Mover>, touched: &mut Vec<bool>, used: &mut Vec<(Tile, Tile)>,
    p: Plan, o: usize, bt: Tile, bd: Direction, tick: Tick) -> (ev: MoveEvent)
    requires
        old(grid).wf(),
        old(touched)@.len() == old(movers)@.len(),
        p.mover < old(movers)@.len(),
        o < old(movers)@.len(),
        o != p.mover,
        old(grid).contains(p.to),
        old(grid).contains(old(movers)@[p.mover as int].state.tile),
        old(movers)@[p.mover as int].movement is Some,
        old(movers)@[o as int].movement is Some,
        old(grid).contains(bt),
        tick + old(movers)@[p.mover as int].movement->0.cooldown <= Tick::MAX,
        tick + old(movers)@[o as int].movement->0.cooldown <= Tick::MAX,
    ensures
        displacement_raw(tick, resolution(*old(grid), old(movers)@, old(touched)@, old(used)@), p, o as int, bt, bd, ev,
            resolution(*final(grid), final(movers)@, final(touched)@, final(used)@)),
        final(grid).wf(),
        final(touched)@.len() == final(movers)@.len(),
{
    let ghost s = resolution(*grid, movers@, touched@, used@);
    let i = p.mover;
    let to = p.to;
    let from = movers[i].state.tile;
    proof {
        assert(grid.contains(from));
    }
    let mv = match movers[i].movement { Some(mv) => mv, None => Movement { neighbors: Neighbors::Four, cooldown: 0 } };
    let bmv = match movers[o].movement { Some(bm) => bm, None => Movement { neighbors: Neighbors::Four, cooldown: 0 } };
    let fi = grid.idx(from);
    let ti = grid.idx(to);
    let bi = grid.idx(bt);
    grid.holders.set(fi, Holder::Free);
    grid.holders.set(ti, Holder::Free);
    let mut b = take(movers, o);
    let ghost mid1 = movers@;
    b.state.tile = bt;
    b.state.last_move_direction = bd;
    let due = tick + bmv.cooldown;
    if b.state.next_move_tick < due {
        b.state.next_move_tick = due;
    }
    b.goal_settled = false;
    movers.set(o, b);
    proof { lemma_put_back(s.movers, mid1, movers@, o as int, b); }
    let ghost after_b = movers@;
    grid.holders.set(bi, Holder::Mobile);
    let mut m = take(movers, i);
    let ghost mid2 = movers@;
    m.state.tile = to;
    m.state.last_move_direction = p.dir;
    m.state.next_move_tick = tick + mv.cooldown;
    m.state.failed_move_attempts = 0;
    m.state.blocked_step = None;
    if m.state.local_detour.len() > 0 && m.state.local_detour[0] == to {
        let ghost d0 = m.state.local_detour@;
        m.state.local_detour.remove(0);
        proof { assert(m.state.local_detour@ =~= d0.drop_first()); }
    }
    movers.set(i, m);
    proof { lemma_put_back(after_b, mid2, movers@, i as int, m); }
    grid.holders.set(ti, Holder::Mobile);
    touched.set(i, true);
    touched.set(o, true);
    if from.x != to.x && from.y != to.y {
        used.push((Tile { x: to.x, y: from.y }, Tile { x: from.x, y: to.y }));
    }
    if to.x != bt.x && to.y != bt.y {
        used.push((Tile { x: bt.x, y: to.y }, Tile { x: to.x, y: bt.y }));
    }
    proof {
        assert(movers@ == s.movers.update(o as int, b).update(i as int, m));
        assert(movers@[o as int] == b && movers@[i as int] == m);
    }
    MoveEvent::Displaced { mover: i, from, to, blocker: o, blocker_to: bt }
}

/// Every pair used before is still used after.
pub open spec fn used_grows(a: Seq<(Tile, Tile)>, b: Seq<(Tile, Tile)>) -> bool {
    forall|x: Tile, y: Tile| #[trigger] pair_used(a, x, y) ==> pair_used(b, x, y)
}

/// A step event crosses no diagonal used before it, and a plain diagonal step marks its own.
pub open spec fn respects_used(ev: MoveEvent, before: Seq<(Tile, Tile)>, after: Seq<(Tile, Tile)>) -> bool {
    match ev {
        MoveEvent::Stepped { from, to, .. } => !crosses_used(before, from, to) && (diagonal(from, to) ==> pair_used(after, from, to)),
        MoveEvent::Displaced { from, to, blocker_to, .. } => !crosses_used(before, from, to)
            && (blocker_to != from ==> !crosses_used(before, to, blocker_to)),
        _ => true,
    }
}

/// Step `from`→`to` crosses the plain diagonal step `a`→`b`.
pub open spec fn crosses(from: Tile, to: Tile, a: Tile, b: Tile) -> bool {
    diagonal(from, to) && ((corners(from, to).0 == a && corners(from, to).1 == b) || (corners(from, to).0 == b && corners(from, to).1 == a))
}

/// Event `ev` takes a step that crosses the plain diagonal step `a`→`b`.
pub open spec fn event_crosses(ev: MoveEvent, a: Tile, b: Tile) -> bool {
    match ev {
        MoveEvent::Stepped { from, to, .. } => crosses(from, to, a, b),
        MoveEvent::Displaced { from, to, blocker_to, .. } => crosses(from, to, a, b) || (blocker_to != from && crosses(to, blocker_to, a, b)),
        _ => false,
    }
}

/// Event `ev` is a plain diagonal step from `a` to `b`.
pub open spec fn plain_diagonal(ev: MoveEvent, a: Tile, b: Tile) -> bool {
    ev matches MoveEvent::Stepped { from, to, .. } && from == a && to == b && diagonal(a, b)
}

// ---- the movement step -----------------------------------------------------------------------

/// The steps tried in turn: `trace[k]` is the state before the `k`-th step and `trace[k + 1]`
/// the state after it, with event `moves[k]`.
pub open spec fn resolution_trace(tick: Tick, tried: Seq<Plan>, moves: Seq<MoveEvent>, trace: Seq<Resolution>) -> bool {
    &&& trace.len() == tried.len() + 1
    &&& moves.len() == tried.len()
    &&& forall|k: int| 0 <= k < tried.len() ==> #[trigger] resolve_one(tick, trace[k], tried[k], moves[k], trace[k + 1])
}

/// One movement step: the units decide their steps in index order (`gathered`), the steps are
/// tried by rank then index (`in_rank_order`), each as `resolve_one` says, from a state in which
/// no unit has moved and no diagonal is used; `g2` and `ms2` are the grid and units at the end.
pub open spec fn motion_step(g: StepGrid, ms: Seq<Mover>, intents: Seq<Intent>, tick: Tick, seed: u64,
    g2: StepGrid, ms2: Seq<Mover>, moves: Seq<MoveEvent>) -> bool {
    exists|mid: Seq<Mover>, plans: Seq<Plan>, tried: Seq<Plan>, trace: Seq<Resolution>|
        #![trigger gathered(g, ms, intents, tick, seed, mid, plans), resolution_trace(tick, tried, moves, trace)]
        gathered(g, ms, intents, tick, seed, mid, plans)
        && tried.len() == plans.len()
        && in_rank_order(tried)
        && (forall|p: Plan| tried.contains(p) <==> plans.contains(p))
        && resolution_trace(tick, tried, moves, trace)
        && trace[0] == resolution(g, mid, Seq::new(ms.len(), |j: int| false), Seq::empty())
        && (forall|k: int| 0 <= k < tried.len() ==> #[trigger] tried[k].mover < ms.len())
        && (forall|k: int| 0 <= k < trace.len() ==> (#[trigger] trace[k]).touched.len() == ms.len() && trace[k].movers.len() == ms.len())
        && trace[tried.len() as int].grid == g2
        && trace[tried.len() as int].movers == ms2
}

/// The movement step of a tick: every unit that seeks a step decides it (a kept detour step, or
/// the step down its distance field), then the steps are tried by rank: onto a free cell, by a
/// friendly unit stepping aside, or refused and recorded as a failed move (see `motion_step`).
/// Afterwards every unit still stands on its own cell.
pub fn resolve_motion(grid: &mut StepGrid, cache: &mut FieldCache, version: u32, movers: &mut Vec<Mover>, intents: &Vec<Intent>,
    tick: Tick, seed: u64) -> (moves: Vec<MoveEvent>)
    requires
        old(grid).wf(),
        movers_placed(*old(grid), old(movers)@),
        destinations_inside(*old(grid), old(movers)@),
        goals_inside(*old(grid), intents@),
        old(cache).holds_fields_of(*old(grid), version),
        tick < Tick::MAX,
        forall|j: int| 0 <= j < old(movers)@.len() ==> (#[trigger] old(movers)@[j].movement matches Some(mv) ==> tick + mv.cooldown <= Tick::MAX),
    ensures
        final(grid).wf(),
        movers_placed(*final(grid), final(movers)@),
        destinations_inside(*final(grid), final(movers)@),
        same_ground(*old(grid), *final(grid)),
        final(cache).holds_fields_of(*final(grid), version),
        final(movers)@.len() == old(movers)@.len(),
        motion_step(*old(grid), old(movers)@, intents@, tick, seed, *final(grid), final(movers)@, moves@),
        forall|a: int, b: int, u: int| 0 <= a < b < moves@.len() && #[trigger] moves_unit(moves@[a], u)
            ==> !#[trigger] moves_unit(moves@[b], u),
        forall|x: int, y: int, a: Tile, b: Tile| 0 <= x < y < moves@.len() && #[trigger] plain_diagonal(moves@[x], a, b)
            ==> !#[trigger] event_crosses(moves@[y], a, b),
{
    let ghost g0 = *grid;
    let ghost ms0 = movers@;
    let plans = gather_steps(grid, cache, version, movers, intents, tick, seed);
    let ghost mid = movers@;
    let tried = rank_order(&plans);
    let n = movers.len();
    let mut touched: Vec<bool> = Vec::new();
    let mut j: usize = 0;
    while j < n
        invariant
            j <= n,
            touched@.len() == j,
            forall|q: int| 0 <= q < j ==> !#[trigger] touched@[q],
        decreases n - j,
    {
        touched.push(false);
        j += 1;
    }
    proof {
        assert(touched@ =~= Seq::new(ms0.len(), |q: int| false));
    }
    let mut used: Vec<(Tile, Tile)> = Vec::new();
    let mut moves: Vec<MoveEvent> = Vec::new();
    let ghost mut trace: Seq<Resolution> = seq![resolution(*grid, movers@, touched@, used@)];
    proof {
        assert forall|q: int| 0 <= q < tried@.len() implies
            (#[trigger] tried@[q]).mover < mid.len() && g0.contains(tried@[q].to) && mid[tried@[q].mover as int].movement is Some
            && tried@[q].to != mid[tried@[q].mover as int].state.tile
            && -1 <= tried@[q].to.x - mid[tried@[q].mover as int].state.tile.x <= 1
            && -1 <= tried@[q].to.y - mid[tried@[q].mover as int].state.tile.y <= 1 by {
            assert(tried@.contains(tried@[q]));
            assert(plans@.contains(tried@[q]));
            let a = choose|a: int| 0 <= a < plans@.len() && plans@[a] == tried@[q];
        }
    }
    let mut k: usize = 0;
    while k < tried.len()
        invariant
            0 <= k <= tried@.len(),
            grid.wf(),
            movers_placed(*grid, movers@),
            destinations_inside(*grid, movers@),
            touched@.len() == movers@.len(),
            movers@.len() == mid.len(),
            mid.len() == ms0.len(),
            same_ground(g0, *grid),
            cache.holds_fields_of(*grid, version),
            tick < Tick::MAX,
            forall|q: int| 0 <= q < ms0.len() ==> (#[trigger] ms0[q].movement matches Some(mv) ==> tick + mv.cooldown <= Tick::MAX),
            forall|q: int| 0 <= q < ms0.len() ==> same_but_route(#[trigger] ms0[q], mid[q]),
            forall|q: int| 0 <= q < mid.len() ==> same_unit(#[trigger] mid[q], movers@[q]),
            forall|q: int| 0 <= q < mid.len() && !touched@[q] ==> #[trigger] movers@[q].state.tile == mid[q].state.tile,
            forall|q: int| 0 <= q < tried@.len() ==>
                (#[trigger] tried@[q]).mover < mid.len() && g0.contains(tried@[q].to) && mid[tried@[q].mover as int].movement is Some
                && tried@[q].to != mid[tried@[q].mover as int].state.tile
                && -1 <= tried@[q].to.x - mid[tried@[q].mover as int].state.tile.x <= 1
                && -1 <= tried@[q].to.y - mid[tried@[q].mover as int].state.tile.y <= 1,
            trace.len() == k + 1,
            moves@.len() == k,
            forall|q: int| 0 <= q < k ==> #[trigger] resolve_one(tick, trace[q], tried@[q], moves@[q], trace[q + 1]),
            trace[0] == resolution(g0, mid, Seq::new(ms0.len(), |q: int| false), Seq::empty()),
            trace[k as int] == resolution(*grid, movers@, touched@, used@),
            forall|q: int| 0 <= q < trace.len() ==> (#[trigger] trace[q]).touched.len() == ms0.len() && trace[q].movers.len() == ms0.len(),
            forall|q: int, u: int| 0 <= q < k && #[trigger] moves_unit(moves@[q], u) ==> 0 <= u < ms0.len() && touched@[u],
            forall|a: int, b: int, u: int| 0 <= a < b < k && #[trigger] moves_unit(moves@[a], u)
                ==> !#[trigger] moves_unit(moves@[b], u),
            forall|q: int, a: Tile, b: Tile| 0 <= q < k && #[trigger] plain_diagonal(moves@[q], a, b) ==> pair_used(used@, a, b),
            forall|x: int, y: int, a: Tile, b: Tile| 0 <= x < y < k && #[trigger] plain_diagonal(moves@[x], a, b)
                ==> !#[trigger] event_crosses(moves@[y], a, b),
        decreases tried.len() - k,
    {
        let p = tried[k];
        let ghost before = resolution(*grid, movers@, touched@, used@);
        proof {
            let i = p.mover as int;
            assert(tried@[k as int] == p);
            assert(mid[i].movement is Some);
            assert(same_unit(mid[i], movers@[i]));
            assert forall|q: int| 0 <= q < movers@.len() implies (#[trigger] movers@[q].movement matches Some(mv) ==> tick + mv.cooldown <= Tick::MAX) by {
                assert(same_but_route(ms0[q], mid[q]));
                assert(same_unit(mid[q], movers@[q]));
            }
            assert(grid.contains(p.to));
        }
        let ghost moves_before = moves@;
        let ev = resolve_step(grid, cache, version, movers, &mut touched, &mut used, p, tick, seed);
        moves.push(ev);
        proof {
            let after = resolution(*grid, movers@, touched@, used@);
            let t2 = trace.push(after);
            assert forall|q: int| 0 <= q < k + 1 implies #[trigger] resolve_one(tick, t2[q], tried@[q], moves@[q], t2[q + 1]) by {
                if q < k {
                    assert(t2[q] == trace[q] && t2[q + 1] == trace[q + 1] && moves@[q] == moves_before[q]);
                }
            }
            assert forall|q: int| 0 <= q < t2.len() implies (#[trigger] t2[q]).touched.len() == ms0.len() && t2[q].movers.len() == ms0.len() by {
                if q < trace.len() {
                    assert(t2[q] == trace[q]);
                }
            }
            trace = t2;
            assert forall|q: int, u: int| 0 <= q < k + 1 && #[trigger] moves_unit(moves@[q], u) implies 0 <= u < ms0.len() && touched@[u] by {
                if q < k {
                    assert(moves@[q] == moves_before[q]);
                    assert(before.touched[u]);
                }
            }
            assert forall|q: int, a: Tile, b: Tile| 0 <= q < k + 1 && #[trigger] plain_diagonal(moves@[q], a, b) implies pair_used(used@, a, b) by {
                if q < k {
                    assert(moves@[q] == moves_before[q]);
                    assert(pair_used(before.used, a, b));
                }
            }
            assert forall|x: int, y: int, a: Tile, b: Tile| 0 <= x < y < k + 1 && #[trigger] plain_diagonal(moves@[x], a, b)
                implies !#[trigger] event_crosses(moves@[y], a, b) by {
                assert(moves@[x] == moves_before[x]);
                if y < k {
                    assert(moves@[y] == moves_before[y]);
                } else {
                    assert(pair_used(before.used, a, b));
                    assert(pair_used(before.used, b, a)) by {
                        let q = choose|q: int| 0 <= q < before.used.len() && (#[trigger] before.used[q] == (a, b) || before.used[q] == (b, a));
                    }
                }
            }
            assert forall|a: int, b: int, u: int| 0 <= a < b < k + 1 && #[trigger] moves_unit(moves@[a], u)
                implies !#[trigger] moves_unit(moves@[b], u) by {
                assert(moves@[a] == moves_before[a]);
                if b < k {
                    assert(moves@[b] == moves_before[b]);
                } else {
                    assert(before.touched[u]);
                }
            }
            assert forall|q: int| 0 <= q < mid.len() implies same_unit(#[trigger] mid[q], movers@[q]) by {
                assert(same_unit(before.movers[q], movers@[q]));
            }
            assert forall|q: int| 0 <= q < mid.len() && !touched@[q] implies #[trigger] movers@[q].state.tile == mid[q].state.tile by {
                assert(!before.touched[q]);
            }
        }
        k += 1;
    }
    proof {
        assert forall|q: int| 0 <= q < tried@.len() implies #[trigger] tried@[q].mover < ms0.len() by {
        }
        assert(resolution_trace(tick, tried@, moves@, trace));
        assert(gathered(g0, ms0, intents@, tick, seed, mid, plans@));
    }
    moves
}

// ---- laws ------------------------------------------------------------------------------------

/// Event `ev` moves unit `u`: as the mover of a step or a displacement, or as the displaced unit.
pub open spec fn moves_unit(ev: MoveEvent, u: int) -> bool {
    match ev {
        MoveEvent::Stepped { mover, .. } => mover == u,
        MoveEvent::Displaced { mover, blocker, .. } => mover == u || blocker == u,
        _ => false,
    }
}

} // verus!
