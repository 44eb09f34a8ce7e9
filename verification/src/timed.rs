//! Timed adjudication on the locked state at a history boundary: a player keeps playing only
//! while it owns a completed, living building that provides build ability.
use vstd::prelude::*;
use crate::types::{PlayerId, Tick, TypeKey};
use crate::scoring::{
    contains_player, copy_side, distinct_players, sides, sides_of, sides_valid, views, Multiplayer,
    Side, SideId, SideView,
};
use crate::scoreboard::ScoreboardRules;

verus! {

/// What a match plays for: survival over advancing history, a scoreboard of rounds, or both.
#[derive(Debug, Clone, Copy, PartialEq, Eq, Structural)]
pub enum Objective {
    Timed { lock_ticks_per_round: Tick },
    Scoreboard { rules: ScoreboardRules },
    Hybrid { rules: ScoreboardRules, lock_ticks_per_round: Tick },
}

/// The part of a match configuration that adjudication reads.
#[derive(Debug, Clone, PartialEq, Eq)]
pub struct TimedConfig {
    pub player_count: u8,
    pub multiplayer: Multiplayer,
    pub objective: Objective,
    pub max_tick: Tick,
}

/// What a content type contributes to adjudication.
#[derive(Debug, Clone, PartialEq, Eq)]
pub struct BuildType {
    pub key: TypeKey,
    pub provides_build_ability: bool,
}

#[derive(Debug, Clone, Copy, PartialEq, Eq, Structural)]
pub enum Lifecycle {
    Site,
    Complete,
}

/// The hit points of an entity as adjudication sees them.
#[derive(Debug, Clone, Copy, PartialEq, Eq, Structural)]
pub enum Health {
    Positive,
    Depleted,
    NotFinite,
}

#[derive(Debug, Clone, PartialEq, Eq)]
pub struct LockedEntity {
    pub owner: PlayerId,
    pub type_key: TypeKey,
    pub health: Health,
    pub lifecycle: Lifecycle,
}

/// The locked world at the new boundary.
#[derive(Debug, Clone, PartialEq, Eq)]
pub struct LockedWorld {
    pub tick: Tick,
    pub entities: Vec<LockedEntity>,
}

#[derive(Debug, Clone, Copy, PartialEq, Eq, Structural)]
pub enum TimedStatus {
    Planning,
    HistoryExhausted,
    Finished,
}

#[derive(Debug, Clone, PartialEq, Eq)]
pub struct TimedAdjudication {
    pub boundary: Tick,
    pub timed_lost_players: Vec<PlayerId>,
    pub eligible_sides: Vec<SideId>,
    pub match_winners: Vec<SideId>,
    pub status: TimedStatus,
}

// ---- specification ----------------------------------------------------------------------------

/// The lock increment of an objective with advancing history.
pub open spec fn timed_lock(o: Objective) -> Option<Tick> {
    match o {
        Objective::Timed { lock_ticks_per_round } => Some(lock_ticks_per_round),
        Objective::Hybrid { lock_ticks_per_round, .. } => Some(lock_ticks_per_round),
        Objective::Scoreboard { .. } => None,
    }
}

/// The boundary after `old`: one lock increment later, saturating, and at most `max_tick`.
pub open spec fn next_boundary(old: Tick, lock: Tick, max_tick: Tick) -> Tick {
    let sum = if old + lock > u32::MAX { u32::MAX as int } else { old + lock };
    (if sum < max_tick { sum } else { max_tick as int }) as Tick
}

pub open spec fn known_type(types: Seq<BuildType>, key: Seq<char>) -> bool {
    exists|i: int| 0 <= i < types.len() && (#[trigger] types[i]).key@ == key
}

pub open spec fn is_first_type(types: Seq<BuildType>, key: Seq<char>, i: int) -> bool {
    &&& 0 <= i < types.len()
    &&& types[i].key@ == key
    &&& forall|j: int| 0 <= j < i ==> types[j].key@ != key
}

/// The first type of that key provides build ability.
pub open spec fn provides(types: Seq<BuildType>, key: Seq<char>) -> bool {
    known_type(types, key) && types[choose|i: int| is_first_type(types, key, i)].provides_build_ability
}

pub open spec fn entity_valid(player_count: u8, types: Seq<BuildType>, e: LockedEntity) -> bool {
    &&& e.owner < player_count
    &&& e.health != Health::NotFinite
    &&& known_type(types, e.type_key@)
}

/// A living, completed entity whose type provides build ability.
pub open spec fn entity_capable(types: Seq<BuildType>, e: LockedEntity) -> bool {
    &&& e.health == Health::Positive
    &&& e.lifecycle == Lifecycle::Complete
    &&& provides(types, e.type_key@)
}

/// Player `p` owns a capable entity in the locked world.
pub open spec fn capable(types: Seq<BuildType>, w: Seq<LockedEntity>, p: PlayerId) -> bool {
    exists|i: int| 0 <= i < w.len() && (#[trigger] w[i]).owner == p && entity_capable(types, w[i])
}

/// A side stays eligible while one of its members is capable.
pub open spec fn side_alive(types: Seq<BuildType>, w: Seq<LockedEntity>, side: Side) -> bool {
    exists|j: int| 0 <= j < side.members@.len() && capable(types, w, #[trigger] side.members@[j])
}

/// The eligible sides, in side order.
pub open spec fn eligible(types: Seq<BuildType>, w: Seq<LockedEntity>, s: Seq<Side>) -> Seq<SideView>
    decreases s.len(),
{
    if s.len() == 0 {
        seq![]
    } else {
        let e = eligible(types, w, s.drop_last());
        if side_alive(types, w, s.last()) {
            e.push(s.last().id@)
        } else {
            e
        }
    }
}

pub open spec fn status_of(eligible_count: nat, boundary: Tick, max_tick: Tick) -> TimedStatus {
    if eligible_count <= 1 {
        TimedStatus::Finished
    } else if boundary == max_tick {
        TimedStatus::HistoryExhausted
    } else {
        TimedStatus::Planning
    }
}

/// Adjudication accepts its inputs: an objective with advancing history, a positive increment,
/// the locked state exactly at the new boundary, valid sides and, outside hybrid matches,
/// distinct earlier losses of real players, valid entities, and no earlier loser capable again.
pub open spec fn adjudication_ok(
    config: TimedConfig,
    types: Seq<BuildType>,
    old_boundary: Tick,
    locked: LockedWorld,
    previously_lost: Seq<PlayerId>,
) -> bool {
    match timed_lock(config.objective) {
        None => false,
        Some(lock) => {
            &&& lock > 0
            &&& old_boundary <= config.max_tick
            &&& locked.tick == next_boundary(old_boundary, lock, config.max_tick)
            &&& sides_valid(config.player_count, config.multiplayer)
            &&& (config.objective is Hybrid || {
                &&& previously_lost.no_duplicates()
                &&& forall|i: int| 0 <= i < previously_lost.len() ==> #[trigger] previously_lost[i] < config.player_count
                &&& forall|i: int| 0 <= i < locked.entities@.len() ==> entity_valid(config.player_count, types, #[trigger] locked.entities@[i])
                &&& forall|i: int| 0 <= i < previously_lost.len() ==> !capable(types, locked.entities@, #[trigger] previously_lost[i])
            })
        },
    }
}

/// The adjudication `a` of a locked world whose sides are `s`. A hybrid match only advances its
/// boundary. Otherwise the timed losers are exactly the players without a capable entity, in
/// increasing order; the eligible sides are those with a capable member; a single eligible side
/// wins; with at most one the match is finished, and otherwise history is exhausted at the last
/// tick or planning goes on.
pub open spec fn adjudicated(
    config: TimedConfig,
    types: Seq<BuildType>,
    locked: LockedWorld,
    s: Seq<Side>,
    a: TimedAdjudication,
) -> bool {
    &&& a.boundary == locked.tick
    &&& if config.objective is Hybrid {
        &&& a.timed_lost_players@.len() == 0
        &&& views(a.eligible_sides@) == s.map_values(|x: Side| x.id@)
        &&& a.match_winners@.len() == 0
        &&& a.status == (if a.boundary == config.max_tick { TimedStatus::HistoryExhausted } else { TimedStatus::Planning })
    } else {
        let e = eligible(types, locked.entities@, s);
        &&& forall|p: PlayerId| #[trigger] a.timed_lost_players@.contains(p) <==> p < config.player_count && !capable(types, locked.entities@, p)
        &&& forall|i: int, j: int| 0 <= i < j < a.timed_lost_players@.len() ==> #[trigger] a.timed_lost_players@[i] < #[trigger] a.timed_lost_players@[j]
        &&& views(a.eligible_sides@) == e
        &&& views(a.match_winners@) == (if e.len() == 1 { e } else { seq![] })
        &&& a.status == status_of(e.len(), a.boundary, config.max_tick)
    }
}

// ---- execution --------------------------------------------------------------------------------

fn find_type(types: &Vec<BuildType>, key: &String) -> (r: Option<bool>)
    ensures
        r is Some <==> known_type(types@, key@),
        r matches Some(b) ==> b == provides(types@, key@),
{
    let mut i: usize = 0;
    while i < types.len()
        invariant
            0 <= i <= types@.len(),
            forall|j: int| 0 <= j < i ==> types@[j].key@ != key@,
        decreases types.len() - i,
    {
        if types[i].key == *key {
            proof {
                assert(is_first_type(types@, key@, i as int));
                let c = choose|c: int| is_first_type(types@, key@, c);
                if c < i {
                    assert(types@[c].key@ != key@);
                } else if c > i {
                    assert(types@[i as int].key@ != key@);
                }
            }
            return Some(types[i].provides_build_ability);
        }
        i += 1;
    }
    None
}

/// Checks every entity and marks, per player, whether it owns a capable entity.
fn capable_players(player_count: u8, types: &Vec<BuildType>, w: &Vec<LockedEntity>) -> (r: Option<Vec<bool>>)
    ensures
        r is Some <==> forall|i: int| 0 <= i < w@.len() ==> entity_valid(player_count, types@, #[trigger] w@[i]),
        r matches Some(cap) ==> cap@.len() == player_count
            && forall|p: int| 0 <= p < player_count ==> (cap@[p] <==> capable(types@, w@, p as PlayerId)),
{
    let mut cap: Vec<bool> = Vec::new();
    let mut p: u8 = 0;
    while p < player_count
        invariant
            p <= player_count,
            cap@.len() == p,
            forall|q: int| 0 <= q < p ==> !cap@[q],
        decreases player_count - p,
    {
        cap.push(false);
        p += 1;
    }
    let mut i: usize = 0;
    while i < w.len()
        invariant
            0 <= i <= w@.len(),
            cap@.len() == player_count,
            forall|j: int| 0 <= j < i ==> entity_valid(player_count, types@, #[trigger] w@[j]),
            forall|q: int| 0 <= q < player_count ==> (cap@[q] <==> exists|j: int|
                0 <= j < i && (#[trigger] w@[j]).owner == q && entity_capable(types@, w@[j])),
        decreases w.len() - i,
    {
        let e = &w[i];
        if e.owner >= player_count || e.health == Health::NotFinite {
            return None;
        }
        let provides_ability = match find_type(types, &e.type_key) {
            None => {
                return None;
            },
            Some(b) => b,
        };
        if e.health == Health::Positive && e.lifecycle == Lifecycle::Complete && provides_ability {
            let o = e.owner as usize;
            cap.set(o, true);
        }
        proof {
            assert forall|q: int| 0 <= q < player_count implies (cap@[q] <==> exists|j: int|
                0 <= j < i + 1 && (#[trigger] w@[j]).owner == q && entity_capable(types@, w@[j])) by {
                if cap@[q] && !(exists|j: int| 0 <= j < i && (#[trigger] w@[j]).owner == q && entity_capable(types@, w@[j])) {
                    assert(w@[i as int].owner == q && entity_capable(types@, w@[i as int]));
                }
            }
        }
        i += 1;
    }
    proof {
        assert forall|q: int| 0 <= q < player_count implies (cap@[q] <==> capable(types@, w@, q as PlayerId)) by {
            if capable(types@, w@, q as PlayerId) {
                let j = choose|j: int| 0 <= j < w@.len() && (#[trigger] w@[j]).owner == q as PlayerId && entity_capable(types@, w@[j]);
                assert(w@[j].owner == q);
            }
        }
    }
    Some(cap)
}

/// Players below `player_count` that are not capable, in increasing order.
fn losers(player_count: u8, cap: &Vec<bool>) -> (r: Vec<PlayerId>)
    requires
        cap@.len() == player_count,
    ensures
        forall|p: PlayerId| #[trigger] r@.contains(p) <==> p < player_count && !cap@[p as int],
        forall|i: int, j: int| 0 <= i < j < r@.len() ==> #[trigger] r@[i] < #[trigger] r@[j],
{
    let mut r: Vec<PlayerId> = Vec::new();
    let mut p: u8 = 0;
    while p < player_count
        invariant
            p <= player_count,
            cap@.len() == player_count,
            forall|q: PlayerId| #[trigger] r@.contains(q) <==> q < p && !cap@[q as int],
            forall|i: int| 0 <= i < r@.len() ==> #[trigger] r@[i] < p,
            forall|i: int, j: int| 0 <= i < j < r@.len() ==> #[trigger] r@[i] < #[trigger] r@[j],
        decreases player_count - p,
    {
        if !cap[p as usize] {
            let ghost before = r@;
            r.push(p);
            proof {
                assert forall|q: PlayerId| #[trigger] r@.contains(q) <==> q < p + 1 && !cap@[q as int] by {
                    assert(r@ == before.push(p));
                    if r@.contains(q) {
                        let k = choose|k: int| 0 <= k < r@.len() && r@[k] == q;
                        if k < before.len() {
                            assert(before[k] == q);
                            assert(before.contains(q));
                        }
                    }
                    if q < p + 1 && !cap@[q as int] {
                        if q < p {
                            assert(before.contains(q));
                            let k = choose|k: int| 0 <= k < before.len() && before[k] == q;
                            assert(r@[k] == q);
                        } else {
                            assert(r@[before.len() as int] == q);
                        }
                    }
                }
            }
        } else {
            assert forall|q: PlayerId| #[trigger] r@.contains(q) <==> q < p + 1 && !cap@[q as int] by {
                if q == p {
                    if r@.contains(q) {
                        let k = choose|k: int| 0 <= k < r@.len() && r@[k] == q;
                    }
                }
            }
        }
        p += 1;
    }
    r
}

fn side_alive_exec(player_count: u8, cap: &Vec<bool>, side: &Side, Ghost(types): Ghost<Seq<BuildType>>, Ghost(w): Ghost<Seq<LockedEntity>>) -> (r: bool)
    requires
        cap@.len() == player_count,
        forall|p: int| 0 <= p < player_count ==> (cap@[p] <==> capable(types, w, p as PlayerId)),
        forall|i: int| 0 <= i < w.len() ==> (#[trigger] w[i]).owner < player_count,
    ensures
        r == side_alive(types, w, *side),
{
    let mut j: usize = 0;
    while j < side.members.len()
        invariant
            0 <= j <= side.members@.len(),
            cap@.len() == player_count,
            forall|p: int| 0 <= p < player_count ==> (cap@[p] <==> capable(types, w, p as PlayerId)),
            forall|i: int| 0 <= i < w.len() ==> (#[trigger] w[i]).owner < player_count,
            forall|k: int| 0 <= k < j ==> !capable(types, w, #[trigger] side.members@[k]),
        decreases side.members.len() - j,
    {
        let m = side.members[j];
        if m < player_count && cap[m as usize] {
            return true;
        }
        proof {
            if m >= player_count && capable(types, w, m) {
                let i = choose|i: int| 0 <= i < w.len() && (#[trigger] w[i]).owner == m && entity_capable(types, w[i]);
            }
        }
        j += 1;
    }
    false
}

fn eligible_exec(player_count: u8, cap: &Vec<bool>, s: &Vec<Side>, Ghost(types): Ghost<Seq<BuildType>>, Ghost(w): Ghost<Seq<LockedEntity>>) -> (r: Vec<SideId>)
    requires
        cap@.len() == player_count,
        forall|p: int| 0 <= p < player_count ==> (cap@[p] <==> capable(types, w, p as PlayerId)),
        forall|i: int| 0 <= i < w.len() ==> (#[trigger] w[i]).owner < player_count,
    ensures
        views(r@) == eligible(types, w, s@),
{
    let mut r: Vec<SideId> = Vec::new();
    let mut k: usize = 0;
    while k < s.len()
        invariant
            0 <= k <= s@.len(),
            cap@.len() == player_count,
            forall|p: int| 0 <= p < player_count ==> (cap@[p] <==> capable(types, w, p as PlayerId)),
            forall|i: int| 0 <= i < w.len() ==> (#[trigger] w[i]).owner < player_count,
            views(r@) == eligible(types, w, s@.take(k as int)),
        decreases s.len() - k,
    {
        assert(s@.take(k as int + 1).drop_last() == s@.take(k as int));
        if side_alive_exec(player_count, cap, &s[k], Ghost(types), Ghost(w)) {
            let ghost before = r@;
            r.push(copy_side(&s[k].id));
            assert(views(r@) == views(before).push(s@[k as int].id@));
        }
        k += 1;
    }
    assert(s@.take(s@.len() as int) == s@);
    r
}

fn all_side_ids(s: &Vec<Side>) -> (r: Vec<SideId>)
    ensures
        views(r@) == s@.map_values(|x: Side| x.id@),
{
    let mut r: Vec<SideId> = Vec::new();
    let mut k: usize = 0;
    while k < s.len()
        invariant
            0 <= k <= s@.len(),
            r@.len() == k,
            forall|j: int| 0 <= j < k ==> (#[trigger] r@[j])@ == s@[j].id@,
        decreases s.len() - k,
    {
        r.push(copy_side(&s[k].id));
        k += 1;
    }
    assert(views(r@) =~= s@.map_values(|x: Side| x.id@));
    r
}

pub(crate) fn copy_ids(v: &Vec<SideId>) -> (r: Vec<SideId>)
    ensures
        views(r@) == views(v@),
{
    let mut r: Vec<SideId> = Vec::new();
    let mut k: usize = 0;
    while k < v.len()
        invariant
            0 <= k <= v@.len(),
            r@.len() == k,
            forall|j: int| 0 <= j < k ==> (#[trigger] r@[j])@ == v@[j]@,
        decreases v.len() - k,
    {
        r.push(copy_side(&v[k]));
        k += 1;
    }
    assert(views(r@) =~= views(v@));
    r
}

/// The tick a round's run must reach at least: one lock increment past the editable start,
/// at most the horizon, for objectives that advance history; 0 for a scoreboard.
pub fn minimum_end_tick(objective: &Objective, max_tick: Tick, editable_from: Tick) -> (r: Tick)
    requires
        timed_lock(*objective) matches Some(lock) ==> editable_from + lock <= u32::MAX,
    ensures
        r == match timed_lock(*objective) {
            Some(lock) => if editable_from + lock < max_tick { (editable_from + lock) as Tick } else { max_tick },
            None => 0,
        },
{
    match objective {
        Objective::Timed { lock_ticks_per_round } | Objective::Hybrid { lock_ticks_per_round, .. } => {
            let end = editable_from + *lock_ticks_per_round;
            if end < max_tick {
                end
            } else {
                max_tick
            }
        },
        Objective::Scoreboard { .. } => 0,
    }
}

/// Adjudicates the locked state at the next boundary. Never infers a timed loss from a mutable
/// simulation endpoint: only the locked world at exactly the new boundary counts, and a player
/// once lost stays lost.
#[verifier::loop_isolation(false)]
pub fn adjudicate(
    config: &TimedConfig,
    types: &Vec<BuildType>,
    old_boundary: Tick,
    locked: &LockedWorld,
    previously_lost: &Vec<PlayerId>,
) -> (r: Result<TimedAdjudication, String>)
    ensures
        r is Ok <==> adjudication_ok(*config, types@, old_boundary, *locked, previously_lost@),
        r matches Ok(a) ==> exists|s: Seq<Side>|
            #[trigger] sides_of(config.player_count, config.multiplayer, s) && adjudicated(*config, types@, *locked, s, a),
{
    let lock = match config.objective {
        Objective::Timed { lock_ticks_per_round } => lock_ticks_per_round,
        Objective::Hybrid { lock_ticks_per_round, .. } => lock_ticks_per_round,
        Objective::Scoreboard { .. } => {
            return Err("timed adjudication requires an advancing-history configuration".to_string());
        },
    };
    if lock == 0 || old_boundary > config.max_tick {
        return Err("invalid timed boundary/increment".to_string());
    }
    let sum = old_boundary.saturating_add(lock);
    let boundary = if sum < config.max_tick { sum } else { config.max_tick };
    if locked.tick != boundary {
        return Err("adjudication requires exact S[new_L]".to_string());
    }
    let s = sides(config.player_count, &config.multiplayer)?;
    assert(sides_of(config.player_count, config.multiplayer, s@));
    if let Objective::Hybrid { .. } = config.objective {
        let status = if boundary == config.max_tick { TimedStatus::HistoryExhausted } else { TimedStatus::Planning };
        return Ok(TimedAdjudication {
            boundary,
            timed_lost_players: Vec::new(),
            eligible_sides: all_side_ids(&s),
            match_winners: Vec::new(),
            status,
        });
    }
    let pc = config.player_count;
    assert(!(config.objective is Hybrid));
    if !distinct_players(previously_lost) {
        return Err("invalid previous timed losses".to_string());
    }
    let mut i: usize = 0;
    while i < previously_lost.len()
        invariant
            0 <= i <= previously_lost@.len(),
            forall|j: int| 0 <= j < i ==> #[trigger] previously_lost@[j] < pc,
        decreases previously_lost.len() - i,
    {
        if previously_lost[i] >= pc {
            assert(previously_lost@[i as int] >= pc);
            return Err("invalid previous timed losses".to_string());
        }
        i += 1;
    }
    let cap = match capable_players(pc, types, &locked.entities) {
        None => {
            return Err("invalid locked entity".to_string());
        },
        Some(c) => c,
    };
    let mut i: usize = 0;
    while i < previously_lost.len()
        invariant
            0 <= i <= previously_lost@.len(),
            cap@.len() == pc,
            forall|j: int| 0 <= j < previously_lost@.len() ==> #[trigger] previously_lost@[j] < pc,
            forall|p: int| 0 <= p < pc ==> (cap@[p] <==> capable(types@, locked.entities@, p as PlayerId)),
            forall|j: int| 0 <= j < i ==> !capable(types@, locked.entities@, #[trigger] previously_lost@[j]),
        decreases previously_lost.len() - i,
    {
        if cap[previously_lost[i] as usize] {
            assert(capable(types@, locked.entities@, previously_lost@[i as int]));
            return Err("locked history restores a previously timed-lost player; finalization premise changed".to_string());
        }
        i += 1;
    }
    let lost = losers(pc, &cap);
    assert(forall|i: int| 0 <= i < locked.entities@.len() ==> (#[trigger] locked.entities@[i]).owner < pc);
    let eligible_sides = eligible_exec(pc, &cap, &s, Ghost(types@), Ghost(locked.entities@));
    let ghost e = eligible(types@, locked.entities@, s@);
    let n = eligible_sides.len();
    let status = if n <= 1 {
        TimedStatus::Finished
    } else if boundary == config.max_tick {
        TimedStatus::HistoryExhausted
    } else {
        TimedStatus::Planning
    };
    let match_winners = if n == 1 { copy_ids(&eligible_sides) } else { Vec::new() };
    proof {
        if n != 1 {
            assert(views(match_winners@) =~= Seq::<SideView>::empty());
        }
        assert forall|p: PlayerId| #[trigger] lost@.contains(p) <==> p < pc && !capable(types@, locked.entities@, p) by {
            if p < pc {
                assert(cap@[p as int] <==> capable(types@, locked.entities@, p));
            } else if capable(types@, locked.entities@, p) {
                let i = choose|i: int| 0 <= i < locked.entities@.len() && (#[trigger] locked.entities@[i]).owner == p && entity_capable(types@, locked.entities@[i]);
            }
        }
    }
    Ok(TimedAdjudication { boundary, timed_lost_players: lost, eligible_sides, match_winners, status })
}

// ---- laws ----------------------------------------------------------------------------------------

/// A player once timed-lost stays lost: every earlier loss is among the losses of an accepted
/// adjudication of a timed match.
pub proof fn law_losses_persist(
    config: TimedConfig,
    types: Seq<BuildType>,
    old_boundary: Tick,
    locked: LockedWorld,
    previously_lost: Seq<PlayerId>,
    s: Seq<Side>,
    a: TimedAdjudication,
)
    requires
        adjudication_ok(config, types, old_boundary, locked, previously_lost),
        adjudicated(config, types, locked, s, a),
        !(config.objective is Hybrid),
    ensures
        forall|i: int| 0 <= i < previously_lost.len() ==> a.timed_lost_players@.contains(#[trigger] previously_lost[i]),
{
    assert forall|i: int| 0 <= i < previously_lost.len() implies a.timed_lost_players@.contains(#[trigger] previously_lost[i]) by {
        assert(previously_lost[i] < config.player_count);
        assert(!capable(types, locked.entities@, previously_lost[i]));
    }
}

/// A timed match names a winner exactly when one side is left eligible, and it is finished
/// exactly when at most one side is left.
pub proof fn law_single_survivor_wins(config: TimedConfig, types: Seq<BuildType>, locked: LockedWorld, s: Seq<Side>, a: TimedAdjudication)
    requires
        adjudicated(config, types, locked, s, a),
        !(config.objective is Hybrid),
    ensures
        a.match_winners@.len() > 0 <==> a.eligible_sides@.len() == 1,
        a.match_winners@.len() > 0 ==> views(a.match_winners@) == views(a.eligible_sides@),
        a.status == TimedStatus::Finished <==> a.eligible_sides@.len() <= 1,
{
    assert(views(a.match_winners@).len() == a.match_winners@.len());
    assert(views(a.eligible_sides@).len() == a.eligible_sides@.len());
}

proof fn lemma_eligible_contains(types: Seq<BuildType>, w: Seq<LockedEntity>, s: Seq<Side>, v: SideView)
    ensures
        eligible(types, w, s).contains(v) <==> exists|k: int| 0 <= k < s.len() && side_alive(types, w, #[trigger] s[k]) && s[k].id@ == v,
    decreases s.len(),
{
    if s.len() > 0 {
        let p = s.drop_last();
        lemma_eligible_contains(types, w, p, v);
        let e = eligible(types, w, p);
        if exists|k: int| 0 <= k < s.len() && side_alive(types, w, #[trigger] s[k]) && s[k].id@ == v {
            let k = choose|k: int| 0 <= k < s.len() && side_alive(types, w, #[trigger] s[k]) && s[k].id@ == v;
            if k < s.len() - 1 {
                assert(p[k] == s[k]);
                let q = choose|q: int| 0 <= q < e.len() && e[q] == v;
                if side_alive(types, w, s.last()) {
                    assert(e.push(s.last().id@)[q] == v);
                }
            } else {
                assert(e.push(s.last().id@)[e.len() as int] == v);
            }
        }
        if eligible(types, w, s).contains(v) {
            let q = choose|q: int| 0 <= q < eligible(types, w, s).len() && eligible(types, w, s)[q] == v;
            if q < e.len() {
                if side_alive(types, w, s.last()) {
                    assert(e.push(s.last().id@)[q] == e[q]);
                }
                assert(e.contains(v));
                let k = choose|k: int| 0 <= k < p.len() && side_alive(types, w, #[trigger] p[k]) && p[k].id@ == v;
                assert(s[k] == p[k]);
            } else {
                assert(side_alive(types, w, s[s.len() - 1]));
            }
        }
    }
}

/// A side stays eligible while any one of its members owns a living, completed entity whose type
/// (the first of its key) provides build ability, however its other members fared; and that
/// member is not timed-lost.
pub proof fn law_side_with_capable_member_eligible(
    config: TimedConfig,
    types: Seq<BuildType>,
    locked: LockedWorld,
    s: Seq<Side>,
    a: TimedAdjudication,
    k: int,
    j: int,
    i: int,
    t: int,
)
    requires
        adjudicated(config, types, locked, s, a),
        !(config.objective is Hybrid),
        0 <= k < s.len(),
        0 <= j < s[k].members@.len(),
        0 <= i < locked.entities@.len(),
        locked.entities@[i].owner == s[k].members@[j],
        locked.entities@[i].health == Health::Positive,
        locked.entities@[i].lifecycle == Lifecycle::Complete,
        0 <= t < types.len(),
        types[t].key@ == locked.entities@[i].type_key@,
        forall|u: int| 0 <= u < t ==> types[u].key@ != locked.entities@[i].type_key@,
        types[t].provides_build_ability,
    ensures
        views(a.eligible_sides@).contains(s[k].id@),
        !a.timed_lost_players@.contains(s[k].members@[j]),
{
    let w = locked.entities@;
    let key = w[i].type_key@;
    assert(is_first_type(types, key, t));
    let c = choose|c: int| is_first_type(types, key, c);
    assert(c == t) by {
        if c < t {
            assert(types[c].key@ != key);
        } else if c > t {
            assert(types[t].key@ != key);
        }
    }
    assert(entity_capable(types, w[i]));
    assert(capable(types, w, s[k].members@[j]));
    assert(side_alive(types, w, s[k]));
    lemma_eligible_contains(types, w, s, s[k].id@);
}

/// Every eligible side is a side of the match with a member that owns a living, completed entity
/// whose type provides build ability.
pub proof fn law_eligible_side_has_capable_member(
    config: TimedConfig,
    types: Seq<BuildType>,
    locked: LockedWorld,
    s: Seq<Side>,
    a: TimedAdjudication,
    v: SideView,
)
    requires
        adjudicated(config, types, locked, s, a),
        !(config.objective is Hybrid),
        views(a.eligible_sides@).contains(v),
    ensures
        exists|k: int, j: int, i: int| 0 <= k < s.len() && 0 <= j < s[k].members@.len() && 0 <= i < locked.entities@.len()
            && #[trigger] s[k].id@ == v
            && #[trigger] locked.entities@[i].owner == #[trigger] s[k].members@[j]
            && locked.entities@[i].health == Health::Positive
            && locked.entities@[i].lifecycle == Lifecycle::Complete
            && provides(types, locked.entities@[i].type_key@),
{
    let w = locked.entities@;
    lemma_eligible_contains(types, w, s, v);
    let k = choose|k: int| 0 <= k < s.len() && side_alive(types, w, #[trigger] s[k]) && s[k].id@ == v;
    let j = choose|j: int| 0 <= j < s[k].members@.len() && capable(types, w, #[trigger] s[k].members@[j]);
    let i = choose|i: int| 0 <= i < w.len() && (#[trigger] w[i]).owner == s[k].members@[j] && entity_capable(types, w[i]);
    assert(s[k].id@ == v && w[i].owner == s[k].members@[j]);
}

/// A player of a timed match is timed-lost exactly when it owns no living, completed entity whose
/// type provides build ability.
pub proof fn law_timed_loss_exact(config: TimedConfig, types: Seq<BuildType>, locked: LockedWorld, s: Seq<Side>, a: TimedAdjudication, p: PlayerId)
    requires
        adjudicated(config, types, locked, s, a),
        !(config.objective is Hybrid),
        p < config.player_count,
    ensures
        a.timed_lost_players@.contains(p) <==> !exists|i: int| 0 <= i < locked.entities@.len()
            && #[trigger] locked.entities@[i].owner == p
            && locked.entities@[i].health == Health::Positive
            && locked.entities@[i].lifecycle == Lifecycle::Complete
            && provides(types, locked.entities@[i].type_key@),
{
    assert(a.timed_lost_players@.contains(p) <==> !capable(types, locked.entities@, p));
}

} // verus!
