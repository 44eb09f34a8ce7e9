//! Survival: after each tick a player is eliminated while they hold no completed building that
//! counts for survival or nothing completed that can build; every change of status is recorded.
use vstd::prelude::*;
use crate::types::{PlayerId, Tick};

verus! {

/// Why a player is eliminated.
#[derive(Debug, Clone, Copy, PartialEq, Eq, Structural)]
pub enum Reason {
    NoActiveBuilding,
    NoBuildAbility,
}

#[derive(Debug, Clone, Copy, PartialEq, Eq, Structural)]
pub enum SurvivalStatus {
    Alive,
    Eliminated,
}

/// A change of a player's status, resolved at a tick.
#[derive(Debug, Clone, PartialEq, Eq)]
pub struct SurvivalTransition {
    pub player_id: PlayerId,
    pub resolved_tick: Tick,
    pub status: SurvivalStatus,
    pub reasons: Vec<Reason>,
}

/// What survival reads of an entity: its owner, whether it is complete, and what its type
/// provides.
#[derive(Debug, Clone, Copy, PartialEq, Eq, Structural)]
pub struct Standing {
    pub owner: PlayerId,
    pub complete: bool,
    pub counts_for_survival: bool,
    pub provides_build_ability: bool,
}

/// What survival keeps of a player.
#[derive(Debug, Clone, PartialEq, Eq)]
pub struct PlayerSurvival {
    pub currently_eliminated: bool,
    pub status_since_tick: Tick,
    pub elimination_reasons: Vec<Reason>,
}

/// The player holds a completed entity that counts for survival.
pub open spec fn has_active(ents: Seq<Standing>, p: int) -> bool {
    exists|i: int| 0 <= i < ents.len() && (#[trigger] ents[i]).owner == p && ents[i].complete && ents[i].counts_for_survival
}

/// The player holds a completed entity that can build.
pub open spec fn has_builder(ents: Seq<Standing>, p: int) -> bool {
    exists|i: int| 0 <= i < ents.len() && (#[trigger] ents[i]).owner == p && ents[i].complete && ents[i].provides_build_ability
}

pub open spec fn reasons_for(ents: Seq<Standing>, p: int) -> Seq<Reason> {
    (if has_active(ents, p) { Seq::empty() } else { seq![Reason::NoActiveBuilding] })
        + (if has_builder(ents, p) { Seq::empty() } else { seq![Reason::NoBuildAbility] })
}

pub open spec fn eliminated_for(ents: Seq<Standing>, p: int) -> bool {
    !has_active(ents, p) || !has_builder(ents, p)
}

pub open spec fn status_of(eliminated: bool) -> SurvivalStatus {
    if eliminated { SurvivalStatus::Eliminated } else { SurvivalStatus::Alive }
}

/// A transition as plain values: player, status and reasons.
pub open spec fn transition_view(t: SurvivalTransition) -> (PlayerId, SurvivalStatus, Seq<Reason>) {
    (t.player_id, t.status, t.reasons@)
}

/// The transitions of players `0..k` whose status changes, in player order.
pub open spec fn changes(players: Seq<PlayerSurvival>, ents: Seq<Standing>, k: int) -> Seq<(PlayerId, SurvivalStatus, Seq<Reason>)>
    decreases k,
{
    if k <= 0 {
        Seq::empty()
    } else {
        let p = k - 1;
        let prev = changes(players, ents, p);
        if players[p].currently_eliminated != eliminated_for(ents, p) {
            prev.push((p as PlayerId, status_of(eliminated_for(ents, p)), reasons_for(ents, p)))
        } else {
            prev
        }
    }
}

/// A player's state after survival at `tick`: its status and reasons from the entities, and the
/// tick after `tick` as the start of a status that just changed.
pub open spec fn survived(old: PlayerSurvival, ents: Seq<Standing>, p: int, tick: Tick, new: PlayerSurvival) -> bool {
    &&& new.currently_eliminated == eliminated_for(ents, p)
    &&& new.elimination_reasons@ == reasons_for(ents, p)
    &&& new.status_since_tick == (if old.currently_eliminated != eliminated_for(ents, p) { (tick + 1) as Tick } else { old.status_since_tick })
}

fn reasons_exec(active: bool, build: bool) -> (r: Vec<Reason>)
    ensures
        r@ == (if active { Seq::empty() } else { seq![Reason::NoActiveBuilding] })
            + (if build { Seq::<Reason>::empty() } else { seq![Reason::NoBuildAbility] }),
{
    let mut r: Vec<Reason> = Vec::new();
    if !active {
        r.push(Reason::NoActiveBuilding);
    }
    if !build {
        r.push(Reason::NoBuildAbility);
    }
    proof {
        assert(r@ =~= (if active { Seq::empty() } else { seq![Reason::NoActiveBuilding] })
            + (if build { Seq::<Reason>::empty() } else { seq![Reason::NoBuildAbility] }));
    }
    r
}

/// Resolves survival after `tick`: updates each player's status and reasons from the completed
/// entities and returns the transitions of the players whose status changed, in player order.
pub fn survival(tick: Tick, entities: &Vec<Standing>, players: &mut Vec<PlayerSurvival>) -> (transitions: Vec<SurvivalTransition>)
    requires
        tick < Tick::MAX,
        old(players)@.len() <= 256,
        forall|i: int| 0 <= i < entities@.len() ==> (#[trigger] entities@[i]).owner < old(players)@.len(),
    ensures
        final(players)@.len() == old(players)@.len(),
        forall|p: int| 0 <= p < old(players)@.len() ==> survived(old(players)@[p], entities@, p, tick, #[trigger] final(players)@[p]),
        transitions@.map_values(|t: SurvivalTransition| transition_view(t)) == changes(old(players)@, entities@, old(players)@.len() as int),
        forall|i: int| 0 <= i < transitions@.len() ==> (#[trigger] transitions@[i]).resolved_tick == tick,
{
    let count = players.len();
    let mut active: Vec<bool> = vec![false; count];
    let mut build: Vec<bool> = vec![false; count];
    let mut i: usize = 0;
    while i < entities.len()
        invariant
            0 <= i <= entities@.len(),
            count == old(players)@.len(),
            players@ == old(players)@,
            active@.len() == count,
            build@.len() == count,
            forall|j: int| 0 <= j < entities@.len() ==> (#[trigger] entities@[j]).owner < count,
            forall|p: int| 0 <= p < count ==> (#[trigger] active@[p] <==> has_active(entities@.take(i as int), p)),
            forall|p: int| 0 <= p < count ==> (#[trigger] build@[p] <==> has_builder(entities@.take(i as int), p)),
        decreases entities.len() - i,
    {
        let e = entities[i];
        let ghost pre = entities@.take(i as int);
        let ghost post = entities@.take(i + 1);
        proof {
            assert(post == pre.push(e));
        }
        if e.complete {
            let o = e.owner as usize;
            if e.counts_for_survival {
                active.set(o, true);
            }
            if e.provides_build_ability {
                build.set(o, true);
            }
        }
        proof {
            assert forall|p: int| 0 <= p < count implies (#[trigger] active@[p] <==> has_active(post, p)) by {
                if has_active(post, p) {
                    let j = choose|j: int| 0 <= j < post.len() && (#[trigger] post[j]).owner == p && post[j].complete && post[j].counts_for_survival;
                    if j < pre.len() {
                        assert(pre[j] == post[j]);
                        assert(has_active(pre, p));
                    }
                }
                if has_active(pre, p) {
                    let j = choose|j: int| 0 <= j < pre.len() && (#[trigger] pre[j]).owner == p && pre[j].complete && pre[j].counts_for_survival;
                    assert(post[j] == pre[j]);
                }
                if e.complete && e.counts_for_survival && e.owner == p {
                    assert(post[i as int] == e);
                }
            }
            assert forall|p: int| 0 <= p < count implies (#[trigger] build@[p] <==> has_builder(post, p)) by {
                if has_builder(post, p) {
                    let j = choose|j: int| 0 <= j < post.len() && (#[trigger] post[j]).owner == p && post[j].complete && post[j].provides_build_ability;
                    if j < pre.len() {
                        assert(pre[j] == post[j]);
                        assert(has_builder(pre, p));
                    }
                }
                if has_builder(pre, p) {
                    let j = choose|j: int| 0 <= j < pre.len() && (#[trigger] pre[j]).owner == p && pre[j].complete && pre[j].provides_build_ability;
                    assert(post[j] == pre[j]);
                }
                if e.complete && e.provides_build_ability && e.owner == p {
                    assert(post[i as int] == e);
                }
            }
        }
        i += 1;
    }
    proof {
        assert(entities@.take(i as int) == entities@);
    }
    let mut transitions: Vec<SurvivalTransition> = Vec::new();
    let mut p: usize = 0;
    while p < count
        invariant
            0 <= p <= count,
            count == old(players)@.len(),
            count <= 256,
            tick < Tick::MAX,
            players@.len() == count,
            active@.len() == count,
            build@.len() == count,
            forall|q: int| 0 <= q < count ==> (#[trigger] active@[q] <==> has_active(entities@, q)),
            forall|q: int| 0 <= q < count ==> (#[trigger] build@[q] <==> has_builder(entities@, q)),
            forall|q: int| p <= q < count ==> #[trigger] players@[q] == old(players)@[q],
            forall|q: int| 0 <= q < p ==> survived(old(players)@[q], entities@, q, tick, #[trigger] players@[q]),
            transitions@.map_values(|t: SurvivalTransition| transition_view(t)) == changes(old(players)@, entities@, p as int),
            forall|j: int| 0 <= j < transitions@.len() ==> (#[trigger] transitions@[j]).resolved_tick == tick,
        decreases count - p,
    {
        let a = active[p];
        let b = build[p];
        let eliminated = !a || !b;
        let was = players[p].currently_eliminated;
        let since = players[p].status_since_tick;
        let ghost before = transitions@;
        if was != eliminated {
            let status = if eliminated { SurvivalStatus::Eliminated } else { SurvivalStatus::Alive };
            transitions.push(SurvivalTransition {
                player_id: p as PlayerId,
                resolved_tick: tick,
                status,
                reasons: reasons_exec(a, b),
            });
        }
        let new_since = if was != eliminated { tick + 1 } else { since };
        players.set(p, PlayerSurvival {
            currently_eliminated: eliminated,
            status_since_tick: new_since,
            elimination_reasons: reasons_exec(a, b),
        });
        proof {
            let pi = p as int;
            assert(changes(old(players)@, entities@, pi + 1) == (if old(players)@[pi].currently_eliminated != eliminated_for(entities@, pi) {
                changes(old(players)@, entities@, pi).push((pi as PlayerId, status_of(eliminated_for(entities@, pi)), reasons_for(entities@, pi)))
            } else {
                changes(old(players)@, entities@, pi)
            }));
            assert(transitions@.map_values(|t: SurvivalTransition| transition_view(t)) =~= changes(old(players)@, entities@, pi + 1)) by {
                if was != eliminated {
                    assert(transitions@ == before.push(transitions@[before.len() as int]));
                    assert(transitions@.map_values(|t: SurvivalTransition| transition_view(t))
                        =~= before.map_values(|t: SurvivalTransition| transition_view(t)).push(transition_view(transitions@[before.len() as int])));
                }
            }
        }
        p += 1;
    }
    transitions
}

/// Survival settles: resolving it again at the same tick over the same entities changes no
/// status and records no transition.
pub proof fn law_survival_settles(before: Seq<PlayerSurvival>, after: Seq<PlayerSurvival>, ents: Seq<Standing>, tick: Tick)
    requires
        after.len() == before.len(),
        forall|p: int| 0 <= p < before.len() ==> survived(before[p], ents, p, tick, #[trigger] after[p]),
    ensures
        changes(after, ents, after.len() as int) == Seq::<(PlayerId, SurvivalStatus, Seq<Reason>)>::empty(),
        forall|p: int| 0 <= p < after.len() ==> #[trigger] after[p].currently_eliminated == eliminated_for(ents, p),
{
    lemma_no_changes(after, ents, after.len() as int, before, tick);
}

proof fn lemma_no_changes(after: Seq<PlayerSurvival>, ents: Seq<Standing>, k: int, before: Seq<PlayerSurvival>, tick: Tick)
    requires
        0 <= k <= after.len(),
        after.len() == before.len(),
        forall|p: int| 0 <= p < before.len() ==> survived(before[p], ents, p, tick, #[trigger] after[p]),
    ensures
        changes(after, ents, k) == Seq::<(PlayerId, SurvivalStatus, Seq<Reason>)>::empty(),
    decreases k,
{
    if k > 0 {
        lemma_no_changes(after, ents, k - 1, before, tick);
        assert(survived(before[k - 1], ents, k - 1, tick, after[k - 1]));
    }
}

} // verus!
