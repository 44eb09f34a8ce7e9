//! Applying a player's committed commands to the world: target checks, order delivery under
//! future-order locks, control groups, factory settings and production queues, and placing,
//! configuring and cancelling blueprints.
use vstd::prelude::*;
use crate::types::{
    BirthCommandId, BlueprintSettings, CardinalDirection, Command, CommandId, ControlGroupId, EntityId,
    EventKey, FutureOrderPolicy, MemberEdit, Order, OrderLock, PlayerId, Priority, ProductionEdit, QueueItemId, Tick,
    Tile, TypeKey,
};
use crate::timed::Lifecycle;
use crate::identity::{blueprint, queue_item, spec_blueprint, spec_queue_item, RoundPrecedence};
use crate::admission::{
    caps_of, find_caps, recipe_listed, recipe_listed_exec, recipes_ok, recipes_ok_exec, TypeCaps, TypeKind,
};
use crate::locks::{all_valid, blocks, install, is_canonical_of, spec_blocks, with_new_lock};
use crate::draft::{copy_settings, copy_vec, entity_lt, entity_lt_exec, settings_same, spec_lock_interval};

verus! {

/// Why a command left one of its targets alone.
#[derive(Debug, Clone, Copy, PartialEq, Eq, Structural)]
pub enum SkipReason {
    Absent,
    Dead,
    WrongOwner,
    Incompatible,
    Blocked,
    MissingSupportTarget,
    LockedByLaterRound,
}

#[derive(Debug, Clone, Copy, PartialEq, Eq, Structural)]
pub struct SkippedTarget {
    pub entity_id: Option<EntityId>,
    pub reason: SkipReason,
}

/// What one command did: the targets it changed and the ones it skipped, with the reason.
#[derive(Debug, Clone, PartialEq, Eq)]
pub struct CommandOutcome {
    pub command_id: CommandId,
    pub applied_entities: Vec<EntityId>,
    pub skipped: Vec<SkippedTarget>,
}

/// What command application reads of an entity's type.
#[derive(Debug, Clone, Copy, PartialEq, Eq, Structural)]
pub struct Abilities {
    /// The type is a structure: it holds its tile against paths and placements.
    pub structure: bool,
    pub produces: bool,
    pub moves: bool,
    pub mines: bool,
    pub constructs: bool,
}

/// A product waiting in a factory's queue.
#[derive(Debug, Clone, PartialEq, Eq)]
pub struct QueueItem {
    pub item_id: QueueItemId,
    pub type_key: TypeKey,
}

/// The product a factory is building.
#[derive(Debug, Clone, PartialEq, Eq)]
pub struct ActiveItem {
    pub item_id: QueueItemId,
    pub occurrence: u32,
    pub type_key: TypeKey,
    pub awaiting_output: bool,
}

/// A factory's production state that commands can change.
#[derive(Debug, Clone, PartialEq, Eq)]
pub struct FactorySettings {
    pub pending_items: Vec<QueueItem>,
    pub active_item: Option<ActiveItem>,
    pub loop_enabled: bool,
    pub stored_order: Order,
    pub spawn_group: Option<ControlGroupId>,
}

/// An entity as command application sees it, with the motion state an order resets.
#[derive(Debug, Clone, PartialEq, Eq)]
pub struct UnitState {
    pub id: EntityId,
    pub owner: PlayerId,
    pub type_key: TypeKey,
    pub tile: Tile,
    pub lifecycle: Lifecycle,
    pub abilities: Abilities,
    pub action: Order,
    pub priority: Priority,
    pub support_target: Option<EntityId>,
    pub engaged_target: Option<EntityId>,
    pub resolved_destination: Option<Tile>,
    pub goal_settled: bool,
    pub failed_move_attempts: u32,
    pub blocked_step: Option<Tile>,
    pub local_detour: Vec<Tile>,
    pub order_locks: Vec<OrderLock>,
    pub production: Option<FactorySettings>,
}

// ---- target checks -----------------------------------------------------------------------------

/// No two entities share an id.
pub open spec fn ids_unique(units: Seq<UnitState>) -> bool {
    forall|i: int, j: int| 0 <= i < j < units.len() ==> #[trigger] units[i].id != #[trigger] units[j].id
}

/// The ids of the entities, in storage order.
pub open spec fn id_list(units: Seq<UnitState>) -> Seq<EntityId> {
    units.map_values(|u: UnitState| u.id)
}

pub open spec fn has_id(ids: Seq<EntityId>, id: EntityId, i: int) -> bool {
    0 <= i < ids.len() && ids[i] == id
}

/// The position of the id in the list.
pub open spec fn find_id(ids: Seq<EntityId>, id: EntityId) -> Option<int> {
    if exists|i: int| #[trigger] has_id(ids, id, i) {
        Some(choose|i: int| #[trigger] has_id(ids, id, i))
    } else {
        None
    }
}

/// The position of the entity with this id.
pub open spec fn find_unit(units: Seq<UnitState>, id: EntityId) -> Option<int> {
    find_id(id_list(units), id)
}

proof fn lemma_find_unit(units: Seq<UnitState>, id: EntityId, i: int)
    requires
        ids_unique(units),
        0 <= i < units.len(),
        units[i].id == id,
    ensures
        find_unit(units, id) == Some(i),
{
    let ids = id_list(units);
    assert(has_id(ids, id, i));
    let j = choose|j: int| #[trigger] has_id(ids, id, j);
    assert(has_id(ids, id, j));
    if j != i {
        if j < i {
            assert(units[j].id != units[i].id);
        } else {
            assert(units[i].id != units[j].id);
        }
    }
}

/// Ownership, lifecycle and lock checks that every entity-directed command makes.
/// `settings_only` commands may address a site that does not produce.
pub open spec fn spec_target_check(
    units: Seq<UnitState>,
    id: EntityId,
    player: PlayerId,
    tick: Tick,
    round: u32,
    settings_only: bool,
) -> Result<int, SkipReason> {
    match find_unit(units, id) {
        None => Err(SkipReason::Absent),
        Some(i) => {
            let e = units[i];
            if e.owner != player {
                Err(SkipReason::WrongOwner)
            } else if e.lifecycle == Lifecycle::Site && !settings_only && e.production is None {
                Err(SkipReason::Incompatible)
            } else if spec_blocks(e.order_locks@, tick as int, round as int) {
                Err(SkipReason::LockedByLaterRound)
            } else {
                Ok(i)
            }
        },
    }
}

fn find_index(units: &Vec<UnitState>, id: &EntityId) -> (r: Option<usize>)
    requires
        ids_unique(units@),
    ensures
        r matches Some(i) ==> find_unit(units@, *id) == Some(i as int),
        r is None ==> find_unit(units@, *id) is None,
{
    let mut i: usize = 0;
    while i < units.len()
        invariant
            0 <= i <= units.len(),
            ids_unique(units@),
            forall|k: int| 0 <= k < i ==> #[trigger] units@[k].id != *id,
        decreases units.len() - i,
    {
        if units[i].id == *id {
            proof {
                lemma_find_unit(units@, *id, i as int);
            }
            return Some(i);
        }
        i += 1;
    }
    assert forall|k: int| !#[trigger] has_id(id_list(units@), *id, k) by {
        if 0 <= k < i {
            assert(units@[k].id != *id);
        }
    }
    None
}

fn target_check(
    units: &Vec<UnitState>,
    id: &EntityId,
    player: PlayerId,
    tick: Tick,
    round: u32,
    settings_only: bool,
) -> (r: Result<usize, SkipReason>)
    requires
        ids_unique(units@),
    ensures
        r matches Ok(i) ==> spec_target_check(units@, *id, player, tick, round, settings_only) == Ok::<int, SkipReason>(i as int),
        r matches Err(e) ==> spec_target_check(units@, *id, player, tick, round, settings_only) == Err::<int, SkipReason>(e),
{
    let i = match find_index(units, id) {
        None => {
            return Err(SkipReason::Absent);
        },
        Some(i) => i,
    };
    let e = &units[i];
    if e.owner != player {
        return Err(SkipReason::WrongOwner);
    }
    if e.lifecycle == Lifecycle::Site && !settings_only && e.production.is_none() {
        return Err(SkipReason::Incompatible);
    }
    if blocks(&e.order_locks, tick, round) {
        return Err(SkipReason::LockedByLaterRound);
    }
    Ok(i)
}

/// Whether an entity of this type can carry out the order; a producer stores any order.
pub open spec fn order_fits(a: Abilities, order: Order) -> bool {
    a.produces || match order {
        Order::Idle {  } => true,
        Order::AttackMove { .. } | Order::Support { .. } => a.moves,
        Order::Mine { .. } => a.mines && a.moves,
        Order::Construct { .. } => a.constructs && a.moves,
    }
}

fn order_compatible(a: Abilities, order: &Order) -> (r: bool)
    ensures
        r == order_fits(a, *order),
{
    if a.produces {
        return true;
    }
    match order {
        Order::Idle {  } => true,
        Order::AttackMove { .. } | Order::Support { .. } => a.moves,
        Order::Mine { .. } => a.mines && a.moves,
        Order::Construct { .. } => a.constructs && a.moves,
    }
}

// ---- assigning an order -----------------------------------------------------------------------

/// `new` is `old` after it took `order`: a producer stores it, anything else acts on it; the
/// support target follows the order and the motion state starts afresh.
pub open spec fn reassigned(old: UnitState, new: UnitState, order: Order) -> bool {
    &&& new.id == old.id
    &&& new.owner == old.owner
    &&& new.lifecycle == old.lifecycle
    &&& new.abilities == old.abilities
    &&& new.priority == old.priority
    &&& match old.production {
        Some(p) => {
            &&& new.action == old.action
            &&& new.production == Some(FactorySettings { stored_order: order, ..p })
        },
        None => new.action == order && new.production is None,
    }
    &&& new.support_target == match order {
        Order::Support { target } => Some(target),
        _ => None,
    }
    &&& new.engaged_target is None
    &&& new.resolved_destination is None
    &&& !new.goal_settled
    &&& new.failed_move_attempts == 0
    &&& new.blocked_step is None
    &&& new.local_detour@.len() == 0
}

/// The locks after an assignment: a write of a real round installs the policy's lock.
pub open spec fn relocked(
    old: Seq<OrderLock>,
    new: Seq<OrderLock>,
    tick: Tick,
    round: u32,
    policy: FutureOrderPolicy,
    window: Option<Tick>,
    max_tick: Tick,
) -> bool {
    if round > 0 {
        is_canonical_of(new, with_new_lock(old, tick, round, spec_lock_interval(tick, policy, window, max_tick)->0), tick as int)
    } else {
        new == old
    }
}

/// The policy's lock can be installed at `tick` on top of valid stored locks.
pub open spec fn lock_ready(locks: Seq<OrderLock>, tick: Tick, policy: FutureOrderPolicy, window: Option<Tick>, max_tick: Tick) -> bool {
    &&& spec_lock_interval(tick, policy, window, max_tick) is Some
    &&& all_valid(locks, tick as int)
}

fn assign(
    u: UnitState,
    order: Order,
    tick: Tick,
    round: u32,
    policy: FutureOrderPolicy,
    window: Option<Tick>,
    max_tick: Tick,
) -> (r: UnitState)
    requires
        round > 0 ==> lock_ready(u.order_locks@, tick, policy, window, max_tick),
    ensures
        reassigned(u, r, order),
        relocked(u.order_locks@, r.order_locks@, tick, round, policy, window, max_tick),
{
    let mut u = u;
    match u.production {
        Some(p) => {
            u.production = Some(FactorySettings { stored_order: order, ..p });
        },
        None => {
            u.action = order;
        },
    }
    u.engaged_target = None;
    u.support_target = match order {
        Order::Support { target } => Some(target),
        _ => None,
    };
    u.resolved_destination = None;
    u.goal_settled = false;
    u.failed_move_attempts = 0;
    u.blocked_step = None;
    u.local_detour = Vec::new();
    if round > 0 {
        let ghost before = u.order_locks@;
        proof {
            let iv = spec_lock_interval(tick, policy, window, max_tick)->0;
            let grown = with_new_lock(before, tick, round, iv);
            assert forall|i: int| 0 <= i < grown.len() implies !crate::locks::lock_invalid(#[trigger] grown[i], tick as int) by {
                if i < before.len() {
                    assert(grown[i] == before[i]);
                }
            }
        }
        match install(&mut u.order_locks, tick, round, policy, window, max_tick) {
            Ok(()) => {},
            Err(_) => {
                assert(false);
            },
        }
    }
    u
}

// ---- delivering an order to a list of entities -------------------------------------------------

/// Entity ids in strictly increasing order.
pub open spec fn sorted_ids(s: Seq<EntityId>) -> bool {
    forall|i: int, j: int| 0 <= i < j < s.len() ==> entity_lt(#[trigger] s[i], #[trigger] s[j])
}

/// `ids` lists the distinct ids of `targets` in increasing order.
pub open spec fn sorted_set_of(ids: Seq<EntityId>, targets: Seq<EntityId>) -> bool {
    &&& sorted_ids(ids)
    &&& forall|x: EntityId| #[trigger] ids.contains(x) <==> targets.contains(x)
}

proof fn lemma_entity_lt_order(a: EntityId, b: EntityId, c: EntityId)
    ensures
        entity_lt(a, b) && entity_lt(b, c) ==> entity_lt(a, c),
        a == b || entity_lt(a, b) || entity_lt(b, a),
        !entity_lt(a, a),
{
}

/// Adds `x` to a strictly sorted id list unless it is already there.
fn insert_id(out: &mut Vec<EntityId>, x: EntityId)
    requires
        sorted_ids(old(out)@),
    ensures
        sorted_ids(final(out)@),
        forall|y: EntityId| #[trigger] final(out)@.contains(y) <==> (old(out)@.contains(y) || y == x),
{
    let mut p: usize = 0;
    while p < out.len() && entity_lt_exec(&out[p], &x)
        invariant
            0 <= p <= out.len(),
            sorted_ids(out@),
            forall|k: int| 0 <= k < p ==> entity_lt(#[trigger] out@[k], x),
        decreases out.len() - p,
    {
        p += 1;
    }
    if p < out.len() && out[p] == x {
        assert(out@.contains(x));
        return;
    }
    let ghost before = out@;
    proof {
        if p < before.len() {
            lemma_entity_lt_order(before[p as int], x, x);
            assert forall|k: int| p <= k < before.len() implies entity_lt(x, #[trigger] before[k]) by {
                if k > p {
                    lemma_entity_lt_order(x, before[p as int], before[k]);
                }
            }
        }
    }
    out.insert(p, x);
    assert(out@ == before.insert(p as int, x));
    assert forall|i: int, j: int| 0 <= i < j < out@.len() implies entity_lt(#[trigger] out@[i], #[trigger] out@[j]) by {
        if i < p && j > p {
            lemma_entity_lt_order(before[i], x, before[j - 1]);
        }
    }
    assert forall|y: EntityId| #[trigger] out@.contains(y) <==> (before.contains(y) || y == x) by {
        if out@.contains(y) {
            let k = choose|k: int| 0 <= k < out@.len() && out@[k] == y;
            if k < p {
                assert(before[k] == y);
            } else if k > p {
                assert(before[k - 1] == y);
            }
        }
        if before.contains(y) {
            let k = choose|k: int| 0 <= k < before.len() && before[k] == y;
            if k < p {
                assert(out@[k] == y);
            } else {
                assert(out@[k + 1] == y);
            }
        }
        if y == x {
            assert(out@[p as int] == x);
        }
    }
}

/// The distinct targets in increasing order, as delivery walks them.
fn sorted_targets(targets: &Vec<EntityId>) -> (r: Vec<EntityId>)
    ensures
        sorted_set_of(r@, targets@),
{
    let mut out: Vec<EntityId> = Vec::new();
    let mut i: usize = 0;
    while i < targets.len()
        invariant
            0 <= i <= targets.len(),
            sorted_ids(out@),
            forall|y: EntityId| #[trigger] out@.contains(y) <==> targets@.take(i as int).contains(y),
        decreases targets.len() - i,
    {
        insert_id(&mut out, targets[i]);
        proof {
            let pre = targets@.take(i as int);
            assert(targets@.take(i + 1) == pre.push(targets@[i as int]));
            assert forall|y: EntityId| #[trigger] out@.contains(y) <==> targets@.take(i + 1).contains(y) by {
                if pre.push(targets@[i as int]).contains(y) && y != targets@[i as int] {
                    let k = choose|k: int| 0 <= k < pre.len() + 1 && #[trigger] pre.push(targets@[i as int])[k] == y;
                    assert(pre[k] == y);
                }
                if pre.contains(y) {
                    let k = choose|k: int| 0 <= k < pre.len() && #[trigger] pre[k] == y;
                    assert(pre.push(targets@[i as int])[k] == y);
                }
                if y == targets@[i as int] {
                    assert(pre.push(targets@[i as int])[pre.len() as int] == y);
                }
            }
        }
        i += 1;
    }
    assert(targets@.take(targets.len() as int) == targets@);
    out
}

/// The order names a support target that is missing, or the entity itself.
pub open spec fn support_missing(units: Seq<UnitState>, order: Order, id: EntityId) -> bool {
    match order {
        Order::Support { target } => find_unit(units, target) is None || target == id,
        _ => false,
    }
}

/// Why delivering `order` to `id` is skipped, or `None` when the entity takes it.
pub open spec fn delivery_verdict(
    units: Seq<UnitState>,
    id: EntityId,
    player: PlayerId,
    tick: Tick,
    round: u32,
    order: Order,
) -> Option<SkipReason> {
    match spec_target_check(units, id, player, tick, round, false) {
        Err(r) => Some(r),
        Ok(i) => if !order_fits(units[i].abilities, order) {
            Some(SkipReason::Incompatible)
        } else if support_missing(units, order, id) {
            Some(SkipReason::MissingSupportTarget)
        } else {
            None
        },
    }
}

/// Every stored lock set can take the policy's lock.
pub open spec fn all_ready(units: Seq<UnitState>, tick: Tick, policy: FutureOrderPolicy, window: Option<Tick>, max_tick: Tick) -> bool {
    forall|k: int| 0 <= k < units.len() ==> lock_ready(#[trigger] units[k].order_locks@, tick, policy, window, max_tick)
}

/// Skip records that name entities in strictly increasing id order.
pub open spec fn sorted_skips(s: Seq<SkippedTarget>) -> bool {
    &&& forall|j: int| 0 <= j < s.len() ==> (#[trigger] s[j]).entity_id is Some
    &&& forall|i: int, j: int| 0 <= i < j < s.len() ==> entity_lt(#[trigger] s[i].entity_id->0, #[trigger] s[j].entity_id->0)
}

pub open spec fn skips_entity(s: Seq<SkippedTarget>, x: EntityId) -> bool {
    exists|j: int| 0 <= j < s.len() && (#[trigger] s[j]).entity_id == Some(x)
}

/// The outcome lists of a delivery: the distinct targets that took the order, in id order, and
/// the others with their reasons, in id order (without the absent ones unless `keep_absent`).
pub open spec fn delivery_report(
    units: Seq<UnitState>,
    targets: Seq<EntityId>,
    player: PlayerId,
    tick: Tick,
    round: u32,
    order: Order,
    keep_absent: bool,
    applied: Seq<EntityId>,
    skipped: Seq<SkippedTarget>,
) -> bool {
    &&& sorted_ids(applied)
    &&& forall|x: EntityId| #[trigger] applied.contains(x) <==> (targets.contains(x) && delivery_verdict(units, x, player, tick, round, order) is None)
    &&& sorted_skips(skipped)
    &&& forall|j: int| 0 <= j < skipped.len() ==> {
        &&& targets.contains((#[trigger] skipped[j]).entity_id->0)
        &&& delivery_verdict(units, skipped[j].entity_id->0, player, tick, round, order) == Some(skipped[j].reason)
        &&& keep_absent || skipped[j].reason != SkipReason::Absent
    }
    &&& forall|x: EntityId| targets.contains(x) && reported_skip(delivery_verdict(units, x, player, tick, round, order), keep_absent)
        ==> #[trigger] skips_entity(skipped, x)
}

/// A skip that the report lists: every skip, or every skip but an absent target's.
pub open spec fn reported_skip(v: Option<SkipReason>, keep_absent: bool) -> bool {
    v matches Some(r) && (keep_absent || r != SkipReason::Absent)
}

/// The entities after a delivery: those that took the order were reassigned, the rest are unchanged.
pub open spec fn delivery_effect(
    old: Seq<UnitState>,
    new: Seq<UnitState>,
    targets: Seq<EntityId>,
    player: PlayerId,
    tick: Tick,
    round: u32,
    order: Order,
    policy: FutureOrderPolicy,
    window: Option<Tick>,
    max_tick: Tick,
) -> bool {
    &&& new.len() == old.len()
    &&& forall|k: int| 0 <= k < old.len() ==> if targets.contains(old[k].id) && delivery_verdict(old, old[k].id, player, tick, round, order) is None {
        &&& reassigned(old[k], #[trigger] new[k], order)
        &&& relocked(old[k].order_locks@, new[k].order_locks@, tick, round, policy, window, max_tick)
    } else {
        new[k] == old[k]
    }
}

proof fn lemma_same_ids(a: Seq<UnitState>, b: Seq<UnitState>)
    requires
        a.len() == b.len(),
        forall|k: int| 0 <= k < a.len() ==> #[trigger] a[k].id == b[k].id,
    ensures
        id_list(a) == id_list(b),
        ids_unique(a) ==> ids_unique(b),
{
    assert(id_list(a) =~= id_list(b));
    if ids_unique(a) {
        assert forall|i: int, j: int| 0 <= i < j < b.len() implies #[trigger] b[i].id != #[trigger] b[j].id by {
            assert(a[i].id != a[j].id);
        }
    }
}

proof fn lemma_push_contains<A>(s: Seq<A>, x: A, y: A)
    ensures
        s.push(x).contains(y) <==> (s.contains(y) || y == x),
{
    if s.push(x).contains(y) && y != x {
        let k = choose|k: int| 0 <= k < s.len() + 1 && #[trigger] s.push(x)[k] == y;
        assert(s[k] == y);
    }
    if s.contains(y) {
        let k = choose|k: int| 0 <= k < s.len() && #[trigger] s[k] == y;
        assert(s.push(x)[k] == y);
    }
    if y == x {
        assert(s.push(x)[s.len() as int] == y);
    }
}

proof fn lemma_find_facts(units: Seq<UnitState>, id: EntityId)
    ensures
        find_unit(units, id) matches Some(j) ==> 0 <= j < units.len() && units[j].id == id,
        find_unit(units, id) is None ==> forall|k: int| 0 <= k < units.len() ==> #[trigger] units[k].id != id,
{
    let ids = id_list(units);
    if exists|i: int| #[trigger] has_id(ids, id, i) {
        let j = choose|i: int| #[trigger] has_id(ids, id, i);
        assert(has_id(ids, id, j));
    } else {
        assert forall|k: int| 0 <= k < units.len() implies #[trigger] units[k].id != id by {
            assert(!has_id(ids, id, k));
        }
    }
}

proof fn lemma_report_step(
    old_units: Seq<UnitState>,
    done: Seq<EntityId>,
    x: EntityId,
    player: PlayerId,
    tick: Tick,
    round: u32,
    order: Order,
    ap0: Seq<EntityId>,
    sk0: Seq<SkippedTarget>,
    ap: Seq<EntityId>,
    sk: Seq<SkippedTarget>,
)
    requires
        delivery_report(old_units, done, player, tick, round, order, true, ap0, sk0),
        !done.contains(x),
        forall|y: EntityId| #[trigger] done.contains(y) ==> entity_lt(y, x),
        delivery_verdict(old_units, x, player, tick, round, order) is None ==> ap == ap0.push(x) && sk == sk0,
        delivery_verdict(old_units, x, player, tick, round, order) matches Some(r) ==> ap == ap0
            && sk == sk0.push(SkippedTarget { entity_id: Some(x), reason: r }),
    ensures
        delivery_report(old_units, done.push(x), player, tick, round, order, true, ap, sk),
{
    let next = done.push(x);
    let verdict = delivery_verdict(old_units, x, player, tick, round, order);
    assert forall|y: EntityId| #[trigger] ap.contains(y) <==> (next.contains(y) && delivery_verdict(old_units, y, player, tick, round, order) is None) by {
        lemma_push_contains(done, x, y);
        if verdict is None {
            lemma_push_contains(ap0, x, y);
        }
    }
    assert forall|a: int, b: int| 0 <= a < b < ap.len() implies entity_lt(#[trigger] ap[a], #[trigger] ap[b]) by {
        if verdict is None && b == ap.len() - 1 {
            assert(ap0[a] == ap[a]);
            assert(ap0.contains(ap[a]));
            assert(done.contains(ap[a]));
        } else if verdict is None {
            assert(ap0[a] == ap[a] && ap0[b] == ap[b]);
        }
    }
    assert forall|j: int| 0 <= j < sk.len() implies {
        &&& next.contains((#[trigger] sk[j]).entity_id->0)
        &&& delivery_verdict(old_units, sk[j].entity_id->0, player, tick, round, order) == Some(sk[j].reason)
    } by {
        lemma_push_contains(done, x, x);
        if verdict is Some && j < sk.len() - 1 {
            assert(sk[j] == sk.drop_last()[j]);
            assert(done.contains(sk[j].entity_id->0));
            assert(next[done.index_of(sk[j].entity_id->0)] == sk[j].entity_id->0);
        } else if verdict is None {
            assert(done.contains(sk[j].entity_id->0));
            assert(next[done.index_of(sk[j].entity_id->0)] == sk[j].entity_id->0);
        }
    }
    assert forall|a: int, b: int| 0 <= a < b < sk.len() implies entity_lt(#[trigger] sk[a].entity_id->0, #[trigger] sk[b].entity_id->0) by {
        if verdict is Some && b == sk.len() - 1 {
            assert(sk.drop_last()[a] == sk[a]);
            assert(done.contains(sk[a].entity_id->0));
        } else if verdict is Some {
            assert(sk.drop_last()[a] == sk[a] && sk.drop_last()[b] == sk[b]);
        }
    }
    assert forall|j: int| 0 <= j < sk.len() implies (#[trigger] sk[j]).entity_id is Some by {
        if verdict is Some && j < sk.len() - 1 {
            assert(sk.drop_last()[j] == sk[j]);
        }
    }
    assert forall|y: EntityId| next.contains(y) && delivery_verdict(old_units, y, player, tick, round, order) is Some implies #[trigger] skips_entity(sk, y) by {
        lemma_push_contains(done, x, y);
        if y == x {
            assert(sk[sk.len() - 1].entity_id == Some(x));
        } else {
            assert(skips_entity(sk0, y));
            let j = choose|j: int| 0 <= j < sk0.len() && (#[trigger] sk0[j]).entity_id == Some(y);
            assert(sk[j] == sk0[j]);
        }
    }
}

/// Delivers `order` to each distinct target, in id order.
fn deliver(
    units: &mut Vec<UnitState>,
    targets: &Vec<EntityId>,
    order: Order,
    player: PlayerId,
    tick: Tick,
    round: u32,
    policy: FutureOrderPolicy,
    window: Option<Tick>,
    max_tick: Tick,
) -> (r: (Vec<EntityId>, Vec<SkippedTarget>))
    requires
        ids_unique(old(units)@),
        round > 0 ==> all_ready(old(units)@, tick, policy, window, max_tick),
    ensures
        ids_unique(final(units)@),
        id_list(final(units)@) == id_list(old(units)@),
        delivery_effect(old(units)@, final(units)@, targets@, player, tick, round, order, policy, window, max_tick),
        delivery_report(old(units)@, targets@, player, tick, round, order, true, r.0@, r.1@),
{
    let ghost old_units = units@;
    let ids = sorted_targets(targets);
    let mut applied: Vec<EntityId> = Vec::new();
    let mut skipped: Vec<SkippedTarget> = Vec::new();
    let mut i: usize = 0;
    while i < ids.len()
        invariant
            0 <= i <= ids.len(),
            sorted_set_of(ids@, targets@),
            ids_unique(old_units),
            round > 0 ==> all_ready(old_units, tick, policy, window, max_tick),
            units@.len() == old_units.len(),
            ids_unique(units@),
            id_list(units@) == id_list(old_units),
            forall|k: int| 0 <= k < old_units.len() ==> #[trigger] units@[k].id == old_units[k].id,
            forall|k: int| 0 <= k < old_units.len() ==> if ids@.take(i as int).contains(old_units[k].id)
                && delivery_verdict(old_units, old_units[k].id, player, tick, round, order) is None {
                &&& reassigned(old_units[k], #[trigger] units@[k], order)
                &&& relocked(old_units[k].order_locks@, units@[k].order_locks@, tick, round, policy, window, max_tick)
            } else {
                units@[k] == old_units[k]
            },
            delivery_report(old_units, ids@.take(i as int), player, tick, round, order, true, applied@, skipped@),
        decreases ids.len() - i,
    {
        let x = ids[i];
        let ghost done = ids@.take(i as int);
        let ghost next = ids@.take(i + 1);
        proof {
            assert(next == done.push(x));
            assert(!done.contains(x)) by {
                if done.contains(x) {
                    let k = choose|k: int| 0 <= k < done.len() && #[trigger] done[k] == x;
                    assert(entity_lt(ids@[k], ids@[i as int]));
                    lemma_entity_lt_order(x, x, x);
                }
            }
            assert forall|y: EntityId| #[trigger] done.contains(y) implies entity_lt(y, x) by {
                let k = choose|k: int| 0 <= k < done.len() && #[trigger] done[k] == y;
                assert(entity_lt(ids@[k], ids@[i as int]));
            }
        }
        let ghost before = units@;
        proof {
            lemma_find_facts(old_units, x);
            assert(find_unit(before, x) == find_unit(old_units, x));
            if let Some(j) = find_unit(old_units, x) {
                assert(before[j] == old_units[j]);
            }
            if let Order::Support { target } = order {
                assert(find_unit(before, target) == find_unit(old_units, target));
            }
        }
        let verdict: Option<SkipReason> = match target_check(units, &x, player, tick, round, false) {
            Err(reason) => Some(reason),
            Ok(j) => {
                if !order_compatible(units[j].abilities, &order) {
                    Some(SkipReason::Incompatible)
                } else {
                    let missing = match order {
                        Order::Support { target } => find_index(units, &target).is_none() || target == x,
                        _ => false,
                    };
                    if missing {
                        Some(SkipReason::MissingSupportTarget)
                    } else {
                        let u = units.remove(j);
                        let nu = assign(u, order, tick, round, policy, window, max_tick);
                        units.insert(j, nu);
                        proof {
                            assert(units@ == before.update(j as int, nu));
                        }
                        None
                    }
                }
            },
        };
        proof {
            assert(verdict == delivery_verdict(old_units, x, player, tick, round, order));
            if verdict is None {
                let j = find_unit(old_units, x)->0;
                assert(units@ == before.update(j, units@[j]));
            } else {
                assert(units@ == before);
            }
            assert forall|k: int| 0 <= k < old_units.len() implies #[trigger] units@[k].id == old_units[k].id by {
                assert(before[k].id == old_units[k].id);
            }
            lemma_same_ids(old_units, units@);
            assert forall|k: int| 0 <= k < old_units.len() implies if next.contains(old_units[k].id)
                && delivery_verdict(old_units, old_units[k].id, player, tick, round, order) is None {
                &&& reassigned(old_units[k], #[trigger] units@[k], order)
                &&& relocked(old_units[k].order_locks@, units@[k].order_locks@, tick, round, policy, window, max_tick)
            } else {
                units@[k] == old_units[k]
            } by {
                lemma_push_contains(done, x, old_units[k].id);
                if old_units[k].id == x {
                    lemma_find_unit(old_units, x, k);
                }
            }
        }
        let ghost ap0 = applied@;
        let ghost sk0 = skipped@;
        match verdict {
            None => {
                applied.push(x);
            },
            Some(reason) => {
                skipped.push(SkippedTarget { entity_id: Some(x), reason });
            },
        }
        proof {
            lemma_report_step(old_units, done, x, player, tick, round, order, ap0, sk0, applied@, skipped@);
        }
        i += 1;
    }
    assert(ids@.take(ids@.len() as int) == ids@);
    (applied, skipped)
}

// ---- settings: priority and factory settings ---------------------------------------------------

/// A setting that a command writes on each target it reaches.
#[derive(Debug, Clone, Copy, PartialEq, Eq, Structural)]
pub enum SettingEdit {
    Priority(Priority),
    SpawnGroup(Option<ControlGroupId>),
    QueueLoop(bool),
    StoredOrder(Order),
}

/// The entity with the setting written; factory settings leave a non-producer as it is.
pub open spec fn with_setting(u: UnitState, edit: SettingEdit) -> UnitState {
    match edit {
        SettingEdit::Priority(p) => UnitState { priority: p, ..u },
        SettingEdit::SpawnGroup(g) => match u.production {
            Some(f) => UnitState { production: Some(FactorySettings { spawn_group: g, ..f }), ..u },
            None => u,
        },
        SettingEdit::QueueLoop(b) => match u.production {
            Some(f) => UnitState { production: Some(FactorySettings { loop_enabled: b, ..f }), ..u },
            None => u,
        },
        SettingEdit::StoredOrder(o) => match u.production {
            Some(f) => UnitState { production: Some(FactorySettings { stored_order: o, ..f }), ..u },
            None => u,
        },
    }
}

/// Why a setting is not written to `id`, or `None` when it is.
pub open spec fn setting_verdict(
    units: Seq<UnitState>,
    id: EntityId,
    player: PlayerId,
    tick: Tick,
    round: u32,
    edit: SettingEdit,
) -> Option<SkipReason> {
    match spec_target_check(units, id, player, tick, round, true) {
        Err(r) => Some(r),
        Ok(i) => if !(edit is Priority) && units[i].production is None {
            Some(SkipReason::Incompatible)
        } else {
            None
        },
    }
}

pub open spec fn setting_applied(units: Seq<UnitState>, player: PlayerId, tick: Tick, round: u32, edit: SettingEdit) -> spec_fn(EntityId) -> Option<EntityId> {
    |x: EntityId| if setting_verdict(units, x, player, tick, round, edit) is None { Some(x) } else { None }
}

pub open spec fn setting_skipped(units: Seq<UnitState>, player: PlayerId, tick: Tick, round: u32, edit: SettingEdit) -> spec_fn(EntityId) -> Option<SkippedTarget> {
    |x: EntityId| match setting_verdict(units, x, player, tick, round, edit) {
        Some(r) => Some(SkippedTarget { entity_id: Some(x), reason: r }),
        None => None,
    }
}

/// The entities after a settings command: each target it reached carries the setting.
pub open spec fn settings_effect(
    old: Seq<UnitState>,
    new: Seq<UnitState>,
    targets: Seq<EntityId>,
    player: PlayerId,
    tick: Tick,
    round: u32,
    edit: SettingEdit,
) -> bool {
    &&& new.len() == old.len()
    &&& forall|k: int| 0 <= k < old.len() ==> #[trigger] new[k] == if targets.contains(old[k].id)
        && setting_verdict(old, old[k].id, player, tick, round, edit) is None {
        with_setting(old[k], edit)
    } else {
        old[k]
    }
}

fn write_setting(u: UnitState, edit: SettingEdit) -> (r: UnitState)
    ensures
        r == with_setting(u, edit),
{
    let mut u = u;
    match edit {
        SettingEdit::Priority(p) => {
            u.priority = p;
        },
        SettingEdit::SpawnGroup(g) => {
            if let Some(f) = u.production {
                u.production = Some(FactorySettings { spawn_group: g, ..f });
            }
        },
        SettingEdit::QueueLoop(b) => {
            if let Some(f) = u.production {
                u.production = Some(FactorySettings { loop_enabled: b, ..f });
            }
        },
        SettingEdit::StoredOrder(o) => {
            if let Some(f) = u.production {
                u.production = Some(FactorySettings { stored_order: o, ..f });
            }
        },
    }
    u
}

/// Writes the setting on each target in list order, duplicates included, skipping those the
/// checks refuse.
fn apply_settings(
    units: &mut Vec<UnitState>,
    targets: &Vec<EntityId>,
    player: PlayerId,
    tick: Tick,
    round: u32,
    edit: SettingEdit,
) -> (r: (Vec<EntityId>, Vec<SkippedTarget>))
    requires
        ids_unique(old(units)@),
    ensures
        ids_unique(final(units)@),
        id_list(final(units)@) == id_list(old(units)@),
        settings_effect(old(units)@, final(units)@, targets@, player, tick, round, edit),
        r.0@ == targets@.filter_map(setting_applied(old(units)@, player, tick, round, edit)),
        r.1@ == targets@.filter_map(setting_skipped(old(units)@, player, tick, round, edit)),
{
    let ghost old_units = units@;
    let mut applied: Vec<EntityId> = Vec::new();
    let mut skipped: Vec<SkippedTarget> = Vec::new();
    let mut i: usize = 0;
    while i < targets.len()
        invariant
            0 <= i <= targets.len(),
            ids_unique(old_units),
            units@.len() == old_units.len(),
            ids_unique(units@),
            id_list(units@) == id_list(old_units),
            forall|k: int| 0 <= k < old_units.len() ==> #[trigger] units@[k] == if targets@.take(i as int).contains(old_units[k].id)
                && setting_verdict(old_units, old_units[k].id, player, tick, round, edit) is None {
                with_setting(old_units[k], edit)
            } else {
                old_units[k]
            },
            applied@ == targets@.take(i as int).filter_map(setting_applied(old_units, player, tick, round, edit)),
            skipped@ == targets@.take(i as int).filter_map(setting_skipped(old_units, player, tick, round, edit)),
        decreases targets.len() - i,
    {
        let x = targets[i];
        let ghost done = targets@.take(i as int);
        let ghost before = units@;
        proof {
            assert(targets@.take(i + 1) == done.push(x));
            lemma_find_facts(old_units, x);
            assert(find_unit(before, x) == find_unit(old_units, x));
            if let Some(j) = find_unit(old_units, x) {
                lemma_setting_stable(old_units[j], edit);
            }
        }
        let verdict: Option<SkipReason> = match target_check(units, &x, player, tick, round, true) {
            Err(reason) => Some(reason),
            Ok(j) => {
                let factory_only = match edit {
                    SettingEdit::Priority(_) => false,
                    _ => true,
                };
                if factory_only && units[j].production.is_none() {
                    Some(SkipReason::Incompatible)
                } else {
                    let u = units.remove(j);
                    let nu = write_setting(u, edit);
                    units.insert(j, nu);
                    proof {
                        assert(units@ == before.update(j as int, nu));
                    }
                    None
                }
            },
        };
        proof {
            assert(verdict == setting_verdict(old_units, x, player, tick, round, edit));
            if verdict is None {
                let j = find_unit(old_units, x)->0;
                assert(units@ == before.update(j, units@[j]));
            } else {
                assert(units@ == before);
            }
            assert forall|k: int| 0 <= k < old_units.len() implies #[trigger] units@[k].id == old_units[k].id by {
                assert(before[k].id == old_units[k].id);
            }
            lemma_same_ids(old_units, units@);
            assert forall|k: int| 0 <= k < old_units.len() implies #[trigger] units@[k] == if done.push(x).contains(old_units[k].id)
                && setting_verdict(old_units, old_units[k].id, player, tick, round, edit) is None {
                with_setting(old_units[k], edit)
            } else {
                old_units[k]
            } by {
                lemma_push_contains(done, x, old_units[k].id);
                if old_units[k].id == x {
                    lemma_find_unit(old_units, x, k);
                }
            }
            targets@.lemma_filter_map_take_succ(setting_applied(old_units, player, tick, round, edit), i as int);
            targets@.lemma_filter_map_take_succ(setting_skipped(old_units, player, tick, round, edit), i as int);
        }
        match verdict {
            None => {
                applied.push(x);
            },
            Some(reason) => {
                skipped.push(SkippedTarget { entity_id: Some(x), reason });
            },
        }
        i += 1;
    }
    assert(targets@.take(targets.len() as int) == targets@);
    (applied, skipped)
}

/// Writing a setting twice is writing it once, and it keeps what the checks read.
proof fn lemma_setting_stable(u: UnitState, edit: SettingEdit)
    ensures
        with_setting(with_setting(u, edit), edit) == with_setting(u, edit),
        with_setting(u, edit).id == u.id,
        with_setting(u, edit).owner == u.owner,
        with_setting(u, edit).lifecycle == u.lifecycle,
        with_setting(u, edit).order_locks == u.order_locks,
        with_setting(u, edit).production is Some <==> u.production is Some,
{
}

// ---- control groups --------------------------------------------------------------------------

/// The order a group was last given, and when.
#[derive(Debug, Clone, Copy, PartialEq, Eq, Structural)]
pub struct SavedOrder {
    pub source_command_id: CommandId,
    pub tick: Tick,
    pub order: Order,
}

#[derive(Debug, Clone, PartialEq, Eq)]
pub struct GroupState {
    pub id: ControlGroupId,
    pub members: Vec<EntityId>,
    pub latest_order: Option<SavedOrder>,
    pub order_locks: Vec<OrderLock>,
}

/// A planned structure: where, what, for whom, and the settings its structure will take.
#[derive(Debug, Clone, PartialEq, Eq)]
pub struct PlannedBlueprint {
    pub id: EntityId,
    pub owner: PlayerId,
    pub type_key: TypeKey,
    pub tile: Tile,
    pub priority: Priority,
    pub source_command_id: CommandId,
    pub precedence: EventKey,
    pub site_id: Option<EntityId>,
    pub settings: Option<BlueprintSettings>,
    pub settings_command: Option<BirthCommandId>,
    pub output_direction: Option<CardinalDirection>,
}

/// The part of the world that entity-directed commands read and write.
#[derive(Debug, Clone, PartialEq, Eq)]
pub struct OrderWorld {
    pub tick: Tick,
    pub max_tick: Tick,
    pub width: u16,
    pub height: u16,
    /// Per cell, row by row: the terrain is floor.
    pub floor: Vec<bool>,
    /// Per cell, row by row: the cell is held for a site or an output this tick.
    pub reserved: Vec<bool>,
    /// The players' order of precedence in each round.
    pub precedence: Vec<RoundPrecedence>,
    /// The configured future-order window, if any.
    pub window: Option<Tick>,
    pub units: Vec<UnitState>,
    pub groups: Vec<GroupState>,
    pub blueprints: Vec<PlannedBlueprint>,
    /// The content's types, by key.
    pub types: Vec<TypeCaps>,
}

pub open spec fn is_first_group(groups: Seq<GroupState>, g: ControlGroupId, i: int) -> bool {
    &&& 0 <= i < groups.len()
    &&& groups[i].id == g
    &&& forall|j: int| 0 <= j < i ==> #[trigger] groups[j].id != g
}

/// The position of the first group with this id.
pub open spec fn find_group(groups: Seq<GroupState>, g: ControlGroupId) -> Option<int> {
    if exists|i: int| #[trigger] is_first_group(groups, g, i) {
        Some(choose|i: int| #[trigger] is_first_group(groups, g, i))
    } else {
        None
    }
}

proof fn lemma_first_group_unique(groups: Seq<GroupState>, g: ControlGroupId, i: int, j: int)
    requires
        is_first_group(groups, g, i),
        is_first_group(groups, g, j),
    ensures
        i == j,
{
    if i < j {
        assert(groups[i].id != g);
    } else if j < i {
        assert(groups[j].id != g);
    }
}

fn group_index(groups: &Vec<GroupState>, g: &ControlGroupId) -> (r: Option<usize>)
    ensures
        r matches Some(i) ==> find_group(groups@, *g) == Some(i as int),
        r is None ==> find_group(groups@, *g) is None,
{
    let mut i: usize = 0;
    while i < groups.len()
        invariant
            0 <= i <= groups.len(),
            forall|j: int| 0 <= j < i ==> #[trigger] groups@[j].id != *g,
        decreases groups.len() - i,
    {
        if groups[i].id == *g {
            proof {
                assert(is_first_group(groups@, *g, i as int));
                let k = choose|k: int| #[trigger] is_first_group(groups@, *g, k);
                lemma_first_group_unique(groups@, *g, i as int, k);
            }
            return Some(i);
        }
        i += 1;
    }
    assert forall|k: int| !#[trigger] is_first_group(groups@, *g, k) by {
        if 0 <= k < groups.len() {
            assert(groups@[k].id != *g);
        }
    }
    None
}

/// Group locks can take the policy's lock.
pub open spec fn groups_ready(groups: Seq<GroupState>, tick: Tick, policy: FutureOrderPolicy, window: Option<Tick>, max_tick: Tick) -> bool {
    forall|k: int| 0 <= k < groups.len() ==> lock_ready(#[trigger] groups[k].order_locks@, tick, policy, window, max_tick)
}

/// For a real round, every stored lock set, of entities and of groups, can take the policy's lock.
pub open spec fn locks_ready(w: OrderWorld, round: u32, policy: FutureOrderPolicy) -> bool {
    round > 0 ==> {
        &&& all_ready(w.units@, w.tick, policy, w.window, w.max_tick)
        &&& groups_ready(w.groups@, w.tick, policy, w.window, w.max_tick)
    }
}

/// `kept` holds the skip records of `all` but those of absent targets, in id order.
pub open spec fn absent_dropped(all: Seq<SkippedTarget>, kept: Seq<SkippedTarget>) -> bool {
    &&& sorted_skips(kept)
    &&& forall|j: int| 0 <= j < kept.len() ==> #[trigger] all.contains(kept[j]) && kept[j].reason != SkipReason::Absent
    &&& forall|j: int| 0 <= j < all.len() && all[j].reason != SkipReason::Absent ==> #[trigger] skips_entity(kept, all[j].entity_id->0)
}

/// Removes the skip records of absent targets.
fn drop_absent(skipped: &Vec<SkippedTarget>) -> (r: Vec<SkippedTarget>)
    requires
        sorted_skips(skipped@),
    ensures
        absent_dropped(skipped@, r@),
{
    let mut r: Vec<SkippedTarget> = Vec::new();
    let ghost mut from: Seq<int> = Seq::empty();
    let mut i: usize = 0;
    while i < skipped.len()
        invariant
            0 <= i <= skipped.len(),
            sorted_skips(skipped@),
            from.len() == r@.len(),
            forall|j: int| 0 <= j < r@.len() ==> 0 <= #[trigger] from[j] < i && skipped@[from[j]] == r@[j],
            forall|j: int| 0 <= j < r@.len() ==> #[trigger] r@[j].reason != SkipReason::Absent,
            forall|a: int, b: int| 0 <= a < b < r@.len() ==> #[trigger] from[a] < #[trigger] from[b],
            forall|j: int| 0 <= j < i && skipped@[j].reason != SkipReason::Absent ==> #[trigger] skips_entity(r@, skipped@[j].entity_id->0),
        decreases skipped.len() - i,
    {
        let s = skipped[i];
        if s.reason != SkipReason::Absent {
            let ghost r0 = r@;
            r.push(s);
            proof {
                from = from.push(i as int);
                assert(r@[r0.len() as int] == s);
                assert forall|j: int| 0 <= j <= i && skipped@[j].reason != SkipReason::Absent implies #[trigger] skips_entity(r@, skipped@[j].entity_id->0) by {
                    if j < i {
                        assert(skips_entity(r0, skipped@[j].entity_id->0));
                        let k = choose|k: int| 0 <= k < r0.len() && (#[trigger] r0[k]).entity_id == Some(skipped@[j].entity_id->0);
                        assert(r@[k] == r0[k]);
                    } else {
                        assert(r@[r0.len() as int].entity_id == Some(skipped@[j].entity_id->0));
                    }
                }
            }
        }
        i += 1;
    }
    proof {
        assert forall|j: int| 0 <= j < r@.len() implies #[trigger] skipped@.contains(r@[j]) && r@[j].reason != SkipReason::Absent by {
            assert(skipped@[from[j]] == r@[j]);
        }
        assert forall|a: int, b: int| 0 <= a < b < r@.len() implies entity_lt(#[trigger] r@[a].entity_id->0, #[trigger] r@[b].entity_id->0) by {
            assert(from[a] < from[b]);
            assert(skipped@[from[a]] == r@[a] && skipped@[from[b]] == r@[b]);
        }
        assert forall|j: int| 0 <= j < r@.len() implies (#[trigger] r@[j]).entity_id is Some by {
            assert(skipped@[from[j]] == r@[j]);
        }
    }
    r
}

/// The world is left as it was and the command reports one untargeted skip.
pub open spec fn refused(old: OrderWorld, new: OrderWorld, out: CommandOutcome, cid: CommandId, reason: SkipReason) -> bool {
    &&& new == old
    &&& out.command_id == cid
    &&& out.applied_entities@.len() == 0
    &&& out.skipped@ == seq![SkippedTarget { entity_id: None, reason }]
}

/// Group `g` saved the order and took the policy's lock; every other group is unchanged.
pub open spec fn group_ordered(
    old: OrderWorld,
    new: OrderWorld,
    g: int,
    cid: CommandId,
    order: Order,
    round: u32,
    policy: FutureOrderPolicy,
) -> bool {
    &&& new.groups@.len() == old.groups@.len()
    &&& forall|h: int| 0 <= h < old.groups@.len() && h != g ==> #[trigger] new.groups@[h] == old.groups@[h]
    &&& new.groups@[g].id == old.groups@[g].id
    &&& new.groups@[g].members == old.groups@[g].members
    &&& new.groups@[g].latest_order == Some(SavedOrder { source_command_id: cid, tick: old.tick, order })
    &&& relocked(old.groups@[g].order_locks@, new.groups@[g].order_locks@, old.tick, round, policy, old.window, old.max_tick)
}

/// A group order from `player`: refused for a group that is missing or not the player's, or
/// locked by a later round; otherwise saved on the group and delivered to its members, with
/// skips of members that no longer exist left out.
pub open spec fn group_order_effect(
    old: OrderWorld,
    new: OrderWorld,
    group: ControlGroupId,
    order: Order,
    cid: CommandId,
    round: u32,
    player: PlayerId,
    policy: FutureOrderPolicy,
    out: CommandOutcome,
) -> bool {
    if !(find_group(old.groups@, group) is Some && group.owner == player) {
        refused(old, new, out, cid, SkipReason::WrongOwner)
    } else {
        let g = find_group(old.groups@, group)->0;
        if spec_blocks(old.groups@[g].order_locks@, old.tick as int, round as int) {
            refused(old, new, out, cid, SkipReason::LockedByLaterRound)
        } else {
            &&& new == (OrderWorld { units: new.units, groups: new.groups, ..old })
            &&& group_ordered(old, new, g, cid, order, round, policy)
            &&& delivery_effect(old.units@, new.units@, old.groups@[g].members@, player, old.tick, round, order, policy, old.window, old.max_tick)
            &&& out.command_id == cid
            &&& delivery_report(old.units@, old.groups@[g].members@, player, old.tick, round, order, false, out.applied_entities@, out.skipped@)
        }
    }
}

proof fn lemma_report_without_absent(
    units: Seq<UnitState>,
    targets: Seq<EntityId>,
    player: PlayerId,
    tick: Tick,
    round: u32,
    order: Order,
    applied: Seq<EntityId>,
    all: Seq<SkippedTarget>,
    kept: Seq<SkippedTarget>,
)
    requires
        delivery_report(units, targets, player, tick, round, order, true, applied, all),
        absent_dropped(all, kept),
    ensures
        delivery_report(units, targets, player, tick, round, order, false, applied, kept),
{
    assert forall|j: int| 0 <= j < kept.len() implies {
        &&& targets.contains((#[trigger] kept[j]).entity_id->0)
        &&& delivery_verdict(units, kept[j].entity_id->0, player, tick, round, order) == Some(kept[j].reason)
        &&& false || kept[j].reason != SkipReason::Absent
    } by {
        assert(all.contains(kept[j]));
        let k = choose|k: int| 0 <= k < all.len() && #[trigger] all[k] == kept[j];
        assert(all[k] == kept[j]);
    }
    assert forall|x: EntityId| targets.contains(x) && reported_skip(delivery_verdict(units, x, player, tick, round, order), false)
        implies #[trigger] skips_entity(kept, x) by {
        assert(skips_entity(all, x));
        let j = choose|j: int| 0 <= j < all.len() && (#[trigger] all[j]).entity_id == Some(x);
        assert(all[j].reason != SkipReason::Absent);
    }
}

fn refusal(cid: CommandId, reason: SkipReason) -> (out: CommandOutcome)
    ensures
        out.command_id == cid,
        out.applied_entities@.len() == 0,
        out.skipped@ == seq![SkippedTarget { entity_id: None, reason }],
{
    let skipped = vec![SkippedTarget { entity_id: None, reason }];
    assert(skipped@ =~= seq![SkippedTarget { entity_id: None, reason }]);
    CommandOutcome { command_id: cid, applied_entities: Vec::new(), skipped }
}

fn apply_group_order(
    world: &mut OrderWorld,
    group: ControlGroupId,
    order: Order,
    cid: CommandId,
    round: u32,
    player: PlayerId,
    policy: FutureOrderPolicy,
) -> (out: CommandOutcome)
    requires
        ids_unique(old(world).units@),
        locks_ready(*old(world), round, policy),
    ensures
        ids_unique(final(world).units@),
        group_order_effect(*old(world), *final(world), group, order, cid, round, player, policy, out),
{
    let ghost w0 = *world;
    let found = group_index(&world.groups, &group);
    let gi = match found {
        Some(g) => g,
        None => {
            return refusal(cid, SkipReason::WrongOwner);
        },
    };
    if group.owner != player {
        return refusal(cid, SkipReason::WrongOwner);
    }
    let tick = world.tick;
    let window = world.window;
    let max_tick = world.max_tick;
    if blocks(&world.groups[gi].order_locks, tick, round) {
        return refusal(cid, SkipReason::LockedByLaterRound);
    }
    let mut slot = world.groups.remove(gi);
    slot.latest_order = Some(SavedOrder { source_command_id: cid, tick, order });
    if round > 0 {
        proof {
            assert(lock_ready(w0.groups@[gi as int].order_locks@, tick, policy, window, max_tick));
            let iv = spec_lock_interval(tick, policy, window, max_tick)->0;
            let grown = with_new_lock(slot.order_locks@, tick, round, iv);
            assert forall|i: int| 0 <= i < grown.len() implies !crate::locks::lock_invalid(#[trigger] grown[i], tick as int) by {
                if i < slot.order_locks@.len() {
                    assert(grown[i] == slot.order_locks@[i]);
                }
            }
        }
        match install(&mut slot.order_locks, tick, round, policy, window, max_tick) {
            Ok(()) => {},
            Err(_) => {
                assert(false);
            },
        }
    }
    let members = copy_vec(&slot.members);
    world.groups.insert(gi, slot);
    let (applied, all_skipped) = deliver(&mut world.units, &members, order, player, tick, round, policy, window, max_tick);
    let skipped = drop_absent(&all_skipped);
    proof {
        lemma_report_without_absent(w0.units@, members@, player, tick, round, order, applied@, all_skipped@, skipped@);
        assert(world.groups@ == w0.groups@.update(gi as int, world.groups@[gi as int]));
    }
    CommandOutcome { command_id: cid, applied_entities: applied, skipped }
}

// ---- group membership ------------------------------------------------------------------------

/// Why `id` cannot join one of `player`'s groups, or `None` when it can.
pub open spec fn member_verdict(units: Seq<UnitState>, id: EntityId, player: PlayerId) -> Option<SkipReason> {
    match find_unit(units, id) {
        None => Some(SkipReason::Absent),
        Some(i) => if units[i].owner == player {
            None
        } else {
            Some(SkipReason::WrongOwner)
        },
    }
}

pub open spec fn member_accepted(units: Seq<UnitState>, player: PlayerId) -> spec_fn(EntityId) -> Option<EntityId> {
    |x: EntityId| if member_verdict(units, x, player) is None { Some(x) } else { None }
}

pub open spec fn member_skipped(units: Seq<UnitState>, player: PlayerId) -> spec_fn(EntityId) -> Option<SkippedTarget> {
    |x: EntityId| match member_verdict(units, x, player) {
        Some(r) => Some(SkippedTarget { entity_id: Some(x), reason: r }),
        None => None,
    }
}

pub open spec fn not_listed(list: Seq<EntityId>) -> spec_fn(EntityId) -> bool {
    |m: EntityId| !list.contains(m)
}

/// Group `g` changed its members only; the rest of the world is unchanged.
pub open spec fn members_rewritten(old: OrderWorld, new: OrderWorld, g: int) -> bool {
    &&& new == (OrderWorld { groups: new.groups, ..old })
    &&& new.groups@.len() == old.groups@.len()
    &&& forall|h: int| 0 <= h < old.groups@.len() && h != g ==> #[trigger] new.groups@[h] == old.groups@[h]
    &&& new.groups@[g].id == old.groups@[g].id
    &&& new.groups@[g].latest_order == old.groups@[g].latest_order
    &&& new.groups@[g].order_locks == old.groups@[g].order_locks
}

/// A membership edit from `player`: refused for a group that is missing or not the player's.
/// Removal drops the listed ids and reports them all as applied; replacing and adding accept the
/// listed entities the player owns, in list order, and store the members sorted without repeats.
pub open spec fn member_edit_effect(
    old: OrderWorld,
    new: OrderWorld,
    group: ControlGroupId,
    edit: MemberEdit,
    cid: CommandId,
    player: PlayerId,
    out: CommandOutcome,
) -> bool {
    if !(find_group(old.groups@, group) is Some && group.owner == player) {
        refused(old, new, out, cid, SkipReason::WrongOwner)
    } else {
        let g = find_group(old.groups@, group)->0;
        let members = old.groups@[g].members@;
        &&& members_rewritten(old, new, g)
        &&& out.command_id == cid
        &&& match edit {
            MemberEdit::Remove { entities } => {
                &&& new.groups@[g].members@ == members.filter(not_listed(entities@))
                &&& out.applied_entities@ == entities@
                &&& out.skipped@.len() == 0
            },
            MemberEdit::Replace { entities } => {
                let accepted = entities@.filter_map(member_accepted(old.units@, player));
                &&& out.applied_entities@ == accepted
                &&& out.skipped@ == entities@.filter_map(member_skipped(old.units@, player))
                &&& sorted_set_of(new.groups@[g].members@, accepted)
            },
            MemberEdit::Add { entities } => {
                let accepted = entities@.filter_map(member_accepted(old.units@, player));
                &&& out.applied_entities@ == accepted
                &&& out.skipped@ == entities@.filter_map(member_skipped(old.units@, player))
                &&& sorted_set_of(new.groups@[g].members@, members + accepted)
            },
        }
    }
}

fn contains_id(v: &Vec<EntityId>, x: &EntityId) -> (r: bool)
    ensures
        r == v@.contains(*x),
{
    let mut i: usize = 0;
    while i < v.len()
        invariant
            0 <= i <= v.len(),
            forall|k: int| 0 <= k < i ==> #[trigger] v@[k] != *x,
        decreases v.len() - i,
    {
        if v[i] == *x {
            assert(v@[i as int] == *x);
            return true;
        }
        i += 1;
    }
    false
}

/// The members that are not listed, in their order.
fn without_listed(members: &Vec<EntityId>, listed: &Vec<EntityId>) -> (r: Vec<EntityId>)
    ensures
        r@ == members@.filter(not_listed(listed@)),
{
    let mut r: Vec<EntityId> = Vec::new();
    let mut i: usize = 0;
    while i < members.len()
        invariant
            0 <= i <= members.len(),
            r@ == members@.take(i as int).filter(not_listed(listed@)),
        decreases members.len() - i,
    {
        let m = members[i];
        proof {
            assert(members@.take(i + 1) == members@.take(i as int).push(m));
            members@.take(i as int).lemma_filter_push(m, not_listed(listed@));
        }
        if !contains_id(listed, &m) {
            r.push(m);
        }
        i += 1;
    }
    assert(members@.take(members.len() as int) == members@);
    r
}

/// Splits the listed ids into those `player` owns and skips for the rest, in list order.
fn owned_members(units: &Vec<UnitState>, list: &Vec<EntityId>, player: PlayerId) -> (r: (Vec<EntityId>, Vec<SkippedTarget>))
    requires
        ids_unique(units@),
    ensures
        r.0@ == list@.filter_map(member_accepted(units@, player)),
        r.1@ == list@.filter_map(member_skipped(units@, player)),
{
    let mut accepted: Vec<EntityId> = Vec::new();
    let mut skipped: Vec<SkippedTarget> = Vec::new();
    let mut i: usize = 0;
    while i < list.len()
        invariant
            0 <= i <= list.len(),
            ids_unique(units@),
            accepted@ == list@.take(i as int).filter_map(member_accepted(units@, player)),
            skipped@ == list@.take(i as int).filter_map(member_skipped(units@, player)),
        decreases list.len() - i,
    {
        let x = list[i];
        proof {
            list@.lemma_filter_map_take_succ(member_accepted(units@, player), i as int);
            list@.lemma_filter_map_take_succ(member_skipped(units@, player), i as int);
        }
        match find_index(units, &x) {
            Some(j) => {
                if units[j].owner == player {
                    accepted.push(x);
                } else {
                    skipped.push(SkippedTarget { entity_id: Some(x), reason: SkipReason::WrongOwner });
                }
            },
            None => {
                skipped.push(SkippedTarget { entity_id: Some(x), reason: SkipReason::Absent });
            },
        }
        i += 1;
    }
    assert(list@.take(list.len() as int) == list@);
    (accepted, skipped)
}

fn apply_member_edit(
    world: &mut OrderWorld,
    group: ControlGroupId,
    edit: &MemberEdit,
    cid: CommandId,
    player: PlayerId,
) -> (out: CommandOutcome)
    requires
        ids_unique(old(world).units@),
    ensures
        member_edit_effect(*old(world), *final(world), group, *edit, cid, player, out),
{
    let ghost w0 = *world;
    let gi = match group_index(&world.groups, &group) {
        Some(g) => g,
        None => {
            return refusal(cid, SkipReason::WrongOwner);
        },
    };
    if group.owner != player {
        return refusal(cid, SkipReason::WrongOwner);
    }
    let mut slot = world.groups.remove(gi);
    let out = match edit {
        MemberEdit::Remove { entities } => {
            slot.members = without_listed(&slot.members, entities);
            CommandOutcome { command_id: cid, applied_entities: copy_vec(entities), skipped: Vec::new() }
        },
        MemberEdit::Replace { entities } | MemberEdit::Add { entities } => {
            let replace = match edit {
                MemberEdit::Replace { .. } => true,
                _ => false,
            };
            let (accepted, skipped) = owned_members(&world.units, entities, player);
            let mut combined: Vec<EntityId> = if replace {
                Vec::new()
            } else {
                copy_vec(&slot.members)
            };
            let ghost base = combined@;
            let mut k: usize = 0;
            while k < accepted.len()
                invariant
                    0 <= k <= accepted.len(),
                    combined@ == base + accepted@.take(k as int),
                decreases accepted.len() - k,
            {
                combined.push(accepted[k]);
                proof {
                    assert(accepted@.take(k + 1) == accepted@.take(k as int).push(accepted@[k as int]));
                    assert(base + accepted@.take(k + 1) == (base + accepted@.take(k as int)).push(accepted@[k as int]));
                }
                k += 1;
            }
            assert(accepted@.take(accepted.len() as int) == accepted@);
            slot.members = sorted_targets(&combined);
            proof {
                if replace {
                    assert(base + accepted@ == accepted@);
                }
            }
            CommandOutcome { command_id: cid, applied_entities: accepted, skipped }
        },
    };
    world.groups.insert(gi, slot);
    proof {
        assert(world.groups@ == w0.groups@.update(gi as int, world.groups@[gi as int]));
    }
    out
}

// ---- cancelling blueprints ---------------------------------------------------------------------

/// `bps` holds a blueprint of `player` with this id.
pub open spec fn owns_blueprint(bps: Seq<PlannedBlueprint>, id: EntityId, player: PlayerId) -> bool {
    exists|j: int| 0 <= j < bps.len() && (#[trigger] bps[j]).id == id && bps[j].owner == player
}

/// The outcome lists of a cancellation: the first listing of each of the player's blueprints
/// cancels it; repeats and ids the player has no blueprint for are reported absent.
pub open spec fn cancel_report(ids: Seq<EntityId>, bps: Seq<PlannedBlueprint>, player: PlayerId) -> (Seq<EntityId>, Seq<SkippedTarget>)
    decreases ids.len(),
{
    if ids.len() == 0 {
        (Seq::empty(), Seq::empty())
    } else {
        let (a, sk) = cancel_report(ids.drop_last(), bps, player);
        let x = ids.last();
        if owns_blueprint(bps, x, player) && !ids.drop_last().contains(x) {
            (a.push(x), sk)
        } else {
            (a, sk.push(SkippedTarget { entity_id: Some(x), reason: SkipReason::Absent }))
        }
    }
}

/// The blueprint survives a cancellation of `ids` by `player`.
pub open spec fn bp_survives(ids: Seq<EntityId>, player: PlayerId) -> spec_fn(PlannedBlueprint) -> bool {
    |b: PlannedBlueprint| !(ids.contains(b.id) && b.owner == player)
}

/// A cancelled blueprint had started a site with this id.
pub open spec fn site_cancelled(bps: Seq<PlannedBlueprint>, ids: Seq<EntityId>, player: PlayerId, site: EntityId) -> bool {
    exists|j: int| 0 <= j < bps.len() && !bp_survives(ids, player)(#[trigger] bps[j]) && bps[j].site_id == Some(site)
}

/// The entity survives a cancellation: it is not the site of a cancelled blueprint.
pub open spec fn unit_survives(bps: Seq<PlannedBlueprint>, ids: Seq<EntityId>, player: PlayerId) -> spec_fn(UnitState) -> bool {
    |u: UnitState| !site_cancelled(bps, ids, player, u.id)
}

fn owns_blueprint_exec(bps: &Vec<PlannedBlueprint>, id: &EntityId, player: PlayerId) -> (r: bool)
    ensures
        r == owns_blueprint(bps@, *id, player),
{
    let mut j: usize = 0;
    while j < bps.len()
        invariant
            0 <= j <= bps.len(),
            forall|k: int| 0 <= k < j ==> !((#[trigger] bps@[k]).id == *id && bps@[k].owner == player),
        decreases bps.len() - j,
    {
        if bps[j].id == *id && bps[j].owner == player {
            assert(bps@[j as int].id == *id);
            return true;
        }
        j += 1;
    }
    false
}

/// Cancels the listed blueprints of `player` and removes the sites they had started.
fn cancel_blueprints(world: &mut OrderWorld, ids: &Vec<EntityId>, player: PlayerId, cid: CommandId) -> (out: CommandOutcome)
    requires
        ids_unique(old(world).units@),
    ensures
        ids_unique(final(world).units@),
        *final(world) == (OrderWorld { units: final(world).units, blueprints: final(world).blueprints, ..*old(world) }),
        final(world).blueprints@ == old(world).blueprints@.filter(bp_survives(ids@, player)),
        final(world).units@ == old(world).units@.filter(unit_survives(old(world).blueprints@, ids@, player)),
        out.command_id == cid,
        (out.applied_entities@, out.skipped@) == cancel_report(ids@, old(world).blueprints@, player),
{
    let ghost w0 = *world;
    let mut applied: Vec<EntityId> = Vec::new();
    let mut skipped: Vec<SkippedTarget> = Vec::new();
    let mut seen: Vec<EntityId> = Vec::new();
    let mut i: usize = 0;
    while i < ids.len()
        invariant
            0 <= i <= ids.len(),
            *world == w0,
            seen@ == ids@.take(i as int),
            (applied@, skipped@) == cancel_report(ids@.take(i as int), w0.blueprints@, player),
        decreases ids.len() - i,
    {
        let x = ids[i];
        proof {
            assert(ids@.take(i + 1).drop_last() == ids@.take(i as int));
        }
        if owns_blueprint_exec(&world.blueprints, &x, player) && !contains_id(&seen, &x) {
            applied.push(x);
        } else {
            skipped.push(SkippedTarget { entity_id: Some(x), reason: SkipReason::Absent });
        }
        seen.push(x);
        i += 1;
    }
    assert(ids@.take(ids@.len() as int) == ids@);
    let total_bps = world.blueprints.len();
    let mut pending: Vec<PlannedBlueprint> = Vec::new();
    std::mem::swap(&mut pending, &mut world.blueprints);
    let mut sites: Vec<EntityId> = Vec::new();
    let mut k: usize = 0;
    while pending.len() > 0
        invariant
            k + pending@.len() == w0.blueprints@.len(),
            total_bps == w0.blueprints@.len(),
            pending@ == w0.blueprints@.skip(k as int),
            world.blueprints@ == w0.blueprints@.take(k as int).filter(bp_survives(ids@, player)),
            forall|s: EntityId| #[trigger] sites@.contains(s) <==> site_cancelled(w0.blueprints@.take(k as int), ids@, player, s),
            *world == (OrderWorld { blueprints: world.blueprints, ..w0 }),
        decreases pending.len(),
    {
        let b = pending.remove(0);
        let ghost pre = w0.blueprints@.take(k as int);
        proof {
            assert(b == w0.blueprints@[k as int]);
            assert(w0.blueprints@.take(k + 1) == pre.push(b));
            pre.lemma_filter_push(b, bp_survives(ids@, player));
            assert(pending@ =~= w0.blueprints@.skip(k + 1));
        }
        let cancelled = contains_id(ids, &b.id) && b.owner == player;
        let ghost sites0 = sites@;
        if cancelled {
            if let Some(site) = b.site_id {
                sites.push(site);
            }
        } else {
            world.blueprints.push(b);
        }
        proof {
            let post = pre.push(b);
            assert forall|s: EntityId| #[trigger] sites@.contains(s) <==> site_cancelled(post, ids@, player, s) by {
                if cancelled && b.site_id is Some {
                    lemma_push_contains(sites0, b.site_id->0, s);
                }
                if site_cancelled(post, ids@, player, s) {
                    let j = choose|j: int| 0 <= j < post.len() && !bp_survives(ids@, player)(#[trigger] post[j]) && post[j].site_id == Some(s);
                    if j < pre.len() {
                        assert(pre[j] == post[j]);
                        assert(site_cancelled(pre, ids@, player, s));
                    }
                }
                if site_cancelled(pre, ids@, player, s) {
                    let j = choose|j: int| 0 <= j < pre.len() && !bp_survives(ids@, player)(#[trigger] pre[j]) && pre[j].site_id == Some(s);
                    assert(post[j] == pre[j]);
                }
                if cancelled && b.site_id == Some(s) {
                    assert(post[pre.len() as int] == b);
                }
            }
        }
        k += 1;
    }
    proof {
        assert(w0.blueprints@.take(k as int) == w0.blueprints@);
    }
    let total_units = world.units.len();
    let mut pending_units: Vec<UnitState> = Vec::new();
    std::mem::swap(&mut pending_units, &mut world.units);
    let mut m: usize = 0;
    while pending_units.len() > 0
        invariant
            m + pending_units@.len() == w0.units@.len(),
            total_units == w0.units@.len(),
            pending_units@ == w0.units@.skip(m as int),
            world.units@ == w0.units@.take(m as int).filter(unit_survives(w0.blueprints@, ids@, player)),
            forall|s: EntityId| #[trigger] sites@.contains(s) <==> site_cancelled(w0.blueprints@, ids@, player, s),
            *world == (OrderWorld { units: world.units, blueprints: world.blueprints, ..w0 }),
            world.blueprints@ == w0.blueprints@.filter(bp_survives(ids@, player)),
        decreases pending_units.len(),
    {
        let u = pending_units.remove(0);
        let ghost pre = w0.units@.take(m as int);
        proof {
            assert(u == w0.units@[m as int]);
            assert(w0.units@.take(m + 1) == pre.push(u));
            pre.lemma_filter_push(u, unit_survives(w0.blueprints@, ids@, player));
            assert(pending_units@ =~= w0.units@.skip(m + 1));
        }
        if !contains_id(&sites, &u.id) {
            world.units.push(u);
        }
        m += 1;
    }
    proof {
        assert(w0.units@.take(m as int) == w0.units@);
        lemma_filter_keeps_unique(w0.units@, unit_survives(w0.blueprints@, ids@, player));
    }
    CommandOutcome { command_id: cid, applied_entities: applied, skipped }
}

/// Keeping some entities keeps their ids distinct.
proof fn lemma_filter_keeps_unique(units: Seq<UnitState>, keep: spec_fn(UnitState) -> bool)
    requires
        ids_unique(units),
    ensures
        ids_unique(units.filter(keep)),
    decreases units.len(),
{
    reveal(Seq::filter);
    if units.len() > 0 {
        let rest = units.drop_last();
        assert forall|i: int, j: int| 0 <= i < j < rest.len() implies #[trigger] rest[i].id != #[trigger] rest[j].id by {
            assert(units[i] == rest[i] && units[j] == rest[j]);
        }
        lemma_filter_keeps_unique(rest, keep);
        let f = rest.filter(keep);
        if keep(units.last()) {
            assert forall|i: int, j: int| 0 <= i < j < f.len() + 1 implies #[trigger] f.push(units.last())[i].id != #[trigger] f.push(units.last())[j].id by {
                if j == f.len() {
                    assert(f.contains(f[i]));
                    rest.lemma_filter_contains_rev(keep, f[i]);
                    let k = choose|k: int| 0 <= k < rest.len() && rest[k] == f[i];
                    assert(units[k] == rest[k]);
                    assert(units[k].id != units[units.len() - 1].id);
                } else {
                    assert(f.push(units.last())[i] == f[i] && f.push(units.last())[j] == f[j]);
                }
            }
        }
    }
}

// ---- configuring blueprints --------------------------------------------------------------------

/// Each blueprint has its own id.
pub open spec fn bp_ids_unique(bps: Seq<PlannedBlueprint>) -> bool {
    forall|i: int, j: int| 0 <= i < j < bps.len() ==> #[trigger] bps[i].id != #[trigger] bps[j].id
}

/// Every blueprint names a type of the content.
pub open spec fn bp_types_known(bps: Seq<PlannedBlueprint>, types: Seq<TypeCaps>) -> bool {
    forall|k: int| 0 <= k < bps.len() ==> caps_of(types, (#[trigger] bps[k]).type_key@) is Some
}

/// The player's blueprint with this id that has not started a site.
pub open spec fn unsited_owned(b: PlannedBlueprint, id: EntityId, player: PlayerId) -> bool {
    b.id == id && b.owner == player && b.site_id is None
}

pub open spec fn find_unsited(bps: Seq<PlannedBlueprint>, id: EntityId, player: PlayerId) -> Option<int> {
    if exists|k: int| 0 <= k < bps.len() && unsited_owned(#[trigger] bps[k], id, player) {
        Some(choose|k: int| 0 <= k < bps.len() && unsited_owned(#[trigger] bps[k], id, player))
    } else {
        None
    }
}

proof fn lemma_find_unsited(bps: Seq<PlannedBlueprint>, id: EntityId, player: PlayerId, k: int)
    requires
        bp_ids_unique(bps),
        0 <= k < bps.len(),
        unsited_owned(bps[k], id, player),
    ensures
        find_unsited(bps, id, player) == Some(k),
{
    let j = choose|j: int| 0 <= j < bps.len() && unsited_owned(#[trigger] bps[j], id, player);
    assert(0 <= j < bps.len() && unsited_owned(bps[j], id, player));
    if j < k {
        assert(bps[j].id != bps[k].id);
    } else if j > k {
        assert(bps[k].id != bps[j].id);
    }
}

/// Why settings are not written to blueprint `id`, or `None` when they are: the player must
/// have that blueprint without a site, and a queue needs recipes the type produces.
pub open spec fn configure_verdict(
    bps: Seq<PlannedBlueprint>,
    types: Seq<TypeCaps>,
    id: EntityId,
    player: PlayerId,
    queue: Seq<TypeKey>,
) -> Option<SkipReason> {
    match find_unsited(bps, id, player) {
        None => Some(SkipReason::Absent),
        Some(k) => if recipes_ok(caps_of(types, bps[k].type_key@)->0, queue) {
            None
        } else {
            Some(SkipReason::Incompatible)
        },
    }
}

pub open spec fn configure_applied(bps: Seq<PlannedBlueprint>, types: Seq<TypeCaps>, player: PlayerId, queue: Seq<TypeKey>) -> spec_fn(EntityId) -> Option<EntityId> {
    |x: EntityId| if configure_verdict(bps, types, x, player, queue) is None { Some(x) } else { None }
}

pub open spec fn configure_skipped(bps: Seq<PlannedBlueprint>, types: Seq<TypeCaps>, player: PlayerId, queue: Seq<TypeKey>) -> spec_fn(EntityId) -> Option<SkippedTarget> {
    |x: EntityId| match configure_verdict(bps, types, x, player, queue) {
        Some(r) => Some(SkippedTarget { entity_id: Some(x), reason: r }),
        None => None,
    }
}

/// `new` is `b` with the settings, their priority, and the command and target that wrote them.
pub open spec fn configured(b: PlannedBlueprint, new: PlannedBlueprint, settings: BlueprintSettings, cid: CommandId, target_index: int) -> bool {
    &&& new.settings matches Some(s) && settings_same(s, settings)
    &&& new == PlannedBlueprint {
        priority: settings.priority,
        settings: new.settings,
        settings_command: Some(BirthCommandId { command: cid, target_index: target_index as u16 }),
        ..b
    }
}

/// The blueprints after settings were written, walking the distinct ids in order.
pub open spec fn configure_effect(
    old: Seq<PlannedBlueprint>,
    new: Seq<PlannedBlueprint>,
    types: Seq<TypeCaps>,
    ids: Seq<EntityId>,
    player: PlayerId,
    settings: BlueprintSettings,
    cid: CommandId,
) -> bool {
    &&& new.len() == old.len()
    &&& forall|k: int| 0 <= k < old.len() ==> if ids.contains(old[k].id) && configure_verdict(old, types, old[k].id, player, settings.queue@) is None {
        configured(old[k], #[trigger] new[k], settings, cid, ids.index_of(old[k].id))
    } else {
        new[k] == old[k]
    }
}

fn find_unsited_exec(bps: &Vec<PlannedBlueprint>, id: &EntityId, player: PlayerId) -> (r: Option<usize>)
    requires
        bp_ids_unique(bps@),
    ensures
        r matches Some(k) ==> find_unsited(bps@, *id, player) == Some(k as int),
        r is None ==> find_unsited(bps@, *id, player) is None,
{
    let mut k: usize = 0;
    while k < bps.len()
        invariant
            0 <= k <= bps.len(),
            bp_ids_unique(bps@),
            forall|j: int| 0 <= j < k ==> !unsited_owned(#[trigger] bps@[j], *id, player),
        decreases bps.len() - k,
    {
        if bps[k].id == *id && bps[k].owner == player && bps[k].site_id.is_none() {
            proof {
                lemma_find_unsited(bps@, *id, player, k as int);
            }
            return Some(k);
        }
        k += 1;
    }
    None
}

/// Writes the settings on each distinct listed blueprint of `player`, in id order.
fn configure_blueprints(
    bps: &mut Vec<PlannedBlueprint>,
    types: &Vec<TypeCaps>,
    targets: &Vec<EntityId>,
    settings: &BlueprintSettings,
    player: PlayerId,
    cid: CommandId,
) -> (r: (Vec<EntityId>, Vec<SkippedTarget>))
    requires
        bp_ids_unique(old(bps)@),
        bp_types_known(old(bps)@, types@),
        targets@.len() <= 65536,
    ensures
        bp_ids_unique(final(bps)@),
        bp_types_known(final(bps)@, types@),
        exists|ids: Seq<EntityId>| {
            &&& #[trigger] sorted_set_of(ids, targets@)
            &&& configure_effect(old(bps)@, final(bps)@, types@, ids, player, *settings, cid)
            &&& r.0@ == ids.filter_map(configure_applied(old(bps)@, types@, player, settings.queue@))
            &&& r.1@ == ids.filter_map(configure_skipped(old(bps)@, types@, player, settings.queue@))
        },
{
    let ghost start = bps@;
    let ids = sorted_targets(targets);
    proof {
        lemma_sorted_set_len(ids@, targets@);
    }
    let mut applied: Vec<EntityId> = Vec::new();
    let mut skipped: Vec<SkippedTarget> = Vec::new();
    let mut t: usize = 0;
    while t < ids.len()
        invariant
            0 <= t <= ids.len() <= 65536,
            sorted_set_of(ids@, targets@),
            bp_ids_unique(start),
            bp_types_known(start, types@),
            bps@.len() == start.len(),
            forall|k: int| 0 <= k < start.len() ==> (#[trigger] bps@[k]).id == start[k].id && bps@[k].owner == start[k].owner
                && bps@[k].site_id == start[k].site_id && bps@[k].type_key == start[k].type_key,
            forall|k: int| 0 <= k < start.len() ==> if ids@.take(t as int).contains(start[k].id)
                && configure_verdict(start, types@, start[k].id, player, settings.queue@) is None {
                configured(start[k], #[trigger] bps@[k], *settings, cid, ids@.index_of(start[k].id))
            } else {
                bps@[k] == start[k]
            },
            applied@ == ids@.take(t as int).filter_map(configure_applied(start, types@, player, settings.queue@)),
            skipped@ == ids@.take(t as int).filter_map(configure_skipped(start, types@, player, settings.queue@)),
        decreases ids.len() - t,
    {
        let x = ids[t];
        let ghost before = bps@;
        let ghost done = ids@.take(t as int);
        proof {
            assert(ids@.take(t + 1) == done.push(x));
            lemma_sorted_index_of(ids@, t as int);
            assert forall|i: int, j: int| 0 <= i < j < before.len() implies #[trigger] before[i].id != #[trigger] before[j].id by {
                assert(start[i].id != start[j].id);
            }
            if let Some(k) = find_unsited(start, x, player) {
                assert(0 <= k < start.len() && unsited_owned(start[k], x, player)) by {
                    let j = choose|j: int| 0 <= j < start.len() && unsited_owned(#[trigger] start[j], x, player);
                }
                lemma_find_unsited(before, x, player, k);
                lemma_sorted_not_before(ids@, t as int);
                assert(before[k] == start[k]);
            } else {
                assert forall|k: int| 0 <= k < before.len() implies !unsited_owned(#[trigger] before[k], x, player) by {
                    assert(!unsited_owned(start[k], x, player));
                }
            }
            ids@.lemma_filter_map_take_succ(configure_applied(start, types@, player, settings.queue@), t as int);
            ids@.lemma_filter_map_take_succ(configure_skipped(start, types@, player, settings.queue@), t as int);
        }
        let verdict: Option<SkipReason> = match find_unsited_exec(bps, &x, player) {
            None => Some(SkipReason::Absent),
            Some(k) => {
                let ty = match find_caps(types, &bps[k].type_key) {
                    Some(ty) => ty,
                    None => {
                        proof {
                            assert(caps_of(types@, start[k as int].type_key@) is Some);
                        }
                        return (applied, skipped);
                    },
                };
                if !recipes_ok_exec(&types[ty], &settings.queue) {
                    Some(SkipReason::Incompatible)
                } else {
                    let b = bps.remove(k);
                    let nb = PlannedBlueprint {
                        priority: settings.priority,
                        settings: Some(copy_settings(settings)),
                        settings_command: Some(BirthCommandId { command: cid, target_index: t as u16 }),
                        ..b
                    };
                    bps.insert(k, nb);
                    proof {
                        assert(bps@ == before.update(k as int, nb));
                    }
                    None
                }
            },
        };
        proof {
            assert(verdict == configure_verdict(start, types@, x, player, settings.queue@));
            if verdict is None {
                let k = find_unsited(start, x, player)->0;
                assert(bps@ == before.update(k, bps@[k]));
            } else {
                assert(bps@ == before);
            }
            assert forall|k: int| 0 <= k < start.len() implies if ids@.take(t + 1).contains(start[k].id)
                && configure_verdict(start, types@, start[k].id, player, settings.queue@) is None {
                configured(start[k], #[trigger] bps@[k], *settings, cid, ids@.index_of(start[k].id))
            } else {
                bps@[k] == start[k]
            } by {
                lemma_push_contains(done, x, start[k].id);
                if start[k].id == x && verdict is None {
                    lemma_find_unsited(start, x, player, k);
                }
            }
        }
        match verdict {
            None => {
                applied.push(x);
            },
            Some(reason) => {
                skipped.push(SkippedTarget { entity_id: Some(x), reason });
            },
        }
        t += 1;
    }
    proof {
        assert(ids@.take(ids@.len() as int) == ids@);
        assert forall|i: int, j: int| 0 <= i < j < bps@.len() implies #[trigger] bps@[i].id != #[trigger] bps@[j].id by {
            assert(start[i].id != start[j].id);
        }
        assert forall|k: int| 0 <= k < bps@.len() implies caps_of(types@, (#[trigger] bps@[k]).type_key@) is Some by {
            assert(caps_of(types@, start[k].type_key@) is Some);
        }
        assert(sorted_set_of(ids@, targets@));
    }
    (applied, skipped)
}

/// A sorted set of the targets is no longer than the targets.
proof fn lemma_sorted_set_len(ids: Seq<EntityId>, targets: Seq<EntityId>)
    requires
        sorted_set_of(ids, targets),
    ensures
        ids.len() <= targets.len(),
{
    assert(ids.no_duplicates()) by {
        assert forall|i: int, j: int| 0 <= i < ids.len() && 0 <= j < ids.len() && i != j implies ids[i] != ids[j] by {
            if i < j {
                assert(entity_lt(ids[i], ids[j]));
                lemma_entity_lt_order(ids[i], ids[i], ids[i]);
            } else {
                assert(entity_lt(ids[j], ids[i]));
                lemma_entity_lt_order(ids[j], ids[j], ids[j]);
            }
        }
    }
    assert(ids.to_set().subset_of(targets.to_set()));
    ids.unique_seq_to_set();
    vstd::set_lib::lemma_len_subset(ids.to_set(), targets.to_set());
    targets.lemma_cardinality_of_set();
}

/// In a strictly increasing list, the element at `t` sits at position `t`.
proof fn lemma_sorted_index_of(ids: Seq<EntityId>, t: int)
    requires
        sorted_ids(ids),
        0 <= t < ids.len(),
    ensures
        ids.index_of(ids[t]) == t,
{
    let x = ids[t];
    assert(ids[t] == x);
    let j = ids.index_of(x);
    assert(0 <= j < ids.len() && ids[j] == x);
    if j < t {
        assert(entity_lt(ids[j], ids[t]));
        lemma_entity_lt_order(x, x, x);
    } else if j > t {
        assert(entity_lt(ids[t], ids[j]));
        lemma_entity_lt_order(x, x, x);
    }
}

/// In a strictly increasing list, the element at `t` is not among the earlier ones.
proof fn lemma_sorted_not_before(ids: Seq<EntityId>, t: int)
    requires
        sorted_ids(ids),
        0 <= t < ids.len(),
    ensures
        !ids.take(t).contains(ids[t]),
{
    if ids.take(t).contains(ids[t]) {
        let j = choose|j: int| 0 <= j < t && #[trigger] ids.take(t)[j] == ids[t];
        assert(entity_lt(ids[j], ids[t]));
        lemma_entity_lt_order(ids[t], ids[t], ids[t]);
    }
}

// ---- placing blueprints ------------------------------------------------------------------------

/// The terrain and reservation grids cover the map.
pub open spec fn grid_ok(w: OrderWorld) -> bool {
    &&& w.floor@.len() == w.width as int * w.height as int
    &&& w.reserved@.len() == w.width as int * w.height as int
}

pub open spec fn inside(w: OrderWorld, x: int, y: int) -> bool {
    0 <= x < w.width && 0 <= y < w.height
}

pub open spec fn cell_of(w: OrderWorld, t: Tile) -> int {
    t.y as int * w.width as int + t.x as int
}

/// A structure or site stands on the tile.
pub open spec fn structure_at(units: Seq<UnitState>, t: Tile) -> bool {
    exists|k: int| 0 <= k < units.len() && (#[trigger] units[k]).tile == t && units[k].abilities.structure
}

/// A walkable tile: on the map, floor, not reserved and not held by a structure.
pub open spec fn passable(w: OrderWorld, t: Tile) -> bool {
    &&& inside(w, t.x as int, t.y as int)
    &&& w.floor@[cell_of(w, t)]
    &&& !w.reserved@[cell_of(w, t)]
    &&& !structure_at(w.units@, t)
}

/// The player already has a blueprint on the tile.
pub open spec fn own_blueprint_at(bps: Seq<PlannedBlueprint>, player: PlayerId, t: Tile) -> bool {
    exists|j: int| 0 <= j < bps.len() && (#[trigger] bps[j]).tile == t && bps[j].owner == player
}

/// The neighbouring tile on that side, if it is on the map.
pub open spec fn side_tile(w: OrderWorld, t: Tile, d: CardinalDirection) -> Option<Tile> {
    let (dx, dy) = match d {
        CardinalDirection::N => (0int, -1int),
        CardinalDirection::E => (1int, 0int),
        CardinalDirection::S => (0int, 1int),
        CardinalDirection::W => (-1int, 0int),
    };
    if inside(w, t.x + dx, t.y + dy) {
        Some(Tile { x: (t.x + dx) as u16, y: (t.y + dy) as u16 })
    } else {
        None
    }
}

pub open spec fn opens_toward(w: OrderWorld, t: Tile, d: CardinalDirection) -> bool {
    match side_tile(w, t, d) {
        Some(n) => passable(w, n),
        None => false,
    }
}

/// The output side of a factory on `t`: the wanted side if it opens onto a walkable tile,
/// otherwise (with no wish) the first of north, east, south and west that does.
pub open spec fn output_side(w: OrderWorld, t: Tile, wanted: Option<CardinalDirection>) -> Option<CardinalDirection> {
    match wanted {
        Some(d) => if opens_toward(w, t, d) { Some(d) } else { None },
        None => if opens_toward(w, t, CardinalDirection::N) {
            Some(CardinalDirection::N)
        } else if opens_toward(w, t, CardinalDirection::E) {
            Some(CardinalDirection::E)
        } else if opens_toward(w, t, CardinalDirection::S) {
            Some(CardinalDirection::S)
        } else if opens_toward(w, t, CardinalDirection::W) {
            Some(CardinalDirection::W)
        } else {
            None
        },
    }
}

pub open spec fn wanted_at(dirs: Option<Seq<CardinalDirection>>, k: int) -> Option<CardinalDirection> {
    match dirs {
        Some(d) => Some(d[k]),
        None => None,
    }
}

/// Tile `k` could take a blueprint: on the map, walkable, without one of the player's
/// blueprints, and, for a producer, with an output side.
pub open spec fn placeable(w: OrderWorld, player: PlayerId, tiles: Seq<Tile>, dirs: Option<Seq<CardinalDirection>>, produces: bool, k: int) -> bool {
    let t = tiles[k];
    &&& !own_blueprint_at(w.blueprints@, player, t)
    &&& passable(w, t)
    &&& produces ==> output_side(w, t, wanted_at(dirs, k)) is Some
}

/// Tile `k` takes a blueprint: it is placeable and no earlier listing of the same tile was.
pub open spec fn placed(w: OrderWorld, player: PlayerId, tiles: Seq<Tile>, dirs: Option<Seq<CardinalDirection>>, produces: bool, k: int) -> bool {
    &&& placeable(w, player, tiles, dirs, produces, k)
    &&& !exists|j: int| 0 <= j < k && tiles[j] == tiles[k] && #[trigger] placeable(w, player, tiles, dirs, produces, j)
}

/// The first round-precedence entry of `round`.
pub open spec fn precedence_entry(ps: Seq<RoundPrecedence>, round: u32) -> Option<int> {
    if exists|i: int| 0 <= i < ps.len() && (#[trigger] ps[i]).round == round {
        Some(choose|i: int| 0 <= i < ps.len() && (#[trigger] ps[i]).round == round && forall|j: int| 0 <= j < i ==> (#[trigger] ps[j]).round != round)
    } else {
        None
    }
}

/// The first position of `x` in `s`.
pub open spec fn first_position(s: Seq<PlayerId>, x: PlayerId) -> Option<int> {
    if exists|i: int| 0 <= i < s.len() && s[i] == x {
        Some(choose|i: int| 0 <= i < s.len() && s[i] == x && forall|j: int| 0 <= j < i ==> #[trigger] s[j] != x)
    } else {
        None
    }
}

/// The player's rank in the round's precedence, or the player id when the round lists none.
pub open spec fn player_rank(ps: Seq<RoundPrecedence>, round: u32, player: PlayerId) -> u8 {
    match precedence_entry(ps, round) {
        Some(i) => match first_position(ps[i].players@, player) {
            Some(p) => p as u8,
            None => player,
        },
        None => player,
    }
}

/// The blueprint that tile `k` of the command becomes.
pub open spec fn placed_record(
    w: OrderWorld,
    round: u32,
    player: PlayerId,
    cid: CommandId,
    type_key: TypeKey,
    tiles: Seq<Tile>,
    priority: Priority,
    dirs: Option<Seq<CardinalDirection>>,
    produces: bool,
    k: int,
) -> PlannedBlueprint {
    PlannedBlueprint {
        id: spec_blueprint(cid, k as u32),
        owner: player,
        type_key,
        tile: tiles[k],
        priority,
        source_command_id: cid,
        precedence: EventKey { tick: w.tick, round, player_rank: player_rank(w.precedence@, round, player), command_index: cid.index },
        site_id: None,
        settings: None,
        settings_command: None,
        output_direction: if produces { output_side(w, tiles[k], wanted_at(dirs, k)) } else { None },
    }
}

/// Blueprints in strictly increasing id order.
pub open spec fn bps_sorted(bps: Seq<PlannedBlueprint>) -> bool {
    forall|i: int, j: int| 0 <= i < j < bps.len() ==> entity_lt(#[trigger] bps[i].id, #[trigger] bps[j].id)
}

pub open spec fn indices(n: int) -> Seq<int> {
    Seq::new(n as nat, |k: int| k)
}

pub open spec fn place_applied(w: OrderWorld, player: PlayerId, cid: CommandId, tiles: Seq<Tile>, dirs: Option<Seq<CardinalDirection>>, produces: bool) -> spec_fn(int) -> Option<EntityId> {
    |k: int| if placed(w, player, tiles, dirs, produces, k) { Some(spec_blueprint(cid, k as u32)) } else { None }
}

pub open spec fn place_skipped(w: OrderWorld, player: PlayerId, cid: CommandId, tiles: Seq<Tile>, dirs: Option<Seq<CardinalDirection>>, produces: bool) -> spec_fn(int) -> Option<SkippedTarget> {
    |k: int| if placed(w, player, tiles, dirs, produces, k) {
        None
    } else {
        Some(SkippedTarget { entity_id: Some(spec_blueprint(cid, k as u32)), reason: SkipReason::Blocked })
    }
}

pub open spec fn opt_dirs(d: Option<Vec<CardinalDirection>>) -> Option<Seq<CardinalDirection>> {
    match d {
        Some(v) => Some(v@),
        None => None,
    }
}

fn passable_exec(w: &OrderWorld, t: Tile) -> (r: bool)
    requires
        grid_ok(*w),
    ensures
        r == passable(*w, t),
{
    if !(t.x < w.width && t.y < w.height) {
        return false;
    }
    let cells = w.floor.len();
    proof {
        assert((t.y as int) * (w.width as int) + (t.x as int) < (w.width as int) * (w.height as int)) by (nonlinear_arith)
            requires
                t.x < w.width,
                t.y < w.height,
        ;
        assert((t.y as int) * (w.width as int) <= (t.y as int) * (w.width as int) + (t.x as int));
    }
    let c = t.y as usize * w.width as usize + t.x as usize;
    assert(c == cell_of(*w, t));
    if !w.floor[c] || w.reserved[c] {
        return false;
    }
    let mut k: usize = 0;
    while k < w.units.len()
        invariant
            0 <= k <= w.units.len(),
            forall|j: int| 0 <= j < k ==> !((#[trigger] w.units@[j]).tile == t && w.units@[j].abilities.structure),
        decreases w.units.len() - k,
    {
        if w.units[k].tile == t && w.units[k].abilities.structure {
            assert(w.units@[k as int].tile == t);
            return false;
        }
        k += 1;
    }
    true
}

fn side_tile_exec(w: &OrderWorld, t: Tile, d: CardinalDirection) -> (r: Option<Tile>)
    ensures
        r == side_tile(*w, t, d),
{
    let (dx, dy): (i32, i32) = crate::geometry::cardinal_offset(d);
    let x: i32 = t.x as i32 + dx;
    let y: i32 = t.y as i32 + dy;
    if 0 <= x && x < w.width as i32 && 0 <= y && y < w.height as i32 {
        Some(Tile { x: x as u16, y: y as u16 })
    } else {
        None
    }
}

fn opens_toward_exec(w: &OrderWorld, t: Tile, d: CardinalDirection) -> (r: bool)
    requires
        grid_ok(*w),
    ensures
        r == opens_toward(*w, t, d),
{
    match side_tile_exec(w, t, d) {
        Some(n) => passable_exec(w, n),
        None => false,
    }
}

fn output_side_exec(w: &OrderWorld, t: Tile, wanted: Option<CardinalDirection>) -> (r: Option<CardinalDirection>)
    requires
        grid_ok(*w),
    ensures
        r == output_side(*w, t, wanted),
{
    match wanted {
        Some(d) => if opens_toward_exec(w, t, d) { Some(d) } else { None },
        None => if opens_toward_exec(w, t, CardinalDirection::N) {
            Some(CardinalDirection::N)
        } else if opens_toward_exec(w, t, CardinalDirection::E) {
            Some(CardinalDirection::E)
        } else if opens_toward_exec(w, t, CardinalDirection::S) {
            Some(CardinalDirection::S)
        } else if opens_toward_exec(w, t, CardinalDirection::W) {
            Some(CardinalDirection::W)
        } else {
            None
        },
    }
}

fn own_blueprint_at_exec(bps: &Vec<PlannedBlueprint>, player: PlayerId, t: Tile) -> (r: bool)
    ensures
        r == own_blueprint_at(bps@, player, t),
{
    let mut j: usize = 0;
    while j < bps.len()
        invariant
            0 <= j <= bps.len(),
            forall|k: int| 0 <= k < j ==> !((#[trigger] bps@[k]).tile == t && bps@[k].owner == player),
        decreases bps.len() - j,
    {
        if bps[j].tile == t && bps[j].owner == player {
            assert(bps@[j as int].tile == t);
            return true;
        }
        j += 1;
    }
    false
}

fn player_rank_exec(ps: &Vec<RoundPrecedence>, round: u32, player: PlayerId) -> (r: u8)
    ensures
        r == player_rank(ps@, round, player),
{
    let mut i: usize = 0;
    while i < ps.len()
        invariant
            0 <= i <= ps.len(),
            forall|j: int| 0 <= j < i ==> (#[trigger] ps@[j]).round != round,
        decreases ps.len() - i,
    {
        if ps[i].round == round {
            proof {
                let c = choose|c: int| 0 <= c < ps@.len() && (#[trigger] ps@[c]).round == round && forall|j: int| 0 <= j < c ==> (#[trigger] ps@[j]).round != round;
                assert(0 <= c < ps@.len() && ps@[c].round == round && forall|j: int| 0 <= j < c ==> (#[trigger] ps@[j]).round != round);
                if c < i {
                    assert(ps@[c].round != round);
                } else if c > i {
                    assert(ps@[i as int].round != round);
                }
                assert(precedence_entry(ps@, round) == Some(i as int));
            }
            let players = &ps[i].players;
            let mut p: usize = 0;
            while p < players.len()
                invariant
                    0 <= p <= players.len(),
                    precedence_entry(ps@, round) == Some(i as int),
                    *players == ps@[i as int].players,
                    forall|q: int| 0 <= q < p ==> players@[q] != player,
                decreases players.len() - p,
            {
                if players[p] == player {
                    proof {
                        let q = choose|q: int| 0 <= q < players@.len() && players@[q] == player && forall|j: int| 0 <= j < q ==> #[trigger] players@[j] != player;
                        assert(0 <= q < players@.len() && players@[q] == player && forall|j: int| 0 <= j < q ==> #[trigger] players@[j] != player);
                        if q < p {
                            assert(players@[q] != player);
                        }
                        if q > p {
                            assert(players@[p as int] != player);
                        }
                        assert(first_position(players@, player) == Some(p as int));
                    }
                    return p as u8;
                }
                p += 1;
            }
            return player;
        }
        i += 1;
    }
    player
}

pub open spec fn place_record_pick(
    w: OrderWorld,
    round: u32,
    player: PlayerId,
    cid: CommandId,
    type_key: TypeKey,
    tiles: Seq<Tile>,
    priority: Priority,
    dirs: Option<Seq<CardinalDirection>>,
    produces: bool,
) -> spec_fn(int) -> Option<PlannedBlueprint> {
    |k: int| if placed(w, player, tiles, dirs, produces, k) {
        Some(placed_record(w, round, player, cid, type_key, tiles, priority, dirs, produces, k))
    } else {
        None
    }
}

/// Adds a blueprint to a list kept in strictly increasing id order.
fn insert_blueprint(bps: &mut Vec<PlannedBlueprint>, b: PlannedBlueprint)
    requires
        bps_sorted(old(bps)@),
        forall|j: int| 0 <= j < old(bps)@.len() ==> (#[trigger] old(bps)@[j]).id != b.id,
    ensures
        bps_sorted(final(bps)@),
        forall|x: PlannedBlueprint| #[trigger] final(bps)@.contains(x) <==> (old(bps)@.contains(x) || x == b),
{
    let mut p: usize = 0;
    while p < bps.len() && entity_lt_exec(&bps[p].id, &b.id)
        invariant
            0 <= p <= bps.len(),
            bps_sorted(bps@),
            forall|k: int| 0 <= k < p ==> entity_lt(#[trigger] bps@[k].id, b.id),
        decreases bps.len() - p,
    {
        p += 1;
    }
    let ghost before = bps@;
    proof {
        if p < before.len() {
            lemma_entity_lt_order(before[p as int].id, b.id, b.id);
            assert(before[p as int].id != b.id);
            assert(entity_lt(b.id, before[p as int].id));
            assert forall|k: int| p <= k < before.len() implies entity_lt(b.id, #[trigger] before[k].id) by {
                if k > p {
                    lemma_entity_lt_order(b.id, before[p as int].id, before[k].id);
                }
            }
        }
    }
    bps.insert(p, b);
    assert(bps@ == before.insert(p as int, b));
    assert forall|i: int, j: int| 0 <= i < j < bps@.len() implies entity_lt(#[trigger] bps@[i].id, #[trigger] bps@[j].id) by {
        if i < p && j > p {
            lemma_entity_lt_order(before[i].id, b.id, before[j - 1].id);
        }
    }
    assert forall|x: PlannedBlueprint| #[trigger] bps@.contains(x) <==> (before.contains(x) || x == b) by {
        if bps@.contains(x) {
            let k = choose|k: int| 0 <= k < bps@.len() && bps@[k] == x;
            if k < p {
                assert(before[k] == x);
            } else if k > p {
                assert(before[k - 1] == x);
            }
        }
        if before.contains(x) {
            let k = choose|k: int| 0 <= k < before.len() && before[k] == x;
            if k < p {
                assert(bps@[k] == x);
            } else {
                assert(bps@[k + 1] == x);
            }
        }
        if x == b {
            assert(bps@[p as int] == b);
        }
    }
}

/// What placing the tiles leaves: the world as it was but for the blueprints, which are the old
/// ones and one per placed tile, in id order; the outcome lists each tile's blueprint id in
/// tile order.
pub open spec fn place_effect(
    old: OrderWorld,
    new: OrderWorld,
    round: u32,
    player: PlayerId,
    cid: CommandId,
    type_key: TypeKey,
    tiles: Seq<Tile>,
    priority: Priority,
    dirs: Option<Seq<CardinalDirection>>,
    produces: bool,
    out: CommandOutcome,
) -> bool {
    &&& new == (OrderWorld { blueprints: new.blueprints, ..old })
    &&& bps_sorted(new.blueprints@)
    &&& forall|b: PlannedBlueprint| #[trigger] new.blueprints@.contains(b) <==> (old.blueprints@.contains(b)
        || indices(tiles.len() as int).filter_map(place_record_pick(old, round, player, cid, type_key, tiles, priority, dirs, produces)).contains(b))
    &&& out.command_id == cid
    &&& out.applied_entities@ == indices(tiles.len() as int).filter_map(place_applied(old, player, cid, tiles, dirs, produces))
    &&& out.skipped@ == indices(tiles.len() as int).filter_map(place_skipped(old, player, cid, tiles, dirs, produces))
}

/// A placement refused before any tile: the type is unknown or not a structure.
pub open spec fn placement_type(types: Seq<TypeCaps>, type_key: Seq<char>) -> Option<TypeCaps> {
    match caps_of(types, type_key) {
        Some(c) => if c.kind == TypeKind::Structure { Some(c) } else { None },
        None => None,
    }
}

proof fn lemma_indices_step(n: int, k: int)
    requires
        0 <= k < n,
    ensures
        indices(n).take(k + 1) == indices(k + 1),
        indices(k + 1).take(k) == indices(k),
        indices(k + 1)[k] == k,
        indices(k + 1).take(k + 1) == indices(k + 1),
{
    assert(indices(n).take(k + 1) =~= indices(k + 1));
    assert(indices(k + 1).take(k) =~= indices(k));
    assert(indices(k + 1).take(k + 1) =~= indices(k + 1));
}

/// Places one blueprint of the structure type on each tile that takes one.
fn place_blueprints(
    world: &mut OrderWorld,
    round: u32,
    player: PlayerId,
    cid: CommandId,
    type_key: &TypeKey,
    tiles: &Vec<Tile>,
    priority: Priority,
    dirs: &Option<Vec<CardinalDirection>>,
) -> (out: CommandOutcome)
    requires
        grid_ok(*old(world)),
        bps_sorted(old(world).blueprints@),
        forall|j: int| 0 <= j < old(world).blueprints@.len() ==> (#[trigger] old(world).blueprints@[j]).id.birth_command.command != cid,
        tiles@.len() <= 65536,
        dirs matches Some(d) ==> d@.len() == tiles@.len(),
    ensures
        match placement_type(old(world).types@, type_key@) {
            None => refused(*old(world), *final(world), out, cid, SkipReason::Incompatible),
            Some(c) => place_effect(*old(world), *final(world), round, player, cid, *type_key, tiles@, priority, opt_dirs(*dirs), c.production is Some, out),
        },
{
    let ghost w0 = *world;
    let ty = match find_caps(&world.types, type_key) {
        Some(ty) => ty,
        None => {
            return refusal(cid, SkipReason::Incompatible);
        },
    };
    if world.types[ty].kind != TypeKind::Structure {
        return refusal(cid, SkipReason::Incompatible);
    }
    let produces = world.types[ty].production.is_some();
    let rank = player_rank_exec(&world.precedence, round, player);
    let ghost tl = tiles@;
    let ghost ds = opt_dirs(*dirs);
    let ghost records = place_record_pick(w0, round, player, cid, *type_key, tl, priority, ds, produces);
    let ghost picks = place_applied(w0, player, cid, tl, ds, produces);
    let ghost skips = place_skipped(w0, player, cid, tl, ds, produces);
    let mut fresh: Vec<PlannedBlueprint> = Vec::new();
    let mut applied: Vec<EntityId> = Vec::new();
    let mut skipped: Vec<SkippedTarget> = Vec::new();
    let mut k: usize = 0;
    while k < tiles.len()
        invariant
            0 <= k <= tiles.len() <= 65536,
            *world == w0,
            grid_ok(w0),
            tl == tiles@,
            ds == opt_dirs(*dirs),
            dirs matches Some(d) ==> d@.len() == tiles@.len(),
            produces == (placement_type(w0.types@, type_key@)->0.production is Some),
            rank == player_rank(w0.precedence@, round, player),
            records == place_record_pick(w0, round, player, cid, *type_key, tl, priority, ds, produces),
            picks == place_applied(w0, player, cid, tl, ds, produces),
            skips == place_skipped(w0, player, cid, tl, ds, produces),
            fresh@ == indices(k as int).filter_map(records),
            applied@ == indices(k as int).filter_map(picks),
            skipped@ == indices(k as int).filter_map(skips),
            forall|t: Tile| #[trigger] own_blueprint_at(fresh@, player, t) <==> exists|j: int| 0 <= j < k && tl[j] == t
                && #[trigger] placeable(w0, player, tl, ds, produces, j),
            forall|a: int| 0 <= a < fresh@.len() ==> (#[trigger] fresh@[a]).id.birth_command.command == cid
                && fresh@[a].owner == player && (fresh@[a].id.item_index as int) < k,
            forall|a: int, b: int| 0 <= a < b < fresh@.len() ==> (#[trigger] fresh@[a]).id.item_index < (#[trigger] fresh@[b]).id.item_index,
        decreases tiles.len() - k,
    {
        let t = tiles[k];
        let id = match blueprint(&cid, k as u32) {
            Ok(id) => id,
            Err(_) => {
                proof {
                    assert(false);
                }
                return refusal(cid, SkipReason::Blocked);
            },
        };
        let legal = !own_blueprint_at_exec(&world.blueprints, player, t) && !own_blueprint_at_exec(&fresh, player, t)
            && passable_exec(world, t);
        let output: Option<Option<CardinalDirection>> = if !legal {
            None
        } else if produces {
            let wanted = match dirs {
                Some(d) => Some(d[k]),
                None => None,
            };
            match output_side_exec(world, t, wanted) {
                Some(side) => Some(Some(side)),
                None => None,
            }
        } else {
            Some(None)
        };
        let ghost here = placeable(w0, player, tl, ds, produces, k as int);
        let ghost fresh0 = fresh@;
        proof {
            lemma_indices_step(tiles@.len() as int, k as int);
            indices(k + 1).lemma_filter_map_take_succ(records, k as int);
            indices(k + 1).lemma_filter_map_take_succ(picks, k as int);
            indices(k + 1).lemma_filter_map_take_succ(skips, k as int);
            assert(output is Some <==> (here && !own_blueprint_at(fresh0, player, t)));
            assert(placed(w0, player, tl, ds, produces, k as int) <==> output is Some);
        }
        match output {
            Some(side) => {
                fresh.push(PlannedBlueprint {
                    id,
                    owner: player,
                    type_key: type_key.clone(),
                    tile: t,
                    priority,
                    source_command_id: cid,
                    precedence: EventKey { tick: world.tick, round, player_rank: rank, command_index: cid.index },
                    site_id: None,
                    settings: None,
                    settings_command: None,
                    output_direction: side,
                });
                applied.push(id);
            },
            None => {
                skipped.push(SkippedTarget { entity_id: Some(id), reason: SkipReason::Blocked });
            },
        }
        proof {
            assert forall|u: Tile| #[trigger] own_blueprint_at(fresh@, player, u) <==> exists|j: int| 0 <= j < k + 1 && tl[j] == u
                && #[trigger] placeable(w0, player, tl, ds, produces, j) by {
                if own_blueprint_at(fresh@, player, u) {
                    let j = choose|j: int| 0 <= j < fresh@.len() && (#[trigger] fresh@[j]).tile == u && fresh@[j].owner == player;
                    if j < fresh0.len() {
                        assert(fresh0[j] == fresh@[j]);
                        assert(own_blueprint_at(fresh0, player, u));
                    } else {
                        assert(placeable(w0, player, tl, ds, produces, k as int) && tl[k as int] == u);
                    }
                }
                if exists|j: int| 0 <= j < k + 1 && tl[j] == u && #[trigger] placeable(w0, player, tl, ds, produces, j) {
                    if exists|j: int| 0 <= j < k && tl[j] == u && #[trigger] placeable(w0, player, tl, ds, produces, j) {
                        assert(own_blueprint_at(fresh0, player, u));
                        let j = choose|j: int| 0 <= j < fresh0.len() && (#[trigger] fresh0[j]).tile == u && fresh0[j].owner == player;
                        assert(fresh@[j] == fresh0[j]);
                    } else {
                        assert(tl[k as int] == u && here);
                        if own_blueprint_at(fresh0, player, u) {
                        } else {
                            assert(fresh@[fresh0.len() as int].tile == u);
                        }
                    }
                }
            }
        }
        k += 1;
    }
    let ghost placed_all = fresh@;
    let total = fresh.len();
    let mut m: usize = 0;
    while fresh.len() > 0
        invariant
            m + fresh@.len() == placed_all.len(),
            total == placed_all.len(),
            fresh@ == placed_all.skip(m as int),
            forall|a: int| 0 <= a < placed_all.len() ==> (#[trigger] placed_all[a]).id.birth_command.command == cid,
            forall|a: int, b: int| 0 <= a < b < placed_all.len() ==> (#[trigger] placed_all[a]).id.item_index < (#[trigger] placed_all[b]).id.item_index,
            forall|j: int| 0 <= j < w0.blueprints@.len() ==> (#[trigger] w0.blueprints@[j]).id.birth_command.command != cid,
            *world == (OrderWorld { blueprints: world.blueprints, ..w0 }),
            bps_sorted(world.blueprints@),
            forall|x: PlannedBlueprint| #[trigger] world.blueprints@.contains(x) <==> (w0.blueprints@.contains(x) || placed_all.take(m as int).contains(x)),
        decreases fresh.len(),
    {
        let b = fresh.remove(0);
        proof {
            assert(b == placed_all[m as int]);
            assert(fresh@ =~= placed_all.skip(m + 1));
            assert forall|j: int| 0 <= j < world.blueprints@.len() implies (#[trigger] world.blueprints@[j]).id != b.id by {
                let x = world.blueprints@[j];
                assert(world.blueprints@.contains(x));
                if w0.blueprints@.contains(x) {
                    let i = choose|i: int| 0 <= i < w0.blueprints@.len() && w0.blueprints@[i] == x;
                    assert(w0.blueprints@[i].id.birth_command.command != cid);
                } else {
                    let a = choose|a: int| 0 <= a < m && placed_all.take(m as int)[a] == x;
                    assert(placed_all[a] == x);
                    assert(placed_all[a].id.item_index < placed_all[m as int].id.item_index);
                }
            }
        }
        let ghost bps0 = world.blueprints@;
        insert_blueprint(&mut world.blueprints, b);
        proof {
            assert(placed_all.take(m + 1) == placed_all.take(m as int).push(b));
            assert forall|x: PlannedBlueprint| #[trigger] world.blueprints@.contains(x) <==> (w0.blueprints@.contains(x) || placed_all.take(m + 1).contains(x)) by {
                lemma_push_contains(placed_all.take(m as int), b, x);
            }
        }
        m += 1;
    }
    proof {
        assert(placed_all.take(m as int) == placed_all);
    }
    CommandOutcome { command_id: cid, applied_entities: applied, skipped }
}

// ---- editing production queues -----------------------------------------------------------------

/// The recipes of the type with this key; none when it does not produce.
pub open spec fn recipes_of(types: Seq<TypeCaps>, key: Seq<char>) -> Seq<TypeKey> {
    match caps_of(types, key) {
        Some(c) => match c.production {
            Some(r) => r@,
            None => Seq::empty(),
        },
        None => Seq::empty(),
    }
}

/// The items an edit lists to queue.
pub open spec fn edit_items(edit: ProductionEdit<QueueItemId>) -> Seq<TypeKey> {
    match edit {
        ProductionEdit::Append { items } => items@,
        ProductionEdit::ReplacePending { items } => items@,
        _ => Seq::empty(),
    }
}

/// Queue items can be made for every listed product: each is a recipe and the command is not
/// of the genesis round.
pub open spec fn items_makeable(recipes: Seq<TypeKey>, items: Seq<TypeKey>, cid: CommandId) -> bool {
    forall|j: int| 0 <= j < items.len() ==> recipe_listed(recipes, (#[trigger] items[j])@) && cid.round != 0
}

/// The queue items made for the factory at `target_index` of the command.
pub open spec fn made_items(items: Seq<TypeKey>, cid: CommandId, target_index: int) -> Seq<QueueItem> {
    Seq::new(items.len(), |j: int| QueueItem { item_id: spec_queue_item(cid, target_index as u32, j as u32), type_key: items[j] })
}

/// Why the edit is not applied to factory `id`, or `None` when it is.
pub open spec fn edit_verdict(
    units: Seq<UnitState>,
    types: Seq<TypeCaps>,
    id: EntityId,
    player: PlayerId,
    tick: Tick,
    round: u32,
    edit: ProductionEdit<QueueItemId>,
    cid: CommandId,
) -> Option<SkipReason> {
    match spec_target_check(units, id, player, tick, round, true) {
        Err(r) => Some(r),
        Ok(i) => if units[i].production is None {
            Some(SkipReason::Incompatible)
        } else if (edit is Append || edit is ReplacePending) && !items_makeable(recipes_of(types, units[i].type_key@), edit_items(edit), cid) {
            Some(SkipReason::Incompatible)
        } else {
            None
        },
    }
}

pub open spec fn not_removed(item_ids: Seq<QueueItemId>) -> spec_fn(QueueItem) -> bool {
    |q: QueueItem| !item_ids.contains(q.item_id)
}

/// `g` is the factory state `f` after the edit, with `made` the items it queues.
pub open spec fn production_after(f: FactorySettings, g: FactorySettings, edit: ProductionEdit<QueueItemId>, made: Seq<QueueItem>) -> bool {
    &&& g.loop_enabled == f.loop_enabled
    &&& g.stored_order == f.stored_order
    &&& g.spawn_group == f.spawn_group
    &&& match edit {
        ProductionEdit::Append { .. } => g.pending_items@ == f.pending_items@ + made && g.active_item == f.active_item,
        ProductionEdit::ReplacePending { .. } => g.pending_items@ == made && g.active_item == f.active_item,
        ProductionEdit::RemovePending { item_ids } => {
            &&& g.pending_items@ == f.pending_items@.filter(not_removed(item_ids@))
            &&& g.active_item == f.active_item
        },
        ProductionEdit::CancelActive {  } => g.pending_items == f.pending_items && g.active_item is None,
        ProductionEdit::SetItemLoop { .. } => g == f,
    }
}

/// `v` is the factory `u` after the edit; nothing else about it changed.
pub open spec fn factory_edited(u: UnitState, v: UnitState, edit: ProductionEdit<QueueItemId>, made: Seq<QueueItem>) -> bool {
    &&& v == (UnitState { production: v.production, ..u })
    &&& match (u.production, v.production) {
        (Some(f), Some(g)) => production_after(f, g, edit, made),
        _ => false,
    }
}

pub open spec fn edit_applied(units: Seq<UnitState>, types: Seq<TypeCaps>, player: PlayerId, tick: Tick, round: u32, edit: ProductionEdit<QueueItemId>, cid: CommandId) -> spec_fn(EntityId) -> Option<EntityId> {
    |x: EntityId| if edit_verdict(units, types, x, player, tick, round, edit, cid) is None { Some(x) } else { None }
}

pub open spec fn edit_skipped(units: Seq<UnitState>, types: Seq<TypeCaps>, player: PlayerId, tick: Tick, round: u32, edit: ProductionEdit<QueueItemId>, cid: CommandId) -> spec_fn(EntityId) -> Option<SkippedTarget> {
    |x: EntityId| match edit_verdict(units, types, x, player, tick, round, edit, cid) {
        Some(r) => Some(SkippedTarget { entity_id: Some(x), reason: r }),
        None => None,
    }
}

/// The entities after a production edit that walked the distinct factories `ids` in order.
pub open spec fn edit_effect(
    old: Seq<UnitState>,
    new: Seq<UnitState>,
    types: Seq<TypeCaps>,
    ids: Seq<EntityId>,
    player: PlayerId,
    tick: Tick,
    round: u32,
    edit: ProductionEdit<QueueItemId>,
    cid: CommandId,
) -> bool {
    &&& new.len() == old.len()
    &&& forall|k: int| 0 <= k < old.len() ==> if ids.contains(old[k].id) && edit_verdict(old, types, old[k].id, player, tick, round, edit, cid) is None {
        factory_edited(old[k], #[trigger] new[k], edit, made_items(edit_items(edit), cid, ids.index_of(old[k].id)))
    } else {
        new[k] == old[k]
    }
}

fn contains_qid(v: &Vec<QueueItemId>, x: &QueueItemId) -> (r: bool)
    ensures
        r == v@.contains(*x),
{
    let mut i: usize = 0;
    while i < v.len()
        invariant
            0 <= i <= v.len(),
            forall|k: int| 0 <= k < i ==> #[trigger] v@[k] != *x,
        decreases v.len() - i,
    {
        if v[i] == *x {
            assert(v@[i as int] == *x);
            return true;
        }
        i += 1;
    }
    false
}

/// The queue items for the listed products, or `None` when one cannot be made.
fn make_items(recipes: &Vec<TypeKey>, items: &Vec<TypeKey>, cid: CommandId, target_index: usize) -> (r: Option<Vec<QueueItem>>)
    requires
        target_index <= 65535,
        items@.len() <= 65536,
    ensures
        r is Some <==> items_makeable(recipes@, items@, cid),
        r matches Some(v) ==> v@ == made_items(items@, cid, target_index as int),
{
    let mut out: Vec<QueueItem> = Vec::new();
    let mut j: usize = 0;
    while j < items.len()
        invariant
            0 <= j <= items.len() <= 65536,
            target_index <= 65535,
            out@ == made_items(items@, cid, target_index as int).take(j as int),
            forall|a: int| 0 <= a < j ==> recipe_listed(recipes@, (#[trigger] items@[a])@) && cid.round != 0,
        decreases items.len() - j,
    {
        if !recipe_listed_exec(recipes, &items[j]) {
            return None;
        }
        let id = match queue_item(&cid, target_index as u32, j as u32) {
            Ok(id) => id,
            Err(_) => {
                return None;
            },
        };
        out.push(QueueItem { item_id: id, type_key: items[j].clone() });
        proof {
            assert(made_items(items@, cid, target_index as int).take(j + 1) == made_items(items@, cid, target_index as int).take(j as int).push(
                made_items(items@, cid, target_index as int)[j as int],
            ));
        }
        j += 1;
    }
    assert(made_items(items@, cid, target_index as int).take(items@.len() as int) == made_items(items@, cid, target_index as int));
    Some(out)
}

/// The pending items whose ids are not listed, in order.
fn keep_unlisted(pending: Vec<QueueItem>, item_ids: &Vec<QueueItemId>) -> (r: Vec<QueueItem>)
    ensures
        r@ == pending@.filter(not_removed(item_ids@)),
{
    let ghost all = pending@;
    let mut rest = pending;
    let mut out: Vec<QueueItem> = Vec::new();
    let mut k: usize = 0;
    let total = rest.len();
    while rest.len() > 0
        invariant
            k + rest@.len() == all.len(),
            total == all.len(),
            rest@ == all.skip(k as int),
            out@ == all.take(k as int).filter(not_removed(item_ids@)),
        decreases rest.len(),
    {
        let q = rest.remove(0);
        proof {
            assert(q == all[k as int]);
            assert(all.take(k + 1) == all.take(k as int).push(q));
            all.take(k as int).lemma_filter_push(q, not_removed(item_ids@));
            assert(rest@ =~= all.skip(k + 1));
        }
        if !contains_qid(item_ids, &q.item_id) {
            out.push(q);
        }
        k += 1;
    }
    assert(all.take(k as int) == all);
    out
}

/// Applies the edit to a factory's production state.
fn edit_factory(f: FactorySettings, edit: &ProductionEdit<QueueItemId>, made: Vec<QueueItem>) -> (g: FactorySettings)
    ensures
        production_after(f, g, *edit, made@),
{
    let mut f = f;
    match edit {
        ProductionEdit::Append { .. } => {
            let ghost f0 = f;
            let ghost all = made@;
            let mut rest = made;
            let mut j: usize = 0;
            let total = rest.len();
            while rest.len() > 0
                invariant
                    j + rest@.len() == all.len(),
                    total == all.len(),
                    rest@ == all.skip(j as int),
                    f == (FactorySettings { pending_items: f.pending_items, ..f0 }),
                    f.pending_items@ == f0.pending_items@ + all.take(j as int),
                decreases rest.len(),
            {
                let q = rest.remove(0);
                proof {
                    assert(q == all[j as int]);
                    assert(rest@ =~= all.skip(j + 1));
                    assert(all.take(j + 1) == all.take(j as int).push(q));
                    assert(f0.pending_items@ + all.take(j + 1) == (f0.pending_items@ + all.take(j as int)).push(q));
                }
                f.pending_items.push(q);
                j += 1;
            }
            assert(all.take(j as int) == all);
        },
        ProductionEdit::ReplacePending { .. } => {
            f.pending_items = made;
        },
        ProductionEdit::RemovePending { item_ids } => {
            let mut pending: Vec<QueueItem> = Vec::new();
            std::mem::swap(&mut pending, &mut f.pending_items);
            f.pending_items = keep_unlisted(pending, item_ids);
        },
        ProductionEdit::CancelActive {  } => {
            f.active_item = None;
        },
        ProductionEdit::SetItemLoop { .. } => {},
    }
    f
}

/// Applies a production edit to each distinct listed factory of `player`, in id order.
fn edit_production(
    units: &mut Vec<UnitState>,
    types: &Vec<TypeCaps>,
    targets: &Vec<EntityId>,
    edit: &ProductionEdit<QueueItemId>,
    player: PlayerId,
    tick: Tick,
    round: u32,
    cid: CommandId,
) -> (r: (Vec<EntityId>, Vec<SkippedTarget>))
    requires
        ids_unique(old(units)@),
        targets@.len() <= 65536,
        edit_items(*edit).len() <= 65536,
    ensures
        ids_unique(final(units)@),
        exists|ids: Seq<EntityId>| {
            &&& #[trigger] sorted_set_of(ids, targets@)
            &&& edit_effect(old(units)@, final(units)@, types@, ids, player, tick, round, *edit, cid)
            &&& r.0@ == ids.filter_map(edit_applied(old(units)@, types@, player, tick, round, *edit, cid))
            &&& r.1@ == ids.filter_map(edit_skipped(old(units)@, types@, player, tick, round, *edit, cid))
        },
{
    let ghost start = units@;
    let ids = sorted_targets(targets);
    proof {
        lemma_sorted_set_len(ids@, targets@);
    }
    let empty: Vec<TypeKey> = Vec::new();
    let mut applied: Vec<EntityId> = Vec::new();
    let mut skipped: Vec<SkippedTarget> = Vec::new();
    let mut t: usize = 0;
    while t < ids.len()
        invariant
            0 <= t <= ids.len() <= 65536,
            sorted_set_of(ids@, targets@),
            empty@.len() == 0,
            edit_items(*edit).len() <= 65536,
            ids_unique(start),
            units@.len() == start.len(),
            ids_unique(units@),
            id_list(units@) == id_list(start),
            forall|k: int| 0 <= k < start.len() ==> if ids@.take(t as int).contains(start[k].id)
                && edit_verdict(start, types@, start[k].id, player, tick, round, *edit, cid) is None {
                factory_edited(start[k], #[trigger] units@[k], *edit, made_items(edit_items(*edit), cid, ids@.index_of(start[k].id)))
            } else {
                units@[k] == start[k]
            },
            applied@ == ids@.take(t as int).filter_map(edit_applied(start, types@, player, tick, round, *edit, cid)),
            skipped@ == ids@.take(t as int).filter_map(edit_skipped(start, types@, player, tick, round, *edit, cid)),
        decreases ids.len() - t,
    {
        let x = ids[t];
        let ghost before = units@;
        let ghost done = ids@.take(t as int);
        proof {
            assert(ids@.take(t + 1) == done.push(x));
            lemma_sorted_index_of(ids@, t as int);
            lemma_sorted_not_before(ids@, t as int);
            lemma_find_facts(start, x);
            assert(find_unit(before, x) == find_unit(start, x));
            if let Some(j) = find_unit(start, x) {
                assert(before[j] == start[j]);
            }
            ids@.lemma_filter_map_take_succ(edit_applied(start, types@, player, tick, round, *edit, cid), t as int);
            ids@.lemma_filter_map_take_succ(edit_skipped(start, types@, player, tick, round, *edit, cid), t as int);
        }
        let verdict: Option<SkipReason> = match target_check(units, &x, player, tick, round, true) {
            Err(reason) => Some(reason),
            Ok(i) => {
                if units[i].production.is_none() {
                    Some(SkipReason::Incompatible)
                } else {
                    let made: Option<Vec<QueueItem>> = match edit {
                        ProductionEdit::Append { items } | ProductionEdit::ReplacePending { items } => {
                            let recipes: &Vec<TypeKey> = match find_caps(types, &units[i].type_key) {
                                Some(ty) => match &types[ty].production {
                                    Some(r) => r,
                                    None => &empty,
                                },
                                None => &empty,
                            };
                            make_items(recipes, items, cid, t)
                        },
                        _ => Some(Vec::new()),
                    };
                    match made {
                        None => Some(SkipReason::Incompatible),
                        Some(made) => {
                            proof {
                                if !(edit is Append || edit is ReplacePending) {
                                    assert(made@ =~= made_items(edit_items(*edit), cid, t as int));
                                }
                            }
                            let mut u = units.remove(i);
                            let f = u.production.take();
                            let g = match f {
                                Some(f) => edit_factory(f, edit, made),
                                None => {
                                    proof {
                                        assert(false);
                                    }
                                    return (applied, skipped);
                                },
                            };
                            u.production = Some(g);
                            units.insert(i, u);
                            proof {
                                assert(units@ == before.update(i as int, units@[i as int]));
                            }
                            None
                        },
                    }
                }
            },
        };
        proof {
            assert(verdict == edit_verdict(start, types@, x, player, tick, round, *edit, cid));
            if verdict is None {
                let k = find_unit(start, x)->0;
                assert(units@ == before.update(k, units@[k]));
            } else {
                assert(units@ == before);
            }
            assert forall|k: int| 0 <= k < start.len() implies #[trigger] units@[k].id == start[k].id by {
                assert(before[k].id == start[k].id);
            }
            lemma_same_ids(start, units@);
            assert forall|k: int| 0 <= k < start.len() implies if ids@.take(t + 1).contains(start[k].id)
                && edit_verdict(start, types@, start[k].id, player, tick, round, *edit, cid) is None {
                factory_edited(start[k], #[trigger] units@[k], *edit, made_items(edit_items(*edit), cid, ids@.index_of(start[k].id)))
            } else {
                units@[k] == start[k]
            } by {
                lemma_push_contains(done, x, start[k].id);
                if start[k].id == x {
                    lemma_find_unit(start, x, k);
                }
            }
        }
        match verdict {
            None => {
                applied.push(x);
            },
            Some(reason) => {
                skipped.push(SkippedTarget { entity_id: Some(x), reason });
            },
        }
        t += 1;
    }
    proof {
        assert(ids@.take(ids@.len() as int) == ids@);
    }
    (applied, skipped)
}

// ---- applying one command ----------------------------------------------------------------------

/// The blueprints after a priority command: the player's unsited blueprints that it names take
/// the priority.
pub open spec fn reprioritized(
    old: Seq<PlannedBlueprint>,
    new: Seq<PlannedBlueprint>,
    named: Seq<EntityId>,
    player: PlayerId,
    priority: Priority,
) -> bool {
    &&& new.len() == old.len()
    &&& forall|k: int| 0 <= k < old.len() ==> #[trigger] new[k] == if named.contains(old[k].id) && old[k].owner == player
        && old[k].site_id is None {
        PlannedBlueprint { priority, ..old[k] }
    } else {
        old[k]
    }
}

fn reprioritize(blueprints: &mut Vec<PlannedBlueprint>, named: &Vec<EntityId>, player: PlayerId, priority: Priority)
    ensures
        reprioritized(old(blueprints)@, final(blueprints)@, named@, player, priority),
{
    let ghost start = blueprints@;
    let mut k: usize = 0;
    while k < blueprints.len()
        invariant
            0 <= k <= blueprints.len(),
            blueprints@.len() == start.len(),
            forall|j: int| k <= j < start.len() ==> #[trigger] blueprints@[j] == start[j],
            forall|j: int| 0 <= j < k ==> #[trigger] blueprints@[j] == if named@.contains(start[j].id) && start[j].owner == player
                && start[j].site_id is None {
                PlannedBlueprint { priority, ..start[j] }
            } else {
                start[j]
            },
        decreases blueprints.len() - k,
    {
        if contains_id(named, &blueprints[k].id) && blueprints[k].owner == player && blueprints[k].site_id.is_none() {
            let b = blueprints.remove(k);
            blueprints.insert(k, PlannedBlueprint { priority, ..b });
        }
        k += 1;
    }
}

/// Per-item loop edits of a production queue.
pub open spec fn item_loop_edit(c: Command) -> bool {
    match c {
        Command::EditProduction { edit, .. } => edit is SetItemLoop,
        _ => false,
    }
}

/// The commands applied here: all but silo plans and per-item loop edits.
pub open spec fn entity_directed(c: Command) -> bool {
    !(c is SetSiloPlan || item_loop_edit(c))
}

/// The shape limits that admission guarantees for a command.
pub open spec fn admitted_shape(c: Command) -> bool {
    match c {
        Command::PlaceBlueprints { tiles, output_directions, .. } => {
            &&& tiles@.len() <= 65536
            &&& (output_directions matches Some(d) ==> d@.len() == tiles@.len())
        },
        Command::ConfigureBlueprints { blueprint_ids, .. } => blueprint_ids@.len() <= 65536,
        Command::EditProduction { factories, edit } => factories@.len() <= 65536 && edit_items(edit).len() <= 65536,
        _ => true,
    }
}

/// Entity ids are distinct, the grids cover the map, blueprints are in id order and every
/// blueprint names a known type.
pub open spec fn world_consistent(w: OrderWorld) -> bool {
    &&& ids_unique(w.units@)
    &&& grid_ok(w)
    &&& bps_sorted(w.blueprints@)
    &&& bp_types_known(w.blueprints@, w.types@)
}

/// No blueprint of the world came from command `cid`.
pub open spec fn command_unapplied(w: OrderWorld, cid: CommandId) -> bool {
    forall|j: int| 0 <= j < w.blueprints@.len() ==> (#[trigger] w.blueprints@[j]).id.birth_command.command != cid
}

/// A spawn group that belongs to another player.
pub open spec fn foreign_group(group: Option<ControlGroupId>, player: PlayerId) -> bool {
    match group {
        Some(g) => g.owner != player,
        None => false,
    }
}

/// A settings command wrote `edit` on the targets it reached and reports them in list order.
pub open spec fn settings_outcome(
    old: OrderWorld,
    new: OrderWorld,
    targets: Seq<EntityId>,
    player: PlayerId,
    round: u32,
    edit: SettingEdit,
    cid: CommandId,
    out: CommandOutcome,
) -> bool {
    &&& new == (OrderWorld { units: new.units, blueprints: new.blueprints, ..old })
    &&& settings_effect(old.units@, new.units@, targets, player, old.tick, round, edit)
    &&& out.command_id == cid
    &&& out.applied_entities@ == targets.filter_map(setting_applied(old.units@, player, old.tick, round, edit))
    &&& out.skipped@ == targets.filter_map(setting_skipped(old.units@, player, old.tick, round, edit))
}

/// What applying `c`, committed as `cid` by `player` in `round` under `policy`, does.
pub open spec fn command_effect(
    old: OrderWorld,
    new: OrderWorld,
    round: u32,
    player: PlayerId,
    cid: CommandId,
    c: Command,
    policy: FutureOrderPolicy,
    out: CommandOutcome,
) -> bool {
    match c {
        Command::AssignOrder { entities, order } => {
            &&& new == (OrderWorld { units: new.units, ..old })
            &&& delivery_effect(old.units@, new.units@, entities@, player, old.tick, round, order, policy, old.window, old.max_tick)
            &&& out.command_id == cid
            &&& delivery_report(old.units@, entities@, player, old.tick, round, order, true, out.applied_entities@, out.skipped@)
        },
        Command::AssignGroupOrder { group, order } => group_order_effect(old, new, group, order, cid, round, player, policy, out),
        Command::EditGroupMembers { group, edit } => member_edit_effect(old, new, group, edit, cid, player, out),
        Command::BindFactoryGroup { factories, group } => if foreign_group(group, player) {
            refused(old, new, out, cid, SkipReason::WrongOwner)
        } else {
            settings_outcome(old, new, factories@, player, round, SettingEdit::SpawnGroup(group), cid, out)
                && new.blueprints == old.blueprints
        },
        Command::SetPriority { entities, priority } => {
            &&& settings_outcome(old, new, entities@, player, round, SettingEdit::Priority(priority), cid, out)
            &&& reprioritized(old.blueprints@, new.blueprints@, entities@, player, priority)
        },
        Command::SetQueueLoop { factories, enabled } => {
            &&& settings_outcome(old, new, factories@, player, round, SettingEdit::QueueLoop(enabled), cid, out)
            &&& new.blueprints == old.blueprints
        },
        Command::SetStoredOrder { factories, order } => {
            &&& settings_outcome(old, new, factories@, player, round, SettingEdit::StoredOrder(order), cid, out)
            &&& new.blueprints == old.blueprints
        },
        Command::PlaceBlueprints { type_key, tiles, priority, output_directions } => match placement_type(old.types@, type_key@) {
            None => refused(old, new, out, cid, SkipReason::Incompatible),
            Some(c) => place_effect(old, new, round, player, cid, type_key, tiles@, priority, opt_dirs(output_directions), c.production is Some, out),
        },
        Command::ConfigureBlueprints { blueprint_ids, settings } => {
            &&& new == (OrderWorld { blueprints: new.blueprints, ..old })
            &&& out.command_id == cid
            &&& exists|ids: Seq<EntityId>| {
                &&& #[trigger] sorted_set_of(ids, blueprint_ids@)
                &&& configure_effect(old.blueprints@, new.blueprints@, old.types@, ids, player, settings, cid)
                &&& out.applied_entities@ == ids.filter_map(configure_applied(old.blueprints@, old.types@, player, settings.queue@))
                &&& out.skipped@ == ids.filter_map(configure_skipped(old.blueprints@, old.types@, player, settings.queue@))
            }
        },
        Command::EditProduction { factories, edit } => {
            &&& new == (OrderWorld { units: new.units, ..old })
            &&& out.command_id == cid
            &&& exists|ids: Seq<EntityId>| {
                &&& #[trigger] sorted_set_of(ids, factories@)
                &&& edit_effect(old.units@, new.units@, old.types@, ids, player, old.tick, round, edit, cid)
                &&& out.applied_entities@ == ids.filter_map(edit_applied(old.units@, old.types@, player, old.tick, round, edit, cid))
                &&& out.skipped@ == ids.filter_map(edit_skipped(old.units@, old.types@, player, old.tick, round, edit, cid))
            }
        },
        Command::CancelBlueprints { blueprint_ids } => {
            &&& new == (OrderWorld { units: new.units, blueprints: new.blueprints, ..old })
            &&& new.blueprints@ == old.blueprints@.filter(bp_survives(blueprint_ids@, player))
            &&& new.units@ == old.units@.filter(unit_survives(old.blueprints@, blueprint_ids@, player))
            &&& out.command_id == cid
            &&& (out.applied_entities@, out.skipped@) == cancel_report(blueprint_ids@, old.blueprints@, player)
        },
        _ => new == old,
    }
}

/// Applies one entity-directed command that `player` committed as `cid` in `round`.
pub fn apply_command(
    world: &mut OrderWorld,
    round: u32,
    player: PlayerId,
    cid: CommandId,
    command: &Command,
    policy: FutureOrderPolicy,
) -> (out: CommandOutcome)
    requires
        world_consistent(*old(world)),
        entity_directed(*command),
        admitted_shape(*command),
        command is AssignOrder || command is AssignGroupOrder ==> locks_ready(*old(world), round, policy),
        command is PlaceBlueprints ==> command_unapplied(*old(world), cid),
    ensures
        world_consistent(*final(world)),
        command_effect(*old(world), *final(world), round, player, cid, *command, policy, out),
{
    let ghost w0 = *world;
    let tick = world.tick;
    match command {
        Command::AssignOrder { entities, order } => {
            let window = world.window;
            let max_tick = world.max_tick;
            let (applied, skipped) = deliver(&mut world.units, entities, *order, player, tick, round, policy, window, max_tick);
            CommandOutcome { command_id: cid, applied_entities: applied, skipped }
        },
        Command::AssignGroupOrder { group, order } => apply_group_order(world, *group, *order, cid, round, player, policy),
        Command::EditGroupMembers { group, edit } => apply_member_edit(world, *group, edit, cid, player),
        Command::BindFactoryGroup { factories, group } => {
            let foreign = match group {
                Some(g) => g.owner != player,
                None => false,
            };
            if foreign {
                return refusal(cid, SkipReason::WrongOwner);
            }
            let (applied, skipped) = apply_settings(&mut world.units, factories, player, tick, round, SettingEdit::SpawnGroup(*group));
            CommandOutcome { command_id: cid, applied_entities: applied, skipped }
        },
        Command::SetPriority { entities, priority } => {
            let (applied, skipped) = apply_settings(&mut world.units, entities, player, tick, round, SettingEdit::Priority(*priority));
            reprioritize(&mut world.blueprints, entities, player, *priority);
            proof {
                lemma_bps_same_keys(w0.blueprints@, world.blueprints@, w0.types@);
            }
            CommandOutcome { command_id: cid, applied_entities: applied, skipped }
        },
        Command::SetQueueLoop { factories, enabled } => {
            let (applied, skipped) = apply_settings(&mut world.units, factories, player, tick, round, SettingEdit::QueueLoop(*enabled));
            CommandOutcome { command_id: cid, applied_entities: applied, skipped }
        },
        Command::SetStoredOrder { factories, order } => {
            let (applied, skipped) = apply_settings(&mut world.units, factories, player, tick, round, SettingEdit::StoredOrder(*order));
            CommandOutcome { command_id: cid, applied_entities: applied, skipped }
        },
        Command::PlaceBlueprints { type_key, tiles, priority, output_directions } => {
            let out = place_blueprints(world, round, player, cid, type_key, tiles, *priority, output_directions);
            proof {
                if let Some(c) = placement_type(w0.types@, type_key@) {
                    lemma_placed_types_known(w0, *world, round, player, cid, *type_key, tiles@, *priority, opt_dirs(*output_directions), c.production is Some);
                }
            }
            out
        },
        Command::ConfigureBlueprints { blueprint_ids, settings } => {
            proof {
                lemma_sorted_bps_unique(world.blueprints@);
            }
            let (applied, skipped) = configure_blueprints(&mut world.blueprints, &world.types, blueprint_ids, settings, player, cid);
            proof {
                let ids = choose|ids: Seq<EntityId>| {
                    &&& #[trigger] sorted_set_of(ids, blueprint_ids@)
                    &&& configure_effect(w0.blueprints@, world.blueprints@, w0.types@, ids, player, *settings, cid)
                    &&& applied@ == ids.filter_map(configure_applied(w0.blueprints@, w0.types@, player, settings.queue@))
                    &&& skipped@ == ids.filter_map(configure_skipped(w0.blueprints@, w0.types@, player, settings.queue@))
                };
                assert forall|k: int| 0 <= k < w0.blueprints@.len() implies (#[trigger] world.blueprints@[k]).id == w0.blueprints@[k].id
                    && world.blueprints@[k].type_key == w0.blueprints@[k].type_key by {
                    if ids.contains(w0.blueprints@[k].id) && configure_verdict(w0.blueprints@, w0.types@, w0.blueprints@[k].id, player, settings.queue@) is None {
                        assert(configured(w0.blueprints@[k], world.blueprints@[k], *settings, cid, ids.index_of(w0.blueprints@[k].id)));
                    }
                }
                lemma_bps_same_keys(w0.blueprints@, world.blueprints@, w0.types@);
            }
            CommandOutcome { command_id: cid, applied_entities: applied, skipped }
        },
        Command::EditProduction { factories, edit } => {
            let (applied, skipped) = edit_production(&mut world.units, &world.types, factories, edit, player, tick, round, cid);
            CommandOutcome { command_id: cid, applied_entities: applied, skipped }
        },
        Command::CancelBlueprints { blueprint_ids } => {
            let out = cancel_blueprints(world, blueprint_ids, player, cid);
            proof {
                lemma_filter_bps(w0.blueprints@, bp_survives(blueprint_ids@, player), w0.types@);
            }
            out
        },
        _ => {
            proof {
                assert(false);
            }
            refusal(cid, SkipReason::Incompatible)
        },
    }
}

/// Blueprints that keep their ids and types keep the list's order and known types.
proof fn lemma_bps_same_keys(old: Seq<PlannedBlueprint>, new: Seq<PlannedBlueprint>, types: Seq<TypeCaps>)
    requires
        new.len() == old.len(),
        forall|k: int| 0 <= k < old.len() ==> (#[trigger] new[k]).id == old[k].id && new[k].type_key == old[k].type_key,
    ensures
        bps_sorted(old) ==> bps_sorted(new),
        bp_types_known(old, types) ==> bp_types_known(new, types),
{
    if bps_sorted(old) {
        assert forall|i: int, j: int| 0 <= i < j < new.len() implies entity_lt(#[trigger] new[i].id, #[trigger] new[j].id) by {
            assert(new[i].id == old[i].id && new[j].id == old[j].id);
        }
    }
    if bp_types_known(old, types) {
        assert forall|k: int| 0 <= k < new.len() implies caps_of(types, (#[trigger] new[k]).type_key@) is Some by {
            assert(new[k].type_key == old[k].type_key);
        }
    }
}

/// Dropping blueprints keeps the list's order and known types.
proof fn lemma_filter_bps(bps: Seq<PlannedBlueprint>, keep: spec_fn(PlannedBlueprint) -> bool, types: Seq<TypeCaps>)
    ensures
        bps_sorted(bps) ==> bps_sorted(bps.filter(keep)),
        bp_types_known(bps, types) ==> bp_types_known(bps.filter(keep), types),
    decreases bps.len(),
{
    reveal(Seq::filter);
    if bps.len() > 0 {
        let rest = bps.drop_last();
        let last = bps.last();
        lemma_filter_bps(rest, keep, types);
        let f = rest.filter(keep);
        if bps_sorted(bps) {
            assert(bps_sorted(rest)) by {
                assert forall|i: int, j: int| 0 <= i < j < rest.len() implies entity_lt(#[trigger] rest[i].id, #[trigger] rest[j].id) by {
                    assert(rest[i] == bps[i] && rest[j] == bps[j]);
                }
            }
            if keep(last) {
                assert forall|i: int, j: int| 0 <= i < j < f.len() + 1 implies entity_lt(#[trigger] f.push(last)[i].id, #[trigger] f.push(last)[j].id) by {
                    if j == f.len() {
                        assert(f.contains(f[i]));
                        rest.lemma_filter_contains_rev(keep, f[i]);
                        let k = choose|k: int| 0 <= k < rest.len() && rest[k] == f[i];
                        assert(bps[k] == rest[k]);
                        assert(entity_lt(bps[k].id, bps[bps.len() - 1].id));
                    } else {
                        assert(f.push(last)[i] == f[i] && f.push(last)[j] == f[j]);
                    }
                }
            }
        }
        if bp_types_known(bps, types) {
            assert(bp_types_known(rest, types)) by {
                assert forall|k: int| 0 <= k < rest.len() implies caps_of(types, (#[trigger] rest[k]).type_key@) is Some by {
                    assert(rest[k] == bps[k]);
                }
            }
            if keep(last) {
                assert forall|k: int| 0 <= k < f.len() + 1 implies caps_of(types, (#[trigger] f.push(last)[k]).type_key@) is Some by {
                    if k < f.len() {
                        assert(f.push(last)[k] == f[k]);
                    } else {
                        assert(bps[bps.len() - 1] == last);
                    }
                }
            }
        }
    }
}

/// Placed blueprints name the placed type, which the content knows.
proof fn lemma_placed_types_known(
    old: OrderWorld,
    new: OrderWorld,
    round: u32,
    player: PlayerId,
    cid: CommandId,
    type_key: TypeKey,
    tiles: Seq<Tile>,
    priority: Priority,
    dirs: Option<Seq<CardinalDirection>>,
    produces: bool,
)
    requires
        bp_types_known(old.blueprints@, old.types@),
        placement_type(old.types@, type_key@) is Some,
        new.types == old.types,
        forall|b: PlannedBlueprint| #[trigger] new.blueprints@.contains(b) <==> (old.blueprints@.contains(b)
            || indices(tiles.len() as int).filter_map(place_record_pick(old, round, player, cid, type_key, tiles, priority, dirs, produces)).contains(b)),
    ensures
        bp_types_known(new.blueprints@, new.types@),
{
    let records = place_record_pick(old, round, player, cid, type_key, tiles, priority, dirs, produces);
    assert forall|k: int| 0 <= k < new.blueprints@.len() implies caps_of(new.types@, (#[trigger] new.blueprints@[k]).type_key@) is Some by {
        let b = new.blueprints@[k];
        assert(new.blueprints@.contains(b));
        if old.blueprints@.contains(b) {
            let j = choose|j: int| 0 <= j < old.blueprints@.len() && old.blueprints@[j] == b;
            assert(caps_of(old.types@, old.blueprints@[j].type_key@) is Some);
        } else {
            indices(tiles.len() as int).lemma_filter_map_contains(records, b);
        }
    }
}

proof fn lemma_sorted_bps_unique(bps: Seq<PlannedBlueprint>)
    requires
        bps_sorted(bps),
    ensures
        bp_ids_unique(bps),
{
    assert forall|i: int, j: int| 0 <= i < j < bps.len() implies #[trigger] bps[i].id != #[trigger] bps[j].id by {
        assert(entity_lt(bps[i].id, bps[j].id));
        lemma_entity_lt_order(bps[i].id, bps[i].id, bps[i].id);
    }
}

// ---- laws ------------------------------------------------------------------------------------

proof fn lemma_verdicts_skip(units: Seq<UnitState>, k: int, player: PlayerId, tick: Tick, round: u32, order: Order, edit: SettingEdit)
    requires
        ids_unique(units),
        0 <= k < units.len(),
        units[k].owner != player || spec_blocks(units[k].order_locks@, tick as int, round as int),
    ensures
        delivery_verdict(units, units[k].id, player, tick, round, order) is Some,
        setting_verdict(units, units[k].id, player, tick, round, edit) is Some,
        forall|types: Seq<TypeCaps>, e: ProductionEdit<QueueItemId>, cid: CommandId| #[trigger] edit_verdict(units, types, units[k].id, player, tick, round, e, cid) is Some,
{
    lemma_find_unit(units, units[k].id, k);
}

/// A command of one player never changes an entity that another player owns. (Cancelling
/// blueprints removes the sites they started; its contract says which.)
pub proof fn law_foreign_entities_untouched(
    old: OrderWorld,
    new: OrderWorld,
    round: u32,
    player: PlayerId,
    cid: CommandId,
    c: Command,
    policy: FutureOrderPolicy,
    out: CommandOutcome,
    k: int,
)
    requires
        ids_unique(old.units@),
        entity_directed(c),
        !(c is CancelBlueprints),
        command_effect(old, new, round, player, cid, c, policy, out),
        0 <= k < old.units@.len(),
        old.units@[k].owner != player,
    ensures
        new.units@[k] == old.units@[k],
{
    match c {
        Command::AssignOrder { order, .. } => lemma_verdicts_skip(old.units@, k, player, old.tick, round, order, SettingEdit::QueueLoop(true)),
        Command::AssignGroupOrder { order, .. } => lemma_verdicts_skip(old.units@, k, player, old.tick, round, order, SettingEdit::QueueLoop(true)),
        Command::BindFactoryGroup { group, .. } => lemma_verdicts_skip(old.units@, k, player, old.tick, round, Order::Idle {  }, SettingEdit::SpawnGroup(group)),
        Command::SetPriority { priority, .. } => lemma_verdicts_skip(old.units@, k, player, old.tick, round, Order::Idle {  }, SettingEdit::Priority(priority)),
        Command::SetQueueLoop { enabled, .. } => lemma_verdicts_skip(old.units@, k, player, old.tick, round, Order::Idle {  }, SettingEdit::QueueLoop(enabled)),
        Command::SetStoredOrder { order, .. } => lemma_verdicts_skip(old.units@, k, player, old.tick, round, order, SettingEdit::StoredOrder(order)),
        Command::EditProduction { factories, edit } => {
            lemma_verdicts_skip(old.units@, k, player, old.tick, round, Order::Idle {  }, SettingEdit::QueueLoop(true));
            let ids = choose|ids: Seq<EntityId>| {
                &&& #[trigger] sorted_set_of(ids, factories@)
                &&& edit_effect(old.units@, new.units@, old.types@, ids, player, old.tick, round, edit, cid)
                &&& out.applied_entities@ == ids.filter_map(edit_applied(old.units@, old.types@, player, old.tick, round, edit, cid))
                &&& out.skipped@ == ids.filter_map(edit_skipped(old.units@, old.types@, player, old.tick, round, edit, cid))
            };
            assert(edit_verdict(old.units@, old.types@, old.units@[k].id, player, old.tick, round, edit, cid) is Some);
        },
        _ => {},
    }
}

/// An entity whose stored locks block writes of `round` at the current tick keeps its orders
/// and settings against every command of that round that addresses entities.
pub proof fn law_locked_entities_untouched(
    old: OrderWorld,
    new: OrderWorld,
    round: u32,
    player: PlayerId,
    cid: CommandId,
    c: Command,
    policy: FutureOrderPolicy,
    out: CommandOutcome,
    k: int,
)
    requires
        ids_unique(old.units@),
        entity_directed(c),
        !(c is CancelBlueprints),
        command_effect(old, new, round, player, cid, c, policy, out),
        0 <= k < old.units@.len(),
        spec_blocks(old.units@[k].order_locks@, old.tick as int, round as int),
    ensures
        new.units@[k] == old.units@[k],
{
    match c {
        Command::AssignOrder { order, .. } => lemma_verdicts_skip(old.units@, k, player, old.tick, round, order, SettingEdit::QueueLoop(true)),
        Command::AssignGroupOrder { order, .. } => lemma_verdicts_skip(old.units@, k, player, old.tick, round, order, SettingEdit::QueueLoop(true)),
        Command::BindFactoryGroup { group, .. } => lemma_verdicts_skip(old.units@, k, player, old.tick, round, Order::Idle {  }, SettingEdit::SpawnGroup(group)),
        Command::SetPriority { priority, .. } => lemma_verdicts_skip(old.units@, k, player, old.tick, round, Order::Idle {  }, SettingEdit::Priority(priority)),
        Command::SetQueueLoop { enabled, .. } => lemma_verdicts_skip(old.units@, k, player, old.tick, round, Order::Idle {  }, SettingEdit::QueueLoop(enabled)),
        Command::SetStoredOrder { order, .. } => lemma_verdicts_skip(old.units@, k, player, old.tick, round, order, SettingEdit::StoredOrder(order)),
        Command::EditProduction { factories, edit } => {
            lemma_verdicts_skip(old.units@, k, player, old.tick, round, Order::Idle {  }, SettingEdit::QueueLoop(true));
            let ids = choose|ids: Seq<EntityId>| {
                &&& #[trigger] sorted_set_of(ids, factories@)
                &&& edit_effect(old.units@, new.units@, old.types@, ids, player, old.tick, round, edit, cid)
                &&& out.applied_entities@ == ids.filter_map(edit_applied(old.units@, old.types@, player, old.tick, round, edit, cid))
                &&& out.skipped@ == ids.filter_map(edit_skipped(old.units@, old.types@, player, old.tick, round, edit, cid))
            };
            assert(edit_verdict(old.units@, old.types@, old.units@[k].id, player, old.tick, round, edit, cid) is Some);
        },
        _ => {},
    }
}

/// An order reaches only entities able to carry it out: unless its type produces, an entity
/// without construction (and movement) never takes a construct order, one without mining (and
/// movement) never takes a mine order, and one that cannot move never takes an attack-move or
/// support order. Such an entity is left as it was and never listed as applied; addressed by name
/// and otherwise open to the player's orders, it is listed as skipped for being incompatible.
pub proof fn law_unfit_orders_not_taken(
    old: OrderWorld,
    new: OrderWorld,
    round: u32,
    player: PlayerId,
    cid: CommandId,
    c: Command,
    order: Order,
    policy: FutureOrderPolicy,
    out: CommandOutcome,
    k: int,
)
    requires
        ids_unique(old.units@),
        command_effect(old, new, round, player, cid, c, policy, out),
        (match c {
            Command::AssignOrder { order: o, .. } => o == order,
            Command::AssignGroupOrder { order: o, .. } => o == order,
            _ => false,
        }),
        0 <= k < old.units@.len(),
        !old.units@[k].abilities.produces,
        ({
            let a = old.units@[k].abilities;
            ||| order is Construct && !(a.constructs && a.moves)
            ||| order is Mine && !(a.mines && a.moves)
            ||| (order is AttackMove || order is Support) && !a.moves
        }),
    ensures
        !out.applied_entities@.contains(old.units@[k].id),
        new.units@[k] == old.units@[k],
        c matches Command::AssignOrder { entities, .. } ==> entities@.contains(old.units@[k].id)
            && spec_target_check(old.units@, old.units@[k].id, player, old.tick, round, false) is Ok
            ==> exists|j: int| 0 <= j < out.skipped@.len() && out.skipped@[j].entity_id == Some(old.units@[k].id)
                && out.skipped@[j].reason == SkipReason::Incompatible,
{
    let id = old.units@[k].id;
    lemma_find_unit(old.units@, id, k);
    assert(!order_fits(old.units@[k].abilities, order));
    assert(delivery_verdict(old.units@, id, player, old.tick, round, order) is Some);
    match c {
        Command::AssignOrder { entities, .. } => {
            if entities@.contains(id) && spec_target_check(old.units@, id, player, old.tick, round, false) is Ok {
                assert(delivery_verdict(old.units@, id, player, old.tick, round, order) == Some(SkipReason::Incompatible));
                assert(skips_entity(out.skipped@, id));
                let j = choose|j: int| 0 <= j < out.skipped@.len() && (#[trigger] out.skipped@[j]).entity_id == Some(id);
                assert(out.skipped@[j].entity_id->0 == id);
            }
        },
        _ => {},
    }
}

} // verus!
