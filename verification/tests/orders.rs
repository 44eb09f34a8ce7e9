use atemporal::admission::{TypeCaps, TypeKind};
use atemporal::identity::{blueprint, command_id, genesis, queue_item, RoundPrecedence};
use atemporal::locks::canonicalize;
use atemporal::orders::{
    apply_command, Abilities, ActiveItem, CommandOutcome, FactorySettings, QueueItem, GroupState, OrderWorld, PlannedBlueprint, SkipReason,
    SkippedTarget, UnitState,
};
use atemporal::safe::GroupSlot;
use atemporal::timed::Lifecycle;
use atemporal::types::{
    BirthCommandId, BlueprintSettings, CardinalDirection, Command, CommandId, ProductionEdit, ControlGroupId, EntityId, EventKey, FutureOrderPolicy, MemberEdit, Order, OrderLock, Priority,
    Tile,
};

fn attack_move(x: u16, y: u16) -> Order {
    Order::AttackMove { destination: Tile { x, y } }
}

fn unit(id: EntityId, owner: u8) -> UnitState {
    UnitState {
        id,
        owner,
        type_key: "grunt".to_string(),
        tile: Tile { x: 1, y: 1 },
        lifecycle: Lifecycle::Complete,
        abilities: Abilities { structure: false, produces: false, moves: true, mines: false, constructs: false },
        action: Order::Idle {},
        priority: Priority::Medium,
        support_target: None,
        engaged_target: None,
        resolved_destination: Some(Tile { x: 3, y: 3 }),
        goal_settled: true,
        failed_move_attempts: 2,
        blocked_step: None,
        local_detour: vec![Tile { x: 2, y: 2 }],
        order_locks: vec![],
        production: None,
    }
}

fn factory(id: EntityId, owner: u8) -> UnitState {
    UnitState {
        abilities: Abilities { structure: true, produces: true, moves: false, mines: false, constructs: false },
        type_key: "factory".to_string(),
        production: Some(FactorySettings {
            pending_items: vec![],
            active_item: None,
            loop_enabled: false,
            stored_order: Order::Idle {},
            spawn_group: None,
        }),
        resolved_destination: None,
        goal_settled: false,
        failed_move_attempts: 0,
        local_detour: vec![],
        ..unit(id, owner)
    }
}

fn planned(id: EntityId, owner: u8, key: &str, tile: Tile, site_id: Option<EntityId>) -> PlannedBlueprint {
    PlannedBlueprint {
        id,
        owner,
        type_key: key.to_string(),
        tile,
        priority: Priority::Medium,
        source_command_id: id.birth_command.command,
        precedence: EventKey { tick: 0, round: 0, player_rank: owner, command_index: 0 },
        site_id,
        settings: None,
        settings_command: None,
        output_direction: None,
    }
}

fn group(owner: u8, slot: u8) -> ControlGroupId {
    ControlGroupId { owner, slot: GroupSlot::try_new(slot).unwrap() }
}

fn group_state(id: ControlGroupId, members: Vec<EntityId>) -> GroupState {
    GroupState { id, members, latest_order: None, order_locks: vec![] }
}

fn lock_world() -> (OrderWorld, EntityId) {
    let u = genesis(0, 0).unwrap();
    let world = OrderWorld {
        tick: 0,
        max_tick: 200,
        width: 8,
        height: 8,
        floor: vec![true; 64],
        reserved: vec![false; 64],
        precedence: vec![],
        window: Some(10),
        units: vec![unit(u, 0)],
        groups: vec![],
        blueprints: vec![],
        types: vec![
            caps("factory", TypeKind::Structure, Some(vec!["grunt", "miner"])),
            caps("grunt", TypeKind::Unit, None),
            caps("turret", TypeKind::Structure, None),
        ],
    };
    (world, u)
}

/// Moves the world to `tick`, canonicalizing stored locks as each tick begins.
fn advance(world: &mut OrderWorld, tick: u32) {
    world.tick = tick;
    for u in &mut world.units {
        canonicalize(&mut u.order_locks, tick).unwrap();
    }
    for g in &mut world.groups {
        canonicalize(&mut g.order_locks, tick).unwrap();
    }
}

fn order_u(u: &EntityId, x: u16) -> Command {
    Command::AssignOrder { entities: vec![*u], order: attack_move(x, 7) }
}

fn apply(world: &mut OrderWorld, round: u32, index: u32, policy: FutureOrderPolicy, command: &Command) -> CommandOutcome {
    apply_command(world, round, 0, command_id(round, 0, index), command, policy)
}

fn reasons(out: &CommandOutcome) -> Vec<SkipReason> {
    out.skipped.iter().map(|s| s.reason).collect()
}

#[test]
fn drop_window_lock_skips_older_rounds_inside_its_interval() {
    let (mut w, u) = lock_world();
    advance(&mut w, 20);
    let older0 = apply(&mut w, 1, 0, FutureOrderPolicy::Keep, &order_u(&u, 2));
    apply(&mut w, 2, 0, FutureOrderPolicy::DropWindow, &order_u(&u, 9));
    assert_eq!(older0.applied_entities, vec![u], "tick 20 remains");
    advance(&mut w, 21);
    let older1 = apply(&mut w, 1, 1, FutureOrderPolicy::Keep, &order_u(&u, 3));
    assert_eq!(reasons(&older1), vec![SkipReason::LockedByLaterRound]);
    assert_eq!(w.units[0].action, attack_move(9, 7));
    assert_eq!(w.units[0].order_locks, vec![OrderLock { from_tick: 20, until_tick: 30, issued_round: 2 }]);
    advance(&mut w, 25);
    let same = apply(&mut w, 2, 1, FutureOrderPolicy::Keep, &order_u(&u, 10));
    assert_eq!(same.applied_entities, vec![u], "same round executes");
    advance(&mut w, 26);
    let newer = apply(&mut w, 3, 0, FutureOrderPolicy::Keep, &order_u(&u, 11));
    assert_eq!(newer.applied_entities, vec![u], "newer round executes");
    advance(&mut w, 30);
    let older2 = apply(&mut w, 1, 2, FutureOrderPolicy::Keep, &order_u(&u, 4));
    assert_eq!(reasons(&older2), vec![SkipReason::LockedByLaterRound]);
    advance(&mut w, 31);
    let older3 = apply(&mut w, 1, 3, FutureOrderPolicy::Keep, &order_u(&u, 5));
    assert_eq!(older3.applied_entities, vec![u], "tick 31 remains");
    assert_eq!(w.units[0].action, attack_move(5, 7));
}

#[test]
fn drop_all_lock_also_skips_the_tick_after_the_window() {
    let (mut w, u) = lock_world();
    advance(&mut w, 20);
    apply(&mut w, 2, 0, FutureOrderPolicy::DropAll, &order_u(&u, 9));
    advance(&mut w, 31);
    let late = apply(&mut w, 1, 0, FutureOrderPolicy::Keep, &order_u(&u, 5));
    assert_eq!(late.skipped[0].reason, SkipReason::LockedByLaterRound);
    assert_eq!(w.units[0].action, attack_move(9, 7));
}

#[test]
fn short_newer_window_keeps_the_longer_prior_lock() {
    let (mut w, u) = lock_world();
    advance(&mut w, 20);
    apply(&mut w, 2, 0, FutureOrderPolicy::DropAll, &order_u(&u, 9));
    advance(&mut w, 22);
    apply(&mut w, 3, 0, FutureOrderPolicy::DropWindow, &order_u(&u, 8));
    advance(&mut w, 23);
    assert_eq!(w.units[0].order_locks.len(), 2, "both entries retained");
    advance(&mut w, 40);
    let old = apply(&mut w, 1, 0, FutureOrderPolicy::Keep, &order_u(&u, 5));
    let round2_late = apply(&mut w, 2, 1, FutureOrderPolicy::Keep, &order_u(&u, 6));
    assert_eq!(old.skipped[0].reason, SkipReason::LockedByLaterRound);
    assert_eq!(
        round2_late.applied_entities,
        vec![u],
        "the round-3 window ended at 32; the round-2 lock never blocks round 2"
    );
}

#[test]
fn explicit_delivery_with_one_locked_target_still_reaches_the_other() {
    let (mut w, a) = lock_world();
    let b = genesis(0, 1).unwrap();
    w.units.push(unit(b, 0));
    advance(&mut w, 20);
    apply(&mut w, 2, 0, FutureOrderPolicy::DropWindow, &order_u(&a, 9));
    advance(&mut w, 25);
    let both = apply(
        &mut w,
        1,
        0,
        FutureOrderPolicy::Keep,
        &Command::AssignOrder { entities: vec![a, b], order: attack_move(5, 7) },
    );
    assert_eq!(both.applied_entities, vec![b]);
    assert_eq!(both.skipped[0].entity_id, Some(a));
    assert_eq!(w.units[0].action, attack_move(9, 7));
    assert_eq!(w.units[1].action, attack_move(5, 7));
}

#[test]
fn missing_replacement_target_installs_no_lock() {
    let (mut w, u) = lock_world();
    let ghost = genesis(0, 7).unwrap();
    advance(&mut w, 20);
    let missing = apply(
        &mut w,
        2,
        0,
        FutureOrderPolicy::DropWindow,
        &Command::AssignOrder { entities: vec![ghost], order: attack_move(9, 7) },
    );
    advance(&mut w, 25);
    let old = apply(&mut w, 1, 0, FutureOrderPolicy::Keep, &order_u(&u, 5));
    assert_eq!(missing.skipped[0].reason, SkipReason::Absent);
    assert_eq!(old.applied_entities, vec![u]);
}

#[test]
fn delivery_sorts_targets_drops_repeats_and_resets_motion() {
    let (mut w, a) = lock_world();
    let b = genesis(0, 1).unwrap();
    let foreign = genesis(1, 0).unwrap();
    let ghost = genesis(0, 9).unwrap();
    w.units.push(unit(b, 0));
    w.units.push(unit(foreign, 1));
    let out = apply(
        &mut w,
        0,
        0,
        FutureOrderPolicy::Keep,
        &Command::AssignOrder { entities: vec![ghost, b, foreign, a, b], order: attack_move(4, 4) },
    );
    assert_eq!(out.command_id, CommandId { round: 0, player: 0, index: 0 });
    assert_eq!(out.applied_entities, vec![a, b]);
    assert_eq!(
        out.skipped,
        vec![
            SkippedTarget { entity_id: Some(ghost), reason: SkipReason::Absent },
            SkippedTarget { entity_id: Some(foreign), reason: SkipReason::WrongOwner },
        ]
    );
    assert_eq!(w.units[0].action, attack_move(4, 4));
    assert_eq!(w.units[0].resolved_destination, None);
    assert!(!w.units[0].goal_settled);
    assert_eq!(w.units[0].failed_move_attempts, 0);
    assert!(w.units[0].local_detour.is_empty());
    assert!(w.units[0].order_locks.is_empty(), "round zero installs no lock");
    assert_eq!(w.units[2].action, Order::Idle {}, "another player's unit keeps its order");
}

#[test]
fn support_needs_a_living_target_other_than_itself() {
    let (mut w, a) = lock_world();
    let b = genesis(0, 1).unwrap();
    w.units.push(unit(b, 0));
    let out = apply(
        &mut w,
        1,
        0,
        FutureOrderPolicy::Keep,
        &Command::AssignOrder { entities: vec![a, b], order: Order::Support { target: b } },
    );
    assert_eq!(out.applied_entities, vec![a]);
    assert_eq!(out.skipped, vec![SkippedTarget { entity_id: Some(b), reason: SkipReason::MissingSupportTarget }]);
    assert_eq!(w.units[0].support_target, Some(b));
    let ghost = genesis(0, 9).unwrap();
    let out = apply(
        &mut w,
        1,
        1,
        FutureOrderPolicy::Keep,
        &Command::AssignOrder { entities: vec![a], order: Order::Support { target: ghost } },
    );
    assert_eq!(reasons(&out), vec![SkipReason::MissingSupportTarget]);
}

#[test]
fn factories_store_orders_and_static_units_refuse_movement() {
    let (mut w, a) = lock_world();
    let f = genesis(0, 1).unwrap();
    let turret = genesis(0, 2).unwrap();
    w.units.push(factory(f, 0));
    w.units.push(UnitState {
        abilities: Abilities { structure: true, produces: false, moves: false, mines: false, constructs: false },
        type_key: "turret".to_string(),
        ..unit(turret, 0)
    });
    let out = apply(
        &mut w,
        1,
        0,
        FutureOrderPolicy::Keep,
        &Command::AssignOrder { entities: vec![turret, f, a], order: attack_move(6, 6) },
    );
    assert_eq!(out.applied_entities, vec![a, f]);
    assert_eq!(out.skipped, vec![SkippedTarget { entity_id: Some(turret), reason: SkipReason::Incompatible }]);
    assert_eq!(w.units[1].action, Order::Idle {}, "a factory keeps acting idle");
    assert_eq!(w.units[1].production.as_ref().unwrap().stored_order, attack_move(6, 6));
    let mine = Order::Mine { area: atemporal::types::Rect { min: Tile { x: 0, y: 0 }, max: Tile { x: 1, y: 1 } } };
    let out = apply(&mut w, 1, 1, FutureOrderPolicy::Keep, &Command::AssignOrder { entities: vec![a], order: mine });
    assert_eq!(reasons(&out), vec![SkipReason::Incompatible], "a grunt does not mine");
}

#[test]
fn sites_take_settings_but_not_orders() {
    let (mut w, _a) = lock_world();
    let site = genesis(0, 3).unwrap();
    w.units.push(UnitState { lifecycle: Lifecycle::Site, ..unit(site, 0) });
    let out = apply(&mut w, 1, 0, FutureOrderPolicy::Keep, &Command::AssignOrder { entities: vec![site], order: attack_move(1, 1) });
    assert_eq!(reasons(&out), vec![SkipReason::Incompatible]);
    let out = apply(
        &mut w,
        1,
        1,
        FutureOrderPolicy::Keep,
        &Command::SetPriority { entities: vec![site, site], priority: Priority::High },
    );
    assert_eq!(out.applied_entities, vec![site, site], "settings report every listed target");
    assert_eq!(w.units[1].priority, Priority::High);
}

#[test]
fn group_order_saves_locks_and_reaches_members() {
    let (mut w, u) = lock_world();
    let gone = genesis(0, 5).unwrap();
    let g = group(0, 1);
    w.groups.push(group_state(g, vec![u, gone]));
    advance(&mut w, 20);
    let out = apply(&mut w, 2, 0, FutureOrderPolicy::DropWindow, &Command::AssignGroupOrder { group: g, order: attack_move(9, 7) });
    assert_eq!(out.applied_entities, vec![u]);
    assert!(out.skipped.is_empty(), "members that no longer exist are not reported");
    let saved = w.groups[0].latest_order.unwrap();
    assert_eq!(saved.order, attack_move(9, 7));
    assert_eq!(saved.tick, 20);
    assert_eq!(saved.source_command_id, command_id(2, 0, 0));
    assert_eq!(w.groups[0].order_locks, vec![OrderLock { from_tick: 20, until_tick: 30, issued_round: 2 }]);
    advance(&mut w, 25);
    let old_group = apply(&mut w, 1, 3, FutureOrderPolicy::Keep, &Command::AssignGroupOrder { group: g, order: Order::Idle {} });
    assert_eq!(old_group.skipped, vec![SkippedTarget { entity_id: None, reason: SkipReason::LockedByLaterRound }]);
    let foreign = apply(&mut w, 3, 0, FutureOrderPolicy::Keep, &Command::AssignGroupOrder { group: group(1, 1), order: Order::Idle {} });
    assert_eq!(foreign.skipped, vec![SkippedTarget { entity_id: None, reason: SkipReason::WrongOwner }]);
}

#[test]
fn member_edits_accept_owned_entities_and_keep_members_sorted() {
    let (mut w, a) = lock_world();
    let b = genesis(0, 1).unwrap();
    let foreign = genesis(1, 0).unwrap();
    let ghost = genesis(0, 9).unwrap();
    w.units.push(unit(b, 0));
    w.units.push(unit(foreign, 1));
    let g = group(0, 2);
    w.groups.push(group_state(g, vec![]));
    let out = apply(
        &mut w,
        1,
        0,
        FutureOrderPolicy::Keep,
        &Command::EditGroupMembers { group: g, edit: MemberEdit::Add { entities: vec![b, foreign, a, ghost, b] } },
    );
    assert_eq!(out.applied_entities, vec![b, a, b]);
    assert_eq!(reasons(&out), vec![SkipReason::WrongOwner, SkipReason::Absent]);
    assert_eq!(w.groups[0].members, vec![a, b]);
    let out = apply(
        &mut w,
        1,
        1,
        FutureOrderPolicy::Keep,
        &Command::EditGroupMembers { group: g, edit: MemberEdit::Remove { entities: vec![a, ghost] } },
    );
    assert_eq!(out.applied_entities, vec![a, ghost]);
    assert_eq!(w.groups[0].members, vec![b]);
    apply(
        &mut w,
        1,
        2,
        FutureOrderPolicy::Keep,
        &Command::EditGroupMembers { group: g, edit: MemberEdit::Replace { entities: vec![a] } },
    );
    assert_eq!(w.groups[0].members, vec![a]);
}

#[test]
fn factory_settings_reach_only_the_players_factories() {
    let (mut w, a) = lock_world();
    let f = genesis(0, 1).unwrap();
    let other = genesis(1, 1).unwrap();
    w.units.push(factory(f, 0));
    w.units.push(factory(other, 1));
    let g = group(0, 3);
    let out = apply(
        &mut w,
        1,
        0,
        FutureOrderPolicy::Keep,
        &Command::BindFactoryGroup { factories: vec![f, a, other], group: Some(g) },
    );
    assert_eq!(out.applied_entities, vec![f]);
    assert_eq!(reasons(&out), vec![SkipReason::Incompatible, SkipReason::WrongOwner]);
    assert_eq!(w.units[1].production.as_ref().unwrap().spawn_group, Some(g));
    assert_eq!(w.units[2].production.as_ref().unwrap().spawn_group, None);
    let out = apply(
        &mut w,
        1,
        1,
        FutureOrderPolicy::Keep,
        &Command::BindFactoryGroup { factories: vec![f], group: Some(group(1, 3)) },
    );
    assert_eq!(out.skipped, vec![SkippedTarget { entity_id: None, reason: SkipReason::WrongOwner }]);
    apply(&mut w, 1, 2, FutureOrderPolicy::Keep, &Command::SetQueueLoop { factories: vec![f], enabled: true });
    assert!(w.units[1].production.as_ref().unwrap().loop_enabled);
    apply(&mut w, 1, 3, FutureOrderPolicy::Keep, &Command::SetStoredOrder { factories: vec![f], order: attack_move(2, 2) });
    assert_eq!(w.units[1].production.as_ref().unwrap().stored_order, attack_move(2, 2));
    assert_eq!(w.units[1].action, Order::Idle {});
}

#[test]
fn priority_reaches_unsited_blueprints_of_the_player() {
    let (mut w, a) = lock_world();
    let mine = genesis(0, 4).unwrap();
    let sited = genesis(0, 5).unwrap();
    let theirs = genesis(1, 4).unwrap();
    w.blueprints = vec![
        planned(mine, 0, "factory", Tile { x: 1, y: 2 }, None),
        planned(sited, 0, "factory", Tile { x: 2, y: 2 }, Some(a)),
        planned(theirs, 1, "factory", Tile { x: 3, y: 2 }, None),
    ];
    let out = apply(
        &mut w,
        1,
        0,
        FutureOrderPolicy::Keep,
        &Command::SetPriority { entities: vec![mine, sited, theirs, a], priority: Priority::Low },
    );
    assert_eq!(out.applied_entities, vec![a]);
    assert_eq!(reasons(&out), vec![SkipReason::Absent, SkipReason::Absent, SkipReason::Absent]);
    assert_eq!(w.blueprints[0].priority, Priority::Low);
    assert_eq!(w.blueprints[1].priority, Priority::Medium);
    assert_eq!(w.blueprints[2].priority, Priority::Medium);
    assert_eq!(w.units[0].priority, Priority::Low);
}

fn caps(key: &str, kind: TypeKind, production: Option<Vec<&str>>) -> TypeCaps {
    TypeCaps {
        key: key.to_string(),
        kind,
        moves: kind == TypeKind::Unit,
        mines: false,
        constructs: false,
        production: production.map(|p| p.into_iter().map(|s| s.to_string()).collect()),
    }
}

fn build_world() -> OrderWorld {
    let (mut w, _) = lock_world();
    w.floor[3 * 8 + 3] = false;
    w.reserved[6 * 8 + 6] = true;
    let turret = genesis(0, 2).unwrap();
    w.units.push(UnitState {
        tile: Tile { x: 5, y: 5 },
        abilities: Abilities { structure: true, produces: false, moves: false, mines: false, constructs: false },
        type_key: "turret".to_string(),
        ..unit(turret, 0)
    });
    w.precedence = vec![RoundPrecedence { round: 1, players: vec![1, 0] }];
    w
}

#[test]
fn placement_needs_open_floor_and_one_blueprint_per_tile() {
    let mut w = build_world();
    let cid = command_id(1, 0, 4);
    let tiles = vec![
        Tile { x: 2, y: 2 },
        Tile { x: 3, y: 3 },
        Tile { x: 5, y: 5 },
        Tile { x: 6, y: 6 },
        Tile { x: 2, y: 2 },
        Tile { x: 9, y: 9 },
    ];
    let out = apply_command(
        &mut w,
        1,
        0,
        cid,
        &Command::PlaceBlueprints { type_key: "turret".to_string(), tiles, priority: Priority::High, output_directions: None },
        FutureOrderPolicy::Keep,
    );
    assert_eq!(out.applied_entities, vec![blueprint(&cid, 0).unwrap()]);
    let blocked: Vec<_> = (1..6).map(|k| SkippedTarget { entity_id: Some(blueprint(&cid, k).unwrap()), reason: SkipReason::Blocked }).collect();
    assert_eq!(out.skipped, blocked);
    assert_eq!(w.blueprints.len(), 1);
    let b = &w.blueprints[0];
    assert_eq!(b.tile, Tile { x: 2, y: 2 });
    assert_eq!(b.priority, Priority::High);
    assert_eq!(b.output_direction, None);
    assert_eq!(b.precedence, EventKey { tick: 0, round: 1, player_rank: 1, command_index: 4 });
}

#[test]
fn factories_need_an_open_output_side() {
    let mut w = build_world();
    let cid = command_id(1, 0, 0);
    let out = apply_command(
        &mut w,
        1,
        0,
        cid,
        &Command::PlaceBlueprints {
            type_key: "factory".to_string(),
            tiles: vec![Tile { x: 0, y: 0 }, Tile { x: 3, y: 4 }],
            priority: Priority::Low,
            output_directions: Some(vec![CardinalDirection::N, CardinalDirection::N]),
        },
        FutureOrderPolicy::Keep,
    );
    assert_eq!(reasons(&out), vec![SkipReason::Blocked, SkipReason::Blocked], "north of (3,4) is the wall");
    let out = apply_command(
        &mut w,
        1,
        0,
        command_id(1, 0, 1),
        &Command::PlaceBlueprints {
            type_key: "factory".to_string(),
            tiles: vec![Tile { x: 3, y: 4 }],
            priority: Priority::Low,
            output_directions: None,
        },
        FutureOrderPolicy::Keep,
    );
    assert_eq!(out.applied_entities.len(), 1);
    assert_eq!(w.blueprints[0].output_direction, Some(CardinalDirection::E), "first open side after the wall");
}

#[test]
fn placement_refuses_units_and_unknown_types() {
    let mut w = build_world();
    for key in ["grunt", "pink"] {
        let out = apply_command(
            &mut w,
            1,
            0,
            command_id(1, 0, 0),
            &Command::PlaceBlueprints { type_key: key.to_string(), tiles: vec![Tile { x: 1, y: 1 }], priority: Priority::Low, output_directions: None },
            FutureOrderPolicy::Keep,
        );
        assert_eq!(out.skipped, vec![SkippedTarget { entity_id: None, reason: SkipReason::Incompatible }]);
    }
    assert!(w.blueprints.is_empty());
}

fn settings(queue: Vec<&str>) -> BlueprintSettings {
    BlueprintSettings {
        queue: queue.into_iter().map(|s| s.to_string()).collect(),
        queue_loop_flags: vec![],
        order: Order::Idle {},
        priority: Priority::High,
        loop_enabled: true,
        silo_plan: None,
    }
}

#[test]
fn configuration_reaches_unsited_blueprints_with_the_recipes() {
    let mut w = build_world();
    let b1 = blueprint(&command_id(1, 0, 0), 0).unwrap();
    let b2 = blueprint(&command_id(1, 0, 0), 1).unwrap();
    let sited = blueprint(&command_id(1, 0, 0), 2).unwrap();
    let theirs = blueprint(&command_id(1, 1, 0), 0).unwrap();
    w.blueprints = vec![
        planned(b1, 0, "factory", Tile { x: 1, y: 2 }, None),
        planned(b2, 0, "turret", Tile { x: 2, y: 2 }, None),
        planned(sited, 0, "factory", Tile { x: 4, y: 2 }, Some(genesis(0, 2).unwrap())),
        planned(theirs, 1, "factory", Tile { x: 6, y: 2 }, None),
    ];
    let cid = command_id(2, 0, 3);
    let out = apply_command(
        &mut w,
        2,
        0,
        cid,
        &Command::ConfigureBlueprints { blueprint_ids: vec![theirs, b2, b1, sited, b1], settings: settings(vec!["grunt"]) },
        FutureOrderPolicy::Keep,
    );
    assert_eq!(out.applied_entities, vec![b1]);
    assert_eq!(reasons(&out), vec![SkipReason::Incompatible, SkipReason::Absent, SkipReason::Absent]);
    assert_eq!(w.blueprints[0].settings, Some(settings(vec!["grunt"])));
    assert_eq!(w.blueprints[0].priority, Priority::High);
    assert_eq!(w.blueprints[0].settings_command, Some(BirthCommandId { command: cid, target_index: 0 }));
    assert_eq!(w.blueprints[1].settings, None);
    let out = apply_command(
        &mut w,
        2,
        0,
        cid,
        &Command::ConfigureBlueprints { blueprint_ids: vec![b2], settings: settings(vec![]) },
        FutureOrderPolicy::Keep,
    );
    assert_eq!(out.applied_entities, vec![b2], "an empty queue suits any structure");
}

#[test]
fn cancelling_removes_blueprints_and_their_sites_once() {
    let mut w = build_world();
    let site = genesis(0, 2).unwrap();
    let b1 = blueprint(&command_id(1, 0, 0), 0).unwrap();
    let b2 = blueprint(&command_id(1, 0, 0), 1).unwrap();
    let ghost = blueprint(&command_id(1, 0, 0), 9).unwrap();
    w.blueprints = vec![
        planned(b1, 0, "turret", Tile { x: 5, y: 5 }, Some(site)),
        planned(b2, 0, "turret", Tile { x: 2, y: 2 }, None),
    ];
    let out = apply_command(
        &mut w,
        2,
        0,
        command_id(2, 0, 0),
        &Command::CancelBlueprints { blueprint_ids: vec![b1, ghost, b1] },
        FutureOrderPolicy::Keep,
    );
    assert_eq!(out.applied_entities, vec![b1]);
    assert_eq!(
        out.skipped,
        vec![
            SkippedTarget { entity_id: Some(ghost), reason: SkipReason::Absent },
            SkippedTarget { entity_id: Some(b1), reason: SkipReason::Absent },
        ]
    );
    assert_eq!(w.blueprints.len(), 1);
    assert_eq!(w.blueprints[0].id, b2);
    assert!(w.units.iter().all(|u| u.id != site), "the started site is gone");
    assert_eq!(w.units.len(), 1);
}

#[test]
fn production_edits_queue_recipes_with_causal_item_ids() {
    let (mut w, a) = lock_world();
    let f1 = genesis(0, 1).unwrap();
    let f2 = genesis(0, 2).unwrap();
    w.units.push(factory(f1, 0));
    w.units.push(factory(f2, 0));
    let cid = command_id(1, 0, 2);
    let out = apply_command(
        &mut w,
        1,
        0,
        cid,
        &Command::EditProduction {
            factories: vec![f2, a, f1],
            edit: ProductionEdit::Append { items: vec!["grunt".to_string(), "miner".to_string()] },
        },
        FutureOrderPolicy::Keep,
    );
    assert_eq!(out.applied_entities, vec![f1, f2]);
    assert_eq!(reasons(&out), vec![SkipReason::Incompatible], "a grunt has no queue");
    let queued = &w.units[1].production.as_ref().unwrap().pending_items;
    assert_eq!(queued.len(), 2);
    // Target indices count every distinct listed id in id order, the skipped grunt included.
    assert_eq!(queued[0].item_id, queue_item(&cid, 1, 0).unwrap());
    assert_eq!(queued[1].item_id, queue_item(&cid, 1, 1).unwrap());
    assert_eq!(queued[1].type_key, "miner");
    assert_eq!(w.units[2].production.as_ref().unwrap().pending_items[0].item_id, queue_item(&cid, 2, 0).unwrap());
    let bad = apply_command(
        &mut w,
        1,
        0,
        command_id(1, 0, 3),
        &Command::EditProduction { factories: vec![f1], edit: ProductionEdit::Append { items: vec!["turret".to_string()] } },
        FutureOrderPolicy::Keep,
    );
    assert_eq!(reasons(&bad), vec![SkipReason::Incompatible], "turrets are not a recipe");
    assert_eq!(w.units[1].production.as_ref().unwrap().pending_items.len(), 2);
    let first = queue_item(&cid, 1, 0).unwrap();
    apply_command(
        &mut w,
        1,
        0,
        command_id(1, 0, 4),
        &Command::EditProduction { factories: vec![f1], edit: ProductionEdit::RemovePending { item_ids: vec![first] } },
        FutureOrderPolicy::Keep,
    );
    let left = &w.units[1].production.as_ref().unwrap().pending_items;
    assert_eq!(left.len(), 1);
    assert_eq!(left[0].type_key, "miner");
    let replace_cid = command_id(1, 0, 5);
    apply_command(
        &mut w,
        1,
        0,
        replace_cid,
        &Command::EditProduction { factories: vec![f1], edit: ProductionEdit::ReplacePending { items: vec!["grunt".to_string()] } },
        FutureOrderPolicy::Keep,
    );
    assert_eq!(
        w.units[1].production.as_ref().unwrap().pending_items,
        vec![QueueItem { item_id: queue_item(&replace_cid, 0, 0).unwrap(), type_key: "grunt".to_string() }]
    );
}

#[test]
fn cancelling_the_active_item_keeps_the_queue() {
    let (mut w, _a) = lock_world();
    let f = genesis(0, 1).unwrap();
    let mut fac = factory(f, 0);
    let item = queue_item(&command_id(1, 0, 0), 0, 0).unwrap();
    if let Some(p) = fac.production.as_mut() {
        p.active_item = Some(ActiveItem { item_id: item, occurrence: 0, type_key: "grunt".to_string(), awaiting_output: false });
        p.pending_items = vec![QueueItem { item_id: item, type_key: "grunt".to_string() }];
    }
    w.units.push(fac);
    let out = apply_command(
        &mut w,
        2,
        0,
        command_id(2, 0, 0),
        &Command::EditProduction { factories: vec![f], edit: ProductionEdit::CancelActive {} },
        FutureOrderPolicy::Keep,
    );
    assert_eq!(out.applied_entities, vec![f]);
    let p = w.units[1].production.as_ref().unwrap();
    assert_eq!(p.active_item, None);
    assert_eq!(p.pending_items.len(), 1);
    let genesis_edit = apply_command(
        &mut w,
        0,
        0,
        command_id(0, 0, 0),
        &Command::EditProduction { factories: vec![f], edit: ProductionEdit::Append { items: vec!["grunt".to_string()] } },
        FutureOrderPolicy::Keep,
    );
    assert_eq!(reasons(&genesis_edit), vec![SkipReason::Incompatible], "genesis commands cannot queue items");
}
