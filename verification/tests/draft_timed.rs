use atemporal::draft::{lock_interval, resolve_local_references, validate_policy};
use atemporal::identity::{blueprint, command_id, genesis};
use atemporal::scoring::{Multiplayer, SideId};
use atemporal::timed::{
    adjudicate, minimum_end_tick, BuildType, Health, Lifecycle, LockedEntity, LockedWorld, Objective, TimedConfig,
    TimedStatus,
};
use atemporal::types::{
    CardinalDirection, Command, DraftCommand, DraftItemRef, FutureOrderPolicy, Priority,
    ProductionEdit, Tile, TurnDraft,
};

fn local_draft() -> TurnDraft {
    TurnDraft {
        based_on_revision: 1,
        tick: 20,
        commands: vec![
            DraftCommand {
                local_id: "place".to_string(),
                future_orders: FutureOrderPolicy::Keep,
                command: Command::PlaceBlueprints {
                    type_key: "factory".to_string(),
                    tiles: vec![Tile { x: 2, y: 2 }],
                    priority: Priority::High,
                    output_directions: Some(vec![CardinalDirection::E]),
                },
            },
            DraftCommand {
                local_id: "cancel".to_string(),
                future_orders: FutureOrderPolicy::Keep,
                command: Command::CancelBlueprints {
                    blueprint_ids: vec![DraftItemRef::Draft { local_id: "place".to_string(), item_index: 0 }],
                },
            },
        ],
    }
}

#[test]
fn action_only_lock_and_exact_interval_edges() {
    let command = DraftCommand {
        local_id: "priority".to_string(),
        command: Command::SetPriority { entities: vec![], priority: Priority::High },
        future_orders: FutureOrderPolicy::DropAll,
    };
    assert!(validate_policy(&command, Some(10)).is_err());
    assert!(validate_policy(&DraftCommand { future_orders: FutureOrderPolicy::Keep, ..command }, Some(10)).is_ok());
    let interval = lock_interval(20, FutureOrderPolicy::DropWindow, Some(10), 100).unwrap().unwrap();
    for (tick, removed) in [(20, false), (21, true), (30, true), (31, false)] {
        assert_eq!(tick > interval.after_tick && tick <= interval.through_tick, removed);
    }
    assert_eq!(lock_interval(20, FutureOrderPolicy::DropAll, None, 100).unwrap().unwrap().through_tick, 99);
    assert!(lock_interval(20, FutureOrderPolicy::DropWindow, None, 100).is_err());
    assert!(lock_interval(20, FutureOrderPolicy::DropWindow, Some(0), 100).is_err());
    assert_eq!(
        lock_interval(u32::MAX - 2, FutureOrderPolicy::DropWindow, Some(10), u32::MAX).unwrap().unwrap().through_tick,
        u32::MAX - 1
    );
}

#[test]
fn earlier_local_references_resolve_to_causal_ids_and_fail_atomically() {
    let mut draft = local_draft();
    let commands = resolve_local_references(&draft, 2, 0).unwrap();
    let expected = blueprint(&command_id(2, 0, 0), 0).unwrap();
    assert_eq!(commands[1], Command::CancelBlueprints { blueprint_ids: vec![expected] });
    draft.commands.swap(0, 1);
    assert!(resolve_local_references(&draft, 2, 0).is_err());
    let mut draft = local_draft();
    draft.commands[1].local_id = "place".to_string();
    assert!(resolve_local_references(&draft, 2, 0).is_err());
    let mut draft = local_draft();
    draft.commands[1].command = Command::CancelBlueprints {
        blueprint_ids: vec![DraftItemRef::Draft { local_id: "place".to_string(), item_index: 1 }],
    };
    assert!(resolve_local_references(&draft, 2, 0).is_err());
}

#[test]
fn local_queue_items_are_scoped_by_factory() {
    let factories = vec![genesis(0, 3).unwrap(), genesis(0, 4).unwrap()];
    let draft = TurnDraft {
        based_on_revision: 0,
        tick: 0,
        commands: vec![
            DraftCommand {
                local_id: "queue".to_string(),
                future_orders: FutureOrderPolicy::Keep,
                command: Command::EditProduction {
                    factories: factories.clone(),
                    edit: ProductionEdit::Append { items: vec!["grunt".to_string()] },
                },
            },
            DraftCommand {
                local_id: "remove".to_string(),
                future_orders: FutureOrderPolicy::Keep,
                command: Command::EditProduction {
                    factories: factories.clone(),
                    edit: ProductionEdit::RemovePending {
                        item_ids: vec![DraftItemRef::Draft { local_id: "queue".to_string(), item_index: 0 }],
                    },
                },
            },
        ],
    };
    let result = resolve_local_references(&draft, 1, 0).unwrap();
    let item_ids = match &result[1] {
        Command::EditProduction { edit: ProductionEdit::RemovePending { item_ids }, .. } => item_ids.clone(),
        _ => panic!("wrong command"),
    };
    assert_eq!(item_ids.len(), 2);
    assert_ne!(item_ids[0], item_ids[1]);
    assert_eq!(item_ids[1].birth_command.target_index, 1);
    let mut subset = draft.clone();
    if let Command::EditProduction { factories, .. } = &mut subset.commands[1].command {
        factories.remove(0);
    }
    let subset_result = resolve_local_references(&subset, 1, 0).unwrap();
    if let Command::EditProduction { edit: ProductionEdit::RemovePending { item_ids: subset_ids }, .. } = &subset_result[1] {
        assert_eq!(subset_ids, &vec![item_ids[1].clone()]);
    } else {
        panic!("wrong command");
    }
    if let Command::EditProduction { factories, .. } = &mut subset.commands[0].command {
        factories.reverse();
    }
    assert!(resolve_local_references(&subset, 1, 0).is_err());
}

#[test]
fn round_zero_and_duplicate_local_ids_are_refused() {
    assert!(resolve_local_references(&local_draft(), 0, 0).is_err());
    let empty = TurnDraft { based_on_revision: 0, tick: 0, commands: vec![] };
    assert_eq!(resolve_local_references(&empty, 1, 0).unwrap(), vec![]);
}

fn timed_config(max_tick: u32) -> TimedConfig {
    TimedConfig {
        player_count: 2,
        multiplayer: Multiplayer::Ffa {},
        objective: Objective::Timed { lock_ticks_per_round: 2 },
        max_tick,
    }
}

fn types() -> Vec<BuildType> {
    vec![
        BuildType { key: "constructor".to_string(), provides_build_ability: true },
        BuildType { key: "turret".to_string(), provides_build_ability: false },
        BuildType { key: "miner".to_string(), provides_build_ability: false },
    ]
}

fn entity(owner: u8, key: &str) -> LockedEntity {
    LockedEntity { owner, type_key: key.to_string(), health: Health::Positive, lifecycle: Lifecycle::Complete }
}

fn quiet_world(tick: u32) -> LockedWorld {
    LockedWorld {
        tick,
        entities: vec![
            entity(0, "constructor"),
            entity(0, "turret"),
            entity(0, "miner"),
            entity(1, "constructor"),
            entity(1, "turret"),
            entity(1, "miner"),
        ],
    }
}

#[test]
fn timed_uses_locked_build_ability_not_sim_elimination_or_future_endpoint() {
    let config = timed_config(100);
    let mut locked = quiet_world(2);
    locked.entities.retain(|e| !(e.owner == 0 && e.type_key == "turret"));
    let result = adjudicate(&config, &types(), 0, &locked, &vec![]).unwrap();
    assert_eq!(result.status, TimedStatus::Planning);
    assert!(result.timed_lost_players.is_empty());
    locked.entities.retain(|e| !(e.owner == 0 && e.type_key == "constructor"));
    let result = adjudicate(&config, &types(), 0, &locked, &vec![]).unwrap();
    assert_eq!(result.match_winners, vec![SideId::Player { player_id: 1 }]);
    assert_eq!(result.timed_lost_players, vec![0]);
    locked.entities.retain(|e| e.type_key != "constructor");
    let result = adjudicate(&config, &types(), 0, &locked, &vec![]).unwrap();
    assert_eq!(result.status, TimedStatus::Finished);
    assert!(result.match_winners.is_empty());
    locked.tick = 3;
    assert!(adjudicate(&config, &types(), 0, &locked, &vec![]).is_err());
}

#[test]
fn exhausted_history_is_unfinished_and_sites_do_not_satisfy_timed_survival() {
    let config = timed_config(2);
    let mut locked = quiet_world(2);
    let result = adjudicate(&config, &types(), 0, &locked, &vec![]).unwrap();
    assert_eq!(result.status, TimedStatus::HistoryExhausted);
    assert!(result.match_winners.is_empty());
    locked
        .entities
        .iter_mut()
        .filter(|e| e.owner == 0 && e.type_key == "constructor")
        .for_each(|e| e.lifecycle = Lifecycle::Site);
    let result = adjudicate(&config, &types(), 0, &locked, &vec![]).unwrap();
    assert_eq!(result.timed_lost_players, vec![0]);
}

#[test]
fn earlier_losses_persist_and_cannot_be_restored() {
    let config = timed_config(100);
    let locked = quiet_world(4);
    // player 0 is capable again at the locked boundary: the premise changed
    assert!(adjudicate(&config, &types(), 2, &locked, &vec![0]).is_err());
    let mut without = quiet_world(4);
    without.entities.retain(|e| e.owner != 0);
    let result = adjudicate(&config, &types(), 2, &without, &vec![0]).unwrap();
    assert_eq!(result.timed_lost_players, vec![0]);
    assert!(adjudicate(&config, &types(), 2, &without, &vec![0, 0]).is_err());
    assert!(adjudicate(&config, &types(), 2, &without, &vec![5]).is_err());
}

#[test]
fn adjudication_refuses_bad_configurations_and_entities() {
    let mut scoreboard = timed_config(100);
    scoreboard.objective = Objective::Scoreboard { rules: Default::default() };
    assert!(adjudicate(&scoreboard, &types(), 0, &quiet_world(2), &vec![]).is_err());
    let mut zero = timed_config(100);
    zero.objective = Objective::Timed { lock_ticks_per_round: 0 };
    assert!(adjudicate(&zero, &types(), 0, &quiet_world(0), &vec![]).is_err());
    assert!(adjudicate(&timed_config(100), &types(), 101, &quiet_world(100), &vec![]).is_err());
    let mut unknown = quiet_world(2);
    unknown.entities.push(entity(1, "dragon"));
    assert!(adjudicate(&timed_config(100), &types(), 0, &unknown, &vec![]).is_err());
    let mut nan = quiet_world(2);
    nan.entities[0].health = Health::NotFinite;
    assert!(adjudicate(&timed_config(100), &types(), 0, &nan, &vec![]).is_err());
    let mut stranger = quiet_world(2);
    stranger.entities.push(entity(2, "miner"));
    assert!(adjudicate(&timed_config(100), &types(), 0, &stranger, &vec![]).is_err());
}

#[test]
fn hybrid_matches_only_advance_the_boundary() {
    let mut hybrid = timed_config(5);
    hybrid.objective = Objective::Hybrid { rules: Default::default(), lock_ticks_per_round: 3 };
    let result = adjudicate(&hybrid, &types(), 3, &LockedWorld { tick: 5, entities: vec![] }, &vec![]).unwrap();
    assert_eq!(result.boundary, 5);
    assert_eq!(result.status, TimedStatus::HistoryExhausted);
    assert!(result.timed_lost_players.is_empty());
    assert_eq!(result.eligible_sides.len(), 2);
    assert!(result.match_winners.is_empty());
}

#[test]
fn minimum_end_tick_follows_the_lock_increment() {
    let timed = Objective::Timed { lock_ticks_per_round: 20 };
    assert_eq!(minimum_end_tick(&timed, 100, 10), 30);
    assert_eq!(minimum_end_tick(&timed, 25, 10), 25);
    let scoreboard = Objective::Scoreboard { rules: atemporal::scoreboard::ScoreboardRules::default() };
    assert_eq!(minimum_end_tick(&scoreboard, 100, 10), 0);
}
