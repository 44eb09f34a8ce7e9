use atemporal::survival::{survival, PlayerSurvival, Reason, Standing, SurvivalStatus};

fn alive() -> PlayerSurvival {
    PlayerSurvival { currently_eliminated: false, status_since_tick: 0, elimination_reasons: vec![] }
}

fn hq(owner: u8) -> Standing {
    Standing { owner, complete: true, counts_for_survival: true, provides_build_ability: true }
}

#[test]
fn a_player_without_buildings_or_builders_is_eliminated_once() {
    let mut players = vec![alive(), alive()];
    let ents = vec![hq(0), Standing { owner: 1, complete: true, counts_for_survival: true, provides_build_ability: false }];
    let changes = survival(10, &ents, &mut players);
    assert_eq!(changes.len(), 1);
    assert_eq!(changes[0].player_id, 1);
    assert_eq!(changes[0].resolved_tick, 10);
    assert_eq!(changes[0].status, SurvivalStatus::Eliminated);
    assert_eq!(changes[0].reasons, vec![Reason::NoBuildAbility]);
    assert!(players[1].currently_eliminated);
    assert_eq!(players[1].status_since_tick, 11);
    assert_eq!(players[0], alive());
    let again = survival(10, &ents, &mut players);
    assert!(again.is_empty(), "resolving the same tick again changes nothing");
    assert_eq!(players[1].status_since_tick, 11);
}

#[test]
fn incomplete_entities_do_not_count_and_recovery_is_recorded() {
    let mut players = vec![alive()];
    let site = Standing { complete: false, ..hq(0) };
    let changes = survival(3, &vec![site], &mut players);
    assert_eq!(changes[0].reasons, vec![Reason::NoActiveBuilding, Reason::NoBuildAbility]);
    assert_eq!(players[0].elimination_reasons, vec![Reason::NoActiveBuilding, Reason::NoBuildAbility]);
    let changes = survival(4, &vec![hq(0)], &mut players);
    assert_eq!(changes.len(), 1);
    assert_eq!(changes[0].status, SurvivalStatus::Alive);
    assert!(changes[0].reasons.is_empty());
    assert_eq!(players[0].status_since_tick, 5);
    assert!(players[0].elimination_reasons.is_empty());
}
