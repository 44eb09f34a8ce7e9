use atemporal::config::{validate_config, ConfigView};
use atemporal::scoreboard::ScoreboardRules;
use atemporal::scoring::{Multiplayer, TeamAssignment};
use atemporal::timed::Objective;

fn defaults() -> ConfigView {
    ConfigView {
        map_size: 64,
        player_count: 2,
        symmetric: true,
        multiplayer: Multiplayer::Ffa {},
        objective: Objective::Scoreboard { rules: ScoreboardRules::default() },
        window_ticks: Some(20),
        max_tick: 3600,
        stall_ticks: 600,
        ticks_per_second: 10,
        simulation_threads: 1,
        checkpoint_interval: 100,
        snapshot_interval: 10,
        replay_directory: "replays".to_string(),
    }
}

#[test]
fn window_players_and_symmetry_are_checked() {
    let mut c = defaults();
    assert!(validate_config(&c).is_ok());
    c.window_ticks = Some(0);
    assert!(validate_config(&c).is_err());
    c.window_ticks = None;
    c.player_count = 3;
    assert!(validate_config(&c).is_err());
    c.symmetric = false;
    assert!(validate_config(&c).is_ok());
}

#[test]
fn limits_sides_objective_and_directory_are_checked() {
    for (players, size) in [(1, 64), (5, 64), (2, 7), (2, 513)] {
        let c = ConfigView { player_count: players, map_size: size, symmetric: false, ..defaults() };
        assert!(validate_config(&c).is_err(), "{players} players on {size}");
    }
    assert!(validate_config(&ConfigView { map_size: 65, ..defaults() }).is_err(), "odd symmetric map");
    assert!(validate_config(&ConfigView { map_size: 65, symmetric: false, ..defaults() }).is_ok());
    let one_team = Multiplayer::Teams {
        assignments: vec![
            TeamAssignment { player_id: 0, team_id: "a".to_string() },
            TeamAssignment { player_id: 1, team_id: "a".to_string() },
        ],
    };
    assert!(validate_config(&ConfigView { multiplayer: one_team, ..defaults() }).is_err());
    assert!(validate_config(&ConfigView { objective: Objective::Timed { lock_ticks_per_round: 0 }, ..defaults() }).is_err());
    assert!(validate_config(&ConfigView { objective: Objective::Timed { lock_ticks_per_round: 30 }, ..defaults() }).is_ok());
    assert!(validate_config(&ConfigView { simulation_threads: 0, ..defaults() }).is_err());
    assert!(validate_config(&ConfigView { replay_directory: "  ".to_string(), ..defaults() }).is_err());
}
