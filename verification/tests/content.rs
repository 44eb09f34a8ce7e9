use atemporal::admission::TypeKind;
use atemporal::config::{validate_config, ConfigView};
use atemporal::content::{normalize_content, type_index, Content, ContentType};
use atemporal::scoreboard::ScoreboardRules;
use atemporal::scoring::Multiplayer;
use atemporal::timed::Objective;

fn unit(key: &str) -> ContentType {
    ContentType {
        key: key.to_string(),
        kind: TypeKind::Unit,
        movement_cooldown: Some(2),
        weapon_cooldown: None,
        mining_cooldown: None,
        construction_cooldown: None,
        recipes: None,
        healing_cooldown: None,
    }
}

fn structure(key: &str) -> ContentType {
    ContentType { movement_cooldown: None, kind: TypeKind::Structure, ..unit(key) }
}

/// A small roster in the shape of the shipped content: workers, a turret, a wall and a factory.
fn sample() -> Content {
    let miner = ContentType { mining_cooldown: Some(5), ..unit("miner") };
    let constructor = ContentType { construction_cooldown: Some(4), ..unit("constructor") };
    let turret = ContentType { weapon_cooldown: Some(3), ..structure("turret") };
    let factory = ContentType {
        recipes: Some(vec!["miner".to_string(), "constructor".to_string()]),
        ..structure("factory")
    };
    let medic = ContentType { healing_cooldown: Some(6), ..unit("medic") };
    Content {
        schema_version: 1,
        types: vec![turret, miner, factory, structure("wall"), constructor, medic],
        starting_roster: vec!["miner".to_string(), "constructor".to_string(), "turret".to_string()],
    }
}

fn defaults() -> ConfigView {
    ConfigView {
        map_size: 64,
        player_count: 2,
        symmetric: true,
        multiplayer: Multiplayer::Ffa {},
        objective: Objective::Scoreboard { rules: ScoreboardRules::default() },
        window_ticks: Some(20),
        max_tick: 3600,
        stall_ticks: 600,
        ticks_per_second: 10,
        simulation_threads: 1,
        checkpoint_interval: 100,
        snapshot_interval: 10,
        replay_directory: "replays".to_string(),
    }
}

fn with_type(c: &Content, key: &str, edit: impl Fn(&mut ContentType)) -> Content {
    let mut c = c.clone();
    edit(c.types.iter_mut().find(|t| t.key == key).unwrap());
    c
}

#[test]
fn rejects_malformed_caps_recipes_and_setup() {
    let normalized = normalize_content(sample()).unwrap();
    let mut c = normalized.clone();
    c.types.push(c.types[0].clone());
    assert!(normalize_content(c).is_err());
    let c = with_type(&normalized, "factory", |t| t.recipes = Some(vec!["wall".to_string()]));
    assert!(normalize_content(c).is_err());
    let c = with_type(&normalized, "miner", |t| t.mining_cooldown = Some(0));
    assert!(normalize_content(c).is_err());
    let mut setup = defaults();
    setup.window_ticks = Some(0);
    assert!(validate_config(&setup).is_err());
    setup.window_ticks = None;
    setup.player_count = 3;
    assert!(validate_config(&setup).is_err());
    setup.symmetric = false;
    assert!(validate_config(&setup).is_ok());
}

#[test]
fn normalization_sorts_types_and_recipes_and_keeps_the_roster_order() {
    let out = normalize_content(sample()).unwrap();
    let keys: Vec<&str> = out.types.iter().map(|t| t.key.as_str()).collect();
    assert_eq!(keys, ["constructor", "factory", "medic", "miner", "turret", "wall"]);
    let factory = out.types.iter().find(|t| t.key == "factory").unwrap();
    assert_eq!(factory.recipes, Some(vec!["constructor".to_string(), "miner".to_string()]));
    assert_eq!(out.starting_roster, ["miner", "constructor", "turret"]);
    assert_eq!(out.schema_version, 1);
    let again = normalize_content(out.clone()).unwrap();
    assert_eq!(again, out);
}

#[test]
fn each_malformed_field_is_refused() {
    let base = sample();
    let empty = Content { types: vec![], ..base.clone() };
    assert_eq!(normalize_content(empty).unwrap_err(), "content roster is empty");
    let mut dup = base.clone();
    dup.types.push(unit("miner"));
    assert_eq!(normalize_content(dup).unwrap_err(), "duplicate content key");
    for bad in ["", "Miner", "mi-ner", &"x".repeat(65)] {
        let c = with_type(&base, "medic", |t| t.key = bad.to_string());
        assert!(normalize_content(c).is_err(), "{bad:?}");
    }
    let c = with_type(&base, "medic", |t| t.key = "Medic".to_string());
    assert_eq!(normalize_content(c).unwrap_err(), "invalid type key Medic");
    assert!(normalize_content(with_type(&base, "medic", |t| t.key = "x".repeat(64))).is_ok());
    for field in 0..5 {
        let c = with_type(&base, "medic", |t| match field {
            0 => t.movement_cooldown = Some(0),
            1 => t.weapon_cooldown = Some(0),
            2 => t.mining_cooldown = Some(0),
            3 => t.construction_cooldown = Some(0),
            _ => t.healing_cooldown = Some(0),
        });
        assert_eq!(normalize_content(c).unwrap_err(), "cooldown must be positive");
    }
    let c = with_type(&base, "wall", |t| t.movement_cooldown = Some(3));
    assert_eq!(normalize_content(c).unwrap_err(), "structure wall cannot move");
    let c = with_type(&base, "factory", |t| t.recipes = Some(vec![]));
    assert_eq!(normalize_content(c).unwrap_err(), "factory has empty or non-unit production recipes");
    let c = with_type(&base, "factory", |t| t.recipes = Some(vec!["ghost".to_string()]));
    assert!(normalize_content(c).is_err());
    let c = with_type(&base, "factory", |t| t.recipes = Some(vec!["miner".to_string(), "miner".to_string()]));
    assert_eq!(normalize_content(c).unwrap_err(), "duplicate recipe");
    let none = Content { starting_roster: vec![], ..base.clone() };
    assert_eq!(normalize_content(none).unwrap_err(), "starting roster references missing content");
    let missing = Content { starting_roster: vec!["tank".to_string()], ..base };
    assert_eq!(normalize_content(missing).unwrap_err(), "starting roster references missing content");
}

#[test]
fn a_structure_may_produce_and_a_unit_may_produce_units() {
    let base = sample();
    let c = with_type(&base, "medic", |t| t.recipes = Some(vec!["medic".to_string()]));
    let out = normalize_content(c).unwrap();
    assert_eq!(out.types.iter().find(|t| t.key == "medic").unwrap().recipes, Some(vec!["medic".to_string()]));
}

#[test]
fn types_are_found_by_key_in_the_normalized_roster() {
    let out = normalize_content(sample()).unwrap();
    for (i, t) in out.types.iter().enumerate() {
        assert_eq!(type_index(&out.types, &t.key), Ok(i));
    }
    assert_eq!(type_index(&out.types, "tank").unwrap_err(), "unknown type tank");
    assert!(type_index(&out.types, "").is_err());
    assert!(type_index(&[].to_vec(), "miner").is_err());
}
