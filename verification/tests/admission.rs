use atemporal::admission::{validate_against_state, BlueprintView, EntityView, StateView, TypeCaps, TypeKind};
use atemporal::identity::{blueprint, command_id, genesis};
use atemporal::map::TerrainCell;
use atemporal::safe::GroupSlot;
use atemporal::types::{
    BlueprintSettings, Command, ControlGroupId, MemberEdit, Order, Priority, ProductionEdit, Rect, Tile,
};

fn caps(key: &str, kind: TypeKind, moves: bool, production: Option<Vec<&str>>) -> TypeCaps {
    TypeCaps {
        key: key.to_string(),
        kind,
        moves,
        mines: key == "miner",
        constructs: key == "constructor",
        production: production.map(|p| p.into_iter().map(|s| s.to_string()).collect()),
    }
}

fn types() -> Vec<TypeCaps> {
    vec![
        caps("constructor", TypeKind::Unit, true, None),
        caps("miner", TypeKind::Unit, true, None),
        caps("turret", TypeKind::Structure, false, None),
        caps("factory", TypeKind::Structure, false, Some(vec!["grunt", "miner"])),
        caps("grunt", TypeKind::Unit, true, None),
    ]
}

fn state() -> StateView {
    let mut cells = vec![TerrainCell::Floor; 64];
    cells[3 * 8 + 3] = TerrainCell::Wall;
    StateView {
        width: 8,
        height: 8,
        cells,
        entities: vec![
            EntityView { id: genesis(0, 0).unwrap(), owner: 0, type_key: "constructor".to_string(), tile: Tile { x: 1, y: 1 } },
            EntityView { id: genesis(0, 1).unwrap(), owner: 0, type_key: "turret".to_string(), tile: Tile { x: 2, y: 1 } },
            EntityView { id: genesis(0, 2).unwrap(), owner: 0, type_key: "factory".to_string(), tile: Tile { x: 5, y: 5 } },
            EntityView { id: genesis(1, 0).unwrap(), owner: 1, type_key: "constructor".to_string(), tile: Tile { x: 6, y: 6 } },
        ],
        blueprints: vec![BlueprintView {
            id: blueprint(&command_id(1, 0, 0), 0).unwrap(),
            owner: 0,
            type_key: "factory".to_string(),
            site_id: None,
        }],
    }
}

fn check(commands: Vec<Command>) -> Result<(), String> {
    validate_against_state(2, 0, &commands, &state(), &types())
}

fn group(owner: u8) -> ControlGroupId {
    ControlGroupId { owner, slot: GroupSlot::try_new(1).unwrap() }
}

#[test]
fn orders_need_owned_capable_recipients() {
    let mine = Order::Mine { area: Rect { min: Tile { x: 0, y: 0 }, max: Tile { x: 1, y: 1 } } };
    assert!(check(vec![Command::AssignOrder { entities: vec![genesis(0, 0).unwrap()], order: Order::Idle {} }]).is_ok());
    assert!(check(vec![Command::AssignOrder { entities: vec![], order: Order::Idle {} }]).is_err());
    assert!(check(vec![Command::AssignOrder { entities: vec![genesis(1, 0).unwrap()], order: Order::Idle {} }]).is_err());
    assert!(check(vec![Command::AssignOrder { entities: vec![genesis(3, 0).unwrap()], order: Order::Idle {} }]).is_err());
    assert!(check(vec![Command::AssignOrder { entities: vec![genesis(0, 0).unwrap()], order: mine }]).is_err());
    assert!(check(vec![Command::AssignOrder { entities: vec![genesis(0, 1).unwrap()], order: Order::AttackMove { destination: Tile { x: 0, y: 0 } } }]).is_err());
    // a factory stores any order for its products
    assert!(check(vec![Command::AssignOrder { entities: vec![genesis(0, 2).unwrap()], order: mine }]).is_ok());
}

#[test]
fn groups_and_priorities_belong_to_the_player() {
    assert!(check(vec![Command::AssignGroupOrder { group: group(0), order: Order::Idle {} }]).is_ok());
    assert!(check(vec![Command::EditGroupMembers { group: group(1), edit: MemberEdit::Add { entities: vec![] } }]).is_err());
    assert!(check(vec![Command::BindFactoryGroup { factories: vec![genesis(0, 2).unwrap()], group: Some(group(1)) }]).is_err());
    assert!(check(vec![Command::BindFactoryGroup { factories: vec![genesis(0, 2).unwrap()], group: None }]).is_ok());
    let bp = blueprint(&command_id(1, 0, 0), 0).unwrap();
    assert!(check(vec![Command::SetPriority { entities: vec![bp, genesis(0, 1).unwrap()], priority: Priority::Low }]).is_ok());
    assert!(check(vec![Command::SetPriority { entities: vec![genesis(1, 0).unwrap()], priority: Priority::Low }]).is_err());
}

#[test]
fn placement_needs_a_structure_type_on_free_floor_inside_the_map() {
    let place = |key: &str, tiles: Vec<Tile>| Command::PlaceBlueprints { type_key: key.to_string(), tiles, priority: Priority::Medium, output_directions: None };
    assert!(check(vec![place("turret", vec![Tile { x: 4, y: 4 }])]).is_ok());
    assert!(check(vec![place("grunt", vec![Tile { x: 4, y: 4 }])]).is_err());
    assert!(check(vec![place("dragon", vec![Tile { x: 4, y: 4 }])]).is_err());
    assert!(check(vec![place("turret", vec![])]).is_err());
    assert!(check(vec![place("turret", vec![Tile { x: 8, y: 0 }])]).is_err());
    assert!(check(vec![place("turret", vec![Tile { x: 3, y: 3 }])]).is_err());
    assert!(check(vec![place("turret", vec![Tile { x: 2, y: 1 }])]).is_err());
    // a unit standing there does not block placement
    assert!(check(vec![place("turret", vec![Tile { x: 1, y: 1 }])]).is_ok());
}

#[test]
fn blueprint_settings_need_owned_blueprints_and_known_recipes() {
    let settings = |queue: Vec<&str>| BlueprintSettings {
        queue: queue.into_iter().map(|s| s.to_string()).collect(),
        queue_loop_flags: vec![],
        order: Order::Idle {},
        priority: Priority::Medium,
        loop_enabled: false,
        silo_plan: None,
    };
    let bp = blueprint(&command_id(1, 0, 0), 0).unwrap();
    assert!(check(vec![Command::ConfigureBlueprints { blueprint_ids: vec![bp], settings: settings(vec!["grunt"]) }]).is_ok());
    assert!(check(vec![Command::ConfigureBlueprints { blueprint_ids: vec![bp], settings: settings(vec!["turret"]) }]).is_err());
    // a blueprint placed earlier in this same turn
    let drafted = blueprint(&command_id(2, 0, 0), 0).unwrap();
    let turn = vec![
        Command::PlaceBlueprints { type_key: "factory".to_string(), tiles: vec![Tile { x: 4, y: 4 }], priority: Priority::Medium, output_directions: None },
        Command::ConfigureBlueprints { blueprint_ids: vec![drafted], settings: settings(vec!["miner"]) },
    ];
    assert!(check(turn).is_ok());
    let turret_draft = vec![
        Command::PlaceBlueprints { type_key: "turret".to_string(), tiles: vec![Tile { x: 4, y: 4 }], priority: Priority::Medium, output_directions: None },
        Command::ConfigureBlueprints { blueprint_ids: vec![drafted], settings: settings(vec!["miner"]) },
    ];
    assert!(check(turret_draft).is_err());
    let turret_empty = vec![
        Command::PlaceBlueprints { type_key: "turret".to_string(), tiles: vec![Tile { x: 4, y: 4 }], priority: Priority::Medium, output_directions: None },
        Command::ConfigureBlueprints { blueprint_ids: vec![drafted], settings: settings(vec![]) },
    ];
    assert!(check(turret_empty).is_ok());
    assert!(check(vec![Command::CancelBlueprints { blueprint_ids: vec![bp] }]).is_ok());
    assert!(check(vec![Command::CancelBlueprints { blueprint_ids: vec![drafted] }]).is_err());
}

#[test]
fn production_edits_need_owned_factories() {
    let edit = |id| Command::EditProduction { factories: vec![id], edit: ProductionEdit::CancelActive {} };
    assert!(check(vec![edit(genesis(0, 2).unwrap())]).is_ok());
    assert!(check(vec![edit(genesis(0, 0).unwrap())]).is_err());
    assert!(check(vec![Command::SetQueueLoop { factories: vec![genesis(0, 2).unwrap()], enabled: true }]).is_ok());
    assert!(check(vec![Command::SetStoredOrder { factories: vec![genesis(0, 1).unwrap()], order: Order::Idle {} }]).is_err());
}
