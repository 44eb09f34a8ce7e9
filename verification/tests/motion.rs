use atemporal::fields::{FieldCache, Holder, MoveState, Neighbors, StepGrid};
use atemporal::map::TerrainCell;
use atemporal::motion::{resolve_motion, Intent, MoveEvent, Movement, Mover};
use atemporal::types::{BirthCommandId, CommandId, Direction, EntityId, Tile};

fn open_grid(width: u16, height: u16, units: &[Tile]) -> StepGrid {
    let n = width as usize * height as usize;
    let mut holders = vec![Holder::Free; n];
    for u in units {
        holders[u.y as usize * width as usize + u.x as usize] = Holder::Mobile;
    }
    StepGrid { width, height, cells: vec![TerrainCell::Floor; n], holders }
}

fn t(x: u16, y: u16) -> Tile {
    Tile { x, y }
}

fn unit(index: u32, team: u8, at: Tile) -> Mover {
    Mover {
        id: EntityId {
            birth_command: BirthCommandId { command: CommandId { round: 1, player: team, index }, target_index: 0 },
            item_index: 0,
            occurrence: 0,
        },
        team,
        complete: true,
        movement: Some(Movement { neighbors: Neighbors::Four, cooldown: 2 }),
        born_at_tick: None,
        acted: false,
        goal_settled: false,
        state: MoveState {
            tile: at,
            last_move_direction: Direction::N,
            next_move_tick: 0,
            failed_move_attempts: 0,
            blocked_step: None,
            resolved_destination: None,
            local_detour: vec![],
        },
    }
}

fn go(goal: Tile) -> Intent {
    Intent { hold: false, goal: Some(goal) }
}

fn holder(g: &StepGrid, x: u16, y: u16) -> Holder {
    g.holders[y as usize * g.width as usize + x as usize]
}

#[test]
fn unit_steps_down_its_field() {
    let mut g = open_grid(5, 1, &[t(0, 0)]);
    let mut cache = FieldCache::new();
    let mut movers = vec![unit(0, 0, t(0, 0))];
    let moves = resolve_motion(&mut g, &mut cache, 0, &mut movers, &vec![go(t(4, 0))], 5, 11);
    assert_eq!(moves, vec![MoveEvent::Stepped { mover: 0, from: t(0, 0), to: t(1, 0) }]);
    let m = &movers[0];
    assert_eq!(m.state.tile, t(1, 0));
    assert_eq!(m.state.last_move_direction, Direction::E);
    assert_eq!(m.state.next_move_tick, 7);
    assert_eq!(m.state.resolved_destination, Some(t(4, 0)));
    assert!(!m.goal_settled);
    assert_eq!(holder(&g, 0, 0), Holder::Free);
    assert_eq!(holder(&g, 1, 0), Holder::Mobile);
}

#[test]
fn unit_on_cooldown_or_holding_does_not_move() {
    let mut g = open_grid(5, 1, &[t(0, 0)]);
    let mut cache = FieldCache::new();
    let mut resting = unit(0, 0, t(0, 0));
    resting.state.next_move_tick = 9;
    let mut movers = vec![resting];
    let moves = resolve_motion(&mut g, &mut cache, 0, &mut movers, &vec![go(t(4, 0))], 5, 11);
    assert!(moves.is_empty());
    assert_eq!(movers[0].state.tile, t(0, 0));
    assert_eq!(movers[0].state.resolved_destination, Some(t(4, 0)), "the destination is still taken");
    let mut movers = vec![unit(0, 0, t(0, 0))];
    let moves = resolve_motion(&mut g, &mut cache, 0, &mut movers, &vec![Intent { hold: true, goal: Some(t(4, 0)) }], 5, 11);
    assert!(moves.is_empty());
    assert_eq!(movers[0].state.resolved_destination, None);
}

#[test]
fn unit_at_its_goal_settles() {
    let mut g = open_grid(5, 1, &[t(2, 0)]);
    let mut cache = FieldCache::new();
    let mut movers = vec![unit(0, 0, t(2, 0))];
    let moves = resolve_motion(&mut g, &mut cache, 0, &mut movers, &vec![go(t(2, 0))], 5, 11);
    assert!(moves.is_empty());
    assert!(movers[0].goal_settled);
    assert_eq!(movers[0].state.tile, t(2, 0));
}

#[test]
fn friendly_blocker_steps_aside() {
    let mut g = open_grid(3, 3, &[t(0, 1), t(1, 1)]);
    let mut cache = FieldCache::new();
    let mut movers = vec![unit(0, 0, t(0, 1)), unit(1, 0, t(1, 1))];
    let moves = resolve_motion(&mut g, &mut cache, 0, &mut movers, &vec![go(t(2, 1))], 5, 11);
    assert_eq!(moves.len(), 1);
    let bt = match moves[0] {
        MoveEvent::Displaced { mover: 0, from, to, blocker: 1, blocker_to } => {
            assert_eq!((from, to), (t(0, 1), t(1, 1)));
            blocker_to
        },
        other => panic!("expected a displacement, got {:?}", other),
    };
    assert!([t(1, 0), t(2, 1), t(1, 2)].contains(&bt), "a free edge neighbor other than the mover's cell");
    assert_eq!(movers[0].state.tile, t(1, 1));
    assert_eq!(movers[1].state.tile, bt);
    assert_eq!(movers[1].state.next_move_tick, 7);
    assert_eq!(holder(&g, 0, 1), Holder::Free);
    assert_eq!(holder(&g, 1, 1), Holder::Mobile);
    assert_eq!(holder(&g, bt.x, bt.y), Holder::Mobile);
}

#[test]
fn hostile_blocker_refuses_the_step() {
    let mut g = open_grid(3, 3, &[t(0, 1), t(1, 1)]);
    let mut cache = FieldCache::new();
    let mut movers = vec![unit(0, 0, t(0, 1)), unit(1, 1, t(1, 1))];
    let moves = resolve_motion(&mut g, &mut cache, 0, &mut movers, &vec![go(t(2, 1))], 5, 11);
    assert_eq!(moves, vec![MoveEvent::Refused { mover: 0, to: t(1, 1) }]);
    let m = &movers[0];
    assert_eq!(m.state.tile, t(0, 1));
    assert_eq!(m.state.blocked_step, Some(t(1, 1)));
    assert_eq!(m.state.failed_move_attempts, 1);
    assert_eq!(m.state.next_move_tick, 6);
    assert_eq!(movers[1].state.tile, t(1, 1));
}

#[test]
fn two_units_never_share_the_cell_they_both_want() {
    let mut g = open_grid(3, 1, &[t(0, 0), t(2, 0)]);
    let mut cache = FieldCache::new();
    let mut movers = vec![unit(0, 0, t(0, 0)), unit(1, 0, t(2, 0))];
    let moves = resolve_motion(&mut g, &mut cache, 0, &mut movers, &vec![go(t(1, 0)), go(t(1, 0))], 5, 11);
    assert_eq!(moves.len(), 2);
    let stepped = moves.iter().filter(|e| matches!(e, MoveEvent::Stepped { .. })).count();
    let refused = moves.iter().filter(|e| matches!(e, MoveEvent::Refused { .. })).count();
    assert_eq!((stepped, refused), (1, 1), "the second finds the cell taken by a unit that already moved");
    assert_ne!(movers[0].state.tile, movers[1].state.tile);
    assert!(movers.iter().any(|m| m.state.tile == t(1, 0)));
}

#[test]
fn crossing_diagonal_steps_are_refused() {
    let mut g = open_grid(2, 2, &[t(0, 0), t(1, 0)]);
    let mut cache = FieldCache::new();
    let mut a = unit(0, 0, t(0, 0));
    let mut b = unit(1, 0, t(1, 0));
    a.movement = Some(Movement { neighbors: Neighbors::Eight, cooldown: 1 });
    b.movement = Some(Movement { neighbors: Neighbors::Eight, cooldown: 1 });
    let mut movers = vec![a, b];
    let moves = resolve_motion(&mut g, &mut cache, 0, &mut movers, &vec![go(t(1, 1)), go(t(0, 1))], 5, 11);
    assert_eq!(moves.len(), 2);
    let stepped: Vec<_> = moves.iter().filter(|e| matches!(e, MoveEvent::Stepped { .. })).collect();
    assert_eq!(stepped.len(), 1, "the second diagonal would cross the first");
    assert!(moves.iter().any(|e| matches!(e, MoveEvent::Refused { .. })));
    assert!(
        (movers[0].state.tile == t(1, 1) && movers[1].state.tile == t(1, 0))
            || (movers[0].state.tile == t(0, 0) && movers[1].state.tile == t(0, 1))
    );
}
