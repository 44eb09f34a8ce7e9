use atemporal::fields::{entity_rank, hash, FieldCache, Holder, MoveState, Neighbors, StepGrid, UNREACHABLE};
use atemporal::map::TerrainCell;
use atemporal::orders::PlannedBlueprint;
use atemporal::types::{BirthCommandId, CommandId, Direction, EntityId, EventKey, Priority, Rect, Tile};

/// Parses rows of `.` (floor), `#` (rock), `S` (structure), `R` (reserved) and `u` (unit).
fn grid(rows: &[&str]) -> StepGrid {
    let height = rows.len() as u16;
    let width = rows[0].len() as u16;
    let mut cells = vec![];
    let mut holders = vec![];
    for row in rows {
        for c in row.chars() {
            cells.push(if c == '#' { TerrainCell::Wall } else { TerrainCell::Floor });
            holders.push(match c {
                'S' => Holder::Fixed,
                'R' => Holder::Reserved,
                'u' => Holder::Mobile,
                _ => Holder::Free,
            });
        }
    }
    StepGrid { width, height, cells, holders }
}

fn t(x: u16, y: u16) -> Tile {
    Tile { x, y }
}

fn at(g: &StepGrid, f: &[u16], x: u16, y: u16) -> u16 {
    f[y as usize * g.width as usize + x as usize]
}

#[test]
fn steps_respect_rock_structures_claims_and_corners() {
    let g = grid(&["..#", ".S.", "u.R"]);
    assert!(g.traversable(t(0, 2)), "units do not block");
    assert!(!g.traversable(t(1, 1)) && !g.traversable(t(2, 2)) && !g.traversable(t(2, 0)));
    assert_eq!(g.step_legal(t(0, 0), 1, 0, Neighbors::Four), Some(t(1, 0)));
    assert_eq!(g.step_legal(t(1, 0), 1, 0, Neighbors::Eight), None, "rock");
    assert_eq!(g.step_legal(t(0, 0), -1, 0, Neighbors::Eight), None, "off the map");
    assert_eq!(g.step_legal(t(0, 1), 1, 1, Neighbors::Four), None, "no diagonals under four");
    assert_eq!(g.step_legal(t(0, 1), 1, 1, Neighbors::Eight), None, "corner cut past the structure");
    assert_eq!(g.step_legal(t(1, 2), -1, -1, Neighbors::Eight), None);
    let open = grid(&["...", "...", "..."]);
    assert_eq!(open.step_legal(t(0, 0), 1, 1, Neighbors::Eight), Some(t(1, 1)));
}

#[test]
fn field_counts_steps_around_obstacles() {
    let g = grid(&[".....", ".###.", ".....", "S...."]);
    let f = g.build_field(t(0, 0), Neighbors::Four);
    assert_eq!(at(&g, &f, 0, 0), 0);
    assert_eq!(at(&g, &f, 4, 0), 4);
    assert_eq!(at(&g, &f, 2, 2), 4);
    assert_eq!(at(&g, &f, 4, 3), 7);
    assert_eq!(at(&g, &f, 2, 1), UNREACHABLE, "rock");
    assert_eq!(at(&g, &f, 0, 3), UNREACHABLE, "structure");
    let f8 = g.build_field(t(0, 0), Neighbors::Eight);
    assert_eq!(at(&g, &f8, 4, 3), 6);
    assert_eq!(at(&g, &f8, 2, 3), 4);
    assert_eq!(at(&g, &f8, 1, 3), 4, "the corner past the structure is not cut");
    assert_eq!(at(&g, &f8, 1, 2), 3, "nor the corner past the rock");
}

#[test]
fn a_blocked_goal_seeds_its_reachable_neighbors() {
    let g = grid(&["...", ".S.", "..."]);
    let f = g.build_field(t(1, 1), Neighbors::Four);
    for (x, y) in [(1, 0), (0, 1), (2, 1), (1, 2)] {
        assert_eq!(at(&g, &f, x, y), 0);
    }
    assert_eq!(at(&g, &f, 0, 0), 1);
    assert_eq!(at(&g, &f, 1, 1), UNREACHABLE);
    let f8 = g.build_field(t(1, 1), Neighbors::Eight);
    assert_eq!(at(&g, &f8, 0, 0), 1, "a diagonal neighbor whose way in cuts the structure is no seed");
    let walled = grid(&["#.#", "#S#", "###"]);
    let f = walled.build_field(t(1, 1), Neighbors::Eight);
    assert_eq!(at(&walled, &f, 1, 0), 0);
    assert_eq!(at(&walled, &f, 0, 0), UNREACHABLE);
}

#[test]
fn descent_takes_the_lowest_neighbor_first_in_fixed_order() {
    let g = grid(&["...", "...", "..."]);
    let f = g.build_field(t(1, 1), Neighbors::Eight);
    assert_eq!(g.descend(&f, t(0, 0), Neighbors::Eight), Some((t(1, 1), Direction::Se)));
    assert_eq!(g.descend(&f, t(1, 1), Neighbors::Eight), None, "at the goal");
    let f4 = g.build_field(t(1, 1), Neighbors::Four);
    assert_eq!(g.descend(&f4, t(0, 0), Neighbors::Four), Some((t(1, 0), Direction::E)), "east before south");
    assert_eq!(g.descend(&f4, t(2, 2), Neighbors::Four), Some((t(2, 1), Direction::N)), "north before west");
    let mut pit = vec![5u16; 9];
    pit[4] = 5;
    assert_eq!(g.descend(&pit, t(1, 1), Neighbors::Eight), None, "nothing lower");
    let unreached = vec![UNREACHABLE; 9];
    assert_eq!(g.descend(&unreached, t(1, 1), Neighbors::Eight), None);
}

#[test]
fn line_of_sight_is_blocked_by_rock_only_and_symmetric() {
    let g = grid(&[".....", "..#..", ".....", "..S.."]);
    assert!(!g.line_of_sight(t(0, 1), t(4, 1)));
    assert!(!g.line_of_sight(t(4, 1), t(0, 1)));
    assert!(g.line_of_sight(t(0, 3), t(4, 3)), "structures do not block fire");
    assert!(g.line_of_sight(t(0, 0), t(4, 0)));
    assert!(g.line_of_sight(t(2, 1), t(2, 1)));
    assert!(g.line_of_sight(t(2, 0), t(2, 1)), "the end cell itself does not block");
    for a in [t(0, 0), t(1, 3), t(4, 2), t(3, 0)] {
        for b in [t(0, 2), t(4, 0), t(2, 3), t(1, 1)] {
            assert_eq!(g.line_of_sight(a, b), g.line_of_sight(b, a));
        }
    }
}

fn reference_hash(seed: u64, values: [u64; 3]) -> u64 {
    let mut h = seed ^ 0x9E37_79B9_7F4A_7C15;
    for v in values {
        h ^= v.wrapping_add(0x9E37_79B9_7F4A_7C15);
        h = h.wrapping_mul(0xBF58_476D_1CE4_E5B9);
        h ^= h >> 31;
    }
    h
}

#[test]
fn hash_and_rank_fold_seed_tick_and_identity() {
    assert_eq!(hash(7, 1, 2, 3), reference_hash(7, [1, 2, 3]));
    assert_ne!(hash(7, 1, 2, 3), hash(8, 1, 2, 3));
    let id = EntityId {
        birth_command: BirthCommandId { command: CommandId { round: 3, player: 1, index: 5 }, target_index: 2 },
        item_index: 4,
        occurrence: 9,
    };
    let a = (3u64 << 32) | (1u64 << 24) | 5;
    let b = (2u64 << 48) | (4u64 << 32) | 9;
    assert_eq!(entity_rank(42, 10, &id), reference_hash(42, [10, a, b]));
    assert_ne!(entity_rank(42, 10, &id), entity_rank(42, 11, &id));
}

fn adjacent(a: Tile, b: Tile) -> bool {
    let dx = (a.x as i32 - b.x as i32).abs();
    let dy = (a.y as i32 - b.y as i32).abs();
    dx + dy == 1
}

#[test]
fn detour_walks_around_units_to_the_lowest_reachable_cell() {
    let g = grid(&[".....", ".uu..", "....."]);
    let f = g.build_field(t(4, 1), Neighbors::Four);
    assert_eq!(at(&g, &f, 0, 1), 4, "units do not shape the field");
    let path = g.local_detour(&f, t(0, 1), Neighbors::Four);
    assert_eq!(path.len(), 6);
    assert_eq!(*path.last().unwrap(), t(4, 1), "the goal itself is lowest");
    let mut prev = t(0, 1);
    for step in &path {
        assert!(adjacent(prev, *step));
        assert!(*step != t(1, 1) && *step != t(2, 1), "occupied cells are avoided");
        prev = *step;
    }
}

#[test]
fn detour_prefers_lower_then_nearer_then_smaller_tiles() {
    // Two cells tie on the field one step away; the smaller column wins.
    let g = grid(&["...", ".u.", "..."]);
    let f = vec![9, 9, 9, 1, 5, 1, 9, 9, 9];
    let path = g.local_detour(&f, t(1, 1), Neighbors::Four);
    assert_eq!(path, vec![t(0, 1)]);
    let f = vec![9, 2, 9, 3, 5, 3, 9, 9, 9];
    assert_eq!(g.local_detour(&f, t(1, 1), Neighbors::Four), vec![t(1, 0)], "lower first");
}

#[test]
fn detour_is_empty_at_the_goal_off_the_field_or_when_nothing_is_lower() {
    let g = grid(&["...", "...", "..."]);
    let f = g.build_field(t(1, 1), Neighbors::Eight);
    assert!(g.local_detour(&f, t(1, 1), Neighbors::Eight).is_empty(), "at the goal");
    let flat = vec![4u16; 9];
    assert!(g.local_detour(&flat, t(0, 0), Neighbors::Eight).is_empty(), "nothing lower");
    let unreached = vec![UNREACHABLE; 9];
    assert!(g.local_detour(&unreached, t(0, 0), Neighbors::Eight).is_empty());
    let boxed = grid(&["u#.", "#..", "..."]);
    let f = boxed.build_field(t(2, 2), Neighbors::Eight);
    assert!(boxed.local_detour(&f, t(0, 0), Neighbors::Eight).is_empty(), "no free cell to enter");
}

#[test]
fn detour_stays_within_six_cells() {
    let row = ".".repeat(12);
    let g = grid(&[&row]);
    let mut f = vec![50u16; 12];
    f[11] = 0;
    f[7] = 40;
    assert!(g.local_detour(&f, t(0, 0), Neighbors::Four).is_empty(), "the lower cells lie beyond the radius");
    f[6] = 45;
    let path = g.local_detour(&f, t(0, 0), Neighbors::Four);
    assert_eq!(path, (1..=6).map(|x| t(x, 0)).collect::<Vec<_>>());
}

#[test]
fn the_cache_answers_the_built_field_until_the_version_moves() {
    let g = grid(&["....", ".#..", "...."]);
    let mut cache = FieldCache::new();
    let first = cache.field(&g, 1, t(3, 2), Neighbors::Eight);
    assert_eq!(*first, g.build_field(t(3, 2), Neighbors::Eight));
    assert_eq!(cache.fields.len(), 1);
    let again = cache.field(&g, 1, t(3, 2), Neighbors::Eight);
    assert!(std::rc::Rc::ptr_eq(&first, &again), "kept, not rebuilt");
    let four = cache.field(&g, 1, t(3, 2), Neighbors::Four);
    assert_eq!(*four, g.build_field(t(3, 2), Neighbors::Four));
    assert_eq!(cache.fields.len(), 2, "the rule is part of the key");
    let walled = grid(&["....", ".#..", "..#."]);
    let moved = cache.field(&walled, 2, t(3, 2), Neighbors::Eight);
    assert_eq!(cache.version, 2);
    assert_eq!(cache.fields.len(), 1, "a new version starts over");
    assert_eq!(*moved, walled.build_field(t(3, 2), Neighbors::Eight));
}

#[test]
fn the_cache_starts_over_at_capacity() {
    let row = ".".repeat(300);
    let g = grid(&[&row]);
    let mut cache = FieldCache::new();
    for x in 0..256u16 {
        cache.field(&g, 0, t(x, 0), Neighbors::Four);
    }
    assert_eq!(cache.fields.len(), 256);
    let f = cache.field(&g, 0, t(299, 0), Neighbors::Four);
    assert_eq!(cache.fields.len(), 1);
    assert_eq!(f[0], 299);
}

fn eid(round: u32, index: u32) -> EntityId {
    EntityId {
        birth_command: BirthCommandId { command: CommandId { round, player: 0, index }, target_index: 0 },
        item_index: 0,
        occurrence: 0,
    }
}

fn plan(id: EntityId, owner: u8, tile: Tile, tick: u32, started: bool) -> PlannedBlueprint {
    PlannedBlueprint {
        id,
        owner,
        type_key: "wall".to_string(),
        tile,
        priority: Priority::Medium,
        source_command_id: id.birth_command.command,
        precedence: EventKey { tick, round: id.birth_command.command.round, player_rank: 0, command_index: 0 },
        site_id: if started { Some(id) } else { None },
        settings: None,
        settings_command: None,
        output_direction: None,
    }
}

#[test]
fn constructors_take_the_oldest_workable_blueprint_in_their_area() {
    let g = grid(&[".....", ".#u..", ".....", "....#"]);
    let area = Rect { min: t(0, 0), max: t(4, 2) };
    let mut cache = FieldCache::new();
    let pick = |bps: &Vec<PlannedBlueprint>, cache: &mut FieldCache| {
        g.choose_blueprint(cache, 0, 0, t(0, 0), Neighbors::Eight, &area, bps)
    };
    let bps = vec![
        plan(eid(2, 0), 0, t(4, 0), 5, false),
        plan(eid(1, 0), 0, t(3, 2), 5, false),
        plan(eid(0, 0), 1, t(1, 0), 1, false),
        plan(eid(0, 1), 0, t(4, 3), 0, false),
    ];
    assert_eq!(pick(&bps, &mut cache), Some(1), "same tick: the earlier round; another owner's and one outside the area do not count");
    let occupied = vec![plan(eid(0, 0), 0, t(2, 1), 0, false), plan(eid(5, 0), 0, t(4, 0), 9, false)];
    assert_eq!(pick(&occupied, &mut cache), Some(1), "a unit stands on the older one's tile");
    let started = vec![plan(eid(0, 0), 0, t(2, 1), 0, true)];
    assert_eq!(pick(&started, &mut cache), Some(0), "a started site is worked whoever stands there");
    let adjacent = vec![plan(eid(0, 0), 0, t(1, 1), 0, true)];
    assert_eq!(pick(&adjacent, &mut cache), Some(0), "next to it, even on rock");
    let walled = grid(&["..#..", "..#..", "..#.."]);
    let far = vec![plan(eid(0, 0), 0, t(4, 1), 0, false)];
    assert_eq!(walled.choose_blueprint(&mut FieldCache::new(), 0, 0, t(0, 0), Neighbors::Four, &area, &far), None, "unreachable");
}

#[test]
fn miners_head_for_the_nearest_walkable_ore_in_their_area() {
    let g = grid(&[".....", "..S..", "....."]);
    let mut ore = vec![false; 15];
    let area = Rect { min: t(0, 0), max: t(4, 2) };
    assert_eq!(g.nearest_ore(&ore, t(0, 0), &area), None);
    ore[7] = true; // (2, 1): under a structure
    assert_eq!(g.nearest_ore(&ore, t(0, 0), &area), None, "not walkable");
    ore[4] = true; // (4, 0): distance² 16
    ore[12] = true; // (2, 2): distance² 8
    assert_eq!(g.nearest_ore(&ore, t(0, 0), &area), Some(t(2, 2)));
    ore[10] = true; // (0, 2): distance² 4
    ore[2] = true; // (2, 0): distance² 4, larger column
    assert_eq!(g.nearest_ore(&ore, t(0, 0), &area), Some(t(0, 2)), "ties go to the smaller column");
    let right = Rect { min: t(3, 0), max: t(9, 9) };
    assert_eq!(g.nearest_ore(&ore, t(0, 0), &right), Some(t(4, 0)), "only inside the area, clipped to the map");
    let outside = Rect { min: t(7, 7), max: t(9, 9) };
    assert_eq!(g.nearest_ore(&ore, t(0, 0), &outside), None);
}

#[test]
fn descent_never_cuts_a_rock_corner() {
    let g = grid(&["......", "..#...", "......", "......", "......", "......"]);
    let f = g.build_field(t(2, 2), Neighbors::Eight);
    assert_eq!(g.descend(&f, t(1, 1), Neighbors::Eight), Some((t(1, 2), Direction::S)), "rock at (2,1) forbids the diagonal");
    let open = grid(&["......", "......", "......", "......", "......", "......"]);
    let f = open.build_field(t(2, 2), Neighbors::Eight);
    assert_eq!(open.descend(&f, t(1, 1), Neighbors::Eight), Some((t(2, 2), Direction::Se)), "free corner: one diagonal step");
}

#[test]
fn a_structure_goal_is_approached_from_its_side_and_never_entered() {
    let g = grid(&["........", "........", ".....S..", "........"]);
    let f = g.build_field(t(5, 2), Neighbors::Four);
    let mut at_tile = t(1, 2);
    let mut steps = 0;
    while let Some((next, _)) = g.descend(&f, at_tile, Neighbors::Four) {
        assert_ne!(next, t(5, 2));
        at_tile = next;
        steps += 1;
    }
    assert_eq!((at_tile, steps), (t(4, 2), 3));
    assert_eq!(at(&g, &f, 5, 2), UNREACHABLE);
}

#[test]
fn detour_takes_a_necessary_uphill_first_step() {
    let g = grid(&["##############", "###.......####", "###.#####.####", "#....uu......#", "##############"]);
    let f = g.build_field(t(12, 3), Neighbors::Four);
    let path = g.local_detour(&f, t(5, 3), Neighbors::Four);
    let expected: Vec<Tile> = [(4, 3), (3, 3), (3, 2), (3, 1), (4, 1), (5, 1), (6, 1), (7, 1), (8, 1), (9, 1), (9, 2), (9, 3), (10, 3), (11, 3)]
        .iter()
        .map(|&(x, y)| t(x, y))
        .collect();
    assert_eq!(path.first(), Some(&t(4, 3)), "necessary uphill first step");
    assert_eq!(path.last(), Some(&t(11, 3)), "lowest reachable field distance in radius 6");
    assert_eq!(path, expected);
}

fn mover(x: u16, y: u16, goal: Option<Tile>) -> MoveState {
    MoveState {
        tile: t(x, y),
        last_move_direction: Direction::N,
        next_move_tick: 0,
        failed_move_attempts: 0,
        blocked_step: None,
        resolved_destination: goal,
        local_detour: vec![],
    }
}

#[test]
fn a_committed_move_updates_occupancy_facing_and_detour() {
    let mut g = grid(&["u..", "...", "..."]);
    let mut m = mover(0, 0, Some(t(2, 2)));
    m.failed_move_attempts = 2;
    m.blocked_step = Some(t(1, 0));
    m.local_detour = vec![t(1, 1), t(2, 1)];
    g.commit_move(&mut m, t(1, 1), Direction::Se, 10, 3);
    assert_eq!(g.holders[0], Holder::Free);
    assert_eq!(g.holders[4], Holder::Mobile);
    assert_eq!((m.tile, m.last_move_direction, m.next_move_tick), (t(1, 1), Direction::Se, 13));
    assert_eq!((m.failed_move_attempts, m.blocked_step), (0, None));
    assert_eq!(m.local_detour, vec![t(2, 1)], "the detour step taken is dropped");
    g.commit_move(&mut m, t(1, 2), Direction::S, 13, 3);
    assert_eq!(m.local_detour, vec![t(2, 1)], "a step off the detour keeps it");
}

#[test]
fn the_third_failed_move_looks_for_a_detour() {
    let g = grid(&[".....", "uu...", "....."]);
    let mut cache = FieldCache::new();
    let mut m = mover(0, 1, Some(t(4, 1)));
    g.fail_move(&mut cache, 0, &mut m, t(1, 1), 7, Neighbors::Four);
    assert_eq!((m.failed_move_attempts, m.blocked_step, m.next_move_tick), (1, Some(t(1, 1)), 8));
    g.fail_move(&mut cache, 0, &mut m, t(1, 1), 8, Neighbors::Four);
    assert!(m.local_detour.is_empty());
    g.fail_move(&mut cache, 0, &mut m, t(1, 1), 9, Neighbors::Four);
    assert_eq!(m.failed_move_attempts, 0);
    assert_eq!(m.local_detour.last(), Some(&t(4, 1)));
    assert_eq!(m.local_detour.len(), 6);
    let mut idle = mover(0, 1, None);
    idle.failed_move_attempts = u32::MAX;
    g.fail_move(&mut cache, 0, &mut idle, t(1, 1), 9, Neighbors::Four);
    assert_eq!(idle.failed_move_attempts, u32::MAX, "no destination, no detour; the count saturates");
}
