use atemporal::cave::{smooth, smooth_pass};
use atemporal::distance::{floor_distance, wall_distance};
use atemporal::map::{start_turns, starts, symmetry_turns, Grid, Start, TerrainCell};
use atemporal::ore::ore_tiles;
use atemporal::terrain::assemble_terrain;
use atemporal::types::{Direction, Tile};

fn roster() -> Vec<String> {
    vec!["constructor".to_string(), "miner".to_string(), "turret".to_string()]
}

#[test]
fn starts_are_rotations_of_the_first_layout() {
    let s = starts(32, 4, &roster()).unwrap();
    assert_eq!(s.len(), 4);
    assert_eq!(s[0].anchor, Tile { x: 4, y: 4 });
    assert_eq!(s[1].anchor, Tile { x: 27, y: 4 });
    assert_eq!(s[2].anchor, Tile { x: 27, y: 27 });
    assert_eq!(s[3].anchor, Tile { x: 4, y: 27 });
    assert_eq!(s[0].entities[0], ("constructor".to_string(), Tile { x: 4, y: 7 }, Direction::Se));
    assert_eq!(s[1].entities[0], ("constructor".to_string(), Tile { x: 24, y: 4 }, Direction::Sw));
    let two = starts(16, 2, &roster()).unwrap();
    assert_eq!(two[1].anchor, Tile { x: 11, y: 11 });
    assert_eq!(two[1].entities[2].2, Direction::Nw);
    assert_eq!(starts(16, 3, &roster()).unwrap()[2].anchor, Tile { x: 11, y: 4 });
    assert!(starts(15, 2, &roster()).is_err());
    let mut long = roster();
    long.push("extra".to_string());
    assert!(starts(16, 2, &long).is_err());
}

#[test]
fn turn_tables_follow_player_counts() {
    assert_eq!(start_turns(2), vec![0, 2]);
    assert_eq!(start_turns(3), vec![0, 2, 1]);
    assert_eq!(start_turns(4), vec![0, 1, 2, 3]);
    assert_eq!(symmetry_turns(false, 4), vec![0]);
    assert_eq!(symmetry_turns(true, 4), vec![0, 1, 2, 3]);
    assert_eq!(symmetry_turns(true, 2), vec![0, 2]);
}

#[test]
fn floor_distance_is_chebyshev_to_nearest_floor() {
    let size: u16 = 5;
    let mut floor = vec![false; 25];
    floor[0] = true;
    floor[24] = true;
    let d = floor_distance(&floor, size);
    assert_eq!(d[0], 0);
    assert_eq!(d[24], 0);
    assert_eq!(d[2 * 5 + 2], 2);
    assert_eq!(d[4], 4);
    assert_eq!(d[1 * 5 + 3], 3);
    let none = floor_distance(&vec![false; 25], size);
    assert!(none.iter().all(|v| *v == u16::MAX));
}

#[test]
fn wall_distance_counts_from_walls() {
    let size: u16 = 7;
    let mut cells = vec![TerrainCell::Floor; 49];
    for i in 0..7 {
        cells[i] = TerrainCell::Wall;
        cells[42 + i] = TerrainCell::Wall;
        cells[i * 7] = TerrainCell::Wall;
        cells[i * 7 + 6] = TerrainCell::Wall;
    }
    let g = Grid { size, cells };
    let d = wall_distance(&g);
    assert_eq!(d[0], 0);
    assert_eq!(d[1 * 7 + 1], 1);
    assert_eq!(d[2 * 7 + 3], 2);
    assert_eq!(d[3 * 7 + 3], 3);
}

#[test]
fn components_follow_edge_neighbors_only() {
    let size: u16 = 4;
    let f = TerrainCell::Floor;
    let w = TerrainCell::Wall;
    let cells = vec![f, f, w, f, w, f, w, f, w, w, f, w, f, w, w, w];
    let g = Grid { size, cells };
    let seen = g.component(Tile { x: 0, y: 0 });
    assert_eq!(seen.iter().filter(|s| **s).count(), 3);
    assert!(seen[0] && seen[1] && seen[5]);
    assert!(!seen[10]);
    let wall = g.component(Tile { x: 2, y: 0 });
    assert!(wall.iter().all(|s| !*s));
}

#[test]
fn smoothing_opens_cells_with_five_open_neighbors() {
    let size: u16 = 3;
    let mut floor = vec![true; 9];
    floor[0] = false;
    let once = smooth_pass(&floor, size);
    assert!(once[4]);
    assert!(!once[0]);
    assert!(once[8] == false);
    let many = smooth(floor, size);
    assert_eq!(many.len(), 9);
}

fn open_field(size: u16) -> Vec<bool> {
    vec![true; (size as usize) * (size as usize)]
}

#[test]
fn assembled_terrain_is_walled_connected_and_keeps_starts() {
    let size: u16 = 16;
    let s = starts(size, 2, &roster()).unwrap();
    let turns = symmetry_turns(true, 2);
    // two open rooms separated by rock: the corridor must join them
    let mut field = vec![false; 256];
    for y in 2..7 {
        for x in 2..7 {
            field[y * 16 + x] = true;
            field[(15 - y) * 16 + (15 - x)] = true;
        }
    }
    let t = assemble_terrain(size, &turns, &field, &s).unwrap();
    assert_eq!(t.width, 16);
    assert_eq!(t.cells.len(), 256);
    for i in 0..16 {
        assert_eq!(t.cells[i], TerrainCell::Wall);
        assert_eq!(t.cells[i * 16], TerrainCell::Wall);
    }
    let g = Grid { size, cells: t.cells.clone() };
    let main = g.component(s[0].anchor);
    for (i, c) in t.cells.iter().enumerate() {
        assert_eq!(*c == TerrainCell::Floor, main[i]);
    }
    assert_eq!(t.cells[11 * 16 + 11], TerrainCell::Floor);
    // symmetric under the half turn
    for y in 0..16usize {
        for x in 0..16usize {
            assert_eq!(t.cells[y * 16 + x], t.cells[(15 - y) * 16 + (15 - x)]);
        }
    }
    let open = assemble_terrain(size, &turns, &open_field(size), &s).unwrap();
    assert_eq!(open.cells.iter().filter(|c| **c == TerrainCell::Floor).count(), 14 * 14);
}

#[test]
fn assembling_the_same_field_twice_gives_the_same_terrain() {
    let size: u16 = 16;
    let s = starts(size, 2, &roster()).unwrap();
    let turns = symmetry_turns(true, 2);
    let mut field = vec![false; 256];
    for y in 3..6 {
        for x in 9..13 {
            field[y * 16 + x] = true;
        }
    }
    let a = assemble_terrain(size, &turns, &field, &s).unwrap();
    let b = assemble_terrain(size, &turns, &field, &s).unwrap();
    assert_eq!(a.cells, b.cells);
    assert_eq!((a.width, a.height), (b.width, b.height));
}

#[test]
fn starts_on_the_border_are_refused() {
    let s = vec![Start { anchor: Tile { x: 0, y: 5 }, entities: vec![] }];
    assert!(assemble_terrain(16, &vec![0], &open_field(16), &s).is_err());
}

#[test]
fn ore_lies_near_walls_away_from_starts_and_comes_in_turned_copies() {
    let size: u16 = 32;
    let s = starts(size, 2, &roster()).unwrap();
    let turns = symmetry_turns(true, 2);
    let t = assemble_terrain(size, &turns, &open_field(size), &s).unwrap();
    let tiles = ore_tiles(7, true, 2, &t, &s);
    assert!(!tiles.is_empty());
    let g = Grid { size, cells: t.cells.clone() };
    let d = wall_distance(&g);
    for tile in &tiles {
        let i = tile.y as usize * 32 + tile.x as usize;
        assert!(d[i] == 1 || d[i] == 2);
        for st in &s {
            assert!(atemporal::geometry::chebyshev(st.anchor, *tile) > 4);
        }
        let mirror = Tile { x: 31 - tile.x, y: 31 - tile.y };
        assert!(tiles.contains(&mirror));
    }
    assert_eq!(ore_tiles(7, true, 2, &t, &s), tiles);
}

#[test]
fn ore_on_an_asymmetric_map_needs_no_start() {
    let size: u16 = 32;
    let s = starts(size, 2, &roster()).unwrap();
    let turns = symmetry_turns(false, 2);
    let t = assemble_terrain(size, &turns, &open_field(size), &s).unwrap();
    let tiles = ore_tiles(7, false, 2, &t, &vec![]);
    let g = Grid { size, cells: t.cells.clone() };
    let d = wall_distance(&g);
    for tile in &tiles {
        let i = tile.y as usize * 32 + tile.x as usize;
        assert!(d[i] == 1 || d[i] == 2);
    }
    assert_eq!(ore_tiles(7, false, 2, &t, &vec![]), tiles);
}

fn rows_grid(rows: &[&str]) -> Grid {
    let size = rows.len() as u16;
    let mut cells = vec![];
    for row in rows {
        for c in row.chars() {
            cells.push(if c == '.' { TerrainCell::Floor } else { TerrainCell::Wall });
        }
    }
    Grid { size, cells }
}

#[test]
fn corridor_starts_at_the_nearest_disconnected_cell_and_is_shortest() {
    // The cavern is the left column block; two pockets: one three steps away, one two.
    let g = rows_grid(&[
        "#######",
        "#.#.###",
        "#.####.",
        "#.##.##",
        "#######",
        "#######",
        "#######",
    ]);
    let main = g.component(Tile { x: 1, y: 1 });
    let path = g.corridor_to(&main).unwrap();
    assert_eq!(path[0], Tile { x: 3, y: 1 }, "two steps away, before (4, 3) at three");
    assert_eq!(path.len(), 3, "a shortest route: two steps");
    assert_eq!(*path.last().unwrap(), Tile { x: 1, y: 1 });
}

#[test]
fn corridor_ties_go_to_the_lower_column_then_row() {
    let g = rows_grid(&[
        "#######",
        "#.#####",
        "###.###",
        "##.####",
        "#######",
        "#######",
        "#######",
    ]);
    let main = g.component(Tile { x: 1, y: 1 });
    let path = g.corridor_to(&main).unwrap();
    assert_eq!(path[0], Tile { x: 2, y: 3 }, "both three away; column 2 before column 3");
    assert_eq!(path.len(), 4);
}

#[test]
fn corridor_walks_back_along_the_first_search_step() {
    // From (2, 3) three routes of three steps lead to (1, 1); the search reaches (2, 2) from
    // (2, 1) before it reaches (1, 3), so the route climbs column 2 first.
    let g = rows_grid(&[
        "#######",
        "#.#####",
        "#######",
        "##.####",
        "#######",
        "#######",
        "#######",
    ]);
    let main = g.component(Tile { x: 1, y: 1 });
    let path = g.corridor_to(&main).unwrap();
    assert_eq!(
        path,
        vec![Tile { x: 2, y: 3 }, Tile { x: 2, y: 2 }, Tile { x: 2, y: 1 }, Tile { x: 1, y: 1 }]
    );
}
