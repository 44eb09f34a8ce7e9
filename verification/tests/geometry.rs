use atemporal::geometry::{cardinal_offset, chebyshev, direction_of, in_rect, mix, rotate, rotate_direction};
use atemporal::types::{CardinalDirection, Direction, Rect, Tile};

#[test]
fn mix_matches_known_values() {
    assert_eq!(mix(0, 0, 0), 15452995762449700773);
    assert_eq!(mix(42, 3, 7), 11553310331285397366);
    assert_eq!(mix(u64::MAX, u64::MAX, 5), 363117641047928067);
    assert_ne!(mix(1, 2, 3), mix(1, 3, 2));
}

#[test]
fn quarter_turns_rotate_clockwise_and_four_make_a_full_turn() {
    let t = Tile { x: 1, y: 2 };
    assert_eq!(rotate(t, 10, 0), t);
    assert_eq!(rotate(t, 10, 1), Tile { x: 7, y: 1 });
    assert_eq!(rotate(t, 10, 2), Tile { x: 8, y: 7 });
    assert_eq!(rotate(t, 10, 3), Tile { x: 2, y: 8 });
    assert_eq!(rotate(t, 10, 4), t);
    let mut u = t;
    for _ in 0..4 {
        u = rotate(u, 10, 1);
    }
    assert_eq!(u, t);
    assert_eq!(rotate(rotate(t, 10, 3), 10, 2), rotate(t, 10, 1));
}

#[test]
fn facings_turn_two_steps_per_quarter() {
    assert_eq!(rotate_direction(Direction::N, 1), Direction::E);
    assert_eq!(rotate_direction(Direction::Se, 1), Direction::Sw);
    assert_eq!(rotate_direction(Direction::Nw, 2), Direction::Se);
    assert_eq!(rotate_direction(Direction::W, 5), Direction::N);
    assert_eq!(direction_of(0, -3), Direction::N);
    assert_eq!(direction_of(5, 5), Direction::Se);
    assert_eq!(direction_of(-1, 0), Direction::W);
    assert_eq!(direction_of(-2, -9), Direction::Nw);
    assert_eq!(direction_of(0, 0), Direction::N);
    // a step turned a quarter clockwise faces its direction turned a quarter
    assert_eq!(direction_of(2, 1), Direction::Se);
    assert_eq!(direction_of(-1, 2), rotate_direction(Direction::Se, 1));
}

#[test]
fn distances_offsets_and_rectangles() {
    assert_eq!(chebyshev(Tile { x: 1, y: 1 }, Tile { x: 4, y: 3 }), 3);
    assert_eq!(chebyshev(Tile { x: 9, y: 0 }, Tile { x: 0, y: 9 }), 9);
    assert_eq!(chebyshev(Tile { x: 5, y: 5 }, Tile { x: 5, y: 5 }), 0);
    assert_eq!(cardinal_offset(CardinalDirection::N), (0, -1));
    assert_eq!(cardinal_offset(CardinalDirection::W), (-1, 0));
    let r = Rect { min: Tile { x: 2, y: 2 }, max: Tile { x: 4, y: 5 } };
    assert!(in_rect(Tile { x: 2, y: 5 }, &r));
    assert!(!in_rect(Tile { x: 5, y: 3 }, &r));
    assert!(!in_rect(Tile { x: 3, y: 1 }, &r));
}
