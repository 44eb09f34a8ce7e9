//! Tile geometry: quarter turns of the square map, facings, Chebyshev distance and the
//! seeded hash that map generation draws from.
use vstd::prelude::*;
use crate::types::{CardinalDirection, Direction, Rect, Tile};

verus! {

pub const MIX_GOLDEN: u64 = 0x9E37_79B9_7F4A_7C15;

pub const MIX_MULT: u64 = 0xBF58_476D_1CE4_E5B9;

/// One round of the hash: fold in `v`, multiply, and fold the high bits down.
pub open spec fn mix_step(h: u64, v: u64) -> u64 {
    let a = h ^ v.wrapping_add(MIX_GOLDEN);
    let b = a.wrapping_mul(MIX_MULT);
    b ^ (b >> 31u64)
}

pub open spec fn spec_mix(seed: u64, x: u64, y: u64) -> u64 {
    mix_step(mix_step(seed ^ MIX_GOLDEN, x), y)
}

pub(crate) fn mix_round(h: u64, v: u64) -> (r: u64)
    ensures
        r == mix_step(h, v),
{
    let a = h ^ v.wrapping_add(MIX_GOLDEN);
    let b = a.wrapping_mul(MIX_MULT);
    b ^ (b >> 31u64)
}

/// A deterministic 64-bit hash of a seed and two coordinates.
pub fn mix(seed: u64, x: u64, y: u64) -> (h: u64)
    ensures
        h == spec_mix(seed, x, y),
{
    let h = seed ^ MIX_GOLDEN;
    let h = mix_round(h, x);
    mix_round(h, y)
}

pub open spec fn in_square(t: Tile, size: u16) -> bool {
    t.x < size && t.y < size
}

/// One quarter turn clockwise about the center of a `size`-wide square.
pub open spec fn quarter(t: Tile, size: u16) -> Tile {
    Tile { x: (size - 1 - t.y) as u16, y: t.x }
}

pub open spec fn turned(t: Tile, size: u16, quarters: nat) -> Tile
    decreases quarters,
{
    if quarters == 0 {
        t
    } else {
        quarter(turned(t, size, (quarters - 1) as nat), size)
    }
}

pub open spec fn rotated(t: Tile, size: u16, quarters: u8) -> Tile {
    turned(t, size, (quarters % 4) as nat)
}

pub proof fn lemma_turned_in_square(t: Tile, size: u16, q: nat)
    requires
        in_square(t, size),
    ensures
        in_square(turned(t, size, q), size),
    decreases q,
{
    if q > 0 {
        lemma_turned_in_square(t, size, (q - 1) as nat);
    }
}

/// Quarter turns clockwise about the square's center.
pub fn rotate(t: Tile, size: u16, quarters: u8) -> (r: Tile)
    requires
        in_square(t, size),
    ensures
        r == rotated(t, size, quarters),
        in_square(r, size),
{
    let q = quarters % 4;
    let mut r = t;
    let mut i: u8 = 0;
    while i < q
        invariant
            i <= q,
            q == quarters % 4,
            in_square(t, size),
            r == turned(t, size, i as nat),
            in_square(r, size),
        decreases q - i,
    {
        r = Tile { x: size - 1 - r.y, y: r.x };
        i += 1;
    }
    r
}

/// Index of a facing, clockwise from north.
pub open spec fn dir_index(d: Direction) -> int {
    match d {
        Direction::N => 0,
        Direction::Ne => 1,
        Direction::E => 2,
        Direction::Se => 3,
        Direction::S => 4,
        Direction::Sw => 5,
        Direction::W => 6,
        Direction::Nw => 7,
    }
}

pub open spec fn dir_at(i: int) -> Direction {
    if i == 0 {
        Direction::N
    } else if i == 1 {
        Direction::Ne
    } else if i == 2 {
        Direction::E
    } else if i == 3 {
        Direction::Se
    } else if i == 4 {
        Direction::S
    } else if i == 5 {
        Direction::Sw
    } else if i == 6 {
        Direction::W
    } else {
        Direction::Nw
    }
}

/// A facing turned by quarter turns: two of the eight steps per quarter.
pub open spec fn turned_direction(d: Direction, quarters: u8) -> Direction {
    dir_at((dir_index(d) + 2 * (quarters % 4)) % 8)
}

fn direction_index(d: Direction) -> (i: u8)
    ensures
        i == dir_index(d),
{
    match d {
        Direction::N => 0,
        Direction::Ne => 1,
        Direction::E => 2,
        Direction::Se => 3,
        Direction::S => 4,
        Direction::Sw => 5,
        Direction::W => 6,
        Direction::Nw => 7,
    }
}

fn direction_at(i: u8) -> (d: Direction)
    requires
        i < 8,
    ensures
        d == dir_at(i as int),
{
    if i == 0 {
        Direction::N
    } else if i == 1 {
        Direction::Ne
    } else if i == 2 {
        Direction::E
    } else if i == 3 {
        Direction::Se
    } else if i == 4 {
        Direction::S
    } else if i == 5 {
        Direction::Sw
    } else if i == 6 {
        Direction::W
    } else {
        Direction::Nw
    }
}

pub fn rotate_direction(d: Direction, quarters: u8) -> (r: Direction)
    ensures
        r == turned_direction(d, quarters),
{
    let i = direction_index(d);
    direction_at((i + 2 * (quarters % 4)) % 8)
}

pub open spec fn signum(v: int) -> int {
    if v > 0 {
        1
    } else if v < 0 {
        -1
    } else {
        0
    }
}

/// The facing of a step `(dx, dy)` by its signs (y grows southward); north for no step.
pub open spec fn spec_direction_of(dx: int, dy: int) -> Direction {
    let (sx, sy) = (signum(dx), signum(dy));
    if sx == 0 && sy == -1 {
        Direction::N
    } else if sx == 1 && sy == 0 {
        Direction::E
    } else if sx == 0 && sy == 1 {
        Direction::S
    } else if sx == -1 && sy == 0 {
        Direction::W
    } else if sx == 1 && sy == -1 {
        Direction::Ne
    } else if sx == 1 && sy == 1 {
        Direction::Se
    } else if sx == -1 && sy == 1 {
        Direction::Sw
    } else if sx == -1 && sy == -1 {
        Direction::Nw
    } else {
        Direction::N
    }
}

pub fn direction_of(dx: i32, dy: i32) -> (d: Direction)
    ensures
        d == spec_direction_of(dx as int, dy as int),
{
    let sx: i32 = if dx > 0 { 1 } else if dx < 0 { -1 } else { 0 };
    let sy: i32 = if dy > 0 { 1 } else if dy < 0 { -1 } else { 0 };
    if sx == 0 && sy == -1 {
        Direction::N
    } else if sx == 1 && sy == 0 {
        Direction::E
    } else if sx == 0 && sy == 1 {
        Direction::S
    } else if sx == -1 && sy == 0 {
        Direction::W
    } else if sx == 1 && sy == -1 {
        Direction::Ne
    } else if sx == 1 && sy == 1 {
        Direction::Se
    } else if sx == -1 && sy == 1 {
        Direction::Sw
    } else if sx == -1 && sy == -1 {
        Direction::Nw
    } else {
        Direction::N
    }
}

pub fn cardinal_offset(d: CardinalDirection) -> (r: (i32, i32))
    ensures
        r == (match d {
            CardinalDirection::N => (0i32, -1i32),
            CardinalDirection::E => (1i32, 0i32),
            CardinalDirection::S => (0i32, 1i32),
            CardinalDirection::W => (-1i32, 0i32),
        }),
{
    match d {
        CardinalDirection::N => (0, -1),
        CardinalDirection::E => (1, 0),
        CardinalDirection::S => (0, 1),
        CardinalDirection::W => (-1, 0),
    }
}

pub open spec fn spec_in_rect(t: Tile, r: Rect) -> bool {
    r.min.x <= t.x <= r.max.x && r.min.y <= t.y <= r.max.y
}

pub fn in_rect(t: Tile, r: &Rect) -> (b: bool)
    ensures
        b == spec_in_rect(t, *r),
{
    t.x >= r.min.x && t.x <= r.max.x && t.y >= r.min.y && t.y <= r.max.y
}

pub open spec fn abs(v: int) -> int {
    if v < 0 { -v } else { v }
}

/// King-move distance between tiles.
pub open spec fn spec_chebyshev(a: Tile, b: Tile) -> int {
    let dx = abs(a.x - b.x);
    let dy = abs(a.y - b.y);
    if dx >= dy { dx } else { dy }
}

pub fn chebyshev(a: Tile, b: Tile) -> (d: i32)
    ensures
        d == spec_chebyshev(a, b),
{
    let dx: i32 = if a.x >= b.x { (a.x - b.x) as i32 } else { (b.x - a.x) as i32 };
    let dy: i32 = if a.y >= b.y { (a.y - b.y) as i32 } else { (b.y - a.y) as i32 };
    if dx >= dy { dx } else { dy }
}

// ---- laws ----------------------------------------------------------------------------------------

/// Four quarter turns bring every tile of the square back to itself.
pub proof fn law_full_turn(t: Tile, size: u16)
    requires
        in_square(t, size),
    ensures
        turned(t, size, 4) == t,
{
    reveal_with_fuel(turned, 5);
}

/// Turning by `a` and then by `b` quarters is turning by `a + b` quarters.
pub proof fn law_turns_compose(t: Tile, size: u16, a: nat, b: nat)
    ensures
        turned(turned(t, size, a), size, b) == turned(t, size, a + b),
    decreases b,
{
    if b > 0 {
        law_turns_compose(t, size, a, (b - 1) as nat);
        assert((a + b - 1) as nat == a + (b - 1) as nat);
    }
}

/// Turning stays inside the square and never merges two tiles: a rotation is a permutation.
pub proof fn law_turn_is_injective(t: Tile, u: Tile, size: u16, q: nat)
    requires
        in_square(t, size),
        in_square(u, size),
        turned(t, size, q) == turned(u, size, q),
    ensures
        t == u,
        in_square(turned(t, size, q), size),
    decreases q,
{
    lemma_turned_in_square(t, size, q);
    if q > 0 {
        lemma_turned_in_square(t, size, (q - 1) as nat);
        lemma_turned_in_square(u, size, (q - 1) as nat);
        law_turn_is_injective(t, u, size, (q - 1) as nat);
    }
}

/// Four quarter turns bring every facing back to itself, and facings turn like tiles do: the
/// step `(dx, dy)` turned a quarter clockwise is `(-dy, dx)`.
pub proof fn law_facings_turn_with_tiles(d: Direction, dx: int, dy: int)
    ensures
        turned_direction(turned_direction(turned_direction(turned_direction(d, 1), 1), 1), 1) == d,
        turned_direction(spec_direction_of(dx, dy), 1) == spec_direction_of(-dy, dx) || (dx == 0 && dy == 0),
{
}

/// Chebyshev distance is a metric on tiles.
pub proof fn law_chebyshev_metric(a: Tile, b: Tile, c: Tile)
    ensures
        spec_chebyshev(a, b) >= 0,
        spec_chebyshev(a, b) == 0 <==> a == b,
        spec_chebyshev(a, b) == spec_chebyshev(b, a),
        spec_chebyshev(a, c) <= spec_chebyshev(a, b) + spec_chebyshev(b, c),
{
}

} // verus!
