//! Chebyshev distance fields over the square map, computed by breadth-first search over the
//! eight-neighborhood from every source cell at once.
use vstd::prelude::*;
use crate::types::Tile;
use crate::geometry::{in_square, spec_chebyshev};
use crate::map::{cell_index, lemma_index_bounds, lemma_index_injective, Grid, TerrainCell};

verus! {

pub open spec fn is_source(src: Seq<bool>, size: u16, s: Tile) -> bool {
    in_square(s, size) && src[cell_index(s, size)]
}

pub open spec fn has_source(src: Seq<bool>, size: u16) -> bool {
    exists|s: Tile| #[trigger] is_source(src, size, s)
}

/// `dist` holds, per cell, the Chebyshev distance to the nearest source, or `u16::MAX` for
/// every cell when there is no source.
pub open spec fn distance_field(src: Seq<bool>, size: u16, dist: Seq<u16>) -> bool {
    &&& dist.len() == size * size
    &&& !has_source(src, size) ==> forall|t: Tile| #![trigger dist[cell_index(t, size)]] in_square(t, size) ==> dist[cell_index(t, size)] == u16::MAX
    &&& has_source(src, size) ==> forall|t: Tile| #![trigger dist[cell_index(t, size)]] in_square(t, size) ==> {
        &&& (forall|s: Tile| #[trigger] is_source(src, size, s) ==> dist[cell_index(t, size)] <= spec_chebyshev(t, s))
        &&& (exists|s: Tile| #[trigger] is_source(src, size, s) && spec_chebyshev(t, s) == dist[cell_index(t, size)])
    }
}

/// Distinct tiles within one king move.
pub open spec fn adjacent8(a: Tile, b: Tile) -> bool {
    a != b && -1 <= a.x - b.x <= 1 && -1 <= a.y - b.y <= 1
}

pub open spec fn ox8(k: int) -> int {
    if k == 0 || k == 3 || k == 6 { -1 } else if k == 1 || k == 4 || k == 7 { 0 } else { 1 }
}

pub open spec fn oy8(k: int) -> int {
    if k < 3 { -1 } else if k < 6 { 0 } else { 1 }
}

pub open spec fn neighbor8_at(t: Tile, k: int, w: Tile) -> bool {
    w.x == t.x + ox8(k) && w.y == t.y + oy8(k)
}

pub(crate) fn offset8(k: usize) -> (r: (i32, i32))
    requires
        k < 9,
    ensures
        r.0 == ox8(k as int),
        r.1 == oy8(k as int),
{
    let dy: i32 = if k < 3 { -1 } else if k < 6 { 0 } else { 1 };
    let dx: i32 = if k == 0 || k == 3 || k == 6 { -1 } else if k == 1 || k == 4 || k == 7 { 0 } else { 1 };
    (dx, dy)
}

pub open spec fn count_unset(s: Seq<u16>) -> nat
    decreases s.len(),
{
    if s.len() == 0 {
        0
    } else {
        count_unset(s.drop_last()) + if s.last() == u16::MAX { 1nat } else { 0nat }
    }
}

pub(crate) proof fn lemma_set_decreases(s: Seq<u16>, i: int, v: u16)
    requires
        0 <= i < s.len(),
        s[i] == u16::MAX,
        v != u16::MAX,
    ensures
        count_unset(s.update(i, v)) + 1 == count_unset(s),
    decreases s.len(),
{
    let u = s.update(i, v);
    if i < s.len() - 1 {
        assert(u.drop_last() == s.drop_last().update(i, v));
        lemma_set_decreases(s.drop_last(), i, v);
    } else {
        assert(u.drop_last() == s.drop_last());
    }
}

pub open spec fn sgn(v: int) -> int {
    if v > 0 { 1 } else if v < 0 { -1 } else { 0 }
}

/// One king move from `u` toward `s`.
pub open spec fn step_toward(u: Tile, s: Tile) -> Tile {
    Tile { x: (u.x + sgn(s.x - u.x)) as u16, y: (u.y + sgn(s.y - u.y)) as u16 }
}

proof fn lemma_step_toward(u: Tile, s: Tile, size: u16)
    requires
        in_square(u, size),
        in_square(s, size),
        u != s,
    ensures
        in_square(step_toward(u, s), size),
        adjacent8(step_toward(u, s), u),
        spec_chebyshev(step_toward(u, s), s) == spec_chebyshev(u, s) - 1,
{
}

pub open spec fn assigned(dist: Seq<u16>, size: u16, t: Tile) -> bool {
    dist[cell_index(t, size)] != u16::MAX
}

/// Every assigned cell `u` that is no longer queued has all its king neighbors assigned, at
/// most one step farther.
pub open spec fn closed8(dist: Seq<u16>, size: u16, queue: Seq<Tile>) -> bool {
    forall|u: Tile, v: Tile| #[trigger] adjacent8(u, v) && in_square(u, size) && in_square(v, size)
        && assigned(dist, size, u) && !queue.contains(u) ==> assigned(dist, size, v)
            && dist[cell_index(v, size)] <= dist[cell_index(u, size)] + 1
}

proof fn lemma_all_assigned(src: Seq<bool>, size: u16, dist: Seq<u16>, s: Tile, u: Tile)
    requires
        dist.len() == size * size,
        is_source(src, size, s),
        assigned(dist, size, s),
        closed8(dist, size, seq![]),
        in_square(u, size),
    ensures
        assigned(dist, size, u),
    decreases spec_chebyshev(u, s),
{
    if u != s {
        lemma_step_toward(u, s, size);
        let w = step_toward(u, s);
        lemma_all_assigned(src, size, dist, s, w);
        assert(adjacent8(w, u));
    }
}

#[verifier::opaque]
pub open spec fn sources_zero(src: Seq<bool>, size: u16, dist: Seq<u16>) -> bool {
    forall|s: Tile| #[trigger] is_source(src, size, s) ==> dist[cell_index(s, size)] == 0
}

/// Every assigned distance is achieved by some source.
#[verifier::opaque]
pub open spec fn sound(src: Seq<bool>, size: u16, dist: Seq<u16>) -> bool {
    forall|t: Tile| #![trigger cell_index(t, size)] in_square(t, size) && assigned(dist, size, t) ==>
        exists|s: Tile| #[trigger] is_source(src, size, s) && spec_chebyshev(t, s) <= dist[cell_index(t, size)]
}

/// No assigned distance exceeds the distance to any source.
#[verifier::opaque]
pub open spec fn optimal(src: Seq<bool>, size: u16, dist: Seq<u16>) -> bool {
    forall|t: Tile, s: Tile| in_square(t, size) && #[trigger] assigned(dist, size, t) && #[trigger] is_source(src, size, s)
        ==> dist[cell_index(t, size)] <= spec_chebyshev(t, s)
}

#[verifier::opaque]
pub open spec fn queue_ok(size: u16, dist: Seq<u16>, q: Seq<Tile>) -> bool {
    &&& forall|i: int| 0 <= i < q.len() ==> in_square(#[trigger] q[i], size) && assigned(dist, size, q[i])
    &&& q.no_duplicates()
}

/// Queued distances are `level` or `level + 1`, in nondecreasing order.
#[verifier::opaque]
pub open spec fn queue_level(size: u16, dist: Seq<u16>, q: Seq<Tile>, level: int) -> bool {
    &&& forall|i: int| 0 <= i < q.len() ==> level <= dist[cell_index(#[trigger] q[i], size)] <= level + 1
    &&& forall|i: int, j: int| 0 <= i < j < q.len() ==> dist[cell_index(#[trigger] q[i], size)] <= dist[cell_index(#[trigger] q[j], size)]
}

#[verifier::opaque]
pub open spec fn bounded(size: u16, dist: Seq<u16>, level: int) -> bool {
    forall|t: Tile| #![trigger cell_index(t, size)] in_square(t, size) && assigned(dist, size, t) ==> dist[cell_index(t, size)] <= level + 1
}

/// Every cell within `level` of a source is assigned.
#[verifier::opaque]
pub open spec fn covered(src: Seq<bool>, size: u16, dist: Seq<u16>, level: int) -> bool {
    forall|t: Tile, s: Tile| in_square(t, size) && #[trigger] is_source(src, size, s) && spec_chebyshev(t, s) <= level ==> #[trigger] assigned(dist, size, t)
}

/// Assigned cells off the queue (other than `skip`) are at most `level` and closed.
#[verifier::opaque]
pub open spec fn settled(size: u16, dist: Seq<u16>, q: Seq<Tile>, level: int, skip: Option<Tile>) -> bool {
    &&& forall|t: Tile| #![trigger cell_index(t, size)] in_square(t, size) && assigned(dist, size, t) && !q.contains(t) && skip != Some(t) ==> dist[cell_index(t, size)] <= level
    &&& forall|u: Tile, v: Tile| #[trigger] adjacent8(u, v) && in_square(u, size) && in_square(v, size)
        && assigned(dist, size, u) && !q.contains(u) && skip != Some(u) ==> assigned(dist, size, v)
            && dist[cell_index(v, size)] <= dist[cell_index(u, size)] + 1
}

#[verifier::opaque]
pub open spec fn search_state(src: Seq<bool>, size: u16, dist: Seq<u16>, q: Seq<Tile>, level: int, skip: Option<Tile>) -> bool {
    &&& src.len() == size * size
    &&& dist.len() == size * size
    &&& 0 <= level
    &&& sources_zero(src, size, dist)
    &&& sound(src, size, dist)
    &&& optimal(src, size, dist)
    &&& queue_ok(size, dist, q)
    &&& queue_level(size, dist, q, level)
    &&& bounded(size, dist, level)
    &&& covered(src, size, dist, level)
    &&& settled(size, dist, q, level, skip)
}

/// Marks every source at distance zero and queues it, in row-major order.
fn init_field(src: &Vec<bool>, g: &Grid) -> (r: (Vec<u16>, std::collections::VecDeque<Tile>))
    requires
        src@.len() == g.size * g.size,
    ensures
        r.0@.len() == g.size * g.size,
        forall|t: Tile| #![trigger cell_index(t, g.size)] in_square(t, g.size) ==>
            r.0@[cell_index(t, g.size)] == (if src@[cell_index(t, g.size)] { 0u16 } else { u16::MAX }),
        forall|i: int| 0 <= i < r.1@.len() ==> in_square(#[trigger] r.1@[i], g.size) && src@[cell_index(r.1@[i], g.size)],
        forall|t: Tile| #![trigger cell_index(t, g.size)] in_square(t, g.size) && src@[cell_index(t, g.size)] ==> r.1@.contains(t),
        r.1@.no_duplicates(),
{
    let size = g.size;
    let n = size as usize;
    proof {
        assert(n * n <= 0xffff * 0xffff) by (nonlinear_arith)
            requires
                n <= 0xffff,
        ;
    }
    let mut dist: Vec<u16> = vec![u16::MAX; n * n];
    let mut queue: std::collections::VecDeque<Tile> = std::collections::VecDeque::new();
    proof {
        assert forall|t: Tile| #![trigger cell_index(t, size)] in_square(t, size) implies
            dist@[cell_index(t, size)] == (if t.y < 0 && src@[cell_index(t, size)] { 0u16 } else { u16::MAX }) by {
            lemma_index_bounds(t, size);
        }
    }
    let mut y: u16 = 0;
    while y < size
        invariant
            size == g.size,
            src@.len() == size * size,
            dist@.len() == size * size,
            y <= size,
            forall|t: Tile| #![trigger cell_index(t, size)] in_square(t, size) ==>
                dist@[cell_index(t, size)] == (if t.y < y && src@[cell_index(t, size)] { 0u16 } else { u16::MAX }),
            forall|i: int| 0 <= i < queue@.len() ==> in_square(#[trigger] queue@[i], size) && queue@[i].y < y && src@[cell_index(queue@[i], size)],
            forall|t: Tile| #![trigger cell_index(t, size)] in_square(t, size) && t.y < y && src@[cell_index(t, size)] ==> queue@.contains(t),
            queue@.no_duplicates(),
        decreases size - y,
    {
        let mut x: u16 = 0;
        while x < size
            invariant
                size == g.size,
                src@.len() == size * size,
                dist@.len() == size * size,
                y < size,
                x <= size,
                forall|t: Tile| #![trigger cell_index(t, size)] in_square(t, size) ==>
                    dist@[cell_index(t, size)] == (if (t.y < y || (t.y == y && t.x < x)) && src@[cell_index(t, size)] { 0u16 } else { u16::MAX }),
                forall|i: int| 0 <= i < queue@.len() ==> in_square(#[trigger] queue@[i], size) && (queue@[i].y < y || (queue@[i].y == y && queue@[i].x < x)) && src@[cell_index(queue@[i], size)],
                forall|t: Tile| #![trigger cell_index(t, size)] in_square(t, size) && (t.y < y || (t.y == y && t.x < x)) && src@[cell_index(t, size)] ==> queue@.contains(t),
                queue@.no_duplicates(),
            decreases size - x,
        {
            let t = Tile { x, y };
            let i = g.idx(t);
            if src[i] {
                let ghost q0 = queue@;
                dist.set(i, 0);
                queue.push_back(t);
                proof {
                    assert(!q0.contains(t)) by {
                        if q0.contains(t) {
                            let j = choose|j: int| 0 <= j < q0.len() && q0[j] == t;
                        }
                    }
                    assert forall|u: Tile| #![trigger cell_index(u, size)] in_square(u, size) implies
                        dist@[cell_index(u, size)] == (if (u.y < y || (u.y == y && u.x < x + 1)) && src@[cell_index(u, size)] { 0u16 } else { u16::MAX }) by {
                        lemma_index_bounds(u, size);
                        if cell_index(u, size) == i as int {
                            lemma_index_injective(u, t, size);
                        }
                    }
                    assert forall|j: int| 0 <= j < queue@.len() implies in_square(#[trigger] queue@[j], size) && (queue@[j].y < y || (queue@[j].y == y && queue@[j].x < x + 1)) && src@[cell_index(queue@[j], size)] by {
                        if j < q0.len() {
                            assert(queue@[j] == q0[j]);
                        }
                    }
                    assert forall|u: Tile| #![trigger cell_index(u, size)] in_square(u, size) && (u.y < y || (u.y == y && u.x < x + 1)) && src@[cell_index(u, size)] implies queue@.contains(u) by {
                        if u == t {
                            assert(queue@[q0.len() as int] == t);
                        } else {
                            assert(q0.contains(u));
                            let j = choose|j: int| 0 <= j < q0.len() && q0[j] == u;
                            assert(queue@[j] == u);
                        }
                    }
                }
            } else {
                proof {
                    assert forall|u: Tile| #![trigger cell_index(u, size)] in_square(u, size) implies
                        dist@[cell_index(u, size)] == (if (u.y < y || (u.y == y && u.x < x + 1)) && src@[cell_index(u, size)] { 0u16 } else { u16::MAX }) by {
                        lemma_index_bounds(u, size);
                        if u.y == y && u.x == x {
                            assert(cell_index(u, size) == i as int);
                        }
                    }
                }
            }
            x += 1;
        }
        y += 1;
    }
    (dist, queue)
}

/// What assigning `v` at `d + 1`, on top of `t` at `d`, leaves unchanged or extends.
pub open spec fn relaxed(size: u16, dist1: Seq<u16>, dist: Seq<u16>, q1: Seq<Tile>, q: Seq<Tile>, t: Tile, v: Tile, d: u16) -> bool {
    &&& dist1.len() == size * size
    &&& in_square(t, size)
    &&& in_square(v, size)
    &&& adjacent8(t, v)
    &&& dist1[cell_index(t, size)] == d
    &&& d < u16::MAX - 1
    &&& dist1[cell_index(v, size)] == u16::MAX
    &&& dist == dist1.update(cell_index(v, size), (d + 1) as u16)
    &&& q == q1.push(v)
}

proof fn lemma_relax_assigned(size: u16, dist1: Seq<u16>, dist: Seq<u16>, q1: Seq<Tile>, q: Seq<Tile>, t: Tile, v: Tile, d: u16, u: Tile)
    requires
        relaxed(size, dist1, dist, q1, q, t, v, d),
        in_square(u, size),
    ensures
        assigned(dist, size, u) <==> (assigned(dist1, size, u) || u == v),
        u != v ==> dist[cell_index(u, size)] == dist1[cell_index(u, size)],
        u == v ==> dist[cell_index(u, size)] == d + 1,
{
    lemma_index_bounds(u, size);
    lemma_index_bounds(v, size);
    if cell_index(u, size) == cell_index(v, size) {
        lemma_index_injective(u, v, size);
    }
}

proof fn lemma_relax_sources(src: Seq<bool>, size: u16, dist1: Seq<u16>, dist: Seq<u16>, q1: Seq<Tile>, q: Seq<Tile>, t: Tile, v: Tile, d: u16)
    requires
        relaxed(size, dist1, dist, q1, q, t, v, d),
        sources_zero(src, size, dist1),
    ensures
        sources_zero(src, size, dist),
{
    reveal(sources_zero);
    assert forall|s: Tile| #[trigger] is_source(src, size, s) implies dist[cell_index(s, size)] == 0 by {
        lemma_relax_assigned(size, dist1, dist, q1, q, t, v, d, s);
    }
}

proof fn lemma_relax_sound(src: Seq<bool>, size: u16, dist1: Seq<u16>, dist: Seq<u16>, q1: Seq<Tile>, q: Seq<Tile>, t: Tile, v: Tile, d: u16)
    requires
        relaxed(size, dist1, dist, q1, q, t, v, d),
        sound(src, size, dist1),
        d != u16::MAX,
    ensures
        sound(src, size, dist),
{
    reveal(sound);
    lemma_index_bounds(t, size);
    assert forall|u: Tile| #![trigger cell_index(u, size)] in_square(u, size) && assigned(dist, size, u) implies
        exists|s: Tile| #[trigger] is_source(src, size, s) && spec_chebyshev(u, s) <= dist[cell_index(u, size)] by {
        lemma_relax_assigned(size, dist1, dist, q1, q, t, v, d, u);
        if u == v {
            assert(assigned(dist1, size, t));
            let s0 = choose|s: Tile| #[trigger] is_source(src, size, s) && spec_chebyshev(t, s) <= dist1[cell_index(t, size)];
            assert(is_source(src, size, s0) && spec_chebyshev(u, s0) <= dist[cell_index(u, size)]);
        }
    }
}

proof fn lemma_relax_optimal(src: Seq<bool>, size: u16, dist1: Seq<u16>, dist: Seq<u16>, q1: Seq<Tile>, q: Seq<Tile>, t: Tile, v: Tile, d: u16)
    requires
        relaxed(size, dist1, dist, q1, q, t, v, d),
        optimal(src, size, dist1),
        covered(src, size, dist1, d as int),
    ensures
        optimal(src, size, dist),
{
    reveal(optimal);
    reveal(covered);
    assert forall|u: Tile, s: Tile| in_square(u, size) && #[trigger] assigned(dist, size, u) && #[trigger] is_source(src, size, s)
        implies dist[cell_index(u, size)] <= spec_chebyshev(u, s) by {
        lemma_relax_assigned(size, dist1, dist, q1, q, t, v, d, u);
        if u == v {
            if spec_chebyshev(v, s) <= d {
                assert(assigned(dist1, size, v));
            }
        } else {
            assert(assigned(dist1, size, u));
        }
    }
}

proof fn lemma_relax_queue(src: Seq<bool>, size: u16, dist1: Seq<u16>, dist: Seq<u16>, q1: Seq<Tile>, q: Seq<Tile>, t: Tile, v: Tile, d: u16)
    requires
        relaxed(size, dist1, dist, q1, q, t, v, d),
        queue_ok(size, dist1, q1),
        queue_level(size, dist1, q1, d as int),
        bounded(size, dist1, d as int),
        covered(src, size, dist1, d as int),
    ensures
        queue_ok(size, dist, q),
        queue_level(size, dist, q, d as int),
        bounded(size, dist, d as int),
        covered(src, size, dist, d as int),
        !q1.contains(v),
{
    reveal(queue_ok);
    reveal(queue_level);
    reveal(bounded);
    reveal(covered);
    assert(!q1.contains(v)) by {
        if q1.contains(v) {
            let j = choose|j: int| 0 <= j < q1.len() && q1[j] == v;
            assert(assigned(dist1, size, q1[j]));
        }
    }
    assert forall|j: int| 0 <= j < q.len() implies in_square(#[trigger] q[j], size) && assigned(dist, size, q[j]) by {
        if j < q1.len() {
            assert(q[j] == q1[j]);
        }
        lemma_relax_assigned(size, dist1, dist, q1, q, t, v, d, q[j]);
    }
    assert forall|j: int| 0 <= j < q.len() implies d <= dist[cell_index(#[trigger] q[j], size)] <= d + 1 by {
        if j < q1.len() {
            assert(q[j] == q1[j]);
        }
        lemma_relax_assigned(size, dist1, dist, q1, q, t, v, d, q[j]);
    }
    assert forall|a: int, b: int| 0 <= a < b < q.len() implies dist[cell_index(#[trigger] q[a], size)] <= dist[cell_index(#[trigger] q[b], size)] by {
        assert(q[a] == q1[a]);
        lemma_relax_assigned(size, dist1, dist, q1, q, t, v, d, q[a]);
        if b < q1.len() {
            assert(q[b] == q1[b]);
        }
        lemma_relax_assigned(size, dist1, dist, q1, q, t, v, d, q[b]);
    }
    assert forall|u: Tile| #![trigger cell_index(u, size)] in_square(u, size) && assigned(dist, size, u) implies dist[cell_index(u, size)] <= d + 1 by {
        lemma_relax_assigned(size, dist1, dist, q1, q, t, v, d, u);
    }
    assert forall|u: Tile, s: Tile| in_square(u, size) && #[trigger] is_source(src, size, s) && spec_chebyshev(u, s) <= d implies #[trigger] assigned(dist, size, u) by {
        lemma_relax_assigned(size, dist1, dist, q1, q, t, v, d, u);
    }
}

proof fn lemma_relax_settled(size: u16, dist1: Seq<u16>, dist: Seq<u16>, q1: Seq<Tile>, q: Seq<Tile>, t: Tile, v: Tile, d: u16)
    requires
        relaxed(size, dist1, dist, q1, q, t, v, d),
        settled(size, dist1, q1, d as int, Some(t)),
        !q1.contains(t),
    ensures
        settled(size, dist, q, d as int, Some(t)),
        !q.contains(t),
{
    reveal(settled);
    assert(!q.contains(t)) by {
        if q.contains(t) {
            let j = choose|j: int| 0 <= j < q.len() && q[j] == t;
            if j < q1.len() {
                assert(q1[j] == t);
            }
        }
    }
    assert forall|u: Tile| #![trigger cell_index(u, size)] in_square(u, size) && assigned(dist, size, u) && !q.contains(u) && Some(t) != Some(u) implies dist[cell_index(u, size)] <= d by {
        lemma_relax_assigned(size, dist1, dist, q1, q, t, v, d, u);
        if u == v {
            assert(q[q.len() - 1] == v);
        } else if q1.contains(u) {
            let j = choose|j: int| 0 <= j < q1.len() && q1[j] == u;
            assert(q[j] == u);
        }
    }
    assert forall|u: Tile, w: Tile| #[trigger] adjacent8(u, w) && in_square(u, size) && in_square(w, size)
        && assigned(dist, size, u) && !q.contains(u) && Some(t) != Some(u) implies assigned(dist, size, w)
            && dist[cell_index(w, size)] <= dist[cell_index(u, size)] + 1 by {
        lemma_relax_assigned(size, dist1, dist, q1, q, t, v, d, u);
        lemma_relax_assigned(size, dist1, dist, q1, q, t, v, d, w);
        if u == v {
            assert(q[q.len() - 1] == v);
        } else {
            if q1.contains(u) {
                let j = choose|j: int| 0 <= j < q1.len() && q1[j] == u;
                assert(q[j] == u);
            }
        }
    }
}

/// Assigns `v`, a king neighbor of the tile `t` being expanded at distance `d`, unless it
/// already has a distance.
fn relax(
    g: &Grid,
    dist: &mut Vec<u16>,
    queue: &mut std::collections::VecDeque<Tile>,
    t: Tile,
    v: Tile,
    d: u16,
    Ghost(src): Ghost<Seq<bool>>,
)
    requires
        search_state(src, g.size, old(dist)@, old(queue)@, d as int, Some(t)),
        old(dist)@.len() == g.size * g.size,
        in_square(t, g.size),
        in_square(v, g.size),
        old(dist)@[cell_index(t, g.size)] == d,
        d != u16::MAX,
        !old(queue)@.contains(t),
        v == t || adjacent8(t, v),
    ensures
        search_state(src, g.size, final(dist)@, final(queue)@, d as int, Some(t)),
        final(dist)@.len() == g.size * g.size,
        !final(queue)@.contains(t),
        assigned(final(dist)@, g.size, v),
        final(dist)@[cell_index(v, g.size)] <= d + 1,
        forall|w: Tile| #![trigger cell_index(w, g.size)] in_square(w, g.size) && assigned(old(dist)@, g.size, w) ==>
            final(dist)@[cell_index(w, g.size)] == old(dist)@[cell_index(w, g.size)],
        2 * count_unset(final(dist)@) + final(queue)@.len() <= 2 * count_unset(old(dist)@) + old(queue)@.len(),
{
    let size = g.size;
    let i = g.idx(v);
    proof {
        lemma_index_bounds(t, size);
        lemma_index_bounds(v, size);
        reveal(search_state);
        reveal(bounded);
    }
    if dist[i] != u16::MAX {
        return;
    }
    let ghost dist1 = dist@;
    let ghost queue1 = queue@;
    proof {
        reveal(search_state);
        assert(v != t);
        reveal(sound);
        reveal(optimal);
        assert(assigned(dist1, size, t));
        let s0 = choose|s: Tile| #[trigger] is_source(src, size, s) && spec_chebyshev(t, s) <= dist1[cell_index(t, size)];
        reveal(covered);
        assert(spec_chebyshev(v, s0) >= d + 1) by {
            if spec_chebyshev(v, s0) <= d {
                assert(assigned(dist1, size, v));
            }
        }
        assert(spec_chebyshev(v, s0) < size);
        lemma_set_decreases(dist1, i as int, (d + 1) as u16);
    }
    dist.set(i, d + 1);
    queue.push_back(v);
    proof {
        let ghost nd = dist@;
        let ghost nq = queue@;
        assert(relaxed(size, dist1, nd, queue1, nq, t, v, d));
        lemma_relax_sources(src, size, dist1, nd, queue1, nq, t, v, d);
        lemma_relax_sound(src, size, dist1, nd, queue1, nq, t, v, d);
        lemma_relax_optimal(src, size, dist1, nd, queue1, nq, t, v, d);
        lemma_relax_queue(src, size, dist1, nd, queue1, nq, t, v, d);
        lemma_relax_settled(size, dist1, nd, queue1, nq, t, v, d);
        assert forall|w: Tile| #![trigger cell_index(w, size)] in_square(w, size) && assigned(dist1, size, w) implies
            nd[cell_index(w, size)] == dist1[cell_index(w, size)] by {
            lemma_relax_assigned(size, dist1, nd, queue1, nq, t, v, d, w);
        }
        lemma_relax_assigned(size, dist1, nd, queue1, nq, t, v, d, v);
        assert(search_state(src, size, nd, nq, d as int, Some(t)));
    }
}

/// Raising the level from `level` to `d`, the distance at the head of the queue, keeps every
/// cell within `d` of a source assigned.
proof fn lemma_raise_level(src: Seq<bool>, size: u16, dist: Seq<u16>, q: Seq<Tile>, level: int)
    requires
        search_state(src, size, dist, q, level, None),
        q.len() > 0,
    ensures
        covered(src, size, dist, dist[cell_index(q[0], size)] as int),
{
    reveal(search_state);
    reveal(covered);
    reveal(optimal);
    reveal(queue_ok);
    reveal(queue_level);
    reveal(settled);
    let d = dist[cell_index(q[0], size)] as int;
    if d > level {
        assert forall|u: Tile, s: Tile| in_square(u, size) && #[trigger] is_source(src, size, s) && spec_chebyshev(u, s) <= d
            implies #[trigger] assigned(dist, size, u) by {
            if spec_chebyshev(u, s) > level {
                lemma_step_toward(u, s, size);
                let w = step_toward(u, s);
                assert(assigned(dist, size, w));
                assert(dist[cell_index(w, size)] <= spec_chebyshev(w, s));
                assert(!q.contains(w)) by {
                    if q.contains(w) {
                        let j = choose|j: int| 0 <= j < q.len() && q[j] == w;
                        if j > 0 {
                            assert(dist[cell_index(q[0], size)] <= dist[cell_index(q[j], size)]);
                        }
                    }
                }
                assert(adjacent8(w, u));
            }
        }
    }
}

/// After popping `t` at distance `d` off the queue, the search stands at level `d` with `t`
/// waiting to be closed.
proof fn lemma_after_pop(src: Seq<bool>, size: u16, dist: Seq<u16>, q0: Seq<Tile>, q: Seq<Tile>, level: int)
    requires
        search_state(src, size, dist, q0, level, None),
        covered(src, size, dist, dist[cell_index(q0[0], size)] as int),
        q0.len() > 0,
        q == q0.subrange(1, q0.len() as int),
    ensures
        search_state(src, size, dist, q, dist[cell_index(q0[0], size)] as int, Some(q0[0])),
        !q.contains(q0[0]),
        in_square(q0[0], size),
        assigned(dist, size, q0[0]),
        dist.len() == size * size,
{
    reveal(search_state);
    reveal(queue_ok);
    reveal(queue_level);
    reveal(settled);
    reveal(bounded);
    let t = q0[0];
    let d = dist[cell_index(t, size)];
    lemma_index_bounds(t, size);
    assert(!q.contains(t)) by {
        if q.contains(t) {
            let j = choose|j: int| 0 <= j < q.len() && q[j] == t;
            assert(q0[j + 1] == t);
        }
    }
    assert forall|u: Tile| q0.contains(u) && u != t implies q.contains(u) by {
        let j = choose|j: int| 0 <= j < q0.len() && q0[j] == u;
        assert(j != 0);
        assert(q[j - 1] == u);
    }
    assert forall|j: int| 0 <= j < q.len() implies in_square(#[trigger] q[j], size) && assigned(dist, size, q[j]) by {
        assert(q[j] == q0[j + 1]);
    }
    assert forall|j: int| 0 <= j < q.len() implies d <= dist[cell_index(#[trigger] q[j], size)] <= d + 1 by {
        assert(q[j] == q0[j + 1]);
        assert(dist[cell_index(q0[0], size)] <= dist[cell_index(q0[j + 1], size)]);
    }
    assert forall|a: int, b: int| 0 <= a < b < q.len() implies dist[cell_index(#[trigger] q[a], size)] <= dist[cell_index(#[trigger] q[b], size)] by {
        assert(q[a] == q0[a + 1]);
        assert(q[b] == q0[b + 1]);
    }
    assert(q.no_duplicates()) by {
        assert forall|a: int, b: int| 0 <= a < b < q.len() implies q[a] != q[b] by {
            assert(q[a] == q0[a + 1]);
            assert(q[b] == q0[b + 1]);
        }
    }
    assert forall|u: Tile| #![trigger cell_index(u, size)] in_square(u, size) && assigned(dist, size, u) && !q.contains(u) && Some(t) != Some(u) implies dist[cell_index(u, size)] <= d by {
        if q0.contains(u) {
            assert(q.contains(u));
        }
    }
    assert forall|u: Tile, v: Tile| #[trigger] adjacent8(u, v) && in_square(u, size) && in_square(v, size)
        && assigned(dist, size, u) && !q.contains(u) && Some(t) != Some(u) implies assigned(dist, size, v)
            && dist[cell_index(v, size)] <= dist[cell_index(u, size)] + 1 by {
        if q0.contains(u) {
            assert(q.contains(u));
        }
    }
}

/// Once `t`'s neighbors are all assigned, it is closed and the search stands at level `d`.
proof fn lemma_close(src: Seq<bool>, size: u16, dist: Seq<u16>, q: Seq<Tile>, t: Tile, d: u16)
    requires
        search_state(src, size, dist, q, d as int, Some(t)),
        in_square(t, size),
        dist[cell_index(t, size)] == d,
        !q.contains(t),
        forall|j: int, w: Tile| 0 <= j < 9 && #[trigger] neighbor8_at(t, j, w) && in_square(w, size) ==>
            assigned(dist, size, w) && dist[cell_index(w, size)] <= d + 1,
    ensures
        search_state(src, size, dist, q, d as int, None),
{
    reveal(search_state);
    reveal(settled);
    assert forall|u: Tile, v: Tile| #[trigger] adjacent8(u, v) && in_square(u, size) && in_square(v, size)
        && assigned(dist, size, u) && !q.contains(u) implies assigned(dist, size, v)
            && dist[cell_index(v, size)] <= dist[cell_index(u, size)] + 1 by {
        if u == t {
            let j: int = (v.x - t.x + 1) + 3 * (v.y - t.y + 1);
            assert(neighbor8_at(t, j, v));
        }
    }
}

/// Pops the head of the queue and relaxes its king neighbors.
fn expand(g: &Grid, dist: &mut Vec<u16>, queue: &mut std::collections::VecDeque<Tile>, Ghost(src): Ghost<Seq<bool>>, Ghost(level): Ghost<int>) -> (next: Ghost<int>)
    requires
        search_state(src, g.size, old(dist)@, old(queue)@, level, None),
        old(queue)@.len() > 0,
    ensures
        search_state(src, g.size, final(dist)@, final(queue)@, next@, None),
        2 * count_unset(final(dist)@) + final(queue)@.len() < 2 * count_unset(old(dist)@) + old(queue)@.len(),
{
    let size = g.size;
    let ghost dist0 = dist@;
    let ghost queue0 = queue@;
    proof {
        lemma_raise_level(src, size, dist0, queue0, level);
    }
    let t = match queue.pop_front() {
        Some(t) => t,
        None => {
            return Ghost(level);
        },
    };
    proof {
        lemma_after_pop(src, size, dist0, queue0, queue@, level);
        lemma_index_bounds(t, size);
    }
    let d = dist[g.idx(t)];
    let mut k: usize = 0;
    while k < 9
        invariant
            size == g.size,
            search_state(src, size, dist@, queue@, d as int, Some(t)),
            dist@.len() == size * size,
            in_square(t, size),
            dist@[cell_index(t, size)] == d,
            d != u16::MAX,
            !queue@.contains(t),
            0 <= k <= 9,
            forall|j: int, w: Tile| 0 <= j < k && #[trigger] neighbor8_at(t, j, w) && in_square(w, size) ==>
                assigned(dist@, size, w) && dist@[cell_index(w, size)] <= d + 1,
            2 * count_unset(dist@) + queue@.len() < 2 * count_unset(dist0) + queue0.len(),
        decreases 9 - k,
    {
        let (dx, dy) = offset8(k);
        match g.tile(t.x as i32 + dx, t.y as i32 + dy) {
            None => {
            },
            Some(v) => {
                let ghost before = dist@;
                relax(g, dist, queue, t, v, d, Ghost(src));
                proof {
                    assert forall|j: int, w: Tile| 0 <= j < k + 1 && #[trigger] neighbor8_at(t, j, w) && in_square(w, size) implies
                        assigned(dist@, size, w) && dist@[cell_index(w, size)] <= d + 1 by {
                        lemma_index_bounds(w, size);
                        if j == k {
                            assert(w == v);
                        } else {
                            assert(assigned(before, size, w));
                        }
                    }
                }
            },
        }
        k += 1;
    }
    proof {
        lemma_close(src, size, dist@, queue@, t, d);
    }
    Ghost(d as int)
}

/// The state after marking the sources: level zero, every source queued.
proof fn lemma_initial_state(src: Seq<bool>, size: u16, dist: Seq<u16>, q: Seq<Tile>)
    requires
        src.len() == size * size,
        dist.len() == size * size,
        forall|t: Tile| #![trigger cell_index(t, size)] in_square(t, size) ==>
            dist[cell_index(t, size)] == (if src[cell_index(t, size)] { 0u16 } else { u16::MAX }),
        forall|i: int| 0 <= i < q.len() ==> in_square(#[trigger] q[i], size) && src[cell_index(q[i], size)],
        forall|t: Tile| #![trigger cell_index(t, size)] in_square(t, size) && src[cell_index(t, size)] ==> q.contains(t),
        q.no_duplicates(),
    ensures
        search_state(src, size, dist, q, 0, None),
{
    reveal(search_state);
    reveal(sources_zero);
    reveal(sound);
    reveal(optimal);
    reveal(queue_ok);
    reveal(queue_level);
    reveal(bounded);
    reveal(covered);
    reveal(settled);
    assert forall|t: Tile, s: Tile| in_square(t, size) && #[trigger] is_source(src, size, s) && spec_chebyshev(t, s) <= 0
        implies #[trigger] assigned(dist, size, t) by {
        assert(t == s);
    }
    assert forall|t: Tile| #![trigger cell_index(t, size)] in_square(t, size) && assigned(dist, size, t) implies
        exists|s: Tile| #[trigger] is_source(src, size, s) && spec_chebyshev(t, s) <= dist[cell_index(t, size)] by {
        assert(is_source(src, size, t));
    }
}

proof fn lemma_empty_closed(size: u16, dist: Seq<u16>, q: Seq<Tile>, level: int)
    requires
        settled(size, dist, q, level, None),
        q.len() == 0,
    ensures
        closed8(dist, size, seq![]),
{
    reveal(settled);
    assert(q =~= Seq::<Tile>::empty());
}

/// With the queue empty, the assigned distances are exactly the distances to the nearest source.
proof fn lemma_final_state(src: Seq<bool>, size: u16, dist: Seq<u16>, q: Seq<Tile>, level: int)
    requires
        search_state(src, size, dist, q, level, None),
        q.len() == 0,
    ensures
        distance_field(src, size, dist),
{
    reveal(search_state);
    lemma_empty_closed(size, dist, q, level);
    if has_source(src, size) {
        let s0 = choose|s: Tile| #[trigger] is_source(src, size, s);
        assert(assigned(dist, size, s0)) by {
            reveal(sources_zero);
        }
        assert forall|t: Tile| #![trigger dist[cell_index(t, size)]] in_square(t, size) implies {
            &&& (forall|s: Tile| #[trigger] is_source(src, size, s) ==> dist[cell_index(t, size)] <= spec_chebyshev(t, s))
            &&& (exists|s: Tile| #[trigger] is_source(src, size, s) && spec_chebyshev(t, s) == dist[cell_index(t, size)])
        } by {
            lemma_all_assigned(src, size, dist, s0, t);
            reveal(sound);
            reveal(optimal);
            let s1 = choose|s: Tile| #[trigger] is_source(src, size, s) && spec_chebyshev(t, s) <= dist[cell_index(t, size)];
            assert(dist[cell_index(t, size)] <= spec_chebyshev(t, s1));
        }
    } else {
        assert forall|t: Tile| #![trigger dist[cell_index(t, size)]] in_square(t, size) implies dist[cell_index(t, size)] == u16::MAX by {
            reveal(sound);
            if assigned(dist, size, t) {
                let s1 = choose|s: Tile| #[trigger] is_source(src, size, s) && spec_chebyshev(t, s) <= dist[cell_index(t, size)];
            }
        }
    }
}

/// Distances to the nearest source cell, by breadth-first search from all sources at once.
pub fn distance_to_sources(src: &Vec<bool>, size: u16) -> (dist: Vec<u16>)
    requires
        src@.len() == size * size,
    ensures
        distance_field(src@, size, dist@),
{
    let g = Grid { size, cells: Vec::new() };
    let (mut dist, mut queue) = init_field(src, &g);
    let ghost mut level: int = 0;
    proof {
        lemma_initial_state(src@, size, dist@, queue@);
    }
    while queue.len() > 0
        invariant
            g.size == size,
            search_state(src@, size, dist@, queue@, level, None),
        decreases 2 * count_unset(dist@) + queue@.len(),
    {
        let next = expand(&g, &mut dist, &mut queue, Ghost(src@), Ghost(level));
        proof {
            level = next@;
        }
    }
    proof {
        lemma_final_state(src@, size, dist@, queue@, level);
    }
    dist
}

/// Chebyshev distance from each cell to the nearest floor cell (floor is 0).
pub fn floor_distance(floor: &Vec<bool>, size: u16) -> (dist: Vec<u16>)
    requires
        floor@.len() == size * size,
    ensures
        distance_field(floor@, size, dist@),
{
    distance_to_sources(floor, size)
}

/// The cells that are not floor.
pub open spec fn walls_of(cells: Seq<TerrainCell>) -> Seq<bool> {
    cells.map_values(|c: TerrainCell| c != TerrainCell::Floor)
}

/// Chebyshev distance from each cell to the nearest wall (walls and the border are 0).
pub fn wall_distance(grid: &Grid) -> (dist: Vec<u16>)
    requires
        grid.wf(),
    ensures
        distance_field(walls_of(grid.cells@), grid.size, dist@),
{
    let mut walls: Vec<bool> = Vec::new();
    let mut i: usize = 0;
    while i < grid.cells.len()
        invariant
            0 <= i <= grid.cells@.len(),
            walls@.len() == i,
            forall|j: int| 0 <= j < i ==> walls@[j] == (grid.cells@[j] != TerrainCell::Floor),
        decreases grid.cells.len() - i,
    {
        walls.push(grid.cells[i] != TerrainCell::Floor);
        i += 1;
    }
    assert(walls@ =~= walls_of(grid.cells@));
    distance_to_sources(&walls, grid.size)
}

} // verus!
