//! Corridor search: a shortest four-neighbor route through the map's interior from the nearest
//! floor cell outside the main cavern into it.
use vstd::prelude::*;
use crate::types::Tile;
use crate::geometry::in_square;
use crate::map::{
    adjacent4, cell_index, is_floor, lemma_index_bounds, lemma_index_injective, neighbor_at,
    offset, off_x, off_y, Grid, TerrainCell,
};

verus! {

/// Off the map's outer ring.
pub open spec fn interior(t: Tile, size: u16) -> bool {
    0 < t.x < size - 1 && 0 < t.y < size - 1
}

pub open spec fn in_main(main: Seq<bool>, size: u16, t: Tile) -> bool {
    in_square(t, size) && main[cell_index(t, size)]
}

/// A corridor: it starts on a floor cell outside `main`, steps between edge neighbors through
/// interior cells, and ends in `main`.
pub open spec fn corridor(cells: Seq<TerrainCell>, size: u16, main: Seq<bool>, p: Seq<Tile>) -> bool {
    &&& p.len() >= 1
    &&& is_floor(cells, size, p[0])
    &&& !main[cell_index(p[0], size)]
    &&& forall|k: int| 0 <= k < p.len() ==> in_square(#[trigger] p[k], size) && interior(p[k], size)
    &&& forall|k: int| 0 <= k < p.len() - 1 ==> #[trigger] adjacent4(p[k], p[k + 1])
    &&& in_main(main, size, p.last())
}

pub open spec fn count_unreached(s: Seq<u32>) -> nat
    decreases s.len(),
{
    if s.len() == 0 {
        0
    } else {
        count_unreached(s.drop_last()) + if s.last() == u32::MAX { 1nat } else { 0nat }
    }
}

proof fn lemma_reach_decreases(s: Seq<u32>, i: int, v: u32)
    requires
        0 <= i < s.len(),
        s[i] == u32::MAX,
        v != u32::MAX,
    ensures
        count_unreached(s.update(i, v)) + 1 == count_unreached(s),
    decreases s.len(),
{
    let u = s.update(i, v);
    if i < s.len() - 1 {
        assert(u.drop_last() == s.drop_last().update(i, v));
        lemma_reach_decreases(s.drop_last(), i, v);
    } else {
        assert(u.drop_last() == s.drop_last());
    }
}

proof fn lemma_count_bound(s: Seq<u32>)
    ensures
        count_unreached(s) <= s.len(),
    decreases s.len(),
{
    if s.len() > 0 {
        lemma_count_bound(s.drop_last());
    }
}

pub open spec fn reached(dist: Seq<u32>, size: u16, t: Tile) -> bool {
    dist[cell_index(t, size)] != u32::MAX
}

/// The search's bookkeeping: every reached cell is a `main` cell without parent, or an interior
/// cell whose parent is a reached edge neighbor nearer to `main`; distances stay below the
/// number of reached cells.
#[verifier::opaque]
pub open spec fn parents_ok(size: u16, main: Seq<bool>, dist: Seq<u32>, parent: Seq<Option<Tile>>) -> bool {
    forall|c: Tile| #![trigger cell_index(c, size)] in_square(c, size) && reached(dist, size, c) ==> {
        &&& dist[cell_index(c, size)] < size * size - count_unreached(dist)
        &&& match parent[cell_index(c, size)] {
            None => main[cell_index(c, size)],
            Some(p) => {
                &&& in_square(p, size)
                &&& reached(dist, size, p)
                &&& adjacent4(p, c)
                &&& interior(c, size)
                &&& dist[cell_index(p, size)] < dist[cell_index(c, size)]
            },
        }
    }
}

/// Reached cells off the queue have every interior edge neighbor reached.
pub open spec fn closed4(size: u16, dist: Seq<u32>, q: Seq<Tile>) -> bool {
    forall|u: Tile, v: Tile| #[trigger] adjacent4(u, v) && in_square(u, size) && interior(v, size)
        && reached(dist, size, u) && !q.contains(u) ==> reached(dist, size, v)
}

pub open spec fn manhattan(a: Tile, b: Tile) -> int {
    (if a.x >= b.x { a.x - b.x } else { b.x - a.x }) + (if a.y >= b.y { a.y - b.y } else { b.y - a.y })
}

/// One edge step from `u` toward `m`, horizontal first.
pub open spec fn step4_toward(u: Tile, m: Tile) -> Tile {
    if u.x < m.x {
        Tile { x: (u.x + 1) as u16, y: u.y }
    } else if u.x > m.x {
        Tile { x: (u.x - 1) as u16, y: u.y }
    } else if u.y < m.y {
        Tile { x: u.x, y: (u.y + 1) as u16 }
    } else {
        Tile { x: u.x, y: (u.y - 1) as u16 }
    }
}

proof fn lemma_interior_reached(size: u16, dist: Seq<u32>, m: Tile, u: Tile)
    requires
        closed4(size, dist, seq![]),
        in_square(m, size),
        interior(m, size),
        reached(dist, size, m),
        in_square(u, size),
        interior(u, size),
    ensures
        reached(dist, size, u),
    decreases manhattan(u, m),
{
    if u != m {
        let w = step4_toward(u, m);
        lemma_interior_reached(size, dist, m, w);
        assert(adjacent4(w, u));
    }
}

/// `a` comes before `b` row by row, left to right.
pub open spec fn row_major_before(a: Tile, b: Tile) -> bool {
    a.y < b.y || (a.y == b.y && a.x < b.x)
}

proof fn lemma_row_major_index(a: Tile, b: Tile, size: u16)
    requires
        in_square(a, size),
        in_square(b, size),
        row_major_before(a, b),
    ensures
        cell_index(a, size) < cell_index(b, size),
{
    if a.y < b.y {
        assert(a.y * size + a.x < b.y * size + b.x) by (nonlinear_arith)
            requires
                a.y < b.y,
                a.x < size,
        ;
    }
}

/// Marks the `main` cells at distance zero and queues them, in row-major order.
fn seed_main(g: &Grid, main: &Vec<bool>) -> (r: (Vec<u32>, Vec<Option<Tile>>, std::collections::VecDeque<Tile>))
    requires
        main@.len() == g.size * g.size,
    ensures
        r.0@.len() == g.size * g.size,
        r.1@.len() == g.size * g.size,
        forall|t: Tile| #![trigger cell_index(t, g.size)] in_square(t, g.size) ==>
            r.0@[cell_index(t, g.size)] == (if main@[cell_index(t, g.size)] { 0u32 } else { u32::MAX })
            && r.1@[cell_index(t, g.size)] is None,
        forall|i: int| 0 <= i < r.2@.len() ==> in_square(#[trigger] r.2@[i], g.size) && main@[cell_index(r.2@[i], g.size)],
        forall|t: Tile| #![trigger cell_index(t, g.size)] in_square(t, g.size) && main@[cell_index(t, g.size)] ==> r.2@.contains(t),
        r.2@.no_duplicates(),
        forall|i: int, j: int| 0 <= i < j < r.2@.len() ==> row_major_before(#[trigger] r.2@[i], #[trigger] r.2@[j]),
{
    let size = g.size;
    let n = size as usize;
    proof {
        assert(n * n <= 0xffff * 0xffff) by (nonlinear_arith)
            requires
                n <= 0xffff,
        ;
    }
    let mut dist: Vec<u32> = vec![u32::MAX; n * n];
    let mut parent: Vec<Option<Tile>> = vec![None; n * n];
    let mut queue: std::collections::VecDeque<Tile> = std::collections::VecDeque::new();
    proof {
        assert forall|t: Tile| #![trigger cell_index(t, size)] in_square(t, size) implies
            dist@[cell_index(t, size)] == (if t.y < 0 && main@[cell_index(t, size)] { 0u32 } else { u32::MAX })
            && parent@[cell_index(t, size)] is None by {
            lemma_index_bounds(t, size);
        }
    }
    let mut y: u16 = 0;
    while y < size
        invariant
            size == g.size,
            main@.len() == size * size,
            dist@.len() == size * size,
            parent@.len() == size * size,
            y <= size,
            forall|t: Tile| #![trigger cell_index(t, size)] in_square(t, size) ==>
                dist@[cell_index(t, size)] == (if t.y < y && main@[cell_index(t, size)] { 0u32 } else { u32::MAX })
                && parent@[cell_index(t, size)] is None,
            forall|i: int| 0 <= i < queue@.len() ==> in_square(#[trigger] queue@[i], size) && queue@[i].y < y && main@[cell_index(queue@[i], size)],
            forall|t: Tile| #![trigger cell_index(t, size)] in_square(t, size) && t.y < y && main@[cell_index(t, size)] ==> queue@.contains(t),
            queue@.no_duplicates(),
            forall|i: int, j: int| 0 <= i < j < queue@.len() ==> row_major_before(#[trigger] queue@[i], #[trigger] queue@[j]),
        decreases size - y,
    {
        let mut x: u16 = 0;
        while x < size
            invariant
                size == g.size,
                main@.len() == size * size,
                dist@.len() == size * size,
                parent@.len() == size * size,
                y < size,
                x <= size,
                forall|t: Tile| #![trigger cell_index(t, size)] in_square(t, size) ==>
                    dist@[cell_index(t, size)] == (if (t.y < y || (t.y == y && t.x < x)) && main@[cell_index(t, size)] { 0u32 } else { u32::MAX })
                    && parent@[cell_index(t, size)] is None,
                forall|i: int| 0 <= i < queue@.len() ==> in_square(#[trigger] queue@[i], size) && (queue@[i].y < y || (queue@[i].y == y && queue@[i].x < x)) && main@[cell_index(queue@[i], size)],
                forall|t: Tile| #![trigger cell_index(t, size)] in_square(t, size) && (t.y < y || (t.y == y && t.x < x)) && main@[cell_index(t, size)] ==> queue@.contains(t),
                queue@.no_duplicates(),
                forall|i: int, j: int| 0 <= i < j < queue@.len() ==> row_major_before(#[trigger] queue@[i], #[trigger] queue@[j]),
            decreases size - x,
        {
            let t = Tile { x, y };
            let i = g.idx(t);
            if main[i] {
                let ghost q0 = queue@;
                dist.set(i, 0);
                queue.push_back(t);
                proof {
                    assert(!q0.contains(t)) by {
                        if q0.contains(t) {
                            let j = choose|j: int| 0 <= j < q0.len() && q0[j] == t;
                        }
                    }
                    assert forall|u: Tile| #![trigger cell_index(u, size)] in_square(u, size) implies
                        dist@[cell_index(u, size)] == (if (u.y < y || (u.y == y && u.x < x + 1)) && main@[cell_index(u, size)] { 0u32 } else { u32::MAX })
                        && parent@[cell_index(u, size)] is None by {
                        lemma_index_bounds(u, size);
                        if cell_index(u, size) == i as int {
                            lemma_index_injective(u, t, size);
                        }
                    }
                    assert forall|j: int| 0 <= j < queue@.len() implies in_square(#[trigger] queue@[j], size) && (queue@[j].y < y || (queue@[j].y == y && queue@[j].x < x + 1)) && main@[cell_index(queue@[j], size)] by {
                        if j < q0.len() {
                            assert(queue@[j] == q0[j]);
                        }
                    }
                    assert forall|a: int, b: int| 0 <= a < b < queue@.len() implies row_major_before(#[trigger] queue@[a], #[trigger] queue@[b]) by {
                        assert(queue@[a] == q0[a]);
                        if b < q0.len() {
                            assert(queue@[b] == q0[b]);
                        }
                    }
                    assert forall|u: Tile| #![trigger cell_index(u, size)] in_square(u, size) && (u.y < y || (u.y == y && u.x < x + 1)) && main@[cell_index(u, size)] implies queue@.contains(u) by {
                        if u == t {
                            assert(queue@[q0.len() as int] == t);
                        } else {
                            assert(q0.contains(u));
                            let j = choose|j: int| 0 <= j < q0.len() && q0[j] == u;
                            assert(queue@[j] == u);
                        }
                    }
                }
            } else {
                proof {
                    assert forall|u: Tile| #![trigger cell_index(u, size)] in_square(u, size) implies
                        dist@[cell_index(u, size)] == (if (u.y < y || (u.y == y && u.x < x + 1)) && main@[cell_index(u, size)] { 0u32 } else { u32::MAX })
                        && parent@[cell_index(u, size)] is None by {
                        lemma_index_bounds(u, size);
                        if u.y == y && u.x == x {
                            assert(cell_index(u, size) == i as int);
                        }
                    }
                }
            }
            x += 1;
        }
        y += 1;
    }
    (dist, parent, queue)
}

#[verifier::opaque]
pub open spec fn c_queue_ok(size: u16, dist: Seq<u32>, q: Seq<Tile>) -> bool {
    &&& forall|i: int| 0 <= i < q.len() ==> in_square(#[trigger] q[i], size) && reached(dist, size, q[i])
    &&& q.no_duplicates()
}

/// Reached cells off the queue, other than `skip`, have every interior edge neighbor reached.
#[verifier::opaque]
pub open spec fn c_settled(size: u16, dist: Seq<u32>, q: Seq<Tile>, skip: Option<Tile>) -> bool {
    forall|u: Tile, v: Tile| #[trigger] adjacent4(u, v) && in_square(u, size) && interior(v, size)
        && reached(dist, size, u) && !q.contains(u) && skip != Some(u) ==> reached(dist, size, v)
}

#[verifier::opaque]
pub open spec fn mains_reached(size: u16, main: Seq<bool>, dist: Seq<u32>) -> bool {
    forall|c: Tile| #![trigger cell_index(c, size)] in_square(c, size) && main[cell_index(c, size)] ==> reached(dist, size, c)
}

#[verifier::opaque]
pub open spec fn corridor_state(size: u16, main: Seq<bool>, dist: Seq<u32>, parent: Seq<Option<Tile>>, q: Seq<Tile>, skip: Option<Tile>) -> bool {
    &&& main.len() == size * size
    &&& dist.len() == size * size
    &&& parent.len() == size * size
    &&& c_queue_ok(size, dist, q)
    &&& mains_reached(size, main, dist)
    &&& parents_ok(size, main, dist, parent)
    &&& c_settled(size, dist, q, skip)
}

proof fn lemma_seed_state(size: u16, main: Seq<bool>, dist: Seq<u32>, parent: Seq<Option<Tile>>, q: Seq<Tile>)
    requires
        main.len() == size * size,
        dist.len() == size * size,
        parent.len() == size * size,
        forall|t: Tile| #![trigger cell_index(t, size)] in_square(t, size) ==>
            dist[cell_index(t, size)] == (if main[cell_index(t, size)] { 0u32 } else { u32::MAX })
            && parent[cell_index(t, size)] is None,
        forall|i: int| 0 <= i < q.len() ==> in_square(#[trigger] q[i], size) && main[cell_index(q[i], size)],
        forall|t: Tile| #![trigger cell_index(t, size)] in_square(t, size) && main[cell_index(t, size)] ==> q.contains(t),
        q.no_duplicates(),
    ensures
        corridor_state(size, main, dist, parent, q, None),
{
    reveal(corridor_state);
    reveal(c_queue_ok);
    reveal(parents_ok);
    reveal(c_settled);
    reveal(mains_reached);
    assert forall|c: Tile| #![trigger cell_index(c, size)] in_square(c, size) && reached(dist, size, c) implies
        dist[cell_index(c, size)] < size * size - count_unreached(dist) by {
        lemma_index_bounds(c, size);
        lemma_count_zero_bound(dist, cell_index(c, size));
    }
}

/// The breadth-first order of the search: queued cells in order of distance, all within one of
/// the cell being expanded (or of the queue's head); every expanded cell no farther than that;
/// every interior edge neighbor of an expanded cell at most one farther; `main` at distance zero.
#[verifier::opaque]
pub open spec fn c_levels(size: u16, main: Seq<bool>, dist: Seq<u32>, q: Seq<Tile>, skip: Option<Tile>) -> bool {
    let front: int = match skip {
        Some(t) => dist[cell_index(t, size)] as int,
        None => if q.len() > 0 { dist[cell_index(q[0], size)] as int } else { 0 },
    };
    &&& forall|i: int, j: int| 0 <= i < j < q.len() ==> dist[cell_index(#[trigger] q[i], size)] <= dist[cell_index(#[trigger] q[j], size)]
    &&& forall|i: int| 0 <= i < q.len() ==> front <= dist[cell_index(#[trigger] q[i], size)] <= front + 1
    &&& forall|u: Tile| #![trigger cell_index(u, size)] in_square(u, size) && reached(dist, size, u) && !q.contains(u) && skip != Some(u)
        && (q.len() > 0 || skip is Some) ==> dist[cell_index(u, size)] <= front
    &&& forall|u: Tile, v: Tile| #[trigger] adjacent4(u, v) && in_square(u, size) && in_square(v, size) && interior(v, size)
        && reached(dist, size, u) && !q.contains(u) && skip != Some(u) ==> dist[cell_index(v, size)] <= dist[cell_index(u, size)] + 1
    &&& forall|c: Tile| #![trigger cell_index(c, size)] in_square(c, size) && main[cell_index(c, size)] ==> dist[cell_index(c, size)] == 0
}

proof fn lemma_levels_seed(size: u16, main: Seq<bool>, dist: Seq<u32>, q: Seq<Tile>)
    requires
        main.len() == size * size,
        dist.len() == size * size,
        forall|t: Tile| #![trigger cell_index(t, size)] in_square(t, size) ==>
            dist[cell_index(t, size)] == (if main[cell_index(t, size)] { 0u32 } else { u32::MAX }),
        forall|i: int| 0 <= i < q.len() ==> in_square(#[trigger] q[i], size) && main[cell_index(q[i], size)],
        forall|t: Tile| #![trigger cell_index(t, size)] in_square(t, size) && main[cell_index(t, size)] ==> q.contains(t),
    ensures
        c_levels(size, main, dist, q, None),
{
    reveal(c_levels);
    assert forall|i: int| 0 <= i < q.len() implies dist[cell_index(#[trigger] q[i], size)] == 0 by {
    }
    assert forall|u: Tile| #![trigger cell_index(u, size)] in_square(u, size) && reached(dist, size, u) implies q.contains(u) by {
    }
    assert forall|u: Tile, v: Tile| #[trigger] adjacent4(u, v) && in_square(u, size) && in_square(v, size) && interior(v, size)
        && reached(dist, size, u) && !q.contains(u) && None::<Tile> != Some(u) implies dist[cell_index(v, size)] <= dist[cell_index(u, size)] + 1 by {
        assert(q.contains(u));
    }
}

proof fn lemma_levels_pop(size: u16, main: Seq<bool>, dist: Seq<u32>, q0: Seq<Tile>, q: Seq<Tile>)
    requires
        c_levels(size, main, dist, q0, None),
        q0.len() > 0,
        q0.no_duplicates(),
        q == q0.subrange(1, q0.len() as int),
    ensures
        c_levels(size, main, dist, q, Some(q0[0])),
{
    reveal(c_levels);
    let t = q0[0];
    assert forall|i: int, j: int| 0 <= i < j < q.len() implies dist[cell_index(#[trigger] q[i], size)] <= dist[cell_index(#[trigger] q[j], size)] by {
        assert(q[i] == q0[i + 1] && q[j] == q0[j + 1]);
    }
    assert forall|i: int| 0 <= i < q.len() implies dist[cell_index(t, size)] <= dist[cell_index(#[trigger] q[i], size)] <= dist[cell_index(t, size)] + 1 by {
        assert(q[i] == q0[i + 1]);
    }
    assert forall|u: Tile| q0.contains(u) && u != t implies q.contains(u) by {
        let j = choose|j: int| 0 <= j < q0.len() && q0[j] == u;
        assert(j != 0);
        assert(q[j - 1] == u);
    }
}

proof fn lemma_levels_reach(size: u16, main: Seq<bool>, dist1: Seq<u32>, q1: Seq<Tile>, t: Tile, v: Tile, nd: Seq<u32>, nq: Seq<Tile>)
    requires
        c_levels(size, main, dist1, q1, Some(t)),
        c_settled(size, dist1, q1, Some(t)),
        forall|i: int| 0 <= i < q1.len() ==> in_square(#[trigger] q1[i], size) && reached(dist1, size, q1[i]),
        dist1.len() == size * size,
        in_square(t, size),
        in_square(v, size),
        interior(v, size),
        reached(dist1, size, t),
        !reached(dist1, size, v),
        dist1[cell_index(t, size)] < u32::MAX - 1,
        nd == dist1.update(cell_index(v, size), (dist1[cell_index(t, size)] + 1) as u32),
        nq == q1.push(v),
    ensures
        c_levels(size, main, nd, nq, Some(t)),
{
    reveal(c_levels);
    reveal(c_settled);
    lemma_index_bounds(v, size);
    lemma_index_bounds(t, size);
    assert forall|w: Tile| #![trigger cell_index(w, size)] in_square(w, size) && w != v implies nd[cell_index(w, size)] == dist1[cell_index(w, size)] by {
        lemma_index_bounds(w, size);
        if cell_index(w, size) == cell_index(v, size) {
            lemma_index_injective(w, v, size);
        }
    }
    assert(t != v);
    let dt = dist1[cell_index(t, size)] as int;
    assert(nd[cell_index(t, size)] == dt);
    assert(nd[cell_index(v, size)] == dt + 1);
    assert forall|i: int| 0 <= i < q1.len() implies #[trigger] q1[i] != v && nd[cell_index(q1[i], size)] == dist1[cell_index(q1[i], size)] by {
    }
    assert forall|i: int| 0 <= i < nq.len() implies dt <= nd[cell_index(#[trigger] nq[i], size)] <= dt + 1 by {
        if i < q1.len() {
            assert(nq[i] == q1[i]);
        }
    }
    assert forall|i: int, j: int| 0 <= i < j < nq.len() implies nd[cell_index(#[trigger] nq[i], size)] <= nd[cell_index(#[trigger] nq[j], size)] by {
        assert(nq[i] == q1[i]);
        if j < q1.len() {
            assert(nq[j] == q1[j]);
        }
    }
    assert forall|u: Tile| #![trigger cell_index(u, size)] in_square(u, size) && reached(nd, size, u) && !nq.contains(u) && Some(t) != Some(u)
        implies nd[cell_index(u, size)] <= dt by {
        if u == v {
            assert(nq[nq.len() - 1] == v);
        } else {
            if q1.contains(u) {
                let j = choose|j: int| 0 <= j < q1.len() && q1[j] == u;
                assert(nq[j] == u);
            }
        }
    }
    assert forall|u: Tile, w: Tile| #[trigger] adjacent4(u, w) && in_square(u, size) && in_square(w, size) && interior(w, size)
        && reached(nd, size, u) && !nq.contains(u) && Some(t) != Some(u) implies nd[cell_index(w, size)] <= nd[cell_index(u, size)] + 1 by {
        if u == v {
            assert(nq[nq.len() - 1] == v);
        } else {
            if q1.contains(u) {
                let j = choose|j: int| 0 <= j < q1.len() && q1[j] == u;
                assert(nq[j] == u);
            }
            assert(reached(dist1, size, w));
            assert(w != v);
        }
    }
    assert forall|c: Tile| #![trigger cell_index(c, size)] in_square(c, size) && main[cell_index(c, size)] implies nd[cell_index(c, size)] == 0 by {
        if c == v {
            assert(dist1[cell_index(c, size)] == 0);
        }
    }
}

proof fn lemma_levels_close(size: u16, main: Seq<bool>, dist: Seq<u32>, q: Seq<Tile>, t: Tile)
    requires
        c_levels(size, main, dist, q, Some(t)),
        in_square(t, size),
        !q.contains(t),
        forall|j: int, w: Tile| 0 <= j < 4 && #[trigger] neighbor_at(t, j, w) && in_square(w, size) && interior(w, size) ==> reached(dist, size, w),
    ensures
        c_levels(size, main, dist, q, None),
{
    reveal(c_levels);
    let dt = dist[cell_index(t, size)] as int;
    assert forall|u: Tile, v: Tile| #[trigger] adjacent4(u, v) && in_square(u, size) && in_square(v, size) && interior(v, size)
        && reached(dist, size, u) && !q.contains(u) && None::<Tile> != Some(u) implies dist[cell_index(v, size)] <= dist[cell_index(u, size)] + 1 by {
        if u == t {
            if v.x == t.x && v.y + 1 == t.y {
                assert(neighbor_at(t, 0, v));
            } else if v.x == t.x + 1 && v.y == t.y {
                assert(neighbor_at(t, 1, v));
            } else if v.x == t.x && v.y == t.y + 1 {
                assert(neighbor_at(t, 2, v));
            } else {
                assert(neighbor_at(t, 3, v));
            }
            assert(reached(dist, size, v));
            if q.contains(v) {
                let j = choose|j: int| 0 <= j < q.len() && q[j] == v;
                assert(dist[cell_index(q[j], size)] <= dt + 1);
            } else {
                assert(v != t);
            }
        }
    }
    if q.len() > 0 {
        assert forall|i: int| 0 <= i < q.len() implies dist[cell_index(q[0], size)] <= dist[cell_index(#[trigger] q[i], size)] <= dist[cell_index(q[0], size)] + 1 by {
            if i > 0 {
                assert(dist[cell_index(q[0], size)] <= dist[cell_index(q[i], size)]);
            }
            assert(dt <= dist[cell_index(q[0], size)]);
        }
        assert forall|u: Tile| #![trigger cell_index(u, size)] in_square(u, size) && reached(dist, size, u) && !q.contains(u)
            implies dist[cell_index(u, size)] <= dist[cell_index(q[0], size)] by {
            assert(dt <= dist[cell_index(q[0], size)]);
        }
    }
}

/// A reached entry leaves the count of unreached entries below the length.
proof fn lemma_count_zero_bound(s: Seq<u32>, i: int)
    requires
        0 <= i < s.len(),
        s[i] != u32::MAX,
    ensures
        count_unreached(s) < s.len(),
    decreases s.len(),
{
    if i < s.len() - 1 {
        lemma_count_zero_bound(s.drop_last(), i);
    } else {
        lemma_count_bound(s.drop_last());
    }
}

/// Reaches `v`, an interior edge neighbor of the reached tile `t`, from `t` unless it is reached.
#[verifier::spinoff_prover]
#[verifier::rlimit(30)]
fn reach(
    g: &Grid,
    dist: &mut Vec<u32>,
    parent: &mut Vec<Option<Tile>>,
    queue: &mut std::collections::VecDeque<Tile>,
    t: Tile,
    v: Tile,
    Ghost(main): Ghost<Seq<bool>>,
    Ghost(k): Ghost<int>,
)
    requires
        corridor_state(g.size, main, old(dist)@, old(parent)@, old(queue)@, Some(t)),
        c_order(g.size, main, old(dist)@, old(parent)@, old(queue)@, Some(t), k),
        0 <= k < 4,
        neighbor_at(t, k, v),
        forall|x: Tile| #![trigger cell_index(x, g.size)] in_square(x, g.size) && main[cell_index(x, g.size)] ==> interior(x, g.size),
        old(dist)@.len() == g.size * g.size,
        old(parent)@.len() == g.size * g.size,
        in_square(t, g.size),
        reached(old(dist)@, g.size, t),
        !old(queue)@.contains(t),
        in_square(v, g.size),
        interior(v, g.size),
        adjacent4(t, v),
        c_levels(g.size, main, old(dist)@, old(queue)@, Some(t)),
    ensures
        corridor_state(g.size, main, final(dist)@, final(parent)@, final(queue)@, Some(t)),
        c_levels(g.size, main, final(dist)@, final(queue)@, Some(t)),
        c_order(g.size, main, final(dist)@, final(parent)@, final(queue)@, Some(t), k + 1),
        final(dist)@.len() == g.size * g.size,
        final(parent)@.len() == g.size * g.size,
        !final(queue)@.contains(t),
        reached(final(dist)@, g.size, v),
        forall|w: Tile| #![trigger cell_index(w, g.size)] in_square(w, g.size) && reached(old(dist)@, g.size, w) ==>
            reached(final(dist)@, g.size, w),
        2 * count_unreached(final(dist)@) + final(queue)@.len() <= 2 * count_unreached(old(dist)@) + old(queue)@.len(),
{
    let size = g.size;
    let i = g.idx(v);
    let it = g.idx(t);
    proof {
        lemma_order_same(size, main, dist@, parent@, queue@, t, k);
    }
    if dist[i] != u32::MAX {
        return;
    }
    let ghost dist1 = dist@;
    let ghost parent1 = parent@;
    let ghost queue1 = queue@;
    proof {
        reveal(corridor_state);
        reveal(parents_ok);
        reveal(c_queue_ok);
        assert(dist1[cell_index(t, size)] < size * size - count_unreached(dist1));
        assert(size * size <= 0xffff * 0xffff) by (nonlinear_arith)
            requires
                size <= 0xffff,
        ;
        lemma_reach_decreases(dist1, i as int, (dist1[it as int] + 1) as u32);
        assert(!queue1.contains(v)) by {
            if queue1.contains(v) {
                let j = choose|j: int| 0 <= j < queue1.len() && queue1[j] == v;
                assert(reached(dist1, size, queue1[j]));
            }
        }
        assert(v != t);
    }
    let dt = dist[it];
    dist.set(i, dt + 1);
    parent.set(i, Some(t));
    queue.push_back(v);
    proof {
        reveal(corridor_state);
        reveal(c_queue_ok);
        lemma_levels_reach(size, main, dist1, queue1, t, v, dist@, queue@);
        reveal(parents_ok);
        reveal(c_settled);
        assert(interior(t, size)) by {
            if parent1[cell_index(t, size)] is None {
                assert(main[cell_index(t, size)]);
            }
        }
        lemma_order_reach(size, main, dist1, parent1, queue1, t, k, v, dist@, parent@, queue@);
    }
    proof {
        reveal(corridor_state);
        reveal(parents_ok);
        reveal(c_queue_ok);
        reveal(c_settled);
        let nd = dist@;
        let np = parent@;
        let nq = queue@;
        assert forall|w: Tile| #![trigger cell_index(w, size)] in_square(w, size) implies
            (reached(nd, size, w) <==> (reached(dist1, size, w) || w == v))
            && (w != v ==> nd[cell_index(w, size)] == dist1[cell_index(w, size)] && np[cell_index(w, size)] == parent1[cell_index(w, size)]) by {
            lemma_index_bounds(w, size);
            if cell_index(w, size) == i as int {
                lemma_index_injective(w, v, size);
            }
        }
        assert forall|c: Tile| #![trigger cell_index(c, size)] in_square(c, size) && reached(nd, size, c) implies {
            &&& nd[cell_index(c, size)] < size * size - count_unreached(nd)
            &&& match np[cell_index(c, size)] {
                None => main[cell_index(c, size)],
                Some(p) => {
                    &&& in_square(p, size)
                    &&& reached(nd, size, p)
                    &&& adjacent4(p, c)
                    &&& interior(c, size)
                    &&& nd[cell_index(p, size)] < nd[cell_index(c, size)]
                },
            }
        } by {
            lemma_index_bounds(c, size);
            if c != v {
                assert(reached(dist1, size, c));
                if let Some(p) = parent1[cell_index(c, size)] {
                    lemma_index_bounds(p, size);
                    assert(p != v);
                }
            } else {
                lemma_index_bounds(t, size);
            }
        }
        assert forall|j: int| 0 <= j < nq.len() implies in_square(#[trigger] nq[j], size) && reached(nd, size, nq[j]) by {
            if j < queue1.len() {
                assert(nq[j] == queue1[j]);
            }
        }
        assert(!nq.contains(t)) by {
            if nq.contains(t) {
                let j = choose|j: int| 0 <= j < nq.len() && nq[j] == t;
                if j < queue1.len() {
                    assert(queue1[j] == t);
                }
            }
        }
        assert forall|u: Tile, w: Tile| #[trigger] adjacent4(u, w) && in_square(u, size) && interior(w, size)
            && reached(nd, size, u) && !nq.contains(u) && Some(t) != Some(u) implies reached(nd, size, w) by {
            if u == v {
                assert(nq[nq.len() - 1] == v);
            } else {
                if queue1.contains(u) {
                    let j = choose|j: int| 0 <= j < queue1.len() && queue1[j] == u;
                    assert(nq[j] == u);
                }
                assert(reached(dist1, size, u));
                assert(in_square(w, size));
            }
        }
        reveal(mains_reached);
        assert(corridor_state(size, main, nd, np, nq, Some(t)));
    }
}

proof fn lemma_corridor_pop(size: u16, main: Seq<bool>, dist: Seq<u32>, parent: Seq<Option<Tile>>, q0: Seq<Tile>, q: Seq<Tile>)
    requires
        corridor_state(size, main, dist, parent, q0, None),
        q0.len() > 0,
        q == q0.subrange(1, q0.len() as int),
    ensures
        corridor_state(size, main, dist, parent, q, Some(q0[0])),
        !q.contains(q0[0]),
        in_square(q0[0], size),
        reached(dist, size, q0[0]),
        dist.len() == size * size,
        parent.len() == size * size,
{
    reveal(corridor_state);
    reveal(c_queue_ok);
    reveal(c_settled);
    let t = q0[0];
    assert(!q.contains(t)) by {
        if q.contains(t) {
            let j = choose|j: int| 0 <= j < q.len() && q[j] == t;
            assert(q0[j + 1] == t);
        }
    }
    assert forall|u: Tile| q0.contains(u) && u != t implies q.contains(u) by {
        let j = choose|j: int| 0 <= j < q0.len() && q0[j] == u;
        assert(j != 0);
        assert(q[j - 1] == u);
    }
    assert forall|j: int| 0 <= j < q.len() implies in_square(#[trigger] q[j], size) && reached(dist, size, q[j]) by {
        assert(q[j] == q0[j + 1]);
    }
    assert(q.no_duplicates()) by {
        assert forall|a: int, b: int| 0 <= a < b < q.len() implies q[a] != q[b] by {
            assert(q[a] == q0[a + 1]);
            assert(q[b] == q0[b + 1]);
        }
    }
    assert forall|u: Tile, v: Tile| #[trigger] adjacent4(u, v) && in_square(u, size) && interior(v, size)
        && reached(dist, size, u) && !q.contains(u) && Some(t) != Some(u) implies reached(dist, size, v) by {
        if q0.contains(u) {
            assert(q.contains(u));
        }
    }
}

proof fn lemma_corridor_close(size: u16, main: Seq<bool>, dist: Seq<u32>, parent: Seq<Option<Tile>>, q: Seq<Tile>, t: Tile)
    requires
        corridor_state(size, main, dist, parent, q, Some(t)),
        in_square(t, size),
        forall|j: int, w: Tile| 0 <= j < 4 && #[trigger] neighbor_at(t, j, w) && in_square(w, size) && interior(w, size) ==> reached(dist, size, w),
    ensures
        corridor_state(size, main, dist, parent, q, None),
{
    reveal(corridor_state);
    reveal(c_settled);
    assert forall|u: Tile, v: Tile| #[trigger] adjacent4(u, v) && in_square(u, size) && interior(v, size)
        && reached(dist, size, u) && !q.contains(u) implies reached(dist, size, v) by {
        if u == t {
            if v.x == t.x && v.y + 1 == t.y {
                assert(neighbor_at(t, 0, v));
            } else if v.x == t.x + 1 && v.y == t.y {
                assert(neighbor_at(t, 1, v));
            } else if v.x == t.x && v.y == t.y + 1 {
                assert(neighbor_at(t, 2, v));
            } else {
                assert(neighbor_at(t, 3, v));
            }
        }
    }
}

/// Pops the head of the queue and reaches its interior edge neighbors.
fn corridor_step(
    g: &Grid,
    dist: &mut Vec<u32>,
    parent: &mut Vec<Option<Tile>>,
    queue: &mut std::collections::VecDeque<Tile>,
    Ghost(main): Ghost<Seq<bool>>,
)
    requires
        corridor_state(g.size, main, old(dist)@, old(parent)@, old(queue)@, None),
        c_levels(g.size, main, old(dist)@, old(queue)@, None),
        c_order(g.size, main, old(dist)@, old(parent)@, old(queue)@, None, 0),
        forall|x: Tile| #![trigger cell_index(x, g.size)] in_square(x, g.size) && main[cell_index(x, g.size)] ==> interior(x, g.size),
        old(queue)@.len() > 0,
    ensures
        corridor_state(g.size, main, final(dist)@, final(parent)@, final(queue)@, None),
        c_levels(g.size, main, final(dist)@, final(queue)@, None),
        c_order(g.size, main, final(dist)@, final(parent)@, final(queue)@, None, 0),
        2 * count_unreached(final(dist)@) + final(queue)@.len() < 2 * count_unreached(old(dist)@) + old(queue)@.len(),
{
    let size = g.size;
    let ghost dist0 = dist@;
    let ghost queue0 = queue@;
    let t = match queue.pop_front() {
        Some(t) => t,
        None => {
            return;
        },
    };
    proof {
        lemma_corridor_pop(size, main, dist0, parent@, queue0, queue@);
        reveal(corridor_state);
        reveal(c_queue_ok);
        lemma_levels_pop(size, main, dist0, queue0, queue@);
        lemma_order_pop(size, main, dist0, parent@, queue0, queue@);
    }
    let mut k: usize = 0;
    while k < 4
        invariant
            size == g.size,
            corridor_state(size, main, dist@, parent@, queue@, Some(t)),
            c_levels(size, main, dist@, queue@, Some(t)),
            c_order(size, main, dist@, parent@, queue@, Some(t), k as int),
            forall|x: Tile| #![trigger cell_index(x, size)] in_square(x, size) && main[cell_index(x, size)] ==> interior(x, size),
            dist@.len() == size * size,
            parent@.len() == size * size,
            in_square(t, size),
            reached(dist@, size, t),
            !queue@.contains(t),
            0 <= k <= 4,
            forall|j: int, w: Tile| 0 <= j < k && #[trigger] neighbor_at(t, j, w) && in_square(w, size) && interior(w, size) ==> reached(dist@, size, w),
            2 * count_unreached(dist@) + queue@.len() < 2 * count_unreached(dist0) + queue0.len(),
        decreases 4 - k,
    {
        let (dx, dy) = offset(k);
        match g.tile(t.x as i32 + dx, t.y as i32 + dy) {
            None => {
                proof {
                    lemma_order_same(size, main, dist@, parent@, queue@, t, k as int);
                }
            },
            Some(n) => {
                if n.x == 0 || n.y == 0 || n.x == size - 1 || n.y == size - 1 {
                    proof {
                        lemma_order_same(size, main, dist@, parent@, queue@, t, k as int);
                    }
                } else {
                    let ghost before = dist@;
                    proof {
                        lemma_index_bounds(t, size);
                    }
                    reach(g, dist, parent, queue, t, n, Ghost(main), Ghost(k as int));
                    proof {
                        assert forall|j: int, w: Tile| 0 <= j < k + 1 && #[trigger] neighbor_at(t, j, w) && in_square(w, size) && interior(w, size) implies reached(dist@, size, w) by {
                            if j == k {
                                assert(w == n);
                            } else {
                                assert(reached(before, size, w));
                            }
                        }
                    }
                }
            },
        }
        k += 1;
    }
    proof {
        lemma_corridor_close(size, main, dist@, parent@, queue@, t);
        reveal(corridor_state);
        lemma_order_close(size, main, dist@, parent@, queue@, t);
        lemma_levels_close(size, main, dist@, queue@, t);
    }
}

/// Every reached cell lies at its distance from `main` and, unless in `main`, was entered from
/// its parent as `entry` says.
#[verifier::opaque]
pub open spec fn entered_from_parents(size: u16, main: Seq<bool>, dist: Seq<u32>, parent: Seq<Option<Tile>>) -> bool {
    forall|c: Tile| #![trigger cell_index(c, size)] in_square(c, size) && reached(dist, size, c) ==> {
        &&& main_distance(main, size, c, dist[cell_index(c, size)] as int)
        &&& dist[cell_index(c, size)] > 0 ==> parent[cell_index(c, size)] == Some(back_of(c, entry(main, size, c, dist[cell_index(c, size)] as int).2))
    }
}

proof fn lemma_route_end(size: u16, main: Seq<bool>, dist: Seq<u32>, parent: Seq<Option<Tile>>, cur: Tile)
    requires
        entered_from_parents(size, main, dist, parent),
        parents_ok(size, main, dist, parent),
        in_square(cur, size),
        reached(dist, size, cur),
        parent[cell_index(cur, size)] is None,
    ensures
        dist[cell_index(cur, size)] == 0,
        search_route(main, size, cur, dist[cell_index(cur, size)] as int) == seq![cur],
{
    reveal(entered_from_parents);
    reveal(parents_ok);
    assert(in_main(main, size, cur) && manhattan(cur, cur) == 0);
}

proof fn lemma_route_step(size: u16, main: Seq<bool>, dist: Seq<u32>, parent: Seq<Option<Tile>>, cur: Tile, p: Tile)
    requires
        entered_from_parents(size, main, dist, parent),
        parents_ok(size, main, dist, parent),
        in_square(cur, size),
        reached(dist, size, cur),
        parent[cell_index(cur, size)] == Some(p),
    ensures
        dist[cell_index(p, size)] == dist[cell_index(cur, size)] - 1,
        search_route(main, size, cur, dist[cell_index(cur, size)] as int)
            == seq![cur] + search_route(main, size, p, dist[cell_index(p, size)] as int),
{
    reveal(entered_from_parents);
    reveal(parents_ok);
    let dc = dist[cell_index(cur, size)] as int;
    lemma_index_bounds(p, size);
    lemma_md_adjacent(main, size, cur, dc, p, dist[cell_index(p, size)] as int);
}

proof fn lemma_order_entered(size: u16, main: Seq<bool>, dist: Seq<u32>, parent: Seq<Option<Tile>>, q: Seq<Tile>)
    requires
        c_order(size, main, dist, parent, q, None, 0),
    ensures
        entered_from_parents(size, main, dist, parent),
{
    reveal(c_order);
    reveal(entered_from_parents);
}

/// Walks parents from `t` into `main`.
#[verifier::spinoff_prover]
#[verifier::rlimit(40)]
fn parent_path(g: &Grid, dist: &Vec<u32>, parent: &Vec<Option<Tile>>, t: Tile, Ghost(main): Ghost<Seq<bool>>) -> (path: Vec<Tile>)
    requires
        parents_ok(g.size, main, dist@, parent@),
        dist@.len() == g.size * g.size,
        parent@.len() == g.size * g.size,
        in_square(t, g.size),
        reached(dist@, g.size, t),
        forall|c: Tile| #![trigger cell_index(c, g.size)] in_square(c, g.size) && main[cell_index(c, g.size)] ==> interior(c, g.size),
        entered_from_parents(g.size, main, dist@, parent@),
    ensures
        path@ == search_route(main, g.size, t, dist@[cell_index(t, g.size)] as int),
        path@.len() >= 1,
        path@[0] == t,
        forall|k: int| 0 <= k < path@.len() ==> in_square(#[trigger] path@[k], g.size),
        forall|k: int| 0 <= k < path@.len() - 1 ==> #[trigger] adjacent4(path@[k], path@[k + 1]) && interior(path@[k], g.size),
        in_main(main, g.size, path@.last()),
        path@.len() - 1 == dist@[cell_index(t, g.size)],
{
    let size = g.size;
    let mut path: Vec<Tile> = vec![t];
    let mut cur = t;
    proof {
        reveal(parents_ok);
    }
    loop
        invariant
            size == g.size,
            parents_ok(size, main, dist@, parent@),
            dist@.len() == size * size,
            parent@.len() == size * size,
            in_square(cur, size),
            reached(dist@, size, cur),
            path@.len() >= 1,
            path@[0] == t,
            path@.last() == cur,
            forall|k: int| 0 <= k < path@.len() ==> in_square(#[trigger] path@[k], size),
            forall|k: int| 0 <= k < path@.len() - 1 ==> #[trigger] adjacent4(path@[k], path@[k + 1]) && interior(path@[k], size),
            path@.len() - 1 + dist@[cell_index(cur, size)] == dist@[cell_index(t, size)],
            entered_from_parents(size, main, dist@, parent@),
            search_route(main, size, t, dist@[cell_index(t, size)] as int)
                == path@.subrange(0, path@.len() - 1) + search_route(main, size, cur, dist@[cell_index(cur, size)] as int),
        ensures
            path@ == search_route(main, size, t, dist@[cell_index(t, size)] as int),
            path@.len() - 1 == dist@[cell_index(t, size)],
            in_main(main, size, path@.last()),
            path@.len() >= 1,
            path@[0] == t,
            forall|k: int| 0 <= k < path@.len() ==> in_square(#[trigger] path@[k], size),
            forall|k: int| 0 <= k < path@.len() - 1 ==> #[trigger] adjacent4(path@[k], path@[k + 1]) && interior(path@[k], size),
        decreases dist@[cell_index(cur, size)],
    {
        proof {
            reveal(parents_ok);
            lemma_index_bounds(cur, size);
        }
        let i = g.idx(cur);
        match parent[i] {
            None => {
                proof {
                    lemma_route_end(size, main, dist@, parent@, cur);
                    assert(path@ == path@.subrange(0, path@.len() - 1) + seq![cur]);
                }
                break;
            },
            Some(p) => {
                let ghost before = path@;
                proof {
                    lemma_route_step(size, main, dist@, parent@, cur, p);
                    assert(before.subrange(0, before.len() - 1) + seq![cur] == before);
                }
                path.push(p);
                proof {
                    assert(path@.subrange(0, path@.len() - 1) == before);
                }
                proof {
                    assert forall|k: int| 0 <= k < path@.len() - 1 implies #[trigger] adjacent4(path@[k], path@[k + 1]) && interior(path@[k], size) by {
                        if k < before.len() - 1 {
                            assert(path@[k] == before[k] && path@[k + 1] == before[k + 1]);
                            assert(adjacent4(before[k], before[k + 1]));
                        } else {
                            assert(path@[k] == cur && path@[k + 1] == p);
                        }
                    }
                }
                cur = p;
            },
        }
    }
    path
}

/// `d` is the fewest edge steps from `c` to a cell of `main`.
pub open spec fn main_distance(main: Seq<bool>, size: u16, c: Tile, d: int) -> bool {
    &&& forall|m: Tile| #[trigger] in_main(main, size, m) ==> d <= manhattan(c, m)
    &&& exists|m: Tile| #[trigger] in_main(main, size, m) && manhattan(c, m) == d
}

/// The edge neighbor from which a step in direction `k` arrives at `c`.
pub open spec fn back_of(c: Tile, k: int) -> Tile {
    Tile { x: (c.x - off_x(k)) as u16, y: (c.y - off_y(k)) as u16 }
}

/// The search can enter the interior cell `c` at distance `d` by a step in direction `k`: from an
/// interior cell at distance `d - 1`.
pub open spec fn enters(main: Seq<bool>, size: u16, c: Tile, d: int, k: int) -> bool {
    &&& interior(c, size)
    &&& interior(back_of(c, k), size)
    &&& main_distance(main, size, back_of(c, k), d - 1)
}

/// Folds one candidate `(r, k)` into the best so far: the lowest rank among enabled candidates.
pub open spec fn pick(on: bool, r: int, k: int, acc: (bool, int, int)) -> (bool, int, int) {
    if on && (!acc.0 || r < acc.1) { (true, r, k) } else { acc }
}

/// How the search first enters `c` at distance `d` from `main`: whether it does, the rank of `c`
/// in the search's visiting order among the cells at that distance, and the direction of the
/// entering step. `main` cells rank in row-major order; any other cell is entered from the
/// lowest-ranked neighbor one nearer, and ranks by that neighbor's rank, then by the direction
/// (up, right, down, left).
#[verifier::opaque]
pub open spec fn entry(main: Seq<bool>, size: u16, c: Tile, d: int) -> (bool, int, int)
    decreases d,
{
    if d <= 0 {
        (true, cell_index(c, size), 0)
    } else {
        let r0 = entry(main, size, back_of(c, 0), d - 1).1 * 4;
        let r1 = entry(main, size, back_of(c, 1), d - 1).1 * 4 + 1;
        let r2 = entry(main, size, back_of(c, 2), d - 1).1 * 4 + 2;
        let r3 = entry(main, size, back_of(c, 3), d - 1).1 * 4 + 3;
        pick(enters(main, size, c, d, 3), r3, 3, pick(enters(main, size, c, d, 2), r2, 2,
            pick(enters(main, size, c, d, 1), r1, 1, pick(enters(main, size, c, d, 0), r0, 0, (false, 0, 0)))))
    }
}

/// The route the search walks back from `c`, at distance `d` from `main`, into `main`.
pub open spec fn search_route(main: Seq<bool>, size: u16, c: Tile, d: int) -> Seq<Tile>
    decreases d,
{
    if d <= 0 {
        seq![c]
    } else {
        seq![c] + search_route(main, size, back_of(c, entry(main, size, c, d).2), d - 1)
    }
}

/// The rank of a reached cell at its distance.
pub open spec fn rank_of(main: Seq<bool>, size: u16, dist: Seq<u32>, c: Tile) -> int {
    entry(main, size, c, dist[cell_index(c, size)] as int).1
}

proof fn lemma_entry_unfold(main: Seq<bool>, size: u16, c: Tile, d: int)
    requires
        d > 0,
    ensures
        ({
            let e = entry(main, size, c, d);
            &&& e.0 <==> exists|k: int| 0 <= k < 4 && #[trigger] enters(main, size, c, d, k)
            &&& e.0 ==> 0 <= e.2 < 4 && enters(main, size, c, d, e.2)
                && e.1 == entry(main, size, back_of(c, e.2), d - 1).1 * 4 + e.2
                && forall|k: int| 0 <= k < 4 && #[trigger] enters(main, size, c, d, k)
                    ==> e.1 <= entry(main, size, back_of(c, k), d - 1).1 * 4 + k
        }),
{
    reveal(entry);
    let e = entry(main, size, c, d);
    if e.0 {
        assert forall|k: int| 0 <= k < 4 && #[trigger] enters(main, size, c, d, k)
            implies e.1 <= entry(main, size, back_of(c, k), d - 1).1 * 4 + k by {
            if k == 0 {} else if k == 1 {} else if k == 2 {} else {}
        }
    } else {
        assert forall|k: int| 0 <= k < 4 implies !#[trigger] enters(main, size, c, d, k) by {
            if k == 0 {} else if k == 1 {} else if k == 2 {} else {}
        }
    }
}

proof fn lemma_entry_zero(main: Seq<bool>, size: u16, c: Tile)
    ensures
        entry(main, size, c, 0) == (true, cell_index(c, size), 0int),
{
    reveal(entry);
}

pub(crate) proof fn lemma_md_unique(main: Seq<bool>, size: u16, c: Tile, d1: int, d2: int)
    requires
        main_distance(main, size, c, d1),
        main_distance(main, size, c, d2),
    ensures
        d1 == d2,
{
    let m1 = choose|m: Tile| #[trigger] in_main(main, size, m) && manhattan(c, m) == d1;
    let m2 = choose|m: Tile| #[trigger] in_main(main, size, m) && manhattan(c, m) == d2;
    assert(d1 <= manhattan(c, m2));
    assert(d2 <= manhattan(c, m1));
}

proof fn lemma_md_adjacent(main: Seq<bool>, size: u16, a: Tile, da: int, b: Tile, db: int)
    requires
        main_distance(main, size, a, da),
        main_distance(main, size, b, db),
        adjacent4(a, b),
    ensures
        da <= db + 1,
{
    let m = choose|m: Tile| #[trigger] in_main(main, size, m) && manhattan(b, m) == db;
    assert(da <= manhattan(a, m));
}

/// A cell at distance `d > 0` from `main` has an interior edge neighbor at distance `d - 1`.
proof fn lemma_md_step(main: Seq<bool>, size: u16, c: Tile, d: int) -> (n: Tile)
    requires
        main_distance(main, size, c, d),
        d > 0,
        interior(c, size),
        forall|x: Tile| #![trigger cell_index(x, size)] in_square(x, size) && main[cell_index(x, size)] ==> interior(x, size),
    ensures
        interior(n, size),
        adjacent4(n, c),
        main_distance(main, size, n, d - 1),
        n == back_of(c, if n.x > c.x { 3int } else if n.x < c.x { 1int } else if n.y > c.y { 0int } else { 2int }),
{
    let m = choose|m: Tile| #[trigger] in_main(main, size, m) && manhattan(c, m) == d;
    assert(interior(m, size)) by {
        assert(in_square(m, size) && main[cell_index(m, size)]);
    }
    let n = step4_toward(c, m);
    assert(manhattan(n, m) == d - 1);
    assert forall|m2: Tile| #[trigger] in_main(main, size, m2) implies d - 1 <= manhattan(n, m2) by {
        assert(d <= manhattan(c, m2));
    }
    assert(in_main(main, size, m) && manhattan(n, m) == d - 1);
    n
}

/// A cell at distance `d > 0` from `main` is entered by the search.
proof fn lemma_entry_valid(main: Seq<bool>, size: u16, c: Tile, d: int)
    requires
        main_distance(main, size, c, d),
        d > 0,
        interior(c, size),
        forall|x: Tile| #![trigger cell_index(x, size)] in_square(x, size) && main[cell_index(x, size)] ==> interior(x, size),
    ensures
        entry(main, size, c, d).0,
{
    let n = lemma_md_step(main, size, c, d);
    let k: int = if n.x > c.x { 3int } else if n.x < c.x { 1int } else if n.y > c.y { 0int } else { 2int };
    assert(enters(main, size, c, d, k));
    lemma_entry_unfold(main, size, c, d);
}

/// `v` is the `k`-th edge neighbor of `t`: `t` is where a step in direction `k` into `v` starts.
proof fn lemma_back_of(t: Tile, k: int, v: Tile)
    requires
        0 <= k < 4,
        neighbor_at(t, k, v),
    ensures
        back_of(v, k) == t,
        adjacent4(t, v),
{
}

/// Distinct cells at one distance from `main` have distinct ranks.
proof fn lemma_rank_injective(main: Seq<bool>, size: u16, a: Tile, b: Tile, d: int)
    requires
        d >= 0,
        main_distance(main, size, a, d),
        main_distance(main, size, b, d),
        interior(a, size),
        interior(b, size),
        forall|x: Tile| #![trigger cell_index(x, size)] in_square(x, size) && main[cell_index(x, size)] ==> interior(x, size),
        entry(main, size, a, d).1 == entry(main, size, b, d).1,
    ensures
        a == b,
    decreases d,
{
    if d == 0 {
        lemma_entry_zero(main, size, a);
        lemma_entry_zero(main, size, b);
        lemma_index_injective(a, b, size);
    } else {
        lemma_entry_valid(main, size, a, d);
        lemma_entry_valid(main, size, b, d);
        lemma_entry_unfold(main, size, a, d);
        lemma_entry_unfold(main, size, b, d);
        let ea = entry(main, size, a, d);
        let eb = entry(main, size, b, d);
        let pa = back_of(a, ea.2);
        let pb = back_of(b, eb.2);
        let xa = entry(main, size, pa, d - 1).1;
        let xb = entry(main, size, pb, d - 1).1;
        assert(ea.2 == eb.2 && xa == xb) by (nonlinear_arith)
            requires
                xa * 4 + ea.2 == xb * 4 + eb.2,
                0 <= ea.2 < 4,
                0 <= eb.2 < 4,
        ;
        lemma_rank_injective(main, size, pa, pb, d - 1);
    }
}

/// Distance of the cell being expanded, or else of the queue's head.
pub open spec fn front_of(size: u16, dist: Seq<u32>, q: Seq<Tile>, skip: Option<Tile>) -> int {
    match skip {
        Some(t) => dist[cell_index(t, size)] as int,
        None => if q.len() > 0 { dist[cell_index(q[0], size)] as int } else { 0 },
    }
}

/// The search's visiting order: every reached cell lies at its distance from `main` and was entered
/// from its parent as `entry` says; queued cells at one distance come in rank order; every
/// interior cell within the front's distance of `main` is reached; while `skip` is expanded (its
/// first `k` directions done) the queued cells at its distance rank after it and those one
/// farther rank before the cells it has yet to add; between expansions, the queued cells one
/// farther than the head rank before anything the head adds.
#[verifier::opaque]
pub open spec fn c_order(size: u16, main: Seq<bool>, dist: Seq<u32>, parent: Seq<Option<Tile>>, q: Seq<Tile>, skip: Option<Tile>, k: int) -> bool {
    let front = front_of(size, dist, q, skip);
    &&& forall|c: Tile| #![trigger cell_index(c, size)] in_square(c, size) && reached(dist, size, c) ==> {
        &&& main_distance(main, size, c, dist[cell_index(c, size)] as int)
        &&& dist[cell_index(c, size)] > 0 ==> parent[cell_index(c, size)] == Some(back_of(c, entry(main, size, c, dist[cell_index(c, size)] as int).2))
    }
    &&& forall|i: int, j: int| 0 <= i < j < q.len() && dist[cell_index(#[trigger] q[i], size)] == dist[cell_index(#[trigger] q[j], size)]
        ==> rank_of(main, size, dist, q[i]) < rank_of(main, size, dist, q[j])
    &&& forall|c: Tile, m: Tile| interior(c, size) && in_main(main, size, m) && #[trigger] manhattan(c, m) <= front ==> reached(dist, size, c)
    &&& skip matches Some(t) ==> forall|i: int| 0 <= i < q.len() ==> {
        &&& dist[cell_index(#[trigger] q[i], size)] == dist[cell_index(t, size)] ==> rank_of(main, size, dist, q[i]) > rank_of(main, size, dist, t)
        &&& dist[cell_index(q[i], size)] == dist[cell_index(t, size)] + 1 ==> rank_of(main, size, dist, q[i]) < rank_of(main, size, dist, t) * 4 + k
    }
    &&& skip is None && q.len() > 0 ==> forall|i: int| 0 <= i < q.len() && dist[cell_index(#[trigger] q[i], size)] == dist[cell_index(q[0], size)] + 1
        ==> rank_of(main, size, dist, q[i]) < rank_of(main, size, dist, q[0]) * 4
}

#[verifier::spinoff_prover]
#[verifier::rlimit(30)]
proof fn lemma_order_seed(size: u16, main: Seq<bool>, dist: Seq<u32>, parent: Seq<Option<Tile>>, q: Seq<Tile>)
    requires
        main.len() == size * size,
        dist.len() == size * size,
        forall|t: Tile| #![trigger cell_index(t, size)] in_square(t, size) ==>
            dist[cell_index(t, size)] == (if main[cell_index(t, size)] { 0u32 } else { u32::MAX }),
        forall|i: int| 0 <= i < q.len() ==> in_square(#[trigger] q[i], size) && main[cell_index(q[i], size)],
        forall|i: int, j: int| 0 <= i < j < q.len() ==> row_major_before(#[trigger] q[i], #[trigger] q[j]),
    ensures
        c_order(size, main, dist, parent, q, None, 0),
{
    reveal(c_order);
    assert forall|c: Tile| #![trigger cell_index(c, size)] in_square(c, size) && reached(dist, size, c) implies
        main_distance(main, size, c, dist[cell_index(c, size)] as int) by {
        assert(in_main(main, size, c) && manhattan(c, c) == 0);
    }
    assert forall|i: int, j: int| 0 <= i < j < q.len() && dist[cell_index(#[trigger] q[i], size)] == dist[cell_index(#[trigger] q[j], size)]
        implies rank_of(main, size, dist, q[i]) < rank_of(main, size, dist, q[j]) by {
        lemma_entry_zero(main, size, q[i]);
        lemma_entry_zero(main, size, q[j]);
        lemma_row_major_index(q[i], q[j], size);
    }
    assert forall|c: Tile, m: Tile| interior(c, size) && in_main(main, size, m) && #[trigger] manhattan(c, m) <= front_of(size, dist, q, None)
        implies reached(dist, size, c) by {
        if q.len() > 0 {
            assert(dist[cell_index(q[0], size)] == 0);
        }
        assert(c == m);
    }
}

proof fn lemma_order_pop(size: u16, main: Seq<bool>, dist: Seq<u32>, parent: Seq<Option<Tile>>, q0: Seq<Tile>, q: Seq<Tile>)
    requires
        c_order(size, main, dist, parent, q0, None, 0),
        q0.len() > 0,
        q == q0.subrange(1, q0.len() as int),
    ensures
        c_order(size, main, dist, parent, q, Some(q0[0]), 0),
{
    reveal(c_order);
    let t = q0[0];
    assert forall|i: int, j: int| 0 <= i < j < q.len() && dist[cell_index(#[trigger] q[i], size)] == dist[cell_index(#[trigger] q[j], size)]
        implies rank_of(main, size, dist, q[i]) < rank_of(main, size, dist, q[j]) by {
        assert(q[i] == q0[i + 1] && q[j] == q0[j + 1]);
    }
    assert forall|i: int| 0 <= i < q.len() implies {
        &&& dist[cell_index(#[trigger] q[i], size)] == dist[cell_index(t, size)] ==> rank_of(main, size, dist, q[i]) > rank_of(main, size, dist, t)
        &&& dist[cell_index(q[i], size)] == dist[cell_index(t, size)] + 1 ==> rank_of(main, size, dist, q[i]) < rank_of(main, size, dist, t) * 4 + 0
    } by {
        assert(q[i] == q0[i + 1]);
    }
}

proof fn lemma_order_same(size: u16, main: Seq<bool>, dist: Seq<u32>, parent: Seq<Option<Tile>>, q: Seq<Tile>, t: Tile, k: int)
    requires
        c_order(size, main, dist, parent, q, Some(t), k),
    ensures
        c_order(size, main, dist, parent, q, Some(t), k + 1),
{
    reveal(c_order);
}

/// Expanding `t`, the search reaches `v`, its `k`-th neighbor, for the first time: `v` lies one
/// farther than `t` from `main` and is entered from `t`, as `entry` says.
#[verifier::rlimit(40)]
proof fn lemma_order_reach(
    size: u16, main: Seq<bool>, dist1: Seq<u32>, parent1: Seq<Option<Tile>>, q1: Seq<Tile>,
    t: Tile, k: int, v: Tile, nd: Seq<u32>, np: Seq<Option<Tile>>, nq: Seq<Tile>,
)
    requires
        c_order(size, main, dist1, parent1, q1, Some(t), k),
        c_settled(size, dist1, q1, Some(t)),
        forall|i: int| 0 <= i < q1.len() ==> in_square(#[trigger] q1[i], size) && reached(dist1, size, q1[i]),
        dist1.len() == size * size,
        parent1.len() == size * size,
        forall|x: Tile| #![trigger cell_index(x, size)] in_square(x, size) && main[cell_index(x, size)] ==> interior(x, size),
        in_square(t, size),
        interior(t, size),
        reached(dist1, size, t),
        !q1.contains(t),
        0 <= k < 4,
        neighbor_at(t, k, v),
        in_square(v, size),
        interior(v, size),
        !reached(dist1, size, v),
        dist1[cell_index(t, size)] < u32::MAX - 1,
        nd == dist1.update(cell_index(v, size), (dist1[cell_index(t, size)] + 1) as u32),
        np == parent1.update(cell_index(v, size), Some(t)),
        nq == q1.push(v),
    ensures
        c_order(size, main, nd, np, nq, Some(t), k + 1),
{
    reveal(c_order);
    reveal(c_settled);
    lemma_index_bounds(v, size);
    lemma_index_bounds(t, size);
    let dt = dist1[cell_index(t, size)] as int;
    assert forall|w: Tile| #![trigger cell_index(w, size)] in_square(w, size) && w != v implies
        nd[cell_index(w, size)] == dist1[cell_index(w, size)] && np[cell_index(w, size)] == parent1[cell_index(w, size)] by {
        lemma_index_bounds(w, size);
        if cell_index(w, size) == cell_index(v, size) {
            lemma_index_injective(w, v, size);
        }
    }
    assert(main_distance(main, size, t, dt));
    lemma_back_of(t, k, v);
    // `v` lies one farther than `t` from `main`.
    let m = choose|m: Tile| #[trigger] in_main(main, size, m) && manhattan(t, m) == dt;
    assert forall|m2: Tile| #[trigger] in_main(main, size, m2) implies dt + 1 <= manhattan(v, m2) by {
        if manhattan(v, m2) <= dt {
            assert(reached(dist1, size, v));
        }
    }
    assert(in_main(main, size, m) && manhattan(v, m) == dt + 1);
    assert(main_distance(main, size, v, dt + 1));
    // `v` is entered from `t`.
    let rt = entry(main, size, t, dt).1;
    assert(enters(main, size, v, dt + 1, k));
    assert forall|j: int| 0 <= j < 4 && j != k && #[trigger] enters(main, size, v, dt + 1, j)
        implies entry(main, size, back_of(v, j), dt).1 > rt by {
        let n = back_of(v, j);
        assert(n != t);
        assert(adjacent4(n, v));
        let mn = choose|mm: Tile| #[trigger] in_main(main, size, mm) && manhattan(n, mm) == dt;
        assert(manhattan(n, mn) <= dt);
        assert(reached(dist1, size, n));
        lemma_md_unique(main, size, n, dist1[cell_index(n, size)] as int, dt);
        if entry(main, size, n, dt).1 == rt {
            lemma_rank_injective(main, size, n, t, dt);
        }
        if entry(main, size, n, dt).1 < rt {
            if q1.contains(n) {
                let i = choose|i: int| 0 <= i < q1.len() && q1[i] == n;
                assert(dist1[cell_index(q1[i], size)] == dist1[cell_index(t, size)]);
            }
            assert(reached(dist1, size, v));
        }
    }
    lemma_entry_unfold(main, size, v, dt + 1);
    let e = entry(main, size, v, dt + 1);
    assert(e.2 == k) by {
        if e.2 != k {
            let x = entry(main, size, back_of(v, e.2), dt).1;
            assert(x > rt);
            assert(x * 4 + e.2 > rt * 4 + k) by (nonlinear_arith)
                requires
                    x >= rt + 1,
                    0 <= k < 4,
                    0 <= e.2,
            ;
        }
    }
    assert(e.1 == rt * 4 + k);
    assert(nd[cell_index(v, size)] == dt + 1);
    assert(rank_of(main, size, nd, v) == rt * 4 + k);
    assert(rank_of(main, size, nd, t) == rt);
    assert forall|i: int| 0 <= i < q1.len() implies #[trigger] q1[i] != v && rank_of(main, size, nd, q1[i]) == rank_of(main, size, dist1, q1[i])
        && nd[cell_index(q1[i], size)] == dist1[cell_index(q1[i], size)] by {
    }
    assert forall|c: Tile| #![trigger cell_index(c, size)] in_square(c, size) && reached(nd, size, c) implies {
        &&& main_distance(main, size, c, nd[cell_index(c, size)] as int)
        &&& nd[cell_index(c, size)] > 0 ==> np[cell_index(c, size)] == Some(back_of(c, entry(main, size, c, nd[cell_index(c, size)] as int).2))
    } by {
        if c != v {
            assert(reached(dist1, size, c));
        }
    }
    assert forall|i: int, j: int| 0 <= i < j < nq.len() && nd[cell_index(#[trigger] nq[i], size)] == nd[cell_index(#[trigger] nq[j], size)]
        implies rank_of(main, size, nd, nq[i]) < rank_of(main, size, nd, nq[j]) by {
        assert(nq[i] == q1[i]);
        if j < q1.len() {
            assert(nq[j] == q1[j]);
        }
    }
    assert forall|c: Tile, m2: Tile| interior(c, size) && in_main(main, size, m2) && #[trigger] manhattan(c, m2) <= front_of(size, nd, nq, Some(t))
        implies reached(nd, size, c) by {
        assert(reached(dist1, size, c));
        if c != v {
        }
    }
    assert forall|i: int| 0 <= i < nq.len() implies {
        &&& nd[cell_index(#[trigger] nq[i], size)] == nd[cell_index(t, size)] ==> rank_of(main, size, nd, nq[i]) > rank_of(main, size, nd, t)
        &&& nd[cell_index(nq[i], size)] == nd[cell_index(t, size)] + 1 ==> rank_of(main, size, nd, nq[i]) < rank_of(main, size, nd, t) * 4 + (k + 1)
    } by {
        if i < q1.len() {
            assert(nq[i] == q1[i]);
        }
    }
}

proof fn lemma_levels_bounds(size: u16, main: Seq<bool>, dist: Seq<u32>, q: Seq<Tile>, t: Tile)
    requires
        c_levels(size, main, dist, q, Some(t)),
    ensures
        forall|i: int| 0 <= i < q.len() ==> dist[cell_index(t, size)] <= dist[cell_index(#[trigger] q[i], size)] <= dist[cell_index(t, size)] + 1,
        forall|i: int| 0 <= i < q.len() ==> dist[cell_index(q[0], size)] <= dist[cell_index(#[trigger] q[i], size)],
{
    reveal(c_levels);
    assert forall|i: int| 0 <= i < q.len() implies dist[cell_index(q[0], size)] <= dist[cell_index(#[trigger] q[i], size)] by {
        if i > 0 {
            assert(dist[cell_index(q[0], size)] <= dist[cell_index(q[i], size)]);
        }
    }
}

proof fn lemma_settled_use(size: u16, dist: Seq<u32>, q: Seq<Tile>, u: Tile, v: Tile)
    requires
        c_settled(size, dist, q, None),
        adjacent4(u, v),
        in_square(u, size),
        interior(v, size),
        reached(dist, size, u),
        !q.contains(u),
    ensures
        reached(dist, size, v),
{
    reveal(c_settled);
}

/// Once every queued cell is one farther than the last expanded cell, every interior cell within
/// that distance of `main` is reached.
proof fn lemma_front_advance(size: u16, main: Seq<bool>, dist: Seq<u32>, q: Seq<Tile>, dt: int, c: Tile, m: Tile)
    requires
        c_settled(size, dist, q, None),
        dist.len() == size * size,
        forall|x: Tile| #![trigger cell_index(x, size)] in_square(x, size) && main[cell_index(x, size)] ==> interior(x, size),
        forall|x: Tile| #![trigger cell_index(x, size)] in_square(x, size) && reached(dist, size, x) ==> main_distance(main, size, x, dist[cell_index(x, size)] as int),
        forall|x: Tile, mm: Tile| interior(x, size) && in_main(main, size, mm) && #[trigger] manhattan(x, mm) <= dt ==> reached(dist, size, x),
        forall|i: int| 0 <= i < q.len() ==> dist[cell_index(#[trigger] q[i], size)] == dt + 1,
        dt >= 0,
        interior(c, size),
        in_main(main, size, m),
        manhattan(c, m) == dt + 1,
    ensures
        reached(dist, size, c),
{
    assert(interior(m, size)) by {
        assert(in_square(m, size) && main[cell_index(m, size)]);
    }
    let n = step4_toward(c, m);
    assert(manhattan(n, m) == dt);
    assert(reached(dist, size, n));
    assert(main_distance(main, size, n, dist[cell_index(n, size)] as int));
    assert(dist[cell_index(n, size)] <= dt);
    assert(!q.contains(n)) by {
        if q.contains(n) {
            let i = choose|i: int| 0 <= i < q.len() && q[i] == n;
        }
    }
    assert(adjacent4(n, c));
    lemma_settled_use(size, dist, q, n, c);
}

proof fn lemma_order_close(size: u16, main: Seq<bool>, dist: Seq<u32>, parent: Seq<Option<Tile>>, q: Seq<Tile>, t: Tile)
    requires
        c_order(size, main, dist, parent, q, Some(t), 4),
        c_levels(size, main, dist, q, Some(t)),
        c_settled(size, dist, q, None),
        dist.len() == size * size,
        forall|x: Tile| #![trigger cell_index(x, size)] in_square(x, size) && main[cell_index(x, size)] ==> interior(x, size),
        in_square(t, size),
        reached(dist, size, t),
    ensures
        c_order(size, main, dist, parent, q, None, 0),
{
    lemma_levels_bounds(size, main, dist, q, t);
    reveal(c_order);
    let dt = dist[cell_index(t, size)] as int;
    if q.len() > 0 {
        let h = q[0];
        assert forall|i: int| 0 <= i < q.len() && dist[cell_index(#[trigger] q[i], size)] == dist[cell_index(q[0], size)] + 1
            implies rank_of(main, size, dist, q[i]) < rank_of(main, size, dist, q[0]) * 4 by {
            assert(dist[cell_index(q[i], size)] <= dt + 1);
        }
        if dist[cell_index(h, size)] == dt + 1 {
            assert forall|i: int| 0 <= i < q.len() implies dist[cell_index(#[trigger] q[i], size)] == dt + 1 by {
            }
            assert forall|c: Tile, m: Tile| interior(c, size) && in_main(main, size, m) && #[trigger] manhattan(c, m) <= front_of(size, dist, q, None)
                implies reached(dist, size, c) by {
                if manhattan(c, m) == dt + 1 {
                    lemma_front_advance(size, main, dist, q, dt, c, m);
                }
            }
        }
    }
}

proof fn lemma_dist_exact(size: u16, main: Seq<bool>, dist: Seq<u32>, parent: Seq<Option<Tile>>, m0: Tile, c: Tile)
    requires
        c_levels(size, main, dist, seq![], None),
        closed4(size, dist, seq![]),
        parents_ok(size, main, dist, parent),
        dist.len() == size * size,
        forall|x: Tile| #![trigger cell_index(x, size)] in_square(x, size) && main[cell_index(x, size)] ==> interior(x, size),
        forall|x: Tile| #![trigger cell_index(x, size)] in_square(x, size) && main[cell_index(x, size)] ==> reached(dist, size, x),
        in_main(main, size, m0),
        in_square(c, size),
        interior(c, size),
    ensures
        reached(dist, size, c),
        main_distance(main, size, c, dist[cell_index(c, size)] as int),
{
    lemma_index_bounds(m0, size);
    lemma_interior_reached(size, dist, m0, c);
    assert forall|m: Tile| #[trigger] in_main(main, size, m) implies dist[cell_index(c, size)] <= manhattan(c, m) by {
        lemma_index_bounds(m, size);
        lemma_dist_upper(size, main, dist, m, c);
    }
    lemma_dist_lower(size, main, dist, parent, c);
    let m = choose|m: Tile| #[trigger] in_main(main, size, m) && manhattan(c, m) <= dist[cell_index(c, size)];
    assert(in_main(main, size, m) && manhattan(c, m) == dist[cell_index(c, size)]);
}

/// The corridor chosen once the search is done starts at the first disconnected floor cell in
/// (distance, column, row) order and is a shortest route from it.
#[verifier::spinoff_prover]
#[verifier::rlimit(30)]
proof fn lemma_choice_exact(size: u16, cells: Seq<TerrainCell>, main: Seq<bool>, dist: Seq<u32>, parent: Seq<Option<Tile>>, t: Tile, path: Seq<Tile>)
    requires
        corridor_state(size, main, dist, parent, seq![], None),
        c_levels(size, main, dist, seq![], None),
        forall|x: Tile| #![trigger cell_index(x, size)] in_square(x, size) && main[cell_index(x, size)] ==> interior(x, size),
        in_square(t, size),
        is_floor(cells, size, t),
        !main[cell_index(t, size)],
        reached(dist, size, t),
        forall|u: Tile| #![trigger cell_index(u, size)] in_square(u, size) && is_floor(cells, size, u)
            && !main[cell_index(u, size)] && reached(dist, size, u) && u != t
            ==> order_before(dist[cell_index(t, size)] as int, t, dist[cell_index(u, size)] as int, u),
        path.len() >= 1,
        path[0] == t,
        forall|k: int| 0 <= k < path.len() - 1 ==> #[trigger] adjacent4(path[k], path[k + 1]),
        in_main(main, size, path.last()),
        path.len() - 1 <= dist[cell_index(t, size)],
    ensures
        main_distance(main, size, path[0], path.len() - 1),
        forall|u: Tile, d: int| #[trigger] main_distance(main, size, u, d)
            && is_floor(cells, size, u) && interior(u, size) && !main[cell_index(u, size)] && u != path[0]
            ==> order_before(path.len() - 1, path[0], d, u),
{
    reveal(corridor_state);
    reveal(mains_reached);
    reveal(c_settled);
    reveal(parents_ok);
    let m0 = path.last();
    lemma_index_bounds(m0, size);
    lemma_index_bounds(t, size);
    assert(closed4(size, dist, seq![])) by {
        assert forall|u: Tile, v: Tile| #[trigger] adjacent4(u, v) && in_square(u, size) && interior(v, size)
            && reached(dist, size, u) && !Seq::<Tile>::empty().contains(u) implies reached(dist, size, v) by {
        }
    }
    assert(interior(t, size));
    lemma_dist_exact(size, main, dist, parent, m0, t);
    let dt = dist[cell_index(t, size)] as int;
    lemma_path_manhattan(path, path.len() - 1);
    assert(dt <= manhattan(t, m0));
    assert(path.len() - 1 == dt);
    assert forall|u: Tile, d: int| #[trigger] main_distance(main, size, u, d)
        && is_floor(cells, size, u) && interior(u, size) && !main[cell_index(u, size)] && u != path[0]
        implies order_before(path.len() - 1, path[0], d, u) by {
        lemma_dist_exact(size, main, dist, parent, m0, u);
        let du = dist[cell_index(u, size)] as int;
        let m1 = choose|m: Tile| #[trigger] in_main(main, size, m) && manhattan(u, m) == du;
        let m2 = choose|m: Tile| #[trigger] in_main(main, size, m) && manhattan(u, m) == d;
        assert(d <= manhattan(u, m1));
        assert(du <= manhattan(u, m2));
    }
}

/// `(da, a)` comes before `(db, b)`: nearer first, then by column, then by row.
pub open spec fn order_before(da: int, a: Tile, db: int, b: Tile) -> bool {
    da < db || (da == db && (a.x < b.x || (a.x == b.x && a.y < b.y)))
}

proof fn lemma_dist_upper(size: u16, main: Seq<bool>, dist: Seq<u32>, m: Tile, c: Tile)
    requires
        c_levels(size, main, dist, seq![], None),
        closed4(size, dist, seq![]),
        dist.len() == size * size,
        in_main(main, size, m),
        interior(m, size),
        reached(dist, size, m),
        in_square(c, size),
        interior(c, size),
    ensures
        dist[cell_index(c, size)] <= manhattan(c, m),
    decreases manhattan(c, m),
{
    reveal(c_levels);
    if c != m {
        let w = step4_toward(c, m);
        lemma_dist_upper(size, main, dist, m, w);
        lemma_interior_reached(size, dist, m, w);
        assert(adjacent4(w, c));
        assert(!seq![].contains(w)) by {
            if seq![].contains(w) {
                let j = choose|j: int| 0 <= j < Seq::<Tile>::empty().len() && Seq::<Tile>::empty()[j] == w;
            }
        }
    }
}

proof fn lemma_dist_lower(size: u16, main: Seq<bool>, dist: Seq<u32>, parent: Seq<Option<Tile>>, c: Tile)
    requires
        parents_ok(size, main, dist, parent),
        in_square(c, size),
        reached(dist, size, c),
    ensures
        exists|m: Tile| #[trigger] in_main(main, size, m) && manhattan(c, m) <= dist[cell_index(c, size)],
    decreases dist[cell_index(c, size)],
{
    reveal(parents_ok);
    match parent[cell_index(c, size)] {
        None => {
            assert(in_main(main, size, c) && manhattan(c, c) <= dist[cell_index(c, size)]);
        },
        Some(p) => {
            lemma_dist_lower(size, main, dist, parent, p);
            let m = choose|m: Tile| #[trigger] in_main(main, size, m) && manhattan(p, m) <= dist[cell_index(p, size)];
            assert(in_main(main, size, m) && manhattan(c, m) <= dist[cell_index(c, size)]);
        },
    }
}

proof fn lemma_path_manhattan(p: Seq<Tile>, k: int)
    requires
        0 <= k < p.len(),
        forall|j: int| 0 <= j < p.len() - 1 ==> #[trigger] adjacent4(p[j], p[j + 1]),
    ensures
        manhattan(p[0], p[k]) <= k,
    decreases k,
{
    if k > 0 {
        lemma_path_manhattan(p, k - 1);
        let j = k - 1;
        assert(adjacent4(p[j], p[j + 1]));
    }
}

/// `(da, a)` comes before `(db, b)`: nearer first, then by column, then by row.
fn before_in_order(da: u32, a: Tile, db: u32, b: Tile) -> (r: bool)
    ensures
        r == (da < db || (da == db && (a.x < b.x || (a.x == b.x && a.y < b.y)))),
{
    da < db || (da == db && (a.x < b.x || (a.x == b.x && a.y < b.y)))
}

impl Grid {
    /// Shortest four-neighbor route through the interior from the nearest disconnected floor
    /// cell (ties to the lower column, then row) into `main`, or none when every interior floor
    /// cell is already in `main` (or `main` is empty). Of several equally short routes, it is
    /// the one a breadth-first search from `main` walks back along: each cell entered from the
    /// neighbor the search reached first.
    pub fn corridor_to(&self, main: &Vec<bool>) -> (r: Option<Vec<Tile>>)
        requires
            self.wf(),
            main@.len() == self.size * self.size,
            forall|c: Tile| #![trigger cell_index(c, self.size)] in_square(c, self.size) && main@[cell_index(c, self.size)] ==> interior(c, self.size),
        ensures
            r matches Some(p) ==> corridor(self.cells@, self.size, main@, p@),
            r matches Some(p) ==> main_distance(main@, self.size, p@[0], p@.len() - 1),
            r matches Some(p) ==> p@ == search_route(main@, self.size, p@[0], p@.len() - 1),
            r matches Some(p) ==> forall|t: Tile, d: int| #[trigger] main_distance(main@, self.size, t, d)
                && is_floor(self.cells@, self.size, t) && interior(t, self.size) && !main@[cell_index(t, self.size)] && t != p@[0]
                ==> order_before(p@.len() - 1, p@[0], d, t),
            r is None ==> (exists|m: Tile| #[trigger] in_main(main@, self.size, m)) ==> forall|t: Tile|
                #![trigger cell_index(t, self.size)] is_floor(self.cells@, self.size, t) && interior(t, self.size) ==> main@[cell_index(t, self.size)],
    {
        let size = self.size;
        let (mut dist, mut parent, mut queue) = seed_main(self, main);
        proof {
            lemma_seed_state(size, main@, dist@, parent@, queue@);
            lemma_levels_seed(size, main@, dist@, queue@);
            lemma_order_seed(size, main@, dist@, parent@, queue@);
        }
        while queue.len() > 0
            invariant
                size == self.size,
                self.wf(),
                corridor_state(size, main@, dist@, parent@, queue@, None),
                c_levels(size, main@, dist@, queue@, None),
                c_order(size, main@, dist@, parent@, queue@, None, 0),
                forall|c: Tile| #![trigger cell_index(c, size)] in_square(c, size) && main@[cell_index(c, size)] ==> interior(c, size),
            decreases 2 * count_unreached(dist@) + queue@.len(),
        {
            corridor_step(self, &mut dist, &mut parent, &mut queue, Ghost(main@));
        }
        proof {
            reveal(corridor_state);
            reveal(c_settled);
            assert(queue@ =~= Seq::<Tile>::empty());
        }
        let mut best: Option<(u32, Tile)> = None;
        let mut y: u16 = 0;
        while y < size
            invariant
                size == self.size,
                self.wf(),
                dist@.len() == size * size,
                main@.len() == size * size,
                y <= size,
                best matches Some(b) ==> in_square(b.1, size) && is_floor(self.cells@, size, b.1) && !main@[cell_index(b.1, size)]
                    && reached(dist@, size, b.1) && b.0 == dist@[cell_index(b.1, size)],
                best is None ==> forall|t: Tile| #![trigger cell_index(t, size)] in_square(t, size) && t.y < y && is_floor(self.cells@, size, t)
                    && !main@[cell_index(t, size)] ==> !reached(dist@, size, t),
                best matches Some(b) ==> forall|t: Tile| #![trigger cell_index(t, size)] in_square(t, size) && t.y < y && is_floor(self.cells@, size, t)
                    && !main@[cell_index(t, size)] && reached(dist@, size, t) && t != b.1
                    ==> order_before(b.0 as int, b.1, dist@[cell_index(t, size)] as int, t),
            decreases size - y,
        {
            let mut x: u16 = 0;
            while x < size
                invariant
                    size == self.size,
                    self.wf(),
                    dist@.len() == size * size,
                    main@.len() == size * size,
                    y < size,
                    x <= size,
                    best matches Some(b) ==> in_square(b.1, size) && is_floor(self.cells@, size, b.1) && !main@[cell_index(b.1, size)]
                        && reached(dist@, size, b.1) && b.0 == dist@[cell_index(b.1, size)],
                    best is None ==> forall|t: Tile| #![trigger cell_index(t, size)] in_square(t, size) && (t.y < y || (t.y == y && t.x < x))
                        && is_floor(self.cells@, size, t) && !main@[cell_index(t, size)] ==> !reached(dist@, size, t),
                    best matches Some(b) ==> forall|t: Tile| #![trigger cell_index(t, size)] in_square(t, size) && (t.y < y || (t.y == y && t.x < x))
                        && is_floor(self.cells@, size, t) && !main@[cell_index(t, size)] && reached(dist@, size, t) && t != b.1
                        ==> order_before(b.0 as int, b.1, dist@[cell_index(t, size)] as int, t),
                decreases size - x,
            {
                let t = Tile { x, y };
                let i = self.idx(t);
                let ghost old_best = best;
                if self.cells[i] == TerrainCell::Floor && !main[i] && dist[i] != u32::MAX {
                    let better = match best {
                        None => true,
                        Some(b) => before_in_order(dist[i], t, b.0, b.1),
                    };
                    if better {
                        best = Some((dist[i], t));
                    }
                }
                proof {
                    if best is None {
                        assert forall|u: Tile| #![trigger cell_index(u, size)] in_square(u, size) && (u.y < y || (u.y == y && u.x < x + 1))
                            && is_floor(self.cells@, size, u) && !main@[cell_index(u, size)] implies !reached(dist@, size, u) by {
                            if u.y == y && u.x == x {
                                assert(cell_index(u, size) == i as int);
                            }
                        }
                    }
                    if let Some(b) = best {
                        assert forall|u: Tile| #![trigger cell_index(u, size)] in_square(u, size) && (u.y < y || (u.y == y && u.x < x + 1))
                            && is_floor(self.cells@, size, u) && !main@[cell_index(u, size)] && reached(dist@, size, u) && u != b.1
                            implies order_before(b.0 as int, b.1, dist@[cell_index(u, size)] as int, u) by {
                            if u.y == y && u.x == x {
                                assert(u == t);
                                assert(cell_index(u, size) == i as int);
                            } else if let Some(ob) = old_best {
                                if u != ob.1 {
                                    assert(order_before(ob.0 as int, ob.1, dist@[cell_index(u, size)] as int, u));
                                }
                            } else {
                                assert(!reached(dist@, size, u));
                            }
                        }
                    }
                }
                x += 1;
            }
            y += 1;
        }
        let (_, t) = match best {
            None => {
                proof {
                    if exists|m: Tile| #[trigger] in_main(main@, size, m) {
                        let m = choose|m: Tile| #[trigger] in_main(main@, size, m);
                        reveal(parents_ok);
                        lemma_index_bounds(m, size);
                        assert(reached(dist@, size, m)) by {
                            reveal(corridor_state);
                            reveal(mains_reached);
                        }
                        assert forall|t: Tile| #![trigger cell_index(t, size)] is_floor(self.cells@, size, t) && interior(t, size) implies main@[cell_index(t, size)] by {
                            lemma_interior_reached(size, dist@, m, t);
                        }
                    }
                }
                return None;
            },
            Some(b) => b,
        };
        proof {
            reveal(corridor_state);
            lemma_order_entered(size, main@, dist@, parent@, queue@);
        }
        let path = parent_path(self, &dist, &parent, t, Ghost(main@));
        proof {
            assert forall|k: int| 0 <= k < path@.len() implies in_square(#[trigger] path@[k], size) && interior(path@[k], size) by {
                if k == path@.len() - 1 {
                    assert(path@[k] == path@.last());
                    lemma_index_bounds(path@[k], size);
                } else {
                    assert(adjacent4(path@[k], path@[k + 1]));
                }
            }
            assert(queue@ =~= Seq::<Tile>::empty());
            lemma_choice_exact(size, self.cells@, main@, dist@, parent@, t, path@);
        }
        Some(path)
    }
}

} // verus!
