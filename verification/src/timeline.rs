//! The coarse timeline index: fine activity buckets merged into wider buckets, one per player,
//! each naming the player's dominant activity there.
use vstd::prelude::*;
use crate::types::{PlayerId, Tick};

verus! {

/// What a player's entities were doing, from most to least notable.
#[derive(Debug, Clone, Copy, PartialEq, Eq, Structural)]
pub enum Activity {
    Combat,
    Construction,
    Mining,
    Movement,
    Idle,
}

/// A player's activity over the ticks `from_tick..to_tick_exclusive`.
#[derive(Debug, Clone, Copy, PartialEq, Eq, Structural)]
pub struct ActivityBucket {
    pub from_tick: Tick,
    pub to_tick_exclusive: Tick,
    pub player_id: PlayerId,
    pub activity: Activity,
    pub affected_entities: u32,
}

/// The narrowest index bucket.
pub const TIMELINE_BUCKET: Tick = 20;

/// The most index buckets per player.
pub const TIMELINE_INDEX_PER_PLAYER: Tick = 500;

pub open spec fn rank(a: Activity) -> int {
    match a {
        Activity::Combat => 0,
        Activity::Construction => 1,
        Activity::Mining => 2,
        Activity::Movement => 3,
        Activity::Idle => 4,
    }
}

pub open spec fn activity_at(r: int) -> Activity {
    if r == 0 {
        Activity::Combat
    } else if r == 1 {
        Activity::Construction
    } else if r == 2 {
        Activity::Mining
    } else if r == 3 {
        Activity::Movement
    } else {
        Activity::Idle
    }
}

/// The latest end of the fine buckets, 0 when there are none.
pub open spec fn span(bs: Seq<ActivityBucket>) -> int
    decreases bs.len(),
{
    if bs.len() == 0 {
        0
    } else {
        let rest = span(bs.drop_last());
        let last = bs.last().to_tick_exclusive as int;
        if last > rest {
            last
        } else {
            rest
        }
    }
}

/// The index bucket width for a run: wide enough that a player has at most
/// `TIMELINE_INDEX_PER_PLAYER` buckets, a multiple of `TIMELINE_BUCKET`, and at least that.
pub open spec fn width_for(span: int) -> int {
    let per = (span + TIMELINE_INDEX_PER_PLAYER - 1) / (TIMELINE_INDEX_PER_PLAYER as int);
    let rounded = (per + TIMELINE_BUCKET - 1) / (TIMELINE_BUCKET as int) * TIMELINE_BUCKET;
    if rounded > TIMELINE_BUCKET {
        rounded
    } else {
        TIMELINE_BUCKET as int
    }
}

/// The start of the index bucket holding tick `t`.
pub open spec fn start_of(t: int, w: int) -> int {
    t / w * w
}

/// The largest number of entities a fine bucket of `player` in the index bucket starting at
/// `from` reports for activity `a`; 0 when none does.
pub open spec fn peak(bs: Seq<ActivityBucket>, from: int, player: PlayerId, a: Activity, w: int) -> int
    decreases bs.len(),
{
    if bs.len() == 0 {
        0
    } else {
        let rest = peak(bs.drop_last(), from, player, a, w);
        let b = bs.last();
        if start_of(b.from_tick as int, w) == from && b.player_id == player && b.activity == a && b.affected_entities > rest {
            b.affected_entities as int
        } else {
            rest
        }
    }
}

/// The first activity, in order of notability, with a positive peak.
pub open spec fn dominant(bs: Seq<ActivityBucket>, from: int, player: PlayerId, w: int) -> Option<Activity> {
    if peak(bs, from, player, Activity::Combat, w) > 0 {
        Some(Activity::Combat)
    } else if peak(bs, from, player, Activity::Construction, w) > 0 {
        Some(Activity::Construction)
    } else if peak(bs, from, player, Activity::Mining, w) > 0 {
        Some(Activity::Mining)
    } else if peak(bs, from, player, Activity::Movement, w) > 0 {
        Some(Activity::Movement)
    } else if peak(bs, from, player, Activity::Idle, w) > 0 {
        Some(Activity::Idle)
    } else {
        None
    }
}

/// Some fine bucket of `player` falls in the index bucket starting at `from`.
pub open spec fn has_key(bs: Seq<ActivityBucket>, key: (Tick, PlayerId), w: int) -> bool {
    exists|i: int| 0 <= i < bs.len() && start_of((#[trigger] bs[i]).from_tick as int, w) == key.0 as int && bs[i].player_id == key.1
}

pub open spec fn key_lt(a: (Tick, PlayerId), b: (Tick, PlayerId)) -> bool {
    a.0 < b.0 || (a.0 == b.0 && a.1 < b.1)
}

pub open spec fn keys_sorted(s: Seq<(Tick, PlayerId)>) -> bool {
    forall|i: int, j: int| 0 <= i < j < s.len() ==> key_lt(#[trigger] s[i], #[trigger] s[j])
}

/// The index entry for one key, or `None` when nothing there was active.
pub open spec fn entry(bs: Seq<ActivityBucket>, w: int) -> spec_fn((Tick, PlayerId)) -> Option<ActivityBucket> {
    |k: (Tick, PlayerId)| match dominant(bs, k.0 as int, k.1, w) {
        Some(a) => Some(ActivityBucket {
            from_tick: k.0,
            to_tick_exclusive: (k.0 + w) as Tick,
            player_id: k.1,
            activity: a,
            affected_entities: peak(bs, k.0 as int, k.1, a, w) as u32,
        }),
        None => None,
    }
}

/// Every index bucket ends within the tick range.
pub open spec fn timeline_fits(bs: Seq<ActivityBucket>) -> bool {
    forall|i: int| 0 <= i < bs.len() ==> start_of((#[trigger] bs[i]).from_tick as int, width_for(span(bs))) + width_for(span(bs)) <= u32::MAX
}

fn run_span(bs: &Vec<ActivityBucket>) -> (r: Tick)
    ensures
        r == span(bs@),
{
    let mut m: Tick = 0;
    let mut i: usize = 0;
    while i < bs.len()
        invariant
            0 <= i <= bs.len(),
            m == span(bs@.take(i as int)),
        decreases bs.len() - i,
    {
        assert(bs@.take(i + 1).drop_last() == bs@.take(i as int));
        if bs[i].to_tick_exclusive > m {
            m = bs[i].to_tick_exclusive;
        }
        i += 1;
    }
    assert(bs@.take(bs@.len() as int) == bs@);
    m
}

fn index_width(span: Tick) -> (w: Tick)
    ensures
        w == width_for(span as int),
        w >= TIMELINE_BUCKET,
{
    let per: u64 = (span as u64 + 499) / 500;
    let rounded: u64 = (per + 19) / 20 * 20;
    assert(per <= 8589935);
    if rounded > 20 {
        rounded as Tick
    } else {
        20
    }
}

/// Adds a key to a strictly sorted key list unless it is already there.
fn insert_key(out: &mut Vec<(Tick, PlayerId)>, x: (Tick, PlayerId))
    requires
        keys_sorted(old(out)@),
    ensures
        keys_sorted(final(out)@),
        forall|y: (Tick, PlayerId)| #[trigger] final(out)@.contains(y) <==> (old(out)@.contains(y) || y == x),
{
    let mut p: usize = 0;
    while p < out.len() && (out[p].0 < x.0 || (out[p].0 == x.0 && out[p].1 < x.1))
        invariant
            0 <= p <= out.len(),
            keys_sorted(out@),
            forall|k: int| 0 <= k < p ==> key_lt(#[trigger] out@[k], x),
        decreases out.len() - p,
    {
        p += 1;
    }
    if p < out.len() && out[p].0 == x.0 && out[p].1 == x.1 {
        assert(out@[p as int] == x);
        assert(out@.contains(x));
        return;
    }
    let ghost before = out@;
    out.insert(p, x);
    assert(out@ == before.insert(p as int, x));
    assert forall|i: int, j: int| 0 <= i < j < out@.len() implies key_lt(#[trigger] out@[i], #[trigger] out@[j]) by {
        if p < before.len() {
            assert(key_lt(x, before[p as int]));
        }
    }
    assert forall|y: (Tick, PlayerId)| #[trigger] out@.contains(y) <==> (before.contains(y) || y == x) by {
        if out@.contains(y) {
            let k = choose|k: int| 0 <= k < out@.len() && out@[k] == y;
            if k < p {
                assert(before[k] == y);
            } else if k > p {
                assert(before[k - 1] == y);
            }
        }
        if before.contains(y) {
            let k = choose|k: int| 0 <= k < before.len() && before[k] == y;
            if k < p {
                assert(out@[k] == y);
            } else {
                assert(out@[k + 1] == y);
            }
        }
        if y == x {
            assert(out@[p as int] == x);
        }
    }
}

/// The peaks of the five activities for one key.
fn peaks(bs: &Vec<ActivityBucket>, from: Tick, player: PlayerId, w: Tick) -> (r: (u32, u32, u32, u32, u32))
    requires
        w > 0,
    ensures
        r.0 == peak(bs@, from as int, player, Activity::Combat, w as int),
        r.1 == peak(bs@, from as int, player, Activity::Construction, w as int),
        r.2 == peak(bs@, from as int, player, Activity::Mining, w as int),
        r.3 == peak(bs@, from as int, player, Activity::Movement, w as int),
        r.4 == peak(bs@, from as int, player, Activity::Idle, w as int),
{
    let mut c: (u32, u32, u32, u32, u32) = (0, 0, 0, 0, 0);
    let mut i: usize = 0;
    while i < bs.len()
        invariant
            0 <= i <= bs.len(),
            w > 0,
            c.0 == peak(bs@.take(i as int), from as int, player, Activity::Combat, w as int),
            c.1 == peak(bs@.take(i as int), from as int, player, Activity::Construction, w as int),
            c.2 == peak(bs@.take(i as int), from as int, player, Activity::Mining, w as int),
            c.3 == peak(bs@.take(i as int), from as int, player, Activity::Movement, w as int),
            c.4 == peak(bs@.take(i as int), from as int, player, Activity::Idle, w as int),
        decreases bs.len() - i,
    {
        assert(bs@.take(i + 1).drop_last() == bs@.take(i as int));
        let b = bs[i];
        let start: Tick = b.from_tick / w * w;
        assert(start as int == start_of(b.from_tick as int, w as int)) by (nonlinear_arith)
            requires
                w > 0,
                start == b.from_tick / w * w,
        ;
        if start == from && b.player_id == player {
            let n = b.affected_entities;
            match b.activity {
                Activity::Combat => if n > c.0 { c.0 = n; },
                Activity::Construction => if n > c.1 { c.1 = n; },
                Activity::Mining => if n > c.2 { c.2 = n; },
                Activity::Movement => if n > c.3 { c.3 = n; },
                Activity::Idle => if n > c.4 { c.4 = n; },
            }
        }
        i += 1;
    }
    assert(bs@.take(bs@.len() as int) == bs@);
    c
}

/// Merges fine activity buckets into the timeline index: one bucket per player and index
/// bucket width, in tick and then player order, naming the most notable activity there with
/// the most entities any fine bucket reported for it.
pub fn timeline_index(buckets: &Vec<ActivityBucket>, players: u8) -> (r: Vec<ActivityBucket>)
    requires
        timeline_fits(buckets@),
    ensures
        exists|keys: Seq<(Tick, PlayerId)>| {
            &&& keys_sorted(keys)
            &&& forall|k: (Tick, PlayerId)| #[trigger] keys.contains(k) <==> has_key(buckets@, k, width_for(span(buckets@)))
            &&& r@ == keys.filter_map(entry(buckets@, width_for(span(buckets@))))
        },
        fine_buckets(buckets@, players) ==> r@.len() <= players * TIMELINE_INDEX_PER_PLAYER,
{
    let s = run_span(buckets);
    let w = index_width(s);
    let ghost wi = w as int;
    let mut keys: Vec<(Tick, PlayerId)> = Vec::new();
    let mut i: usize = 0;
    while i < buckets.len()
        invariant
            0 <= i <= buckets.len(),
            wi == w as int,
            w > 0,
            keys_sorted(keys@),
            forall|k: (Tick, PlayerId)| #[trigger] keys@.contains(k) <==> has_key(buckets@.take(i as int), k, wi),
            forall|k: (Tick, PlayerId)| #[trigger] keys@.contains(k) ==> k.0 as int % wi == 0,
        decreases buckets.len() - i,
    {
        let b = buckets[i];
        let start: Tick = b.from_tick / w * w;
        assert(start as int == start_of(b.from_tick as int, wi) && start as int % wi == 0) by (nonlinear_arith)
            requires
                w > 0,
                wi == w as int,
                start == b.from_tick / w * w,
        ;
        insert_key(&mut keys, (start, b.player_id));
        proof {
            let pre = buckets@.take(i as int);
            let post = buckets@.take(i + 1);
            assert(post == pre.push(b));
            assert forall|k: (Tick, PlayerId)| #[trigger] keys@.contains(k) <==> has_key(post, k, wi) by {
                if has_key(post, k, wi) {
                    let j = choose|j: int| 0 <= j < post.len() && start_of((#[trigger] post[j]).from_tick as int, wi) == k.0 as int && post[j].player_id == k.1;
                    if j < pre.len() {
                        assert(post[j] == pre[j]);
                        assert(has_key(pre, k, wi));
                    } else {
                        assert(k == (start, b.player_id));
                    }
                }
                if has_key(pre, k, wi) {
                    let j = choose|j: int| 0 <= j < pre.len() && start_of((#[trigger] pre[j]).from_tick as int, wi) == k.0 as int && pre[j].player_id == k.1;
                    assert(post[j] == pre[j]);
                }
                if k == (start, b.player_id) {
                    assert(post[i as int] == b);
                }
            }
        }
        i += 1;
    }
    assert(buckets@.take(buckets@.len() as int) == buckets@);
    let mut out: Vec<ActivityBucket> = Vec::new();
    let mut k: usize = 0;
    while k < keys.len()
        invariant
            0 <= k <= keys.len(),
            wi == w as int,
            w > 0,
            wi == width_for(span(buckets@)),
            timeline_fits(buckets@),
            forall|q: (Tick, PlayerId)| #[trigger] keys@.contains(q) <==> has_key(buckets@, q, wi),
            out@ == keys@.take(k as int).filter_map(entry(buckets@, wi)),
        decreases keys.len() - k,
    {
        let (from, player) = keys[k];
        proof {
            keys@.lemma_filter_map_take_succ(entry(buckets@, wi), k as int);
            assert(keys@.contains(keys@[k as int]));
            let j = choose|j: int| 0 <= j < buckets@.len() && start_of((#[trigger] buckets@[j]).from_tick as int, wi) == from as int && buckets@[j].player_id == player;
            assert(start_of(buckets@[j].from_tick as int, wi) + wi <= u32::MAX);
        }
        let c = peaks(buckets, from, player, w);
        let found: Option<(Activity, u32)> = if c.0 > 0 {
            Some((Activity::Combat, c.0))
        } else if c.1 > 0 {
            Some((Activity::Construction, c.1))
        } else if c.2 > 0 {
            Some((Activity::Mining, c.2))
        } else if c.3 > 0 {
            Some((Activity::Movement, c.3))
        } else if c.4 > 0 {
            Some((Activity::Idle, c.4))
        } else {
            None
        };
        if let Some((a, n)) = found {
            out.push(ActivityBucket { from_tick: from, to_tick_exclusive: from + w, player_id: player, activity: a, affected_entities: n });
        }
        k += 1;
    }
    assert(keys@.take(keys@.len() as int) == keys@);
    proof {
        if fine_buckets(buckets@, players) {
            lemma_index_bounded(buckets@, players, keys@, out@);
        }
    }
    let _ = players;
    out
}

/// Fine buckets of the match's players, each covering at least one tick.
pub open spec fn fine_buckets(bs: Seq<ActivityBucket>, players: u8) -> bool {
    forall|i: int| 0 <= i < bs.len() ==> (#[trigger] bs[i]).player_id < players && bs[i].from_tick < bs[i].to_tick_exclusive
}

proof fn lemma_span_covers(bs: Seq<ActivityBucket>, i: int)
    requires
        0 <= i < bs.len(),
    ensures
        bs[i].to_tick_exclusive <= span(bs),
    decreases bs.len(),
{
    if i < bs.len() - 1 {
        lemma_span_covers(bs.drop_last(), i);
        assert(bs.drop_last()[i] == bs[i]);
    }
}

proof fn lemma_filter_map_len<A, B>(s: Seq<A>, f: spec_fn(A) -> Option<B>)
    ensures
        s.filter_map(f).len() <= s.len(),
    decreases s.len(),
{
    if s.len() > 0 {
        lemma_filter_map_len(s.drop_last(), f);
    }
}

pub open spec fn key_code(k: (Tick, PlayerId), w: int, players: int) -> int {
    (k.0 as int / w) * players + k.1 as int
}

/// With every fine bucket inside the run, an index key is one of `TIMELINE_INDEX_PER_PLAYER`
/// bucket starts for one of the players, so the index has at most that many buckets per player.
proof fn lemma_index_bounded(bs: Seq<ActivityBucket>, players: u8, keys: Seq<(Tick, PlayerId)>, r: Seq<ActivityBucket>)
    requires
        fine_buckets(bs, players),
        keys_sorted(keys),
        forall|k: (Tick, PlayerId)| #[trigger] keys.contains(k) <==> has_key(bs, k, width_for(span(bs))),
        r == keys.filter_map(entry(bs, width_for(span(bs)))),
    ensures
        r.len() <= players * TIMELINE_INDEX_PER_PLAYER,
{
    let w = width_for(span(bs));
    let sp = span(bs);
    let p = players as int;
    let per = (sp + 499) / 500;
    assert(per * 500 >= sp && w >= per && w >= 20) by (nonlinear_arith)
        requires
            sp >= 0,
            per == (sp + 499) / 500,
            w == width_for(sp),
    ;
    assert(w * 500 >= sp) by (nonlinear_arith)
        requires
            per * 500 >= sp,
            w >= per,
    ;
    lemma_filter_map_len(keys, entry(bs, w));
    let codes = keys.map_values(|k: (Tick, PlayerId)| key_code(k, w, p));
    assert forall|i: int| 0 <= i < keys.len() implies 0 <= #[trigger] codes[i] < 500 * p && keys[i].0 as int == (keys[i].0 as int / w) * w by {
        let k = keys[i];
        assert(keys.contains(k));
        let j = choose|j: int| 0 <= j < bs.len() && start_of((#[trigger] bs[j]).from_tick as int, w) == k.0 as int && bs[j].player_id == k.1;
        lemma_span_covers(bs, j);
        let from = bs[j].from_tick as int;
        let q = from / w;
        assert(q < 500 && q >= 0) by (nonlinear_arith)
            requires
                w > 0,
                from >= 0,
                from < sp,
                w * 500 >= sp,
                q == from / w,
        ;
        vstd::arithmetic::div_mod::lemma_fundamental_div_mod_converse(k.0 as int, w, q, 0);
        assert(0 <= q * p + (k.1 as int) < 500 * p) by (nonlinear_arith)
            requires
                0 <= q < 500,
                0 <= (k.1 as int) < p,
        ;
    }
    assert(codes.no_duplicates()) by {
        assert forall|i: int, j: int| 0 <= i < codes.len() && 0 <= j < codes.len() && i != j implies codes[i] != codes[j] by {
            let (a, b) = (keys[i], keys[j]);
            assert(0 <= codes[i] && 0 <= codes[j]);
            assert(a.0 as int == (a.0 as int / w) * w && b.0 as int == (b.0 as int / w) * w);
            assert(keys.contains(a) && keys.contains(b));
            if codes[i] == codes[j] {
                lemma_key_player(bs, a, w, players);
                lemma_key_player(bs, b, w, players);
                vstd::arithmetic::div_mod::lemma_fundamental_div_mod_converse(codes[i], p, a.0 as int / w, a.1 as int);
                vstd::arithmetic::div_mod::lemma_fundamental_div_mod_converse(codes[j], p, b.0 as int / w, b.1 as int);
                assert(a == b);
                if i < j {
                    assert(key_lt(keys[i], keys[j]));
                } else {
                    assert(key_lt(keys[j], keys[i]));
                }
            }
        }
    }
    codes.unique_seq_to_set();
    vstd::set_lib::lemma_int_range(0, 500 * p);
    assert(codes.to_set().subset_of(vstd::set_lib::set_int_range(0, 500 * p))) by {
        assert forall|c: int| codes.to_set().contains(c) implies vstd::set_lib::set_int_range(0, 500 * p).contains(c) by {
            let i = choose|i: int| 0 <= i < codes.len() && codes[i] == c;
        }
    }
    vstd::set_lib::lemma_len_subset(codes.to_set(), vstd::set_lib::set_int_range(0, 500 * p));
}

/// An index key names a player of the match.
proof fn lemma_key_player(bs: Seq<ActivityBucket>, k: (Tick, PlayerId), w: int, players: u8)
    requires
        fine_buckets(bs, players),
        has_key(bs, k, w),
    ensures
        k.1 < players,
{
    let j = choose|j: int| 0 <= j < bs.len() && start_of((#[trigger] bs[j]).from_tick as int, w) == k.0 as int && bs[j].player_id == k.1;
    assert(bs[j].player_id < players);
}

} // verus!
