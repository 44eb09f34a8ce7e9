//! Future-order lock rules: which older writes a lock blocks, its canonical stored form,
//! and installing a new lock.
use vstd::prelude::*;
use crate::types::{FutureOrderPolicy, OrderLock, Tick};
use crate::draft::{lock_interval, spec_lock_interval};

verus! {

/// `lock` forbids a write made in `event_round` from taking effect at `tick`.
pub open spec fn lock_covers(lock: OrderLock, tick: int, event_round: int) -> bool {
    &&& lock.from_tick < tick
    &&& tick <= lock.until_tick
    &&& event_round < lock.issued_round
}

pub open spec fn spec_blocks(locks: Seq<OrderLock>, tick: int, event_round: int) -> bool {
    exists|i: int| 0 <= i < locks.len() && lock_covers(#[trigger] locks[i], tick, event_round)
}

/// True when some lock covers `tick` for a write issued in `event_round`.
pub fn blocks(locks: &[OrderLock], tick: Tick, event_round: u32) -> (b: bool)
    ensures
        b == spec_blocks(locks@, tick as int, event_round as int),
{
    let mut i: usize = 0;
    while i < locks.len()
        invariant
            0 <= i <= locks.len(),
            forall|k: int| 0 <= k < i ==> !lock_covers(#[trigger] locks@[k], tick as int, event_round as int),
        decreases locks.len() - i,
    {
        let lock = locks[i];
        if lock.from_tick < tick && tick <= lock.until_tick && event_round < lock.issued_round {
            assert(lock_covers(locks@[i as int], tick as int, event_round as int));
            return true;
        }
        i += 1;
    }
    false
}

/// A stored lock must be a nonempty interval issued in a real round and not installed after `tick`.
pub open spec fn lock_invalid(lock: OrderLock, tick: int) -> bool {
    lock.from_tick >= lock.until_tick || lock.issued_round == 0 || lock.from_tick > tick
}

pub open spec fn all_valid(locks: Seq<OrderLock>, tick: int) -> bool {
    forall|i: int| 0 <= i < locks.len() ==> !lock_invalid(#[trigger] locks[i], tick)
}

/// Storage order: by end tick, then issuing round, then start tick.
pub open spec fn lock_lt(a: OrderLock, b: OrderLock) -> bool {
    ||| a.until_tick < b.until_tick
    ||| a.until_tick == b.until_tick && a.issued_round < b.issued_round
    ||| a.until_tick == b.until_tick && a.issued_round == b.issued_round && a.from_tick < b.from_tick
}

/// Pruning order: by end tick, then issuing round, then the earlier start first.
pub open spec fn dom_gt(o: OrderLock, l: OrderLock) -> bool {
    ||| o.until_tick > l.until_tick
    ||| o.until_tick == l.until_tick && o.issued_round > l.issued_round
    ||| o.until_tick == l.until_tick && o.issued_round == l.issued_round && o.from_tick < l.from_tick
}

/// Start tick as seen from `tick`: a start before `tick - 1` makes no difference any more.
pub open spec fn floor_from(l: OrderLock, tick: int) -> int {
    let t = if tick >= 1 { tick - 1 } else { 0 };
    if l.from_tick >= t { l.from_tick as int } else { t }
}

/// `o` restricts at least as much as `l` for every tick from `tick` on, and comes later
/// in the pruning order.
pub open spec fn dominates(o: OrderLock, l: OrderLock, tick: int) -> bool {
    &&& dom_gt(o, l)
    &&& o.until_tick >= l.until_tick
    &&& o.issued_round >= l.issued_round
    &&& floor_from(o, tick) <= floor_from(l, tick)
}

pub open spec fn live(l: OrderLock, tick: int) -> bool {
    l.until_tick >= tick
}

/// `l` survives canonicalization of `locks` at `tick`.
pub open spec fn kept(locks: Seq<OrderLock>, l: OrderLock, tick: int) -> bool {
    &&& live(l, tick)
    &&& !exists|j: int| 0 <= j < locks.len() && live(locks[j], tick) && #[trigger] dominates(locks[j], l, tick)
}

pub open spec fn strictly_sorted(r: Seq<OrderLock>) -> bool {
    forall|i: int, j: int| 0 <= i < j < r.len() ==> lock_lt(#[trigger] r[i], #[trigger] r[j])
}

/// `r` is the canonical form of `locks` at `tick`: exactly the kept locks, once each, in storage order.
pub open spec fn is_canonical_of(r: Seq<OrderLock>, locks: Seq<OrderLock>, tick: int) -> bool {
    &&& strictly_sorted(r)
    &&& forall|x: OrderLock| #[trigger] r.contains(x) <==> (locks.contains(x) && kept(locks, x, tick))
}

pub proof fn lemma_lock_lt_trans(a: OrderLock, b: OrderLock, c: OrderLock)
    requires
        lock_lt(a, b),
        lock_lt(b, c),
    ensures
        lock_lt(a, c),
{
}

pub proof fn lemma_lock_lt_total(a: OrderLock, b: OrderLock)
    ensures
        a == b || lock_lt(a, b) || lock_lt(b, a),
        !(lock_lt(a, b) && lock_lt(b, a)),
        !lock_lt(a, a),
{
}

fn lock_lt_exec(a: OrderLock, b: OrderLock) -> (r: bool)
    ensures
        r == lock_lt(a, b),
{
    a.until_tick < b.until_tick || (a.until_tick == b.until_tick && a.issued_round < b.issued_round)
        || (a.until_tick == b.until_tick && a.issued_round == b.issued_round && a.from_tick
        < b.from_tick)
}

fn floor_from_exec(l: OrderLock, tick: Tick) -> (r: Tick)
    ensures
        r == floor_from(l, tick as int),
{
    let t = tick.saturating_sub(1);
    if l.from_tick >= t { l.from_tick } else { t }
}

fn dominates_exec(o: OrderLock, l: OrderLock, tick: Tick) -> (r: bool)
    ensures
        r == dominates(o, l, tick as int),
{
    let gt = o.until_tick > l.until_tick || (o.until_tick == l.until_tick && o.issued_round
        > l.issued_round) || (o.until_tick == l.until_tick && o.issued_round == l.issued_round
        && o.from_tick < l.from_tick);
    gt && o.until_tick >= l.until_tick && o.issued_round >= l.issued_round && floor_from_exec(o, tick)
        <= floor_from_exec(l, tick)
}

/// Adds `x` to a strictly sorted vector unless it is already there.
fn insert_sorted(out: &mut Vec<OrderLock>, x: OrderLock)
    requires
        strictly_sorted(old(out)@),
    ensures
        strictly_sorted(final(out)@),
        forall|y: OrderLock| #[trigger] final(out)@.contains(y) <==> (old(out)@.contains(y) || y == x),
{
    let mut p: usize = 0;
    while p < out.len() && lock_lt_exec(out[p], x)
        invariant
            0 <= p <= out.len(),
            strictly_sorted(out@),
            forall|k: int| 0 <= k < p ==> lock_lt(#[trigger] out@[k], x),
        decreases out.len() - p,
    {
        p += 1;
    }
    if p < out.len() && out[p] == x {
        assert(out@.contains(x));
        return;
    }
    let ghost before = out@;
    proof {
        if p < before.len() {
            lemma_lock_lt_total(before[p as int], x);
            assert forall|k: int| p <= k < before.len() implies lock_lt(x, #[trigger] before[k]) by {
                if k > p {
                    lemma_lock_lt_trans(x, before[p as int], before[k]);
                }
            }
        }
    }
    out.insert(p, x);
    assert(out@ == before.insert(p as int, x));
    assert forall|i: int, j: int| 0 <= i < j < out@.len() implies lock_lt(#[trigger] out@[i], #[trigger] out@[j]) by {
        if j < p {
        } else if j == p {
        } else if i < p {
            lemma_lock_lt_trans(before[i], x, before[j - 1]);
        } else if i == p {
        } else {
        }
    }
    assert forall|y: OrderLock| #[trigger] out@.contains(y) <==> (before.contains(y) || y == x) by {
        if out@.contains(y) {
            let k = choose|k: int| 0 <= k < out@.len() && out@[k] == y;
            if k < p {
                assert(before[k] == y);
            } else if k > p {
                assert(before[k - 1] == y);
            }
        }
        if before.contains(y) {
            let k = choose|k: int| 0 <= k < before.len() && before[k] == y;
            if k < p {
                assert(out@[k] == y);
            } else {
                assert(out@[k + 1] == y);
            }
        }
        if y == x {
            assert(out@[p as int] == x);
        }
    }
}

fn dominated(locks: &Vec<OrderLock>, l: OrderLock, tick: Tick) -> (r: bool)
    ensures
        r == exists|j: int|
            0 <= j < locks@.len() && live(locks@[j], tick as int) && #[trigger] dominates(
                locks@[j],
                l,
                tick as int,
            ),
{
    let mut j: usize = 0;
    while j < locks.len()
        invariant
            0 <= j <= locks.len(),
            forall|k: int|
                0 <= k < j ==> !(live(locks@[k], tick as int) && #[trigger] dominates(
                    locks@[k],
                    l,
                    tick as int,
                )),
        decreases locks.len() - j,
    {
        let o = locks[j];
        if o.until_tick >= tick && dominates_exec(o, l, tick) {
            return true;
        }
        j += 1;
    }
    false
}

/// Validates stored locks against `tick`, drops expired ones, sorts, removes duplicates and
/// prunes every lock that a later one restricts at least as much from `tick` on.
/// On error the locks are left as they were.
pub fn canonicalize(locks: &mut Vec<OrderLock>, tick: Tick) -> (r: Result<(), String>)
    ensures
        r is Ok <==> all_valid(old(locks)@, tick as int),
        r is Ok ==> is_canonical_of(final(locks)@, old(locks)@, tick as int),
        r is Err ==> final(locks)@ == old(locks)@,
{
    let mut i: usize = 0;
    while i < locks.len()
        invariant
            0 <= i <= locks.len(),
            forall|k: int| 0 <= k < i ==> !lock_invalid(#[trigger] locks@[k], tick as int),
        decreases locks.len() - i,
    {
        let l = locks[i];
        if l.from_tick >= l.until_tick || l.issued_round == 0 || l.from_tick > tick {
            assert(lock_invalid(locks@[i as int], tick as int));
            return Err("invalid order lock interval/round or future installation".to_string());
        }
        i += 1;
    }
    let mut out: Vec<OrderLock> = Vec::new();
    let mut i: usize = 0;
    while i < locks.len()
        invariant
            0 <= i <= locks.len(),
            strictly_sorted(out@),
            forall|x: OrderLock|
                #[trigger] out@.contains(x) <==> (exists|k: int|
                    0 <= k < i && locks@[k] == x && kept(locks@, x, tick as int)),
        decreases locks.len() - i,
    {
        let l = locks[i];
        if l.until_tick >= tick && !dominated(locks, l, tick) {
            insert_sorted(&mut out, l);
        }
        proof {
            assert forall|x: OrderLock|
                #[trigger] out@.contains(x) <==> (exists|k: int|
                    0 <= k < i + 1 && locks@[k] == x && kept(locks@, x, tick as int)) by {
                if x == l && kept(locks@, x, tick as int) {
                    assert(locks@[i as int] == x);
                }
            }
        }
        i += 1;
    }
    proof {
        assert forall|x: OrderLock| #[trigger] out@.contains(x) <==> (locks@.contains(x) && kept(locks@, x, tick as int)) by {
            if locks@.contains(x) && kept(locks@, x, tick as int) {
                let k = choose|k: int| 0 <= k < locks@.len() && locks@[k] == x;
                assert(exists|k: int| 0 <= k < locks@.len() && locks@[k] == x && kept(locks@, x, tick as int));
            }
        }
    }
    *locks = out;
    Ok(())
}


/// The locks that `install` canonicalizes: the stored ones plus the new lock, if the policy makes one.
pub open spec fn with_new_lock(
    locks: Seq<OrderLock>,
    tick: Tick,
    round: u32,
    interval: Option<crate::types::PreviewInterval>,
) -> Seq<OrderLock> {
    match interval {
        Some(iv) => locks.push(OrderLock { from_tick: tick, until_tick: iv.through_tick, issued_round: round }),
        None => locks,
    }
}

/// `install` succeeds on these arguments.
pub open spec fn install_ok(
    locks: Seq<OrderLock>,
    tick: Tick,
    round: u32,
    policy: FutureOrderPolicy,
    window: Option<Tick>,
    max_tick: Tick,
) -> bool {
    &&& round != 0
    &&& spec_lock_interval(tick, policy, window, max_tick) is Some
    &&& all_valid(with_new_lock(locks, tick, round, spec_lock_interval(tick, policy, window, max_tick)->0), tick as int)
}

/// Adds the lock that `policy` installs at `tick` for `round`, then canonicalizes at `tick`.
/// On error the locks are left as they were.
pub fn install(
    locks: &mut Vec<OrderLock>,
    tick: Tick,
    round: u32,
    policy: FutureOrderPolicy,
    window: Option<Tick>,
    max_tick: Tick,
) -> (r: Result<(), String>)
    ensures
        r is Ok <==> install_ok(old(locks)@, tick, round, policy, window, max_tick),
        r is Ok ==> is_canonical_of(
            final(locks)@,
            with_new_lock(old(locks)@, tick, round, spec_lock_interval(tick, policy, window, max_tick)->0),
            tick as int,
        ),
        r is Err ==> final(locks)@ == old(locks)@,
{
    if round == 0 {
        return Err("round zero is reserved for genesis".to_string());
    }
    let mut candidate = locks.clone();
    assert(candidate@ == locks@);
    let interval = lock_interval(tick, policy, window, max_tick)?;
    if let Some(iv) = interval {
        candidate.push(OrderLock { from_tick: tick, until_tick: iv.through_tick, issued_round: round });
    }
    canonicalize(&mut candidate, tick)?;
    *locks = candidate;
    Ok(())
}

/// Number of live locks in `s` that come after `l` in the pruning order.
pub open spec fn count_after(s: Seq<OrderLock>, l: OrderLock, tick: int) -> nat
    decreases s.len(),
{
    if s.len() == 0 {
        0
    } else {
        count_after(s.drop_last(), l, tick) + if live(s.last(), tick) && dom_gt(s.last(), l) { 1nat } else { 0nat }
    }
}

proof fn lemma_count_after_decreases(s: Seq<OrderLock>, o: OrderLock, l: OrderLock, tick: int)
    requires
        dom_gt(o, l),
        live(o, tick),
    ensures
        count_after(s, o, tick) <= count_after(s, l, tick),
        s.contains(o) ==> count_after(s, o, tick) < count_after(s, l, tick),
    decreases s.len(),
{
    if s.len() > 0 {
        lemma_count_after_decreases(s.drop_last(), o, l, tick);
        if s.contains(o) && s.last() != o {
            let k = choose|k: int| 0 <= k < s.len() && s[k] == o;
            assert(s.drop_last()[k] == o);
        }
    }
}

proof fn lemma_dominates_trans(a: OrderLock, b: OrderLock, c: OrderLock, tick: int)
    requires
        dominates(a, b, tick),
        dominates(b, c, tick),
    ensures
        dominates(a, c, tick),
{
}

/// Every live lock is either kept itself or dominated by a kept lock.
proof fn lemma_kept_dominator(s: Seq<OrderLock>, l: OrderLock, tick: int) -> (k: OrderLock)
    requires
        s.contains(l),
        live(l, tick),
    ensures
        s.contains(k),
        kept(s, k, tick),
        k == l || dominates(k, l, tick),
    decreases count_after(s, l, tick),
{
    if kept(s, l, tick) {
        l
    } else {
        let j = choose|j: int| 0 <= j < s.len() && live(s[j], tick) && #[trigger] dominates(s[j], l, tick);
        let o = s[j];
        assert(s.contains(o));
        lemma_count_after_decreases(s, o, l, tick);
        let k = lemma_kept_dominator(s, o, tick);
        if k != o {
            lemma_dominates_trans(k, o, l, tick);
        }
        k
    }
}

/// Two strictly sorted lock lists with the same members are equal.
pub proof fn lemma_sorted_unique(a: Seq<OrderLock>, b: Seq<OrderLock>)
    requires
        strictly_sorted(a),
        strictly_sorted(b),
        forall|x: OrderLock| #[trigger] a.contains(x) <==> b.contains(x),
    ensures
        a == b,
    decreases a.len() + b.len(),
{
    if a.len() == 0 || b.len() == 0 {
        if a.len() > 0 {
            assert(a.contains(a[0]));
            assert(b.contains(a[0]));
        }
        if b.len() > 0 {
            assert(b.contains(b[0]));
            assert(a.contains(b[0]));
        }
        assert(a =~= b);
        return;
    }
    let x = a.last();
    let y = b.last();
    assert(a.contains(x));
    assert(b.contains(y));
    assert(b.contains(x));
    assert(a.contains(y));
    assert(x == y) by {
        if x != y {
            let i = choose|i: int| 0 <= i < b.len() && b[i] == x;
            let j = choose|j: int| 0 <= j < a.len() && a[j] == y;
            assert(i != b.len() - 1);
            assert(j != a.len() - 1);
            assert(lock_lt(b[i], b[b.len() - 1]));
            assert(lock_lt(a[j], a[a.len() - 1]));
            lemma_lock_lt_total(x, y);
        }
    }
    let a2 = a.drop_last();
    let b2 = b.drop_last();
    assert forall|z: OrderLock| #[trigger] a2.contains(z) <==> b2.contains(z) by {
        if a2.contains(z) {
            let k = choose|k: int| 0 <= k < a2.len() && a2[k] == z;
            assert(a[k] == z);
            assert(lock_lt(a[k], a[a.len() - 1]));
            assert(a.contains(z));
            assert(b.contains(z));
            let m = choose|m: int| 0 <= m < b.len() && b[m] == z;
            if m == b.len() - 1 {
                lemma_lock_lt_total(z, z);
            }
            assert(b2[m] == z);
        }
        if b2.contains(z) {
            let k = choose|k: int| 0 <= k < b2.len() && b2[k] == z;
            assert(b[k] == z);
            assert(lock_lt(b[k], b[b.len() - 1]));
            assert(b.contains(z));
            assert(a.contains(z));
            let m = choose|m: int| 0 <= m < a.len() && a[m] == z;
            if m == a.len() - 1 {
                lemma_lock_lt_total(z, z);
            }
            assert(a2[m] == z);
        }
    }
    lemma_sorted_unique(a2, b2);
    assert(a =~= a2.push(x));
    assert(b =~= b2.push(y));
}

/// Law: canonicalization never changes which writes are blocked at `tick` or any later tick.
pub proof fn law_canonical_preserves_blocks(r: Seq<OrderLock>, s: Seq<OrderLock>, tick: int, query: int, event_round: int)
    requires
        is_canonical_of(r, s, tick),
        query >= tick,
    ensures
        spec_blocks(r, query, event_round) == spec_blocks(s, query, event_round),
{
    if spec_blocks(r, query, event_round) {
        let i = choose|i: int| 0 <= i < r.len() && lock_covers(#[trigger] r[i], query, event_round);
        assert(r.contains(r[i]));
        let k = choose|k: int| 0 <= k < s.len() && s[k] == r[i];
        assert(lock_covers(s[k], query, event_round));
    }
    if spec_blocks(s, query, event_round) {
        let i = choose|i: int| 0 <= i < s.len() && lock_covers(#[trigger] s[i], query, event_round);
        let l = s[i];
        assert(s.contains(l));
        let k = lemma_kept_dominator(s, l, tick);
        assert(r.contains(k));
        let m = choose|m: int| 0 <= m < r.len() && r[m] == k;
        assert(lock_covers(r[m], query, event_round));
    }
}

/// Law: canonicalizing a canonical list again at the same tick succeeds and changes nothing.
pub proof fn law_canonical_idempotent(r: Seq<OrderLock>, s: Seq<OrderLock>, tick: int, r2: Seq<OrderLock>)
    requires
        is_canonical_of(r, s, tick),
        all_valid(s, tick),
        is_canonical_of(r2, r, tick),
    ensures
        all_valid(r, tick),
        r2 == r,
{
    assert forall|i: int| 0 <= i < r.len() implies !lock_invalid(#[trigger] r[i], tick) by {
        assert(r.contains(r[i]));
    }
    assert forall|x: OrderLock| #[trigger] r2.contains(x) <==> r.contains(x) by {
        if r.contains(x) {
            assert(kept(s, x, tick));
            if !kept(r, x, tick) {
                let j = choose|j: int| 0 <= j < r.len() && live(r[j], tick) && #[trigger] dominates(r[j], x, tick);
                assert(r.contains(r[j]));
                let m = choose|m: int| 0 <= m < s.len() && s[m] == r[j];
                assert(dominates(s[m], x, tick));
            }
        }
    }
    lemma_sorted_unique(r2, r);
}

/// Law: after a successful install, the new lock blocks every older round over its whole interval.
pub proof fn law_installed_lock_blocks(
    r: Seq<OrderLock>,
    locks: Seq<OrderLock>,
    tick: Tick,
    round: u32,
    policy: FutureOrderPolicy,
    window: Option<Tick>,
    max_tick: Tick,
    query: int,
    event_round: int,
)
    requires
        install_ok(locks, tick, round, policy, window, max_tick),
        is_canonical_of(r, with_new_lock(locks, tick, round, spec_lock_interval(tick, policy, window, max_tick)->0), tick as int),
        spec_lock_interval(tick, policy, window, max_tick)->0 matches Some(iv) && tick < query <= iv.through_tick,
        event_round < round,
    ensures
        spec_blocks(r, query, event_round),
{
    let iv = (spec_lock_interval(tick, policy, window, max_tick)->0)->0;
    let s = with_new_lock(locks, tick, round, Some(iv));
    assert(lock_covers(s[s.len() - 1], query, event_round));
    law_canonical_preserves_blocks(r, s, tick as int, query, event_round);
}

} // verus!
