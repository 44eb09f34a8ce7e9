//! Reading a published revision's history back: which stored snapshots a range request returns
//! at a stride, and which stored statistics samples represent the buckets of a range.
use vstd::prelude::*;
use crate::types::Tick;

verus! {

/// At most this many statistics buckets answer one request.
pub const MAX_STAT_BUCKETS: Tick = 2000;

/// The ticks at which a revision holds snapshots and statistics samples, each strictly
/// increasing; the samples themselves stay with their store.
#[derive(Debug, Clone, PartialEq, Eq)]
pub struct RevisionTicks {
    pub samples: Vec<Tick>,
    pub stats: Vec<Tick>,
}

pub open spec fn increasing(s: Seq<Tick>) -> bool {
    forall|i: int, j: int| 0 <= i < j < s.len() ==> #[trigger] s[i] < #[trigger] s[j]
}

/// A snapshot a range request returns: inside `[from, to]`, and on the stride counted from
/// `from`, or the last tick asked for.
pub open spec fn snapshot_kept(from: Tick, to: Tick, stride: Tick, t: Tick) -> bool {
    &&& from <= t <= to
    &&& (if stride == 0 { t == from } else { (t - from) % (stride as int) == 0 }) || t == to
}

pub open spec fn max_tick(a: Tick, b: Tick) -> Tick {
    if a >= b { a } else { b }
}

/// The smallest multiple of `m` that is at least `v` (`m` positive).
pub open spec fn round_up(v: int, m: int) -> int {
    if v % m == 0 { v } else { v + (m - v % m) }
}

/// The bucket width of a statistics request: the asked width, at least the snapshot interval
/// and wide enough for at most `MAX_STAT_BUCKETS` buckets over the range, rounded up to a
/// multiple of the interval.
pub open spec fn stats_width(snapshot_interval: Tick, from: Tick, to: Tick, bucket_width: Tick) -> int {
    let interval = max_tick(snapshot_interval, 1) as int;
    let span = if to - from + 1 > Tick::MAX { Tick::MAX as int } else { to - from + 1 };
    let least = (span + MAX_STAT_BUCKETS - 1) / (MAX_STAT_BUCKETS as int);
    let w = if bucket_width >= interval && bucket_width >= least { bucket_width as int }
        else if interval >= least { interval } else { least };
    round_up(w, interval)
}

pub open spec fn bucket_of(from: Tick, width: int, t: Tick) -> int {
    (t - from) / width
}

/// The samples representing the buckets: walking the samples in order, each one in `[from, to]`
/// replaces the last kept one when both fall in the same bucket.
pub open spec fn bucketed(s: Seq<Tick>, from: Tick, to: Tick, width: int) -> Seq<Tick>
    decreases s.len(),
{
    if s.len() == 0 {
        Seq::empty()
    } else {
        let prev = bucketed(s.drop_last(), from, to, width);
        let t = s.last();
        if !(from <= t <= to) {
            prev
        } else if prev.len() > 0 && bucket_of(from, width, prev.last()) == bucket_of(from, width, t) {
            prev.drop_last().push(t)
        } else {
            prev.push(t)
        }
    }
}

proof fn lemma_bucketed_in_range(s: Seq<Tick>, from: Tick, to: Tick, width: int)
    ensures
        forall|k: int| 0 <= k < bucketed(s, from, to, width).len() ==> from <= #[trigger] bucketed(s, from, to, width)[k] <= to,
    decreases s.len(),
{
    if s.len() > 0 {
        lemma_bucketed_in_range(s.drop_last(), from, to, width);
        let prev = bucketed(s.drop_last(), from, to, width);
        let r = bucketed(s, from, to, width);
        assert forall|k: int| 0 <= k < r.len() implies from <= #[trigger] r[k] <= to by {
            if k < prev.len() && k < r.len() - 1 {
                assert(r[k] == prev[k]);
            } else if !(from <= s.last() <= to) {
                assert(r[k] == prev[k]);
            }
        }
    }
}

impl RevisionTicks {
    /// The snapshots a range request returns, at a stride of at least the snapshot interval.
    pub fn snapshot_range(&self, snapshot_interval: Tick, from: Tick, to: Tick, stride: Tick) -> (r: Vec<Tick>)
        requires
            from <= to,
        ensures
            r@ == self.samples@.filter(|t: Tick| snapshot_kept(from, to, max_tick(stride, snapshot_interval), t)),
    {
        let stride = if stride >= snapshot_interval { stride } else { snapshot_interval };
        let ghost pred = |t: Tick| snapshot_kept(from, to, stride, t);
        let mut out: Vec<Tick> = Vec::new();
        let mut i: usize = 0;
        while i < self.samples.len()
            invariant
                0 <= i <= self.samples@.len(),
                from <= to,
                pred == (|t: Tick| snapshot_kept(from, to, stride, t)),
                out@ == self.samples@.take(i as int).filter(pred),
            decreases self.samples.len() - i,
        {
            let t = self.samples[i];
            proof {
                assert(self.samples@.take(i + 1) == self.samples@.take(i as int).push(t));
                self.samples@.take(i as int).lemma_filter_push(t, pred);
            }
            if from <= t && t <= to {
                let on_stride = if stride == 0 { t == from } else { (t - from) % stride == 0 };
                if on_stride || t == to {
                    out.push(t);
                }
            }
            i += 1;
        }
        proof {
            assert(self.samples@.take(i as int) == self.samples@);
        }
        out
    }

    /// The statistics samples answering a range request: for each bucket of the range that holds
    /// samples, its latest one, in order.
    pub fn stats_range(&self, snapshot_interval: Tick, from: Tick, to: Tick, bucket_width: Tick) -> (r: Vec<Tick>)
        requires
            from <= to,
            stats_width(snapshot_interval, from, to, bucket_width) <= Tick::MAX,
        ensures
            r@ == bucketed(self.stats@, from, to, stats_width(snapshot_interval, from, to, bucket_width)),
    {
        let interval: Tick = if snapshot_interval >= 1 { snapshot_interval } else { 1 };
        let span: Tick = (to - from).saturating_add(1);
        let least: Tick = span / MAX_STAT_BUCKETS + if span % MAX_STAT_BUCKETS == 0 { 0 } else { 1 };
        let w: Tick = if bucket_width >= interval && bucket_width >= least { bucket_width } else if interval >= least { interval } else { least };
        proof {
            let spec_span = if to - from + 1 > Tick::MAX { Tick::MAX as int } else { to - from + 1 };
            assert(span == spec_span);
            assert(least == (spec_span + MAX_STAT_BUCKETS - 1) / (MAX_STAT_BUCKETS as int)) by (nonlinear_arith)
                requires
                    least == span / 2000 + (if span % 2000 == 0 { 0int } else { 1int }),
                    span == spec_span,
                    span >= 1,
            ;
        }
        let rem = w % interval;
        let width: Tick = if rem == 0 { w } else { w + (interval - rem) };
        let ghost gw = stats_width(snapshot_interval, from, to, bucket_width);
        assert(width == gw);
        let mut out: Vec<Tick> = Vec::new();
        let mut i: usize = 0;
        while i < self.stats.len()
            invariant
                0 <= i <= self.stats@.len(),
                from <= to,
                width == gw,
                width >= 1,
                out@ == bucketed(self.stats@.take(i as int), from, to, gw),
            decreases self.stats.len() - i,
        {
            let t = self.stats[i];
            proof {
                assert(self.stats@.take(i + 1).drop_last() == self.stats@.take(i as int));
                lemma_bucketed_in_range(self.stats@.take(i as int), from, to, gw);
            }
            if from <= t && t <= to {
                let bucket = (t - from) / width;
                let len = out.len();
                if len > 0 && (out[len - 1] - from) / width == bucket {
                    out.pop();
                }
                out.push(t);
            }
            proof {
                let s1 = self.stats@.take(i + 1);
                assert(s1.last() == t);
            }
            i += 1;
        }
        proof {
            assert(self.stats@.take(i as int) == self.stats@);
        }
        out
    }
}

/// What `bucketed` keeps of increasing samples: ticks in range, taken from the samples, in
/// strictly increasing buckets, each in-range sample represented by a kept tick of its bucket no
/// earlier than it.
pub open spec fn buckets_hold(s: Seq<Tick>, from: Tick, to: Tick, width: int, r: Seq<Tick>) -> bool {
    &&& forall|k: int| 0 <= k < r.len() ==> from <= #[trigger] r[k] <= to && s.contains(r[k])
    &&& forall|a: int, b: int| 0 <= a < b < r.len() ==> bucket_of(from, width, #[trigger] r[a]) < bucket_of(from, width, #[trigger] r[b])
    &&& forall|i: int| 0 <= i < s.len() && from <= #[trigger] s[i] <= to ==> exists|k: int| 0 <= k < r.len()
        && bucket_of(from, width, #[trigger] r[k]) == bucket_of(from, width, s[i]) && s[i] <= r[k]
}

proof fn lemma_bucketed_holds(s: Seq<Tick>, from: Tick, to: Tick, width: int)
    requires
        increasing(s),
        width > 0,
    ensures
        buckets_hold(s, from, to, width, bucketed(s, from, to, width)),
    decreases s.len(),
{
    if s.len() > 0 {
        let s0 = s.drop_last();
        let t = s.last();
        assert(increasing(s0));
        lemma_bucketed_holds(s0, from, to, width);
        let prev = bucketed(s0, from, to, width);
        let r = bucketed(s, from, to, width);
        assert forall|k: int| 0 <= k < prev.len() implies #[trigger] prev[k] < t by {
            assert(s0.contains(prev[k]));
            let j = choose|j: int| 0 <= j < s0.len() && s0[j] == prev[k];
            assert(s[j] == s0[j] && s[s.len() - 1] == t);
        }
        if from <= t <= to {
            if prev.len() > 0 {
                assert(prev.last() < t);
                assert(bucket_of(from, width, prev.last()) <= bucket_of(from, width, t)) by (nonlinear_arith)
                    requires
                        from <= prev.last() < t,
                        width > 0,
                ;
            }
        }
        assert forall|k: int| 0 <= k < r.len() implies from <= #[trigger] r[k] <= to && s.contains(r[k]) by {
            if r[k] == t {
                assert(s[s.len() - 1] == t);
            } else {
                assert(r[k] == prev[k]);
                assert(s0.contains(prev[k]));
                let j = choose|j: int| 0 <= j < s0.len() && s0[j] == prev[k];
                assert(s[j] == s0[j]);
            }
        }
        assert forall|i: int| 0 <= i < s.len() && from <= #[trigger] s[i] <= to implies exists|k: int| 0 <= k < r.len()
            && bucket_of(from, width, #[trigger] r[k]) == bucket_of(from, width, s[i]) && s[i] <= r[k] by {
            if i == s.len() - 1 {
                assert(r[r.len() - 1] == t);
            } else {
                assert(s0[i] == s[i]);
                let k = choose|k: int| 0 <= k < prev.len()
                    && bucket_of(from, width, #[trigger] prev[k]) == bucket_of(from, width, s0[i]) && s0[i] <= prev[k];
                if from <= t <= to && prev.len() > 0 && bucket_of(from, width, prev.last()) == bucket_of(from, width, t) && k == prev.len() - 1 {
                    assert(r[k] == t);
                    assert(prev[k] < t);
                } else {
                    assert(r[k] == prev[k]);
                }
            }
        }
    }
}

proof fn lemma_increasing_len(r: Seq<int>, top: int)
    requires
        top >= -1,
        forall|a: int, b: int| 0 <= a < b < r.len() ==> #[trigger] r[a] < #[trigger] r[b],
        forall|k: int| 0 <= k < r.len() ==> 0 <= #[trigger] r[k] <= top,
    ensures
        r.len() <= top + 1,
    decreases r.len(),
{
    if r.len() > 1 {
        let r0 = r.drop_last();
        let last = r[r.len() - 1];
        assert(0 <= last <= top);
        assert forall|k: int| 0 <= k < r0.len() implies 0 <= #[trigger] r0[k] <= last - 1 by {
            assert(r0[k] == r[k]);
            assert(r[k] < r[r.len() - 1]);
        }
        assert forall|a: int, b: int| 0 <= a < b < r0.len() implies #[trigger] r0[a] < #[trigger] r0[b] by {
            assert(r0[a] == r[a] && r0[b] == r[b]);
        }
        lemma_increasing_len(r0, last - 1);
    } else if r.len() == 1 {
        assert(0 <= r[0] <= top);
    }
}

/// A statistics request returns at most `MAX_STAT_BUCKETS` samples.
pub proof fn law_stats_buckets_bounded(stats: Seq<Tick>, snapshot_interval: Tick, from: Tick, to: Tick, bucket_width: Tick)
    requires
        increasing(stats),
        from <= to,
    ensures
        bucketed(stats, from, to, stats_width(snapshot_interval, from, to, bucket_width)).len() <= MAX_STAT_BUCKETS,
{
    let width = stats_width(snapshot_interval, from, to, bucket_width);
    let interval = max_tick(snapshot_interval, 1) as int;
    let span = if to - from + 1 > Tick::MAX { Tick::MAX as int } else { to - from + 1 };
    let least = (span + MAX_STAT_BUCKETS - 1) / (MAX_STAT_BUCKETS as int);
    let w = if bucket_width >= interval && bucket_width >= least { bucket_width as int }
        else if interval >= least { interval } else { least };
    assert(w >= least && w >= interval && interval >= 1);
    assert(width >= w) by {
        assert(w % interval >= 0 && w % interval < interval) by (nonlinear_arith)
            requires
                interval >= 1,
        ;
    }
    assert(least * 2000 >= span) by (nonlinear_arith)
        requires
            least == (span + 1999) / 2000,
            span >= 1,
    ;
    let top = (to - from) / width;
    assert(top <= 1999) by (nonlinear_arith)
        requires
            width >= least,
            least * 2000 >= span,
            span == (if to - from + 1 > 0xffff_ffff { 0xffff_ffffint } else { to - from + 1 }),
            top == (to - from) / width,
            to - from <= 0xffff_ffff,
            to >= from,
            width >= 1,
    ;
    lemma_bucketed_holds(stats, from, to, width);
    let r = bucketed(stats, from, to, width);
    let b = r.map_values(|t: Tick| bucket_of(from, width, t));
    assert forall|k: int| 0 <= k < b.len() implies 0 <= #[trigger] b[k] <= top by {
        assert(from <= r[k] <= to);
        assert(0 <= bucket_of(from, width, r[k]) <= top) by (nonlinear_arith)
            requires
                from <= r[k] <= to,
                width >= 1,
                top == (to - from) / width,
        ;
    }
    lemma_increasing_len(b, top);
}

/// A statistics request reports, for each bucket holding samples in the range, the latest of
/// them: the samples returned lie in the range, in strictly increasing buckets, and every sample
/// in the range has one returned in its bucket that is no earlier.
pub proof fn law_stats_report_latest(stats: Seq<Tick>, snapshot_interval: Tick, from: Tick, to: Tick, bucket_width: Tick)
    requires
        increasing(stats),
        from <= to,
    ensures
        buckets_hold(stats, from, to, stats_width(snapshot_interval, from, to, bucket_width),
            bucketed(stats, from, to, stats_width(snapshot_interval, from, to, bucket_width))),
{
    let width = stats_width(snapshot_interval, from, to, bucket_width);
    let interval = max_tick(snapshot_interval, 1) as int;
    assert(width >= 1) by {
        let span = if to - from + 1 > Tick::MAX { Tick::MAX as int } else { to - from + 1 };
        let least = (span + MAX_STAT_BUCKETS - 1) / (MAX_STAT_BUCKETS as int);
        let w = if bucket_width >= interval && bucket_width >= least { bucket_width as int }
            else if interval >= least { interval } else { least };
        assert(w % interval >= 0 && w % interval < interval) by (nonlinear_arith)
            requires
                interval >= 1,
        ;
    }
    lemma_bucketed_holds(stats, from, to, width);
}

} // verus!
