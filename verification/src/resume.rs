//! Reopening a match from its archive: refusing an archive recorded under other content or
//! configuration, and the state the match resumes in from its last round record.
use vstd::prelude::*;
use crate::types::{PlayerId, Revision, Tick};
use crate::safe::{SafeInt, Version};
use crate::scoring::{views, PlayerTime, SideId};
use crate::scoreboard::RoundScore;
use crate::timed::{copy_ids, TimedAdjudication, TimedStatus};
use crate::commit::Phase;

verus! {

/// What a match was recorded under.
#[derive(Debug, Clone, PartialEq, Eq)]
pub struct Fingerprint {
    pub schema_version: Version,
    pub sim_build: String,
    pub target: String,
    pub config_hash: String,
    pub content_hash: String,
}

/// What resuming reads of the last durable round record.
#[derive(Debug, Clone, PartialEq, Eq)]
pub struct RoundSummary {
    pub revision: Revision,
    pub round: u32,
    pub editable_from: Tick,
    pub score: Option<RoundScore>,
    pub timed: Option<TimedAdjudication>,
    pub time_totals: Vec<PlayerTime>,
}

/// The state a match resumes in.
#[derive(Debug, Clone, PartialEq, Eq)]
pub struct Resumed {
    pub phase: Phase,
    pub current: Revision,
    pub round: u32,
    pub editable_from: Tick,
    pub timed: Option<TimedAdjudication>,
    pub match_winners: Vec<SideId>,
    /// Planning time per player, in milliseconds.
    pub time_totals: Vec<u64>,
    /// Players whose turn for the resumed round was already recorded.
    pub committed: Vec<PlayerId>,
}

/// The archive was recorded under the content, configuration and schema now in use.
pub open spec fn same_recording(recorded: Fingerprint, current: Fingerprint) -> bool {
    &&& recorded.content_hash@ == current.content_hash@
    &&& recorded.config_hash@ == current.config_hash@
    &&& recorded.schema_version == current.schema_version
}

/// The match winners a round record carries: its score's, else its timed result's, else none.
pub open spec fn record_winners(last: RoundSummary) -> Seq<crate::scoring::SideView> {
    match last.score {
        Some(s) => views(s.match_winners@),
        None => match last.timed {
            Some(t) => views(t.match_winners@),
            None => Seq::empty(),
        },
    }
}

/// Recorded planning time per player, padded with zeros or cut to the player count.
pub open spec fn recorded_totals(t: Seq<PlayerTime>, player_count: u8) -> Seq<u64> {
    Seq::new(player_count as nat, |k: int| if k < t.len() { t[k].total_ms.value() } else { 0 })
}

/// The duration of a recorded turn of player `k` for the resumed round, or 0.
pub open spec fn pending_ms(pending: Seq<Option<SafeInt>>, k: int) -> int {
    if k < pending.len() {
        match pending[k] {
            Some(d) => d.value() as int,
            None => 0,
        }
    } else {
        0
    }
}

/// The record ends the match: it names winners, or its timed result is past planning.
pub open spec fn record_finishes(last: RoundSummary) -> bool {
    record_winners(last).len() > 0 || (last.timed matches Some(t) && t.status != TimedStatus::Planning)
}

/// A match resumed before any round was published: the opening is simulated again.
pub open spec fn fresh_resume(s: Resumed, player_count: u8) -> bool {
    &&& s.phase == Phase::Simulating
    &&& s.current == 0 && s.round == 0 && s.editable_from == 0
    &&& s.timed is None
    &&& s.match_winners@.len() == 0
    &&& s.time_totals@ == Seq::new(player_count as nat, |k: int| 0u64)
    &&& s.committed@.len() == 0
}

/// Planning resumes with the recorded turns for the round accepted, in player order, and their
/// time added to the recorded totals.
pub open spec fn planning_resumed(s: Resumed, l: RoundSummary, player_count: u8, pending: Seq<Option<SafeInt>>) -> bool {
    &&& s.time_totals@.len() == player_count
    &&& forall|k: int| 0 <= k < player_count ==> #[trigger] s.time_totals@[k]
        == recorded_totals(l.time_totals@, player_count)[k] + pending_ms(pending, k)
    &&& forall|k: int| 0 <= k < s.committed@.len() ==> (#[trigger] s.committed@[k]) < player_count
        && s.committed@[k] < pending.len() && pending[s.committed@[k] as int] is Some
    &&& forall|p: int| 0 <= p < player_count && p < pending.len() && pending[p] is Some
        ==> #[trigger] s.committed@.contains(p as PlayerId)
    &&& forall|a: int, b: int| 0 <= a < b < s.committed@.len() ==> s.committed@[a] < s.committed@[b]
}

/// The state resumed from the last round record `l`.
pub open spec fn resumed_from(s: Resumed, l: RoundSummary, archived: bool, player_count: u8, pending: Seq<Option<SafeInt>>) -> bool {
    &&& s.current == l.revision
    &&& s.round == l.round + 1
    &&& s.editable_from == l.editable_from
    &&& s.timed == l.timed
    &&& views(s.match_winners@) == record_winners(l)
    &&& s.phase == (if archived { Phase::Archived } else if record_finishes(l) { Phase::Finished } else { Phase::Planning })
    &&& s.phase == Phase::Planning ==> planning_resumed(s, l, player_count, pending)
    &&& s.phase != Phase::Planning ==> s.time_totals@ == recorded_totals(l.time_totals@, player_count) && s.committed@.len() == 0
}

fn totals_of(t: &Vec<PlayerTime>, player_count: u8) -> (r: Vec<u64>)
    ensures
        r@ == recorded_totals(t@, player_count),
{
    let mut r: Vec<u64> = Vec::new();
    let mut k: usize = 0;
    while k < player_count as usize
        invariant
            0 <= k <= player_count,
            r@.len() == k,
            forall|j: int| 0 <= j < k ==> #[trigger] r@[j] == recorded_totals(t@, player_count)[j],
        decreases player_count as usize - k,
    {
        if k < t.len() {
            r.push(t[k].total_ms.get());
        } else {
            r.push(0);
        }
        k += 1;
    }
    assert(r@ =~= recorded_totals(t@, player_count));
    r
}

/// The state a match resumes in from its archive. It is refused exactly when the archive was
/// recorded under other content, configuration or schema. With no round record the opening is
/// simulated again. Otherwise the last record gives the current revision, the next round, the
/// editable-from tick, the timed result and the winners (its score's, else its timed result's),
/// with planning time per player padded to the player count. An archived match stays archived, a
/// finished one finished; otherwise planning resumes with the turns already recorded for the
/// round accepted and their time counted.
pub fn resume_state(
    recorded: &Fingerprint,
    current: &Fingerprint,
    last: Option<RoundSummary>,
    archived: bool,
    player_count: u8,
    pending: &Vec<Option<SafeInt>>,
) -> (r: Result<Resumed, String>)
    requires
        last matches Some(l) ==> l.round < u32::MAX,
        last matches Some(l) ==> forall|k: int| 0 <= k < player_count
            ==> #[trigger] recorded_totals(l.time_totals@, player_count)[k] + pending_ms(pending@, k) <= u64::MAX,
    ensures
        r is Err <==> !same_recording(*recorded, *current),
        r matches Ok(s) ==> match last {
            None => fresh_resume(s, player_count),
            Some(l) => resumed_from(s, l, archived, player_count, pending@),
        },
{
    if !(recorded.content_hash == current.content_hash && recorded.config_hash == current.config_hash
        && recorded.schema_version == current.schema_version) {
        return Err("archive was recorded under different content/config; refusing to replay it silently".to_string());
    }
    let l = match last {
        None => {
            let mut zeros: Vec<u64> = Vec::new();
            let mut k: usize = 0;
            while k < player_count as usize
                invariant
                    0 <= k <= player_count,
                    zeros@.len() == k,
                    forall|j: int| 0 <= j < k ==> #[trigger] zeros@[j] == 0u64,
                decreases player_count as usize - k,
            {
                zeros.push(0);
                k += 1;
            }
            assert(zeros@ =~= Seq::new(player_count as nat, |k: int| 0u64));
            return Ok(Resumed {
                phase: Phase::Simulating,
                current: 0,
                round: 0,
                editable_from: 0,
                timed: None,
                match_winners: Vec::new(),
                time_totals: zeros,
                committed: Vec::new(),
            });
        },
        Some(l) => l,
    };
    let ghost lg = l;
    let RoundSummary { revision, round, editable_from, score, timed, time_totals } = l;
    let match_winners = match score {
        Some(s) => s.match_winners,
        None => match &timed {
            Some(t) => copy_ids(&t.match_winners),
            None => Vec::new(),
        },
    };
    proof {
        if lg.score is None && lg.timed is None {
            assert(views(match_winners@) =~= Seq::<crate::scoring::SideView>::empty());
        }
    }
    let mut totals = totals_of(&time_totals, player_count);
    let finished = match_winners.len() > 0 || match &timed {
        Some(t) => t.status != TimedStatus::Planning,
        None => false,
    };
    proof {
        assert(views(match_winners@).len() == match_winners@.len());
    }
    let mut committed: Vec<PlayerId> = Vec::new();
    let phase = if archived {
        Phase::Archived
    } else if finished {
        Phase::Finished
    } else {
        let ghost base = totals@;
        let mut p: u8 = 0;
        while p < player_count
            invariant
                p <= player_count,
                base == recorded_totals(lg.time_totals@, player_count),
                totals@.len() == player_count,
                forall|k: int| 0 <= k < player_count ==> #[trigger] recorded_totals(lg.time_totals@, player_count)[k] + pending_ms(pending@, k) <= u64::MAX,
                forall|k: int| 0 <= k < p ==> #[trigger] totals@[k] == base[k] + pending_ms(pending@, k),
                forall|k: int| p <= k < player_count ==> #[trigger] totals@[k] == base[k],
                forall|k: int| 0 <= k < committed@.len() ==> (#[trigger] committed@[k]) < p
                    && committed@[k] < pending@.len() && pending@[committed@[k] as int] is Some,
                forall|q: int| 0 <= q < p && q < pending@.len() && pending@[q] is Some ==> #[trigger] committed@.contains(q as PlayerId),
                forall|a: int, b: int| 0 <= a < b < committed@.len() ==> committed@[a] < committed@[b],
            decreases player_count - p,
        {
            let i = p as usize;
            if i < pending.len() {
                match pending[i] {
                    Some(d) => {
                        let add = d.get();
                        assert(totals@[i as int] + pending_ms(pending@, i as int) <= u64::MAX);
                        let v = totals[i] + add;
                        totals.set(i, v);
                        let ghost before = committed@;
                        committed.push(p);
                        proof {
                            assert forall|q: int| 0 <= q < p + 1 && q < pending@.len() && pending@[q] is Some implies #[trigger] committed@.contains(q as PlayerId) by {
                                if q < p {
                                    assert(before.contains(q as PlayerId));
                                    let w = choose|w: int| 0 <= w < before.len() && before[w] == q as PlayerId;
                                    assert(committed@[w] == q as PlayerId);
                                } else {
                                    assert(committed@[before.len() as int] == q as PlayerId);
                                }
                            }
                        }
                    },
                    None => {},
                }
            }
            p += 1;
        }
        Phase::Planning
    };
    Ok(Resumed { phase, current: revision, round: round + 1, editable_from, timed, match_winners, time_totals: totals, committed })
}

/// What publishing a round's results leaves for the next round.
pub struct Published {
    pub editable_from: Tick,
    pub match_winners: Vec<SideId>,
}

/// The players an earlier timed adjudication already counted as lost: those of the last timed
/// result, or none before the first.
pub fn previously_lost(last: &Option<TimedAdjudication>) -> (r: Vec<PlayerId>)
    ensures
        r@ == match last {
            Some(t) => t.timed_lost_players@,
            None => Seq::<PlayerId>::empty(),
        },
{
    let mut r: Vec<PlayerId> = Vec::new();
    match last {
        None => {},
        Some(t) => {
            let mut k: usize = 0;
            while k < t.timed_lost_players.len()
                invariant
                    0 <= k <= t.timed_lost_players@.len(),
                    r@ == t.timed_lost_players@.take(k as int),
                decreases t.timed_lost_players.len() - k,
            {
                r.push(t.timed_lost_players[k]);
                k += 1;
                proof {
                    assert(r@ == t.timed_lost_players@.take(k as int));
                }
            }
            proof {
                assert(t.timed_lost_players@.take(k as int) == t.timed_lost_players@);
            }
        },
    }
    r
}

/// Bookkeeping once a round's results are in: a timed result moves the editable boundary to its
/// own and names the match winners; otherwise a score names them; a round with neither (round
/// zero) leaves both as they were.
pub fn record_publication(
    editable_from: Tick,
    winners: &Vec<SideId>,
    score: &Option<RoundScore>,
    timed: &Option<TimedAdjudication>,
) -> (r: Published)
    ensures
        r.editable_from == match timed {
            Some(t) => t.boundary,
            None => editable_from,
        },
        views(r.match_winners@) == match timed {
            Some(t) => views(t.match_winners@),
            None => match score {
                Some(s) => views(s.match_winners@),
                None => views(winners@),
            },
        },
{
    match timed {
        Some(t) => Published { editable_from: t.boundary, match_winners: copy_ids(&t.match_winners) },
        None => match score {
            Some(s) => Published { editable_from, match_winners: copy_ids(&s.match_winners) },
            None => Published { editable_from, match_winners: copy_ids(winners) },
        },
    }
}

} // verus!
