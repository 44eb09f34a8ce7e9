//! Scoreboard rules and the reduction of one simulated round into cumulative side scores.
//!
//! Scores count credited players, so raw totals are whole numbers. Under a time penalty the
//! adjusted totals are ratios of planning times; those, and the victory test on them, are
//! floating-point work left to the caller (see `resolve_round`).
use vstd::prelude::*;
use crate::types::PlayerId;
use crate::scoring::{
    contains_player, copy_side, has_side, outcome_valid, side_eq, sides, sides_of, sides_valid,
    times_valid, timings, validate_outcome, views, Multiplayer, Outcome, OutcomeKind, PlayerTime,
    Side, SideId, SideView,
};
use crate::draft::copy_vec;

verus! {

#[derive(Debug, Clone, Copy, PartialEq, Eq, Structural)]
pub enum TiePolicy {
    ContinueUntilUnique,
    SharedVictory,
}

/// Whether a draw credits anybody: nobody, or every player.
#[derive(Debug, Clone, Copy, PartialEq, Eq, Structural)]
pub enum DrawScoring {
    NoCredit,
    AllPlayers,
}

/// Whether credited players are weighted by their planning time against the fastest opponent.
#[derive(Debug, Clone, Copy, PartialEq, Eq, Structural)]
pub enum TimePenalty {
    Off,
    FastestOpponentRatio,
}

/// When a side wins the match: on reaching a score, or on leading every rival by a margin.
/// Raw scores are whole points, so a threshold is a whole number of points.
#[derive(Debug, Clone, Copy, PartialEq, Eq, Structural)]
pub enum VictoryRule {
    FixedTarget { points: u64 },
    Lead { margin: u64 },
}

#[derive(Debug, Clone, Copy, PartialEq, Eq, Structural)]
pub struct ScoreboardRules {
    pub victory_rule: VictoryRule,
    pub tie_policy: TiePolicy,
    pub draw_scoring: DrawScoring,
    pub time_penalty: TimePenalty,
}

impl Default for ScoreboardRules {
    fn default() -> (r: ScoreboardRules)
        ensures
            r == (ScoreboardRules {
                victory_rule: VictoryRule::FixedTarget { points: 5 },
                tie_policy: TiePolicy::ContinueUntilUnique,
                draw_scoring: DrawScoring::NoCredit,
                time_penalty: TimePenalty::Off,
            }),
    {
        ScoreboardRules {
            victory_rule: VictoryRule::FixedTarget { points: 5 },
            tie_policy: TiePolicy::ContinueUntilUnique,
            draw_scoring: DrawScoring::NoCredit,
            time_penalty: TimePenalty::Off,
        }
    }
}

pub open spec fn rules_valid(rules: ScoreboardRules) -> bool {
    match rules.victory_rule {
        VictoryRule::FixedTarget { points } => points > 0,
        VictoryRule::Lead { margin } => margin > 0,
    }
}

/// The score target or lead margin must be positive.
pub fn validate_rules(rules: &ScoreboardRules) -> (r: Result<(), String>)
    ensures
        r is Ok <==> rules_valid(*rules),
{
    let threshold = match rules.victory_rule {
        VictoryRule::FixedTarget { points } => points,
        VictoryRule::Lead { margin } => margin,
    };
    if threshold == 0 {
        return Err("score target/margin must be finite and positive".to_string());
    }
    Ok(())
}

#[derive(Debug, Clone, Copy, PartialEq, Eq, Structural)]
pub enum AwardReason {
    Survival,
    Draw,
    Unawarded,
}

/// One side's line of a round: who survived, who is credited and why, and its running score.
#[derive(Debug, Clone, PartialEq, Eq)]
pub struct ScoreEntry {
    pub side_id: SideId,
    pub surviving_members: Vec<PlayerId>,
    pub credited_players: Vec<PlayerId>,
    pub award_reason: AwardReason,
    pub raw_delta: u64,
    pub raw_total: u64,
}

/// The durable result of a scored round.
#[derive(Debug, Clone, PartialEq, Eq)]
pub struct RoundScore {
    pub round: u32,
    pub entries: Vec<ScoreEntry>,
    pub victory_rule: VictoryRule,
    pub match_winners: Vec<SideId>,
}

pub ghost struct EntryView {
    pub side: SideView,
    pub surviving: Seq<PlayerId>,
    pub credited: Seq<PlayerId>,
    pub reason: AwardReason,
    pub raw_delta: u64,
    pub raw_total: u64,
}

impl View for ScoreEntry {
    type V = EntryView;

    open spec fn view(&self) -> EntryView {
        EntryView {
            side: self.side_id@,
            surviving: self.surviving_members@,
            credited: self.credited_players@,
            reason: self.award_reason,
            raw_delta: self.raw_delta,
            raw_total: self.raw_total,
        }
    }
}

pub open spec fn entry_views(e: Seq<ScoreEntry>) -> Seq<EntryView> {
    e.map_values(|x: ScoreEntry| x@)
}

pub ghost struct RoundView {
    pub round: u32,
    pub entries: Seq<EntryView>,
    pub victory_rule: VictoryRule,
    pub match_winners: Seq<SideView>,
}

impl View for RoundScore {
    type V = RoundView;

    open spec fn view(&self) -> RoundView {
        RoundView {
            round: self.round,
            entries: entry_views(self.entries@),
            victory_rule: self.victory_rule,
            match_winners: views(self.match_winners@),
        }
    }
}

// ---- the reduction, as a specification ---------------------------------------------------------

/// `i` is the first entry of side `v`.
pub open spec fn is_first_entry(e: Seq<EntryView>, v: SideView, i: int) -> bool {
    &&& 0 <= i < e.len()
    &&& e[i].side == v
    &&& forall|j: int| 0 <= j < i ==> e[j].side != v
}

/// The earlier total of side `v`: that of its first entry, or zero.
pub open spec fn prior_total(e: Seq<EntryView>, v: SideView) -> u64 {
    if exists|i: int| is_first_entry(e, v, i) {
        e[choose|i: int| is_first_entry(e, v, i)].raw_total
    } else {
        0
    }
}

pub open spec fn survives(survivors: Seq<PlayerId>) -> spec_fn(PlayerId) -> bool {
    |p: PlayerId| survivors.contains(p)
}

/// Members of `side` that survived, in member order.
pub open spec fn surviving_members(side: Side, o: Outcome) -> Seq<PlayerId> {
    side.members@.filter(survives(o.survivors@))
}

/// A win credits a side's survivors; a draw credits every player when draws score.
pub open spec fn credited(side: Side, o: Outcome, rules: ScoreboardRules) -> Seq<PlayerId> {
    if o.kind == OutcomeKind::Win {
        surviving_members(side, o)
    } else if o.kind == OutcomeKind::Draw && rules.draw_scoring == DrawScoring::AllPlayers {
        side.members@
    } else {
        seq![]
    }
}

pub open spec fn award(side: Side, o: Outcome, rules: ScoreboardRules) -> AwardReason {
    if o.kind == OutcomeKind::Win {
        if surviving_members(side, o).len() == 0 {
            AwardReason::Unawarded
        } else {
            AwardReason::Survival
        }
    } else if o.kind == OutcomeKind::Draw && rules.draw_scoring == DrawScoring::AllPlayers {
        AwardReason::Draw
    } else {
        AwardReason::Unawarded
    }
}

/// The round's line for `side`: each credited player adds one point to the earlier total.
pub open spec fn entry_of(side: Side, o: Outcome, rules: ScoreboardRules, prior: Seq<EntryView>) -> EntryView {
    let c = credited(side, o, rules);
    EntryView {
        side: side.id@,
        surviving: surviving_members(side, o),
        credited: c,
        reason: award(side, o, rules),
        raw_delta: c.len() as u64,
        raw_total: (prior_total(prior, side.id@) + c.len()) as u64,
    }
}

/// Some side's new total does not fit.
pub open spec fn overflows(s: Seq<Side>, o: Outcome, rules: ScoreboardRules, prior: Seq<EntryView>) -> bool {
    exists|k: int| 0 <= k < s.len() && prior_total(prior, s[k].id@) + (#[trigger] credited(s[k], o, rules)).len() > u64::MAX
}

pub open spec fn fresh_entries(s: Seq<Side>, o: Outcome, rules: ScoreboardRules, prior: Seq<EntryView>) -> Seq<EntryView> {
    Seq::new(s.len(), |k: int| entry_of(s[k], o, rules, prior))
}

/// The highest total (zero for no entries).
pub open spec fn highest(t: Seq<EntryView>) -> u64
    decreases t.len(),
{
    if t.len() == 0 {
        0
    } else {
        let m = highest(t.drop_last());
        if t.last().raw_total > m {
            t.last().raw_total
        } else {
            m
        }
    }
}

/// The sides whose total is `h`, in entry order.
pub open spec fn leaders(t: Seq<EntryView>, h: u64) -> Seq<SideView>
    decreases t.len(),
{
    if t.len() == 0 {
        seq![]
    } else {
        let l = leaders(t.drop_last(), h);
        if t.last().raw_total == h {
            l.push(t.last().side)
        } else {
            l
        }
    }
}

/// The highest total among the sides other than `v` (zero for none).
pub open spec fn best_except(t: Seq<EntryView>, v: SideView) -> u64
    decreases t.len(),
{
    if t.len() == 0 {
        0
    } else {
        let m = best_except(t.drop_last(), v);
        if t.last().side != v && t.last().raw_total > m {
            t.last().raw_total
        } else {
            m
        }
    }
}

/// The winners by raw totals: the leaders once the target is reached (a tie only under shared
/// victory), or the single leader once it leads every rival by the margin.
pub open spec fn winners(rules: ScoreboardRules, t: Seq<EntryView>) -> Seq<SideView> {
    let h = highest(t);
    let l = leaders(t, h);
    match rules.victory_rule {
        VictoryRule::FixedTarget { points } => {
            if h >= points && (l.len() == 1 || rules.tie_policy == TiePolicy::SharedVictory) {
                l
            } else {
                seq![]
            }
        },
        VictoryRule::Lead { margin } => {
            if l.len() == 1 && h - best_except(t, l[0]) >= margin {
                l
            } else {
                seq![]
            }
        },
    }
}

/// Some entry of `e` belongs to side `v`.
pub open spec fn side_listed(e: Seq<EntryView>, v: SideView) -> bool {
    exists|i: int| 0 <= i < e.len() && (#[trigger] e[i]).side == v
}

/// Earlier entries name exactly the current sides, as many as there are.
pub open spec fn sides_match(e: Seq<EntryView>, s: Seq<Side>) -> bool {
    &&& e.len() == s.len()
    &&& forall|i: int| 0 <= i < e.len() ==> has_side(s, (#[trigger] e[i]).side)
    &&& forall|k: int| 0 <= k < s.len() ==> side_listed(e, (#[trigger] s[k]).id@)
}

/// A new round's record; `None` when a total would not fit.
pub open spec fn fresh_round(round: u32, rules: ScoreboardRules, o: Outcome, prior: Seq<EntryView>, s: Seq<Side>) -> Option<RoundView> {
    if overflows(s, o, rules, prior) {
        None
    } else {
        let entries = fresh_entries(s, o, rules, prior);
        Some(RoundView {
            round,
            entries,
            victory_rule: rules.victory_rule,
            match_winners: if rules.time_penalty == TimePenalty::Off { winners(rules, entries) } else { seq![] },
        })
    }
}

/// What scoring `round` after `prev` gives on the sides `s`; `None` when it is refused.
/// Rounds start at 1 and follow the last durable result; a retry of that round returns its
/// record unchanged; a finished match takes no further round; the victory rule and the sides
/// must not change.
pub open spec fn scored(round: u32, rules: ScoreboardRules, o: Outcome, prev: Option<RoundView>, s: Seq<Side>) -> Option<RoundView> {
    match prev {
        Some(p) => {
            if p.victory_rule != rules.victory_rule || !sides_match(p.entries, s) {
                None
            } else if round == p.round {
                Some(p)
            } else if p.round + 1 != round || p.match_winners.len() != 0 {
                None
            } else {
                fresh_round(round, rules, o, p.entries, s)
            }
        },
        None => {
            if round != 1 {
                None
            } else {
                fresh_round(round, rules, o, seq![], s)
            }
        },
    }
}

pub open spec fn prior_view(previous: Option<&RoundScore>) -> Option<RoundView> {
    match previous {
        Some(p) => Some(p@),
        None => None,
    }
}

/// The inputs of a round are individually well formed.
pub open spec fn round_inputs_valid(player_count: u8, mode: Multiplayer, rules: ScoreboardRules, o: Outcome, times: Seq<PlayerTime>) -> bool {
    &&& rules_valid(rules)
    &&& sides_valid(player_count, mode)
    &&& outcome_valid(player_count, mode, o)
    &&& times_valid(player_count, times)
}

// ---- the reduction, executed ----------------------------------------------------------------------

fn survivors_of(members: &Vec<PlayerId>, survivors: &Vec<PlayerId>) -> (r: Vec<PlayerId>)
    ensures
        r@ == members@.filter(survives(survivors@)),
{
    let mut r: Vec<PlayerId> = Vec::new();
    let mut i: usize = 0;
    while i < members.len()
        invariant
            0 <= i <= members@.len(),
            r@ == members@.take(i as int).filter(survives(survivors@)),
        decreases members.len() - i,
    {
        proof {
            assert(members@.take(i as int + 1) == members@.take(i as int).push(members@[i as int]));
            members@.take(i as int).lemma_filter_push(members@[i as int], survives(survivors@));
        }
        if contains_player(survivors, members[i]) {
            r.push(members[i]);
        }
        i += 1;
    }
    assert(members@.take(members@.len() as int) == members@);
    r
}

fn prior_total_of(e: &Vec<ScoreEntry>, side: &SideId) -> (t: u64)
    ensures
        t == prior_total(entry_views(e@), side@),
{
    let ghost ev = entry_views(e@);
    let mut i: usize = 0;
    while i < e.len()
        invariant
            0 <= i <= e@.len(),
            ev == entry_views(e@),
            forall|j: int| 0 <= j < i ==> ev[j].side != side@,
        decreases e.len() - i,
    {
        if side_eq(&e[i].side_id, side) {
            proof {
                assert(ev[i as int] == e@[i as int]@);
                assert(is_first_entry(ev, side@, i as int));
                let c = choose|c: int| is_first_entry(ev, side@, c);
                if c < i {
                    assert(ev[c].side != side@);
                } else if c > i {
                    assert(ev[i as int].side != side@);
                }
            }
            return e[i].raw_total;
        }
        assert(ev[i as int] == e@[i as int]@);
        i += 1;
    }
    proof {
        if exists|c: int| is_first_entry(ev, side@, c) {
            let c = choose|c: int| is_first_entry(ev, side@, c);
            assert(ev[c].side != side@);
        }
    }
    0
}

fn copy_sides(v: &Vec<SideId>) -> (r: Vec<SideId>)
    ensures
        views(r@) == views(v@),
{
    let mut r: Vec<SideId> = Vec::new();
    let mut i: usize = 0;
    while i < v.len()
        invariant
            0 <= i <= v@.len(),
            r@.len() == i,
            forall|j: int| 0 <= j < i ==> (#[trigger] r@[j])@ == v@[j]@,
        decreases v.len() - i,
    {
        r.push(copy_side(&v[i]));
        i += 1;
    }
    assert(views(r@) =~= views(v@));
    r
}

fn copy_entry(e: &ScoreEntry) -> (r: ScoreEntry)
    ensures
        r@ == e@,
{
    ScoreEntry {
        side_id: copy_side(&e.side_id),
        surviving_members: copy_vec(&e.surviving_members),
        credited_players: copy_vec(&e.credited_players),
        award_reason: e.award_reason,
        raw_delta: e.raw_delta,
        raw_total: e.raw_total,
    }
}

fn copy_round(p: &RoundScore) -> (r: RoundScore)
    ensures
        r@ == p@,
{
    let mut entries: Vec<ScoreEntry> = Vec::new();
    let mut i: usize = 0;
    while i < p.entries.len()
        invariant
            0 <= i <= p.entries@.len(),
            entries@.len() == i,
            forall|j: int| 0 <= j < i ==> (#[trigger] entries@[j])@ == p.entries@[j]@,
        decreases p.entries.len() - i,
    {
        entries.push(copy_entry(&p.entries[i]));
        i += 1;
    }
    assert(entry_views(entries@) =~= entry_views(p.entries@));
    RoundScore {
        round: p.round,
        entries,
        victory_rule: p.victory_rule,
        match_winners: copy_sides(&p.match_winners),
    }
}

fn find_side(s: &Vec<Side>, x: &SideId) -> (r: bool)
    ensures
        r == has_side(s@, x@),
{
    let mut k: usize = 0;
    while k < s.len()
        invariant
            0 <= k <= s@.len(),
            forall|j: int| 0 <= j < k ==> s@[j].id@ != x@,
        decreases s.len() - k,
    {
        if side_eq(&s[k].id, x) {
            return true;
        }
        k += 1;
    }
    false
}

fn entry_listed(e: &Vec<ScoreEntry>, x: &SideId) -> (r: bool)
    ensures
        r == side_listed(entry_views(e@), x@),
{
    let ghost ev = entry_views(e@);
    let mut i: usize = 0;
    while i < e.len()
        invariant
            0 <= i <= e@.len(),
            ev == entry_views(e@),
            forall|j: int| 0 <= j < i ==> ev[j].side != x@,
        decreases e.len() - i,
    {
        assert(ev[i as int] == e@[i as int]@);
        if side_eq(&e[i].side_id, x) {
            return true;
        }
        i += 1;
    }
    false
}

fn sides_match_exec(e: &Vec<ScoreEntry>, s: &Vec<Side>) -> (r: bool)
    ensures
        r == sides_match(entry_views(e@), s@),
{
    let ghost ev = entry_views(e@);
    if e.len() != s.len() {
        return false;
    }
    let mut i: usize = 0;
    while i < e.len()
        invariant
            0 <= i <= e@.len(),
            ev == entry_views(e@),
            forall|j: int| 0 <= j < i ==> has_side(s@, (#[trigger] ev[j]).side),
        decreases e.len() - i,
    {
        assert(ev[i as int] == e@[i as int]@);
        if !find_side(s, &e[i].side_id) {
            return false;
        }
        i += 1;
    }
    let mut k: usize = 0;
    while k < s.len()
        invariant
            0 <= k <= s@.len(),
            ev == entry_views(e@),
            forall|j: int| 0 <= j < k ==> side_listed(ev, (#[trigger] s@[j]).id@),
        decreases s.len() - k,
    {
        if !entry_listed(e, &s[k].id) {
            return false;
        }
        k += 1;
    }
    true
}

fn entry_exec(side: &Side, o: &Outcome, rules: &ScoreboardRules, prior: &Vec<ScoreEntry>) -> (r: Option<ScoreEntry>)
    ensures
        r is None <==> prior_total(entry_views(prior@), side.id@) + credited(*side, *o, *rules).len() > u64::MAX,
        r matches Some(e) ==> e@ == entry_of(*side, *o, *rules, entry_views(prior@)),
{
    let surviving = survivors_of(&side.members, &o.survivors);
    let ghost sv = surviving_members(*side, *o);
    assert(surviving@ == sv);
    let (credited_players, reason) = if o.kind == OutcomeKind::Win {
        let c = copy_vec(&surviving);
        if surviving.len() == 0 {
            (c, AwardReason::Unawarded)
        } else {
            (c, AwardReason::Survival)
        }
    } else if o.kind == OutcomeKind::Draw && rules.draw_scoring == DrawScoring::AllPlayers {
        (copy_vec(&side.members), AwardReason::Draw)
    } else {
        (Vec::new(), AwardReason::Unawarded)
    };
    assert(credited_players@ == credited(*side, *o, *rules));
    let before = prior_total_of(prior, &side.id);
    let n = credited_players.len();
    let delta = n as u64;
    match before.checked_add(delta) {
        None => None,
        Some(total) => Some(ScoreEntry {
            side_id: copy_side(&side.id),
            surviving_members: surviving,
            credited_players,
            award_reason: reason,
            raw_delta: delta,
            raw_total: total,
        }),
    }
}

fn highest_exec(e: &Vec<ScoreEntry>) -> (h: u64)
    ensures
        h == highest(entry_views(e@)),
{
    let ghost ev = entry_views(e@);
    let mut h: u64 = 0;
    let mut i: usize = 0;
    while i < e.len()
        invariant
            0 <= i <= e@.len(),
            ev == entry_views(e@),
            h == highest(ev.take(i as int)),
        decreases e.len() - i,
    {
        proof {
            assert(ev.take(i as int + 1).drop_last() == ev.take(i as int));
            assert(ev[i as int] == e@[i as int]@);
        }
        if e[i].raw_total > h {
            h = e[i].raw_total;
        }
        i += 1;
    }
    assert(ev.take(e@.len() as int) == ev);
    h
}

fn leaders_exec(e: &Vec<ScoreEntry>, h: u64) -> (r: Vec<SideId>)
    ensures
        views(r@) == leaders(entry_views(e@), h),
{
    let ghost ev = entry_views(e@);
    let mut r: Vec<SideId> = Vec::new();
    let mut i: usize = 0;
    while i < e.len()
        invariant
            0 <= i <= e@.len(),
            ev == entry_views(e@),
            views(r@) == leaders(ev.take(i as int), h),
        decreases e.len() - i,
    {
        proof {
            assert(ev.take(i as int + 1).drop_last() == ev.take(i as int));
            assert(ev[i as int] == e@[i as int]@);
        }
        if e[i].raw_total == h {
            let ghost before = r@;
            r.push(copy_side(&e[i].side_id));
            assert(views(r@) == views(before).push(e@[i as int].side_id@));
        }
        i += 1;
    }
    assert(ev.take(e@.len() as int) == ev);
    r
}

fn best_except_exec(e: &Vec<ScoreEntry>, v: &SideId) -> (m: u64)
    ensures
        m == best_except(entry_views(e@), v@),
{
    let ghost ev = entry_views(e@);
    let mut m: u64 = 0;
    let mut i: usize = 0;
    while i < e.len()
        invariant
            0 <= i <= e@.len(),
            ev == entry_views(e@),
            m == best_except(ev.take(i as int), v@),
        decreases e.len() - i,
    {
        proof {
            assert(ev.take(i as int + 1).drop_last() == ev.take(i as int));
            assert(ev[i as int] == e@[i as int]@);
        }
        if !side_eq(&e[i].side_id, v) && e[i].raw_total > m {
            m = e[i].raw_total;
        }
        i += 1;
    }
    assert(ev.take(e@.len() as int) == ev);
    m
}

/// The winners of a round by raw totals (see `winners`).
pub fn decide_winners(rules: &ScoreboardRules, entries: &Vec<ScoreEntry>) -> (r: Vec<SideId>)
    ensures
        views(r@) == winners(*rules, entry_views(entries@)),
{
    let h = highest_exec(entries);
    let l = leaders_exec(entries, h);
    match rules.victory_rule {
        VictoryRule::FixedTarget { points } => {
            if h >= points && (l.len() == 1 || rules.tie_policy == TiePolicy::SharedVictory) {
                l
            } else {
                Vec::new()
            }
        },
        VictoryRule::Lead { margin } => {
            if l.len() == 1 {
                assert(views(l@)[0] == l@[0]@);
                let rival = best_except_exec(entries, &l[0]);
                if h >= rival && h - rival >= margin {
                    l
                } else {
                    Vec::new()
                }
            } else {
                Vec::new()
            }
        },
    }
}

fn fresh_round_exec(round: u32, rules: &ScoreboardRules, o: &Outcome, prior: &Vec<ScoreEntry>, s: &Vec<Side>) -> (r: Result<RoundScore, String>)
    ensures
        match r {
            Ok(v) => fresh_round(round, *rules, *o, entry_views(prior@), s@) == Some(v@),
            Err(_) => fresh_round(round, *rules, *o, entry_views(prior@), s@) is None,
        },
{
    let ghost pv = entry_views(prior@);
    let ghost want = fresh_entries(s@, *o, *rules, pv);
    let mut entries: Vec<ScoreEntry> = Vec::new();
    let mut k: usize = 0;
    while k < s.len()
        invariant
            0 <= k <= s@.len(),
            pv == entry_views(prior@),
            want == fresh_entries(s@, *o, *rules, pv),
            entries@.len() == k,
            forall|j: int| 0 <= j < k ==> (#[trigger] entries@[j])@ == want[j],
            forall|j: int| 0 <= j < k ==> prior_total(pv, s@[j].id@) + (#[trigger] credited(s@[j], *o, *rules)).len() <= u64::MAX,
        decreases s.len() - k,
    {
        match entry_exec(&s[k], o, rules, prior) {
            None => {
                assert(overflows(s@, *o, *rules, pv)) by {
                    assert(prior_total(pv, s@[k as int].id@) + credited(s@[k as int], *o, *rules).len() > u64::MAX);
                }
                return Err("score overflow".to_string());
            },
            Some(e) => {
                entries.push(e);
            },
        }
        k += 1;
    }
    assert(entry_views(entries@) =~= want);
    assert(!overflows(s@, *o, *rules, pv));
    let match_winners = if rules.time_penalty == TimePenalty::Off {
        decide_winners(rules, &entries)
    } else {
        Vec::new()
    };
    proof {
        if rules.time_penalty != TimePenalty::Off {
            assert(views(match_winners@) =~= Seq::<SideView>::empty());
        }
    }
    Ok(RoundScore { round, entries, victory_rule: rules.victory_rule, match_winners })
}

fn score_round(round: u32, rules: &ScoreboardRules, o: &Outcome, previous: Option<&RoundScore>, s: &Vec<Side>) -> (r: Result<RoundScore, String>)
    ensures
        match r {
            Ok(v) => scored(round, *rules, *o, prior_view(previous), s@) == Some(v@),
            Err(_) => scored(round, *rules, *o, prior_view(previous), s@) is None,
        },
{
    match previous {
        Some(p) => {
            if p.victory_rule != rules.victory_rule {
                return Err("victory rule changed in score history".to_string());
            }
            if !sides_match_exec(&p.entries, s) {
                return Err("score history sides changed".to_string());
            }
            if round == p.round {
                return Ok(copy_round(p));
            }
            if p.round == u32::MAX || p.round + 1 != round {
                return Err("round must follow last durable result".to_string());
            }
            if p.match_winners.len() > 0 {
                return Err("scoreboard match already finished".to_string());
            }
            fresh_round_exec(round, rules, o, &p.entries, s)
        },
        None => {
            if round != 1 {
                return Err("first scored round must be 1".to_string());
            }
            let empty: Vec<ScoreEntry> = Vec::new();
            assert(entry_views(empty@) =~= Seq::<EntryView>::empty());
            fresh_round_exec(round, rules, o, &empty, s)
        },
    }
}

/// Reduces one round's outcome into cumulative side scores and tests victory.
/// `previous` is the last durable result; round numbers start at 1 and must be consecutive; a
/// retry of that last round returns its record unchanged.
/// Under a time penalty the record's raw scores are exact and `match_winners` is left empty:
/// the adjusted totals and the victory test on them are the caller's floating-point work.
pub fn resolve_round(
    round: u32,
    player_count: u8,
    mode: &Multiplayer,
    rules: &ScoreboardRules,
    outcome: &Outcome,
    times: &Vec<PlayerTime>,
    previous: Option<&RoundScore>,
) -> (r: Result<RoundScore, String>)
    ensures
        !round_inputs_valid(player_count, *mode, *rules, *outcome, times@) ==> r is Err,
        round_inputs_valid(player_count, *mode, *rules, *outcome, times@) ==> exists|s: Seq<Side>|
            #[trigger] sides_of(player_count, *mode, s) && match r {
                Ok(v) => scored(round, *rules, *outcome, prior_view(previous), s) == Some(v@),
                Err(_) => scored(round, *rules, *outcome, prior_view(previous), s) is None,
            },
{
    validate_rules(rules)?;
    let s = sides(player_count, mode)?;
    validate_outcome(player_count, mode, outcome)?;
    let _effective = timings(player_count, times)?;
    let r = score_round(round, rules, outcome, previous, &s);
    assert(sides_of(player_count, *mode, s@));
    r
}

// ---- laws ----------------------------------------------------------------------------------------

proof fn lemma_highest_bounds(t: Seq<EntryView>)
    ensures
        forall|i: int| 0 <= i < t.len() ==> (#[trigger] t[i]).raw_total <= highest(t),
        t.len() > 0 ==> exists|i: int| 0 <= i < t.len() && (#[trigger] t[i]).raw_total == highest(t),
    decreases t.len(),
{
    if t.len() > 0 {
        let d = t.drop_last();
        lemma_highest_bounds(d);
        assert forall|i: int| 0 <= i < t.len() implies (#[trigger] t[i]).raw_total <= highest(t) by {
            if i < t.len() - 1 {
                assert(t[i] == d[i]);
            }
        }
        if t.last().raw_total > highest(d) {
            assert(t[t.len() - 1].raw_total == highest(t));
        } else if d.len() > 0 {
            let i = choose|i: int| 0 <= i < d.len() && (#[trigger] d[i]).raw_total == highest(d);
            assert(t[i] == d[i]);
        } else {
            assert(t[0].raw_total == 0);
        }
    }
}

proof fn lemma_leaders_hold(t: Seq<EntryView>, h: u64)
    ensures
        forall|x: SideView| #[trigger] leaders(t, h).contains(x) ==> exists|i: int| 0 <= i < t.len() && (#[trigger] t[i]).side == x && t[i].raw_total == h,
    decreases t.len(),
{
    if t.len() > 0 {
        let d = t.drop_last();
        lemma_leaders_hold(d, h);
        assert forall|x: SideView| #[trigger] leaders(t, h).contains(x) implies exists|i: int| 0 <= i < t.len() && (#[trigger] t[i]).side == x && t[i].raw_total == h by {
            if leaders(d, h).contains(x) {
                let i = choose|i: int| 0 <= i < d.len() && (#[trigger] d[i]).side == x && d[i].raw_total == h;
                assert(t[i] == d[i]);
            } else {
                assert(t[t.len() - 1].side == x);
            }
        }
    }
}

/// A retry of the last durable round, with the same victory rule and sides, returns that
/// round's record unchanged, whatever outcome is offered again.
pub proof fn law_retry_returns_record(rules: ScoreboardRules, o: Outcome, p: RoundView, s: Seq<Side>)
    requires
        p.victory_rule == rules.victory_rule,
        sides_match(p.entries, s),
    ensures
        scored(p.round, rules, o, Some(p), s) == Some(p),
{
}

/// Rounds are numbered from 1 and each scored round follows the last durable one (or repeats it).
pub proof fn law_rounds_consecutive(round: u32, rules: ScoreboardRules, o: Outcome, prev: Option<RoundView>, s: Seq<Side>)
    requires
        scored(round, rules, o, prev, s) is Some,
    ensures
        scored(round, rules, o, prev, s)->0.round == round,
        prev is None ==> round == 1,
        prev matches Some(p) ==> round == p.round || round == p.round + 1,
{
}

/// Once a round has named winners, the match takes no further round.
pub proof fn law_finished_match_is_closed(round: u32, rules: ScoreboardRules, o: Outcome, p: RoundView, s: Seq<Side>)
    requires
        p.match_winners.len() > 0,
        round != p.round,
    ensures
        scored(round, rules, o, Some(p), s) is None,
{
}

/// Scores only accumulate: in a new round each side's total is its earlier total plus the
/// number of its credited players, and is never below the earlier total.
pub proof fn law_totals_accumulate(round: u32, rules: ScoreboardRules, o: Outcome, prev: Option<RoundView>, s: Seq<Side>, k: int)
    requires
        scored(round, rules, o, prev, s) is Some,
        prev matches Some(p) ==> round != p.round,
        0 <= k < s.len(),
    ensures
        ({
            let v = scored(round, rules, o, prev, s)->0;
            let before = match prev { Some(p) => p.entries, None => seq![] };
            &&& v.entries.len() == s.len()
            &&& v.entries[k].side == s[k].id@
            &&& v.entries[k].raw_delta == v.entries[k].credited.len()
            &&& v.entries[k].raw_total == prior_total(before, s[k].id@) + v.entries[k].raw_delta
            &&& v.entries[k].raw_total >= prior_total(before, s[k].id@)
        }),
{
    let before = match prev { Some(p) => p.entries, None => seq![] };
    assert(!overflows(s, o, rules, before));
    assert(prior_total(before, s[k].id@) + credited(s[k], o, rules).len() <= u64::MAX);
}

/// Every winner holds the highest total of the round; without a shared victory there is at
/// most one winner.
pub proof fn law_winners_hold_highest(rules: ScoreboardRules, t: Seq<EntryView>)
    ensures
        forall|x: SideView| #[trigger] winners(rules, t).contains(x) ==> exists|i: int|
            0 <= i < t.len() && (#[trigger] t[i]).side == x && t[i].raw_total == highest(t)
                && forall|j: int| 0 <= j < t.len() ==> (#[trigger] t[j]).raw_total <= t[i].raw_total,
        rules.tie_policy != TiePolicy::SharedVictory ==> winners(rules, t).len() <= 1,
{
    lemma_highest_bounds(t);
    lemma_leaders_hold(t, highest(t));
}

} // verus!
