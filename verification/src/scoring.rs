//! Sides, outcome classification and validation, player timings and scoreboard rounds.
use vstd::prelude::*;
use crate::types::{PlayerId, TeamId, Tick};
use crate::safe::SafeInt;
use crate::text::{chars_of, is_blank, is_blank_exec, lemma_seq_lt_total, lemma_seq_lt_trans, seq_lt, seq_lt_exec};

verus! {

/// A scoring side: one player in free-for-all, or a team.
#[derive(Debug, Clone, PartialEq, Eq)]
pub enum SideId {
    Player { player_id: PlayerId },
    Team { team_id: TeamId },
}

/// What a side id denotes: a player number or a team name.
pub ghost enum SideView {
    Player(PlayerId),
    Team(Seq<char>),
}

impl View for SideId {
    type V = SideView;

    open spec fn view(&self) -> SideView {
        match self {
            SideId::Player { player_id } => SideView::Player(*player_id),
            SideId::Team { team_id } => SideView::Team(team_id@),
        }
    }
}

/// Side order: players before teams, players by number, teams by name.
pub open spec fn side_lt(a: SideView, b: SideView) -> bool {
    match (a, b) {
        (SideView::Player(x), SideView::Player(y)) => x < y,
        (SideView::Player(_), SideView::Team(_)) => true,
        (SideView::Team(_), SideView::Player(_)) => false,
        (SideView::Team(x), SideView::Team(y)) => seq_lt(x, y),
    }
}

pub fn side_eq(a: &SideId, b: &SideId) -> (r: bool)
    ensures
        r == (a@ == b@),
{
    match (a, b) {
        (SideId::Player { player_id: x }, SideId::Player { player_id: y }) => *x == *y,
        (SideId::Team { team_id: x }, SideId::Team { team_id: y }) => *x == *y,
        _ => false,
    }
}

pub fn copy_side(s: &SideId) -> (r: SideId)
    ensures
        r@ == s@,
{
    match s {
        SideId::Player { player_id } => SideId::Player { player_id: *player_id },
        SideId::Team { team_id } => SideId::Team { team_id: team_id.clone() },
    }
}

#[derive(Debug, Clone, PartialEq, Eq)]
pub struct TeamAssignment {
    pub player_id: PlayerId,
    pub team_id: TeamId,
}

#[derive(Debug, Clone, PartialEq, Eq)]
pub enum Multiplayer {
    Ffa {},
    Teams { assignments: Vec<TeamAssignment> },
}

/// A side and its members in increasing order.
#[derive(Debug, Clone, PartialEq, Eq)]
pub struct Side {
    pub id: SideId,
    pub members: Vec<PlayerId>,
}

pub open spec fn increasing(s: Seq<PlayerId>) -> bool {
    forall|i: int, j: int| 0 <= i < j < s.len() ==> #[trigger] s[i] < #[trigger] s[j]
}

pub open spec fn sides_sorted(s: Seq<Side>) -> bool {
    forall|i: int, j: int| 0 <= i < j < s.len() ==> side_lt(#[trigger] s[i].id@, #[trigger] s[j].id@)
}

/// Team assignments are valid: every player exactly once, nonblank team names, two teams or more.
pub open spec fn teams_valid(player_count: u8, a: Seq<TeamAssignment>) -> bool {
    &&& forall|k: int| 0 <= k < a.len() ==> (#[trigger] a[k]).player_id < player_count && !is_blank(a[k].team_id@)
    &&& forall|k: int, m: int| 0 <= k < m < a.len() ==> #[trigger] a[k].player_id != #[trigger] a[m].player_id
    &&& a.len() == player_count
    &&& exists|k: int, m: int| 0 <= k < a.len() && 0 <= m < a.len() && #[trigger] a[k].team_id@ != #[trigger] a[m].team_id@
}

pub open spec fn sides_valid(player_count: u8, mode: Multiplayer) -> bool {
    &&& player_count >= 2
    &&& (mode matches Multiplayer::Teams { assignments } ==> teams_valid(player_count, assignments@))
}

/// `s` lists the sides of `mode`: in side order, each with its members in increasing order.
pub open spec fn sides_of(player_count: u8, mode: Multiplayer, s: Seq<Side>) -> bool {
    &&& sides_sorted(s)
    &&& forall|k: int| 0 <= k < s.len() ==> increasing(#[trigger] s[k].members@)
    &&& match mode {
        Multiplayer::Ffa {} => {
            &&& s.len() == player_count
            &&& forall|k: int| 0 <= k < s.len() ==> (#[trigger] s[k]).id@ == SideView::Player(k as u8) && s[k].members@ == seq![k as u8]
        },
        Multiplayer::Teams { assignments } => team_sides_of(assignments@, s),
    }
}

/// `s` lists the teams of the assignments, each with exactly its assigned players.
pub open spec fn team_sides_of(a: Seq<TeamAssignment>, s: Seq<Side>) -> bool {
    &&& forall|k: int| 0 <= k < s.len() ==> (#[trigger] s[k]).id is Team
    &&& forall|m: int| 0 <= m < a.len() ==> has_side(s, SideView::Team((#[trigger] a[m]).team_id@))
    &&& forall|k: int, p: PlayerId| 0 <= k < s.len() ==> (#[trigger] s[k].members@.contains(p) <==> exists|m: int|
        0 <= m < a.len() && a[m].player_id == p && SideView::Team(#[trigger] a[m].team_id@) == s[k].id@)
    &&& forall|k: int| 0 <= k < s.len() ==> assigned_team(a, (#[trigger] s[k]).id@)
}

/// Some side of `s` is `v`.
pub open spec fn has_side(s: Seq<Side>, v: SideView) -> bool {
    exists|k: int| 0 <= k < s.len() && #[trigger] s[k].id@ == v
}

/// Some assignment names the team `v`.
pub open spec fn assigned_team(a: Seq<TeamAssignment>, v: SideView) -> bool {
    exists|m: int| 0 <= m < a.len() && SideView::Team(#[trigger] a[m].team_id@) == v
}

pub open spec fn names_contain(teams: Seq<(String, Vec<char>)>, t: Seq<char>) -> bool {
    exists|i: int| 0 <= i < teams.len() && #[trigger] teams[i].0@ == t
}

/// Inserts a team name into a name-sorted list unless it is already there.
fn insert_team(teams: &mut Vec<(String, Vec<char>)>, name: &String)
    requires
        forall|i: int| 0 <= i < old(teams)@.len() ==> (#[trigger] old(teams)@[i]).1@ == old(teams)@[i].0@,
        forall|i: int, j: int| 0 <= i < j < old(teams)@.len() ==> seq_lt(#[trigger] old(teams)@[i].0@, #[trigger] old(teams)@[j].0@),
    ensures
        forall|i: int| 0 <= i < final(teams)@.len() ==> (#[trigger] final(teams)@[i]).1@ == final(teams)@[i].0@,
        forall|i: int, j: int| 0 <= i < j < final(teams)@.len() ==> seq_lt(#[trigger] final(teams)@[i].0@, #[trigger] final(teams)@[j].0@),
        forall|t: Seq<char>| #[trigger] names_contain(final(teams)@, t) <==> (names_contain(old(teams)@, t) || t == name@),
{
    let chars = chars_of(name.as_str());
    let mut p: usize = 0;
    while p < teams.len() && seq_lt_exec(&teams[p].1, &chars)
        invariant
            0 <= p <= teams@.len(),
            teams@ == old(teams)@,
            chars@ == name@,
            forall|i: int| 0 <= i < teams@.len() ==> (#[trigger] teams@[i]).1@ == teams@[i].0@,
            forall|k: int| 0 <= k < p ==> seq_lt(#[trigger] teams@[k].0@, name@),
        decreases teams.len() - p,
    {
        p += 1;
    }
    if p < teams.len() && teams[p].0 == *name {
        return;
    }
    let ghost before = teams@;
    proof {
        if p < before.len() {
            lemma_seq_lt_total(before[p as int].0@, name@);
            assert forall|k: int| p <= k < before.len() implies seq_lt(name@, #[trigger] before[k].0@) by {
                if k > p {
                    lemma_seq_lt_trans(name@, before[p as int].0@, before[k].0@);
                }
            }
        }
    }
    teams.insert(p, (name.clone(), chars));
    assert(teams@ == before.insert(p as int, teams@[p as int]));
    assert forall|i: int, j: int| 0 <= i < j < teams@.len() implies seq_lt(#[trigger] teams@[i].0@, #[trigger] teams@[j].0@) by {
        if i < p && j > p {
            lemma_seq_lt_trans(before[i].0@, name@, before[j - 1].0@);
        }
    }
    assert forall|t: Seq<char>| #[trigger] names_contain(teams@, t) <==> (names_contain(before, t) || t == name@) by {
        if names_contain(teams@, t) {
            let i = choose|i: int| 0 <= i < teams@.len() && #[trigger] teams@[i].0@ == t;
            if i < p {
                assert(before[i].0@ == t);
            } else if i > p {
                assert(before[i - 1].0@ == t);
            }
        }
        if names_contain(before, t) {
            let i = choose|i: int| 0 <= i < before.len() && #[trigger] before[i].0@ == t;
            if i < p {
                assert(teams@[i].0@ == t);
            } else {
                assert(teams@[i + 1].0@ == t);
            }
        }
        if t == name@ {
            assert(teams@[p as int].0@ == t);
        }
    }
}

/// Every assignment names a known player and a nonblank team, each player once.
fn assignments_valid(player_count: u8, a: &Vec<TeamAssignment>) -> (r: bool)
    ensures
        r == ((forall|k: int| 0 <= k < a@.len() ==> (#[trigger] a@[k]).player_id < player_count && !is_blank(a@[k].team_id@))
            && (forall|k: int, m: int| 0 <= k < m < a@.len() ==> #[trigger] a@[k].player_id != #[trigger] a@[m].player_id)),
{
    let mut k: usize = 0;
    while k < a.len()
        invariant
            0 <= k <= a@.len(),
            forall|q: int| 0 <= q < k ==> (#[trigger] a@[q]).player_id < player_count && !is_blank(a@[q].team_id@),
            forall|q: int, m: int| 0 <= q < m < k ==> #[trigger] a@[q].player_id != #[trigger] a@[m].player_id,
        decreases a.len() - k,
    {
        let mut m: usize = 0;
        while m < k
            invariant
                0 <= m <= k < a@.len(),
                forall|q: int| 0 <= q < m ==> #[trigger] a@[q].player_id != a@[k as int].player_id,
            decreases k - m,
        {
            if a[m].player_id == a[k].player_id {
                assert(a@[m as int].player_id == a@[k as int].player_id);
                return false;
            }
            m += 1;
        }
        if a[k].player_id >= player_count || is_blank_exec(a[k].team_id.as_str()) {
            assert(!((a@[k as int]).player_id < player_count && !is_blank(a@[k as int].team_id@)));
            return false;
        }
        k += 1;
    }
    true
}

/// The distinct team names of the assignments, in name order.
fn team_names(a: &Vec<TeamAssignment>) -> (teams: Vec<(String, Vec<char>)>)
    ensures
        forall|i: int| 0 <= i < teams@.len() ==> (#[trigger] teams@[i]).1@ == teams@[i].0@,
        forall|i: int, j: int| 0 <= i < j < teams@.len() ==> seq_lt(#[trigger] teams@[i].0@, #[trigger] teams@[j].0@),
        forall|t: Seq<char>| #[trigger] names_contain(teams@, t) <==> exists|m: int| 0 <= m < a@.len() && #[trigger] a@[m].team_id@ == t,
{
    let mut teams: Vec<(String, Vec<char>)> = Vec::new();
    let mut k: usize = 0;
    while k < a.len()
        invariant
            0 <= k <= a@.len(),
            forall|i: int| 0 <= i < teams@.len() ==> (#[trigger] teams@[i]).1@ == teams@[i].0@,
            forall|i: int, j: int| 0 <= i < j < teams@.len() ==> seq_lt(#[trigger] teams@[i].0@, #[trigger] teams@[j].0@),
            forall|t: Seq<char>| #[trigger] names_contain(teams@, t) <==> exists|m: int| 0 <= m < k && #[trigger] a@[m].team_id@ == t,
        decreases a.len() - k,
    {
        insert_team(&mut teams, &a[k].team_id);
        proof {
            assert forall|t: Seq<char>| #[trigger] names_contain(teams@, t) <==> exists|m: int| 0 <= m < k + 1 && #[trigger] a@[m].team_id@ == t by {
                if t == a@[k as int].team_id@ {
                    assert(exists|m: int| 0 <= m < k + 1 && #[trigger] a@[m].team_id@ == t);
                }
            }
        }
        k += 1;
    }
    teams
}

/// The players assigned to team `name`, in increasing order.
fn team_members(player_count: u8, a: &Vec<TeamAssignment>, name: &String) -> (members: Vec<PlayerId>)
    requires
        forall|k: int| 0 <= k < a@.len() ==> (#[trigger] a@[k]).player_id < player_count,
    ensures
        increasing(members@),
        forall|q: PlayerId| #[trigger] members@.contains(q) <==> exists|m: int|
            0 <= m < a@.len() && a@[m].player_id == q && #[trigger] a@[m].team_id@ == name@,
{
    let mut members: Vec<PlayerId> = Vec::new();
    let mut p: u8 = 0;
    while p < player_count
        invariant
            p <= player_count,
            forall|k: int| 0 <= k < a@.len() ==> (#[trigger] a@[k]).player_id < player_count,
            forall|i: int, j: int| 0 <= i < j < members@.len() ==> #[trigger] members@[i] < #[trigger] members@[j],
            forall|i: int| 0 <= i < members@.len() ==> #[trigger] members@[i] < p,
            forall|q: PlayerId| #[trigger] members@.contains(q) <==> (q < p && exists|m: int|
                0 <= m < a@.len() && a@[m].player_id == q && #[trigger] a@[m].team_id@ == name@),
        decreases player_count - p,
    {
        let mut found = false;
        let mut m: usize = 0;
        while m < a.len()
            invariant
                0 <= m <= a@.len(),
                found <==> exists|mm: int| 0 <= mm < m && a@[mm].player_id == p && #[trigger] a@[mm].team_id@ == name@,
            decreases a.len() - m,
        {
            if a[m].player_id == p && a[m].team_id == *name {
                found = true;
            }
            m += 1;
        }
        let ghost before = members@;
        if found {
            members.push(p);
        }
        proof {
            assert forall|q: PlayerId| #[trigger] members@.contains(q) <==> (q < p + 1 && exists|m: int|
                0 <= m < a@.len() && a@[m].player_id == q && #[trigger] a@[m].team_id@ == name@) by {
                if members@.contains(q) && q != p {
                    let i = choose|i: int| 0 <= i < members@.len() && members@[i] == q;
                    assert(before[i] == q);
                }
                if found && q == p {
                    assert(members@[members@.len() - 1] == q);
                }
                if q < p && before.contains(q) {
                    let i = choose|i: int| 0 <= i < before.len() && before[i] == q;
                    assert(members@[i] == q);
                }
            }
        }
        p += 1;
    }
    proof {
        assert forall|q: PlayerId| #[trigger] members@.contains(q) <==> exists|m: int|
            0 <= m < a@.len() && a@[m].player_id == q && #[trigger] a@[m].team_id@ == name@ by {
            if exists|m: int| 0 <= m < a@.len() && a@[m].player_id == q && #[trigger] a@[m].team_id@ == name@ {
                let m = choose|m: int| 0 <= m < a@.len() && a@[m].player_id == q && #[trigger] a@[m].team_id@ == name@;
                assert(a@[m].player_id < player_count);
            }
        }
    }
    members
}

fn ffa_sides(player_count: u8) -> (out: Vec<Side>)
    ensures
        sides_of(player_count, Multiplayer::Ffa {}, out@),
{
    let mut out: Vec<Side> = Vec::new();
    let mut p: u8 = 0;
    while p < player_count
        invariant
            p <= player_count,
            out@.len() == p,
            forall|k: int| 0 <= k < p ==> (#[trigger] out@[k]).id@ == SideView::Player(k as u8) && out@[k].members@ == seq![k as u8],
        decreases player_count - p,
    {
        let mut members = Vec::new();
        members.push(p);
        out.push(Side { id: SideId::Player { player_id: p }, members });
        p += 1;
    }
    proof {
        assert forall|i: int, j: int| 0 <= i < j < out@.len() implies side_lt(#[trigger] out@[i].id@, #[trigger] out@[j].id@) by {}
        assert forall|k: int| 0 <= k < out@.len() implies increasing(#[trigger] out@[k].members@) by {}
    }
    out
}

/// There are two distinct team names exactly when the name list has two entries or more.
proof fn lemma_two_teams(a: Seq<TeamAssignment>, teams: Seq<(String, Vec<char>)>)
    requires
        forall|i: int, j: int| 0 <= i < j < teams.len() ==> seq_lt(#[trigger] teams[i].0@, #[trigger] teams[j].0@),
        forall|t: Seq<char>| #[trigger] names_contain(teams, t) <==> exists|m: int| 0 <= m < a.len() && #[trigger] a[m].team_id@ == t,
    ensures
        (teams.len() >= 2) <==> exists|k: int, m: int| 0 <= k < a.len() && 0 <= m < a.len() && #[trigger] a[k].team_id@ != #[trigger] a[m].team_id@,
{
    if exists|k: int, m: int| 0 <= k < a.len() && 0 <= m < a.len() && #[trigger] a[k].team_id@ != #[trigger] a[m].team_id@ {
        let (k, m) = choose|k: int, m: int| 0 <= k < a.len() && 0 <= m < a.len() && #[trigger] a[k].team_id@ != #[trigger] a[m].team_id@;
        let tk = a[k].team_id@;
        let tm = a[m].team_id@;
        assert(exists|mm: int| 0 <= mm < a.len() && #[trigger] a[mm].team_id@ == tk);
        assert(exists|mm: int| 0 <= mm < a.len() && #[trigger] a[mm].team_id@ == tm);
        assert(names_contain(teams, tk));
        assert(names_contain(teams, tm));
    }
    if teams.len() >= 2 {
        let t0 = teams[0].0@;
        let t1 = teams[1].0@;
        assert(names_contain(teams, t0));
        assert(names_contain(teams, t1));
        let m0 = choose|m: int| 0 <= m < a.len() && #[trigger] a[m].team_id@ == t0;
        let m1 = choose|m: int| 0 <= m < a.len() && #[trigger] a[m].team_id@ == t1;
        lemma_seq_lt_total(t0, t1);
        assert(a[m0].team_id@ != a[m1].team_id@);
    }
}

/// One side per team name, with the team's players.
fn team_sides(player_count: u8, a: &Vec<TeamAssignment>, teams: &Vec<(String, Vec<char>)>) -> (out: Vec<Side>)
    requires
        forall|k: int| 0 <= k < a@.len() ==> (#[trigger] a@[k]).player_id < player_count,
        forall|i: int, j: int| 0 <= i < j < teams@.len() ==> seq_lt(#[trigger] teams@[i].0@, #[trigger] teams@[j].0@),
        forall|t: Seq<char>| #[trigger] names_contain(teams@, t) <==> exists|m: int| 0 <= m < a@.len() && #[trigger] a@[m].team_id@ == t,
    ensures
        sides_sorted(out@),
        forall|k: int| 0 <= k < out@.len() ==> increasing(#[trigger] out@[k].members@),
        team_sides_of(a@, out@),
{
    let mut out: Vec<Side> = Vec::new();
    let mut t: usize = 0;
    while t < teams.len()
        invariant
            0 <= t <= teams@.len(),
            out@.len() == t,
            forall|k: int| 0 <= k < a@.len() ==> (#[trigger] a@[k]).player_id < player_count,
            forall|i: int| 0 <= i < t ==> (#[trigger] out@[i]).id@ == SideView::Team(teams@[i].0@) && out@[i].id is Team,
            forall|i: int| 0 <= i < t ==> increasing(#[trigger] out@[i].members@),
            forall|i: int, p: PlayerId| 0 <= i < t ==> (#[trigger] out@[i].members@.contains(p) <==> exists|m: int|
                0 <= m < a@.len() && a@[m].player_id == p && #[trigger] a@[m].team_id@ == teams@[i].0@),
        decreases teams.len() - t,
    {
        let members = team_members(player_count, a, &teams[t].0);
        let id = SideId::Team { team_id: teams[t].0.clone() };
        out.push(Side { id, members });
        t += 1;
    }
    proof {
        let s = out@;
        assert forall|i: int, j: int| 0 <= i < j < s.len() implies side_lt(#[trigger] s[i].id@, #[trigger] s[j].id@) by {}
        assert forall|k: int| 0 <= k < s.len() implies (#[trigger] s[k]).id is Team by {}
        assert forall|m: int| 0 <= m < a@.len() implies has_side(s, SideView::Team((#[trigger] a@[m]).team_id@)) by {
            let tm = a@[m].team_id@;
            assert(exists|mm: int| 0 <= mm < a@.len() && #[trigger] a@[mm].team_id@ == tm);
            assert(names_contain(teams@, tm));
            let i = choose|i: int| 0 <= i < teams@.len() && #[trigger] teams@[i].0@ == tm;
            assert(s[i].id@ == SideView::Team(tm));
        }
        assert forall|k: int| 0 <= k < s.len() implies assigned_team(a@, (#[trigger] s[k]).id@) by {
            let tk = teams@[k].0@;
            assert(names_contain(teams@, tk));
            let m = choose|m: int| 0 <= m < a@.len() && #[trigger] a@[m].team_id@ == tk;
            assert(SideView::Team(a@[m].team_id@) == s[k].id@);
        }
        assert forall|k: int, p: PlayerId| 0 <= k < s.len() implies (#[trigger] s[k].members@.contains(p) <==> exists|m: int|
            0 <= m < a@.len() && a@[m].player_id == p && SideView::Team(#[trigger] a@[m].team_id@) == s[k].id@) by {
            assert(s[k].members@.contains(p) <==> exists|m: int|
                0 <= m < a@.len() && a@[m].player_id == p && #[trigger] a@[m].team_id@ == teams@[k].0@);
        }
        assert(team_sides_of(a@, s));
    }
    out
}

/// The sides of a match: every player alone in free-for-all, or the configured teams.
/// Every player must be assigned exactly once to a nonblank team, forming two teams or more.
pub fn sides(player_count: u8, mode: &Multiplayer) -> (r: Result<Vec<Side>, String>)
    ensures
        r is Ok <==> sides_valid(player_count, *mode),
        r matches Ok(s) ==> sides_of(player_count, *mode, s@),
{
    if player_count < 2 {
        return Err("at least two participants required".to_string());
    }
    let a = match mode {
        Multiplayer::Ffa {} => {
            return Ok(ffa_sides(player_count));
        },
        Multiplayer::Teams { assignments } => assignments,
    };
    if !assignments_valid(player_count, a) {
        return Err("invalid/duplicate team assignment".to_string());
    }
    if a.len() != player_count as usize {
        return Err("assign every player to at least two nonempty teams".to_string());
    }
    let teams = team_names(a);
    proof {
        lemma_two_teams(a@, teams@);
    }
    if teams.len() < 2 {
        return Err("assign every player to at least two nonempty teams".to_string());
    }
    Ok(team_sides(player_count, a, &teams))
}


// ---- outcomes ----------------------------------------------------------------------------------

#[derive(Debug, Clone, Copy, PartialEq, Eq, Structural)]
pub enum OutcomeKind {
    Stalemate,
    Win,
    Draw,
}

#[derive(Debug, Clone, Copy, PartialEq, Eq, Structural)]
pub enum StopReason {
    Inactivity,
    AbsoluteHorizon,
}

#[derive(Debug, Clone, Copy, PartialEq, Eq, Structural)]
pub enum SurvivalStatus {
    Alive,
    Eliminated,
}

#[derive(Debug, Clone, Copy, PartialEq, Eq, Structural)]
pub enum Reason {
    NoActiveBuilding,
    NoBuildAbility,
}

#[derive(Debug, Clone, PartialEq, Eq)]
pub struct SurvivalTransition {
    pub player_id: PlayerId,
    pub resolved_tick: Tick,
    pub status: SurvivalStatus,
    pub reasons: Vec<Reason>,
}

/// How a simulated history ended.
#[derive(Debug, Clone, PartialEq, Eq)]
pub struct Outcome {
    pub kind: OutcomeKind,
    pub stop_reason: StopReason,
    pub terminal_state_tick: Tick,
    pub last_progress_tick: Tick,
    pub survivors: Vec<PlayerId>,
    pub eliminated: Vec<PlayerId>,
    pub surviving_sides: Vec<SideId>,
    pub survival_transitions: Vec<SurvivalTransition>,
}

/// Survivors are distinct players of the match.
pub open spec fn survivors_valid(player_count: u8, survivors: Seq<PlayerId>) -> bool {
    &&& player_count >= 2
    &&& forall|i: int| 0 <= i < survivors.len() ==> #[trigger] survivors[i] < player_count
    &&& survivors.no_duplicates()
}

pub open spec fn spec_classify(player_count: u8, survivors: Seq<PlayerId>) -> OutcomeKind {
    if survivors.len() == 0 {
        OutcomeKind::Draw
    } else if survivors.len() == player_count {
        OutcomeKind::Stalemate
    } else {
        OutcomeKind::Win
    }
}

pub(crate) fn contains_player(s: &Vec<PlayerId>, p: PlayerId) -> (r: bool)
    ensures
        r == s@.contains(p),
{
    let mut i: usize = 0;
    while i < s.len()
        invariant
            0 <= i <= s@.len(),
            forall|k: int| 0 <= k < i ==> s@[k] != p,
        decreases s.len() - i,
    {
        if s[i] == p {
            assert(s@[i as int] == p);
            return true;
        }
        i += 1;
    }
    false
}

pub(crate) fn distinct_players(s: &Vec<PlayerId>) -> (r: bool)
    ensures
        r == s@.no_duplicates(),
{
    let mut i: usize = 0;
    while i < s.len()
        invariant
            0 <= i <= s@.len(),
            forall|a: int, b: int| 0 <= a < b < i ==> s@[a] != s@[b],
        decreases s.len() - i,
    {
        let mut j: usize = 0;
        while j < i
            invariant
                0 <= j <= i < s@.len(),
                forall|a: int| 0 <= a < j ==> s@[a] != s@[i as int],
            decreases i - j,
        {
            if s[j] == s[i] {
                return false;
            }
            j += 1;
        }
        i += 1;
    }
    true
}

/// A draw when nobody survives, a stalemate when everybody does, otherwise a win.
pub fn classify(player_count: u8, survivors: &Vec<PlayerId>) -> (r: Result<OutcomeKind, String>)
    ensures
        r is Ok <==> survivors_valid(player_count, survivors@),
        r matches Ok(k) ==> k == spec_classify(player_count, survivors@),
{
    let mut i: usize = 0;
    let mut in_range = true;
    while i < survivors.len()
        invariant
            0 <= i <= survivors@.len(),
            in_range == forall|k: int| 0 <= k < i ==> #[trigger] survivors@[k] < player_count,
        decreases survivors.len() - i,
    {
        if survivors[i] >= player_count {
            in_range = false;
        }
        i += 1;
    }
    if player_count < 2 || !in_range || !distinct_players(survivors) {
        return Err("invalid survivor set".to_string());
    }
    Ok(if survivors.len() == 0 {
        OutcomeKind::Draw
    } else if survivors.len() == player_count as usize {
        OutcomeKind::Stalemate
    } else {
        OutcomeKind::Win
    })
}

/// `v` is a side with a surviving member.
pub open spec fn surviving_view(player_count: u8, mode: Multiplayer, survivors: Seq<PlayerId>, v: SideView) -> bool {
    match mode {
        Multiplayer::Ffa {} => v matches SideView::Player(p) && p < player_count && survivors.contains(p),
        Multiplayer::Teams { assignments } => exists|m: int|
            0 <= m < assignments@.len() && v == SideView::Team((#[trigger] assignments@[m]).team_id@)
                && survivors.contains(assignments@[m].player_id),
    }
}

pub open spec fn surviving_set(player_count: u8, mode: Multiplayer, survivors: Seq<PlayerId>) -> Set<SideView> {
    Set::new(|v: SideView| surviving_view(player_count, mode, survivors, v))
}

pub open spec fn views(s: Seq<SideId>) -> Seq<SideView> {
    s.map_values(|x: SideId| x@)
}

/// An outcome agrees with the match: its kind matches its survivors, survivors and eliminated
/// players partition the participants, the surviving sides are exactly the sides with a
/// survivor, each once, and progress does not lie after the end.
pub open spec fn outcome_valid(player_count: u8, mode: Multiplayer, o: Outcome) -> bool {
    &&& survivors_valid(player_count, o.survivors@)
    &&& spec_classify(player_count, o.survivors@) == o.kind
    &&& o.eliminated@.no_duplicates()
    &&& forall|p: PlayerId| #[trigger] o.eliminated@.contains(p) <==> (p < player_count && !o.survivors@.contains(p))
    &&& sides_valid(player_count, mode)
    &&& o.surviving_sides@.len() == surviving_set(player_count, mode, o.survivors@).len()
    &&& views(o.surviving_sides@).to_set() == surviving_set(player_count, mode, o.survivors@)
    &&& o.last_progress_tick <= o.terminal_state_tick
}

fn eliminated_ok(player_count: u8, survivors: &Vec<PlayerId>, eliminated: &Vec<PlayerId>) -> (r: bool)
    ensures
        r == (eliminated@.no_duplicates() && forall|p: PlayerId| #[trigger] eliminated@.contains(p) <==> (p < player_count && !survivors@.contains(p))),
{
    if !distinct_players(eliminated) {
        return false;
    }
    let mut i: usize = 0;
    while i < eliminated.len()
        invariant
            0 <= i <= eliminated@.len(),
            forall|k: int| 0 <= k < i ==> #[trigger] eliminated@[k] < player_count && !survivors@.contains(eliminated@[k]),
        decreases eliminated.len() - i,
    {
        if eliminated[i] >= player_count || contains_player(survivors, eliminated[i]) {
            assert(eliminated@.contains(eliminated@[i as int]));
            return false;
        }
        i += 1;
    }
    let mut p: u8 = 0;
    while p < player_count
        invariant
            p <= player_count,
            forall|q: PlayerId| q < p && !survivors@.contains(q) ==> #[trigger] eliminated@.contains(q),
        decreases player_count - p,
    {
        if !contains_player(survivors, p) && !contains_player(eliminated, p) {
            return false;
        }
        p += 1;
    }
    proof {
        assert forall|q: PlayerId| #[trigger] eliminated@.contains(q) implies (q < player_count && !survivors@.contains(q)) by {
            let k = choose|k: int| 0 <= k < eliminated@.len() && eliminated@[k] == q;
        }
    }
    true
}

proof fn lemma_side_lt_irrefl(v: SideView)
    ensures
        !side_lt(v, v),
{
    if let SideView::Team(t) = v {
        crate::text::lemma_seq_lt_irrefl(t);
    }
}

pub open spec fn has_survivor(side: Side, survivors: Seq<PlayerId>) -> bool {
    exists|p: PlayerId| #[trigger] side.members@.contains(p) && survivors.contains(p)
}

/// The sides of `s` that have a surviving member, as positions in `s`.
fn surviving_positions(s: &Vec<Side>, survivors: &Vec<PlayerId>) -> (r: Vec<usize>)
    ensures
        forall|i: int| 0 <= i < r@.len() ==> #[trigger] r@[i] < s@.len(),
        forall|i: int, j: int| 0 <= i < j < r@.len() ==> #[trigger] r@[i] < #[trigger] r@[j],
        forall|k: int| 0 <= k < s@.len() ==> (r@.contains(k as usize) <==> has_survivor(#[trigger] s@[k], survivors@)),
{
    let mut r: Vec<usize> = Vec::new();
    let mut k: usize = 0;
    while k < s.len()
        invariant
            0 <= k <= s@.len(),
            forall|i: int| 0 <= i < r@.len() ==> #[trigger] r@[i] < k,
            forall|i: int, j: int| 0 <= i < j < r@.len() ==> #[trigger] r@[i] < #[trigger] r@[j],
            forall|kk: int| 0 <= kk < k ==> (r@.contains(kk as usize) <==> has_survivor(#[trigger] s@[kk], survivors@)),
        decreases s.len() - k,
    {
        let members = &s[k].members;
        let mut found = false;
        let mut m: usize = 0;
        while m < members.len()
            invariant
                0 <= m <= members@.len(),
                found <==> exists|q: int| 0 <= q < m && survivors@.contains(#[trigger] members@[q]),
            decreases members.len() - m,
        {
            if contains_player(survivors, members[m]) {
                found = true;
            }
            m += 1;
        }
        let ghost before = r@;
        if found {
            r.push(k);
        }
        proof {
            assert forall|kk: int| 0 <= kk < k + 1 implies (r@.contains(kk as usize) <==> has_survivor(#[trigger] s@[kk], survivors@)) by {
                if kk < k {
                    if r@.contains(kk as usize) {
                        let i = choose|i: int| 0 <= i < r@.len() && r@[i] == kk as usize;
                        if i < before.len() {
                            assert(before.contains(kk as usize));
                        }
                    }
                    if before.contains(kk as usize) {
                        let i = choose|i: int| 0 <= i < before.len() && before[i] == kk as usize;
                        assert(r@[i] == kk as usize);
                    }
                } else {
                    if has_survivor(s@[kk], survivors@) {
                        let p = choose|p: PlayerId| #[trigger] s@[kk].members@.contains(p) && survivors@.contains(p);
                        let q = choose|q: int| 0 <= q < members@.len() && members@[q] == p;
                        assert(r@[r@.len() - 1] == k);
                    }
                    if r@.contains(kk as usize) {
                        let i = choose|i: int| 0 <= i < r@.len() && r@[i] == kk as usize;
                        if i < before.len() {
                            assert(before[i] < k);
                        }
                        let q = choose|q: int| 0 <= q < m && survivors@.contains(#[trigger] members@[q]);
                        assert(s@[kk].members@.contains(members@[q]));
                    }
                }
            }
        }
        k += 1;
    }
    r
}

pub(crate) fn side_in(list: &Vec<SideId>, x: &SideId) -> (r: bool)
    ensures
        r == views(list@).contains(x@),
{
    let mut i: usize = 0;
    while i < list.len()
        invariant
            0 <= i <= list@.len(),
            forall|k: int| 0 <= k < i ==> list@[k]@ != x@,
        decreases list.len() - i,
    {
        if side_eq(&list[i], x) {
            assert(views(list@)[i as int] == x@);
            return true;
        }
        i += 1;
    }
    proof {
        if views(list@).contains(x@) {
            let k = choose|k: int| 0 <= k < views(list@).len() && views(list@)[k] == x@;
        }
    }
    false
}

/// Surviving sides agree with the sides that have a surviving member.
#[verifier::loop_isolation(false)]
fn surviving_sides_ok(player_count: u8, mode: &Multiplayer, survivors: &Vec<PlayerId>, given: &Vec<SideId>, s: &Vec<Side>) -> (r: bool)
    requires
        sides_valid(player_count, *mode),
        sides_of(player_count, *mode, s@),
    ensures
        r == (given@.len() == surviving_set(player_count, *mode, survivors@).len()
            && views(given@).to_set() == surviving_set(player_count, *mode, survivors@)),
{
    let positions = surviving_positions(s, survivors);
    let side_count = s.len();
    let ghost expected = Seq::new(positions@.len(), |i: int| s@[positions@[i] as int].id@);
    let ghost target = surviving_set(player_count, *mode, survivors@);
    proof {
        // a side has a surviving member exactly when its view is a surviving side
        assert forall|k: int| 0 <= k < s@.len() implies (has_survivor(#[trigger] s@[k], survivors@) <==> target.contains(s@[k].id@)) by {
            match *mode {
                Multiplayer::Ffa {} => {
                    if target.contains(s@[k].id@) {
                        assert(s@[k].members@[0] == k as u8);
                        assert(s@[k].members@.contains(k as u8));
                    }
                },
                Multiplayer::Teams { assignments } => {
                    let a = assignments@;
                    if has_survivor(s@[k], survivors@) {
                        let p = choose|p: PlayerId| #[trigger] s@[k].members@.contains(p) && survivors@.contains(p);
                        let m = choose|m: int| 0 <= m < a.len() && a[m].player_id == p && SideView::Team(#[trigger] a[m].team_id@) == s@[k].id@;
                        assert(surviving_view(player_count, *mode, survivors@, s@[k].id@));
                    }
                    if target.contains(s@[k].id@) {
                        let m = choose|m: int| 0 <= m < a.len() && s@[k].id@ == SideView::Team((#[trigger] a[m]).team_id@) && survivors@.contains(a[m].player_id);
                        assert(s@[k].members@.contains(a[m].player_id));
                    }
                },
            }
        }
        // every surviving side is one of the sides
        assert forall|v: SideView| #[trigger] target.contains(v) implies expected.contains(v) by {
            let k: int = match *mode {
                Multiplayer::Ffa {} => {
                    let p = v->Player_0;
                    p as int
                },
                Multiplayer::Teams { assignments } => {
                    let a = assignments@;
                    let m = choose|m: int| 0 <= m < a.len() && v == SideView::Team((#[trigger] a[m]).team_id@) && survivors@.contains(a[m].player_id);
                    assert(has_side(s@, SideView::Team(a[m].team_id@)));
                    choose|k: int| 0 <= k < s@.len() && #[trigger] s@[k].id@ == v
                },
            };
            assert(0 <= k < s@.len());
            assert(s@.len() == side_count);
            assert((k as usize) as int == k);
            assert(s@[k].id@ == v);
            assert(target.contains(s@[k].id@));
            assert(positions@.contains(k as usize));
            let i = choose|i: int| 0 <= i < positions@.len() && positions@[i] == k as usize;
            assert(expected[i] == s@[positions@[i] as int].id@);
            assert(positions@[i] as int == k);
            assert(expected[i] == v);
        }
        assert forall|v: SideView| #[trigger] expected.contains(v) implies target.contains(v) by {
            let i = choose|i: int| 0 <= i < expected.len() && expected[i] == v;
            let k = positions@[i] as int;
            assert(positions@.contains(k as usize));
        }
        assert(expected.to_set() =~= target);
        assert(expected.no_duplicates()) by {
            assert forall|i: int, j: int| 0 <= i < expected.len() && 0 <= j < expected.len() && i != j implies expected[i] != expected[j] by {
                let (pi, pj) = (positions@[i] as int, positions@[j] as int);
                if i < j {
                    assert(side_lt(s@[pi].id@, s@[pj].id@));
                } else {
                    assert(side_lt(s@[pj].id@, s@[pi].id@));
                }
                if expected[i] == expected[j] {
                    lemma_side_lt_irrefl(expected[i]);
                }
            }
        }
        expected.unique_seq_to_set();
    }
    if given.len() != positions.len() {
        return false;
    }
    // every given side has a surviving member
    let mut i: usize = 0;
    while i < given.len()
        invariant
            0 <= i <= given@.len(),
            forall|k: int| 0 <= k < i ==> expected.contains(#[trigger] given@[k]@),
        decreases given.len() - i,
    {
        let mut found = false;
        let mut j: usize = 0;
        while j < positions.len()
            invariant
                0 <= j <= positions@.len(),
                found ==> expected.contains(given@[i as int]@),
                !found ==> forall|q: int| 0 <= q < j ==> expected[q] != given@[i as int]@,
            decreases positions.len() - j,
        {
            if side_eq(&given[i], &s[positions[j]].id) {
                assert(expected[j as int] == s@[positions@[j as int] as int].id@);
                assert(expected[j as int] == given@[i as int]@);
                found = true;
            }
            j += 1;
        }
        if !found {
            proof {
                if expected.contains(given@[i as int]@) {
                    let q = choose|q: int| 0 <= q < expected.len() && expected[q] == given@[i as int]@;
                }
                assert(!target.contains(given@[i as int]@));
                assert(views(given@)[i as int] == given@[i as int]@);
                assert(views(given@).to_set().contains(given@[i as int]@));
            }
            return false;
        }
        i += 1;
    }
    // every surviving side is given
    let mut j: usize = 0;
    while j < positions.len()
        invariant
            0 <= j <= positions@.len(),
            forall|q: int| 0 <= q < j ==> views(given@).contains(#[trigger] expected[q]),
        decreases positions.len() - j,
    {
        if !side_in(given, &s[positions[j]].id) {
            proof {
                assert(expected.to_set().contains(expected[j as int]));
            }
            return false;
        }
        j += 1;
    }
    proof {
        assert forall|v: SideView| #[trigger] views(given@).to_set().contains(v) <==> target.contains(v) by {
            if views(given@).contains(v) {
                let k = choose|k: int| 0 <= k < views(given@).len() && views(given@)[k] == v;
                assert(expected.contains(given@[k]@));
            }
            if expected.contains(v) {
                let q = choose|q: int| 0 <= q < expected.len() && expected[q] == v;
                assert(views(given@).contains(expected[q]));
            }
        }
        assert(views(given@).to_set() =~= target);
    }
    true
}

/// Checks an outcome against the match's participants and sides.
pub fn validate_outcome(player_count: u8, mode: &Multiplayer, outcome: &Outcome) -> (r: Result<(), String>)
    ensures
        r is Ok <==> outcome_valid(player_count, *mode, *outcome),
{
    let kind = classify(player_count, &outcome.survivors)?;
    if kind != outcome.kind {
        return Err("outcome kind disagrees with final survivors".to_string());
    }
    if !eliminated_ok(player_count, &outcome.survivors, &outcome.eliminated) {
        return Err("survivors/eliminated must partition participants".to_string());
    }
    let s = sides(player_count, mode)?;
    if !surviving_sides_ok(player_count, mode, &outcome.survivors, &outcome.surviving_sides, &s) {
        return Err("surviving sides disagree with participants".to_string());
    }
    if outcome.last_progress_tick > outcome.terminal_state_tick {
        return Err("progress lies after outcome".to_string());
    }
    Ok(())
}


// ---- timings ---------------------------------------------------------------------------------

/// Cumulative planning time of a player.
#[derive(Debug, Clone, Copy, PartialEq, Eq, Structural)]
pub struct PlayerTime {
    pub player_id: PlayerId,
    pub total_ms: SafeInt,
}

/// Every player has exactly one timing entry.
pub open spec fn times_valid(player_count: u8, t: Seq<PlayerTime>) -> bool {
    &&& forall|k: int| 0 <= k < t.len() ==> (#[trigger] t[k]).player_id < player_count
    &&& forall|k: int, m: int| 0 <= k < m < t.len() ==> #[trigger] t[k].player_id != #[trigger] t[m].player_id
    &&& t.len() == player_count
}

/// A timing counts at least one second.
pub open spec fn effective_ms(t: PlayerTime) -> u64 {
    if t.total_ms.value() >= 1000 { t.total_ms.value() } else { 1000 }
}

/// Effective planning time per player, indexed by player number; every player must appear once.
pub fn timings(player_count: u8, times: &Vec<PlayerTime>) -> (r: Result<Vec<u64>, String>)
    ensures
        r is Ok <==> times_valid(player_count, times@),
        r matches Ok(v) ==> v@.len() == player_count && forall|k: int| 0 <= k < times@.len() ==> v@[(#[trigger] times@[k]).player_id as int] == effective_ms(times@[k]),
{
    let mut k: usize = 0;
    while k < times.len()
        invariant
            0 <= k <= times@.len(),
            forall|q: int| 0 <= q < k ==> (#[trigger] times@[q]).player_id < player_count,
            forall|q: int, m: int| 0 <= q < m < k ==> #[trigger] times@[q].player_id != #[trigger] times@[m].player_id,
        decreases times.len() - k,
    {
        if times[k].player_id >= player_count {
            return Err("invalid/duplicate timing player".to_string());
        }
        let mut m: usize = 0;
        while m < k
            invariant
                0 <= m <= k < times@.len(),
                forall|q: int| 0 <= q < m ==> #[trigger] times@[q].player_id != times@[k as int].player_id,
            decreases k - m,
        {
            if times[m].player_id == times[k].player_id {
                assert(times@[m as int].player_id == times@[k as int].player_id);
                return Err("invalid/duplicate timing player".to_string());
            }
            m += 1;
        }
        k += 1;
    }
    if times.len() != player_count as usize {
        return Err("timings must include every player".to_string());
    }
    let mut v: Vec<u64> = Vec::new();
    let mut p: u8 = 0;
    while p < player_count
        invariant
            p <= player_count,
            times@.len() == player_count,
            v@.len() == p,
            forall|q: int| 0 <= q < times@.len() ==> (#[trigger] times@[q]).player_id < player_count,
            forall|q: int, m: int| 0 <= q < m < times@.len() ==> #[trigger] times@[q].player_id != #[trigger] times@[m].player_id,
            forall|q: int| 0 <= q < times@.len() && (#[trigger] times@[q]).player_id < p ==> v@[times@[q].player_id as int] == effective_ms(times@[q]),
        decreases player_count - p,
    {
        // the entry of player p exists: the entries are distinct players below player_count
        let mut found: u64 = 1000;
        let mut k: usize = 0;
        while k < times.len()
            invariant
                0 <= k <= times@.len(),
                forall|q: int, m: int| 0 <= q < m < times@.len() ==> #[trigger] times@[q].player_id != #[trigger] times@[m].player_id,
                forall|q: int| 0 <= q < k && (#[trigger] times@[q]).player_id == p ==> found == effective_ms(times@[q]),
            decreases times.len() - k,
        {
            if times[k].player_id == p {
                let ms = times[k].total_ms.get();
                found = if ms >= 1000 { ms } else { 1000 };
                proof {
                    assert forall|q: int| 0 <= q < k + 1 && (#[trigger] times@[q]).player_id == p implies found == effective_ms(times@[q]) by {
                        if q < k {
                            assert(times@[q].player_id != times@[k as int].player_id);
                        }
                    }
                }
            }
            k += 1;
        }
        v.push(found);
        p += 1;
    }
    Ok(v)
}

} // verus!
