//! The pre-match lobby: claiming and releasing player slots, profiles and team choices,
//! connections, and the roster that pins the multiplayer mode.
use vstd::prelude::*;
use crate::types::{PlayerId, Revision, TeamId};
use crate::commit::Phase;
use crate::scoring::{sides, sides_valid, teams_valid, Multiplayer, TeamAssignment};
use crate::text::{chars_of, is_whitespace, is_whitespace_exec, string_push};
use crate::draft::utf8_len;

verus! {

broadcast use vstd::string::group_string_axioms;

#[derive(Debug, Clone, PartialEq, Eq)]
pub struct PlayerProfile {
    pub player_id: PlayerId,
    pub username: String,
    pub color: String,
    pub team_id: Option<TeamId>,
}

#[derive(Debug, Clone, PartialEq, Eq)]
pub struct LobbySlot {
    pub slot: PlayerId,
    pub claimed: bool,
    pub connected: bool,
    pub profile: Option<PlayerProfile>,
}

/// A team players may join, with an optional cap on its members.
#[derive(Debug, Clone, PartialEq, Eq)]
pub struct AvailableTeam {
    pub team_id: TeamId,
    pub label: String,
    pub capacity: Option<u8>,
}

/// The lobby and the slot tokens and connection counts behind it.
#[derive(Debug, Clone, PartialEq, Eq)]
pub struct Lobby {
    pub phase: Phase,
    pub player_count: u8,
    pub revision: Revision,
    pub slots: Vec<LobbySlot>,
    pub available_teams: Vec<AvailableTeam>,
    pub can_start: bool,
    pub tokens: Vec<Option<String>>,
    pub connections: Vec<u32>,
}

// ---- profiles ----------------------------------------------------------------------------------

/// The string without leading whitespace.
pub open spec fn trim_start(s: Seq<char>) -> Seq<char>
    decreases s.len(),
{
    if s.len() > 0 && is_whitespace(s[0]) {
        trim_start(s.drop_first())
    } else {
        s
    }
}

/// The string without trailing whitespace.
pub open spec fn trim_end(s: Seq<char>) -> Seq<char>
    decreases s.len(),
{
    if s.len() > 0 && is_whitespace(s.last()) {
        trim_end(s.drop_last())
    } else {
        s
    }
}

/// The string without whitespace at either end, as `str::trim` gives it.
pub open spec fn trimmed(s: Seq<char>) -> Seq<char> {
    trim_end(trim_start(s))
}

/// Trims whitespace at both ends.
pub fn trim_text(s: &str) -> (r: String)
    ensures
        r@ == trimmed(s@),
{
    let v = chars_of(s);
    let n = v.len();
    let mut a: usize = 0;
    assert(v@.subrange(0, n as int) =~= v@);
    while a < n && is_whitespace_exec(v[a])
        invariant
            0 <= a <= n,
            n == v@.len(),
            trim_start(v@) == trim_start(v@.subrange(a as int, n as int)),
        decreases n - a,
    {
        assert(v@.subrange(a as int, n as int).drop_first() =~= v@.subrange(a + 1, n as int));
        a += 1;
    }
    assert(trim_start(v@) == v@.subrange(a as int, n as int));
    let mut b: usize = n;
    while b > a && is_whitespace_exec(v[b - 1])
        invariant
            a <= b <= n,
            n == v@.len(),
            trimmed(v@) == trim_end(v@.subrange(a as int, b as int)),
        decreases b - a,
    {
        assert(v@.subrange(a as int, b as int).drop_last() =~= v@.subrange(a as int, b - 1));
        b -= 1;
    }
    assert(trimmed(v@) == v@.subrange(a as int, b as int));
    let mut r = String::new();
    let mut k: usize = a;
    while k < b
        invariant
            a <= k <= b <= n,
            n == v@.len(),
            r@ == v@.subrange(a as int, k as int),
        decreases b - k,
    {
        string_push(&mut r, v[k]);
        assert(v@.subrange(a as int, k + 1) == v@.subrange(a as int, k as int).push(v@[k as int]));
        k += 1;
    }
    r
}

pub open spec fn is_hex_digit(c: char) -> bool {
    ||| '0' <= c <= '9'
    ||| 'a' <= c <= 'f'
    ||| 'A' <= c <= 'F'
}

/// A colour written `#RRGGBB`.
pub open spec fn color_valid(color: Seq<char>) -> bool {
    &&& color.len() == 7
    &&& color[0] == '#'
    &&& forall|i: int| 1 <= i < 7 ==> is_hex_digit(#[trigger] color[i])
}

/// A username of 1 to 24 bytes once trimmed, and a `#RRGGBB` colour.
pub open spec fn profile_valid(username: Seq<char>, color: Seq<char>) -> bool {
    &&& trimmed(username).len() > 0
    &&& utf8_len(trimmed(username)) <= 24
    &&& color_valid(color)
}

pub fn validate_profile(username: &str, color: &str) -> (r: Result<(), String>)
    ensures
        r is Ok <==> profile_valid(username@, color@),
{
    let name = trim_text(username);
    if name.as_str().is_empty() || name.as_str().len() > 24 {
        return Err("username must be 1-24 characters".to_string());
    }
    let c = chars_of(color);
    if c.len() != 7 || c[0] != '#' {
        return Err("color must be #RRGGBB".to_string());
    }
    let mut i: usize = 1;
    while i < 7
        invariant
            1 <= i <= 7,
            c@ == color@,
            c@.len() == 7,
            forall|k: int| 1 <= k < i ==> is_hex_digit(#[trigger] c@[k]),
        decreases 7 - i,
    {
        let d = c[i];
        if !(('0' <= d && d <= '9') || ('a' <= d && d <= 'f') || ('A' <= d && d <= 'F')) {
            return Err("color must be #RRGGBB".to_string());
        }
        i += 1;
    }
    Ok(())
}

// ---- teams and roster --------------------------------------------------------------------------

pub open spec fn opt_view(o: Option<String>) -> Option<Seq<char>> {
    match o {
        Some(t) => Some(t@),
        None => None,
    }
}

/// A slot other than `slot` whose player chose `team`.
pub open spec fn on_team(s: LobbySlot, slot: PlayerId, team: Seq<char>) -> bool {
    s.slot != slot && match s.profile {
        Some(p) => opt_view(p.team_id) == Some(team),
        None => false,
    }
}

/// How many slots other than `slot` chose `team`.
pub open spec fn team_count(slots: Seq<LobbySlot>, slot: PlayerId, team: Seq<char>) -> nat
    decreases slots.len(),
{
    if slots.len() == 0 {
        0
    } else {
        team_count(slots.drop_last(), slot, team) + if on_team(slots.last(), slot, team) {
            1nat
        } else {
            0nat
        }
    }
}

pub open spec fn is_first_team(teams: Seq<AvailableTeam>, team: Seq<char>, i: int) -> bool {
    &&& 0 <= i < teams.len()
    &&& teams[i].team_id@ == team
    &&& forall|j: int| 0 <= j < i ==> (#[trigger] teams[j]).team_id@ != team
}

/// The first configured team with this id.
pub open spec fn find_team(teams: Seq<AvailableTeam>, team: Seq<char>) -> Option<int> {
    if exists|i: int| #[trigger] is_first_team(teams, team, i) {
        Some(choose|i: int| #[trigger] is_first_team(teams, team, i))
    } else {
        None
    }
}

/// Without configured teams no team may be chosen; with them, `slot` must choose a known team
/// that has room besides itself.
pub open spec fn team_choice_ok(l: Lobby, slot: PlayerId, team: Option<Seq<char>>) -> bool {
    if l.available_teams@.len() == 0 {
        team is None
    } else {
        match team {
            None => false,
            Some(t) => match find_team(l.available_teams@, t) {
                None => false,
                Some(k) => match l.available_teams@[k].capacity {
                    Some(cap) => team_count(l.slots@, slot, t) < cap,
                    None => true,
                },
            },
        }
    }
}

fn find_team_exec(teams: &Vec<AvailableTeam>, team: &String) -> (r: Option<usize>)
    ensures
        r matches Some(i) ==> find_team(teams@, team@) == Some(i as int),
        r is None ==> find_team(teams@, team@) is None,
{
    let mut i: usize = 0;
    while i < teams.len()
        invariant
            0 <= i <= teams.len(),
            forall|j: int| 0 <= j < i ==> (#[trigger] teams@[j]).team_id@ != team@,
        decreases teams.len() - i,
    {
        if teams[i].team_id == *team {
            proof {
                assert(is_first_team(teams@, team@, i as int));
                let k = choose|k: int| #[trigger] is_first_team(teams@, team@, k);
                if k < i {
                    assert(teams@[k].team_id@ != team@);
                } else if k > i {
                    assert(teams@[i as int].team_id@ != team@);
                }
            }
            return Some(i);
        }
        i += 1;
    }
    assert forall|k: int| !#[trigger] is_first_team(teams@, team@, k) by {
        if 0 <= k < teams.len() {
            assert(teams@[k].team_id@ != team@);
        }
    }
    None
}

fn count_team(slots: &Vec<LobbySlot>, slot: PlayerId, team: &String) -> (r: u64)
    ensures
        r == team_count(slots@, slot, team@),
{
    let mut n: u64 = 0;
    let mut i: usize = 0;
    while i < slots.len()
        invariant
            0 <= i <= slots.len(),
            n == team_count(slots@.take(i as int), slot, team@),
            n <= i,
        decreases slots.len() - i,
    {
        assert(slots@.take(i + 1).drop_last() == slots@.take(i as int));
        let s = &slots[i];
        let hit = s.slot != slot && match &s.profile {
            Some(p) => match &p.team_id {
                Some(t) => *t == *team,
                None => false,
            },
            None => false,
        };
        if hit {
            n += 1;
        }
        i += 1;
    }
    assert(slots@.take(slots.len() as int) == slots@);
    n
}

impl Lobby {
    /// Checks a team choice for `slot` against the configured teams and their capacity.
    pub fn validate_team(&self, slot: PlayerId, team_id: &Option<TeamId>) -> (r: Result<(), String>)
        ensures
            r is Ok <==> team_choice_ok(*self, slot, opt_view(*team_id)),
    {
        if self.available_teams.len() == 0 {
            return match team_id {
                Some(_) => Err("this match has no teams".to_string()),
                None => Ok(()),
            };
        }
        let team = match team_id {
            Some(t) => t,
            None => {
                return Err("choose a team".to_string());
            },
        };
        let k = match find_team_exec(&self.available_teams, team) {
            Some(k) => k,
            None => {
                return Err("unknown team".to_string());
            },
        };
        let members = count_team(&self.slots, slot, team);
        match self.available_teams[k].capacity {
            Some(cap) => {
                if members >= cap as u64 {
                    return Err("team is full".to_string());
                }
            },
            None => {},
        }
        Ok(())
    }
}

/// Every slot has a claimed player.
pub open spec fn all_claimed(slots: Seq<LobbySlot>) -> bool {
    forall|i: int| 0 <= i < slots.len() ==> (#[trigger] slots[i]).claimed
}

/// The slot's player chose a team.
pub open spec fn has_team(s: LobbySlot) -> bool {
    match s.profile {
        Some(p) => p.team_id is Some,
        None => false,
    }
}

/// Each slot's player on the team it chose, in slot order.
pub open spec fn roster_assignments(slots: Seq<LobbySlot>) -> Seq<TeamAssignment> {
    Seq::new(slots.len(), |i: int| TeamAssignment { player_id: slots[i].slot, team_id: slots[i].profile->0.team_id->0 })
}

/// The roster pins a mode: every slot is claimed and, with configured teams, every player
/// chose one and the choices form valid sides.
pub open spec fn roster_ok(l: Lobby) -> bool {
    &&& all_claimed(l.slots@)
    &&& l.available_teams@.len() > 0 ==> {
        &&& forall|i: int| 0 <= i < l.slots@.len() ==> #[trigger] has_team(l.slots@[i])
        &&& l.player_count >= 2
        &&& teams_valid(l.player_count, roster_assignments(l.slots@))
    }
}

impl Lobby {
    /// The multiplayer mode the roster pins: free-for-all without configured teams, otherwise
    /// the teams the players chose.
    pub fn roster_multiplayer(&self) -> (r: Result<Multiplayer, String>)
        ensures
            r is Ok <==> roster_ok(*self),
            r matches Ok(m) ==> {
                &&& self.available_teams@.len() == 0 ==> m is Ffa
                &&& self.available_teams@.len() > 0 ==> (m matches Multiplayer::Teams { assignments } && assignments@ == roster_assignments(self.slots@))
            },
    {
        let mut i: usize = 0;
        while i < self.slots.len()
            invariant
                0 <= i <= self.slots.len(),
                forall|k: int| 0 <= k < i ==> (#[trigger] self.slots@[k]).claimed,
            decreases self.slots.len() - i,
        {
            if !self.slots[i].claimed {
                return Err("all slots must be claimed".to_string());
            }
            i += 1;
        }
        if self.available_teams.len() == 0 {
            return Ok(Multiplayer::Ffa {  });
        }
        let mut assignments: Vec<TeamAssignment> = Vec::new();
        let mut i: usize = 0;
        while i < self.slots.len()
            invariant
                0 <= i <= self.slots.len(),
                assignments@ == roster_assignments(self.slots@).take(i as int),
                all_claimed(self.slots@),
                self.available_teams@.len() > 0,
                forall|k: int| 0 <= k < i ==> #[trigger] has_team(self.slots@[k]),
            decreases self.slots.len() - i,
        {
            let s = &self.slots[i];
            let team = match &s.profile {
                Some(p) => match &p.team_id {
                    Some(t) => t.clone(),
                    None => {
                        assert(!has_team(self.slots@[i as int]));
                        return Err("a slot has not chosen a team".to_string());
                    },
                },
                None => {
                    assert(!has_team(self.slots@[i as int]));
                    return Err("all slots must be claimed".to_string());
                },
            };
            assignments.push(TeamAssignment { player_id: s.slot, team_id: team });
            proof {
                assert(roster_assignments(self.slots@).take(i + 1) == roster_assignments(self.slots@).take(i as int).push(
                    roster_assignments(self.slots@)[i as int],
                ));
            }
            i += 1;
        }
        assert(roster_assignments(self.slots@).take(self.slots@.len() as int) == roster_assignments(self.slots@));
        let mode = Multiplayer::Teams { assignments };
        match sides(self.player_count, &mode) {
            Ok(_) => Ok(mode),
            Err(e) => Err(e),
        }
    }
}

// ---- slots -------------------------------------------------------------------------------------

/// One slot per player, numbered in order, with a token and a connection count each; a slot
/// holds a profile and a token exactly when it is claimed.
pub open spec fn lobby_wf(l: Lobby) -> bool {
    let n = l.player_count as int;
    &&& l.slots@.len() == n
    &&& l.tokens@.len() == n
    &&& l.connections@.len() == n
    &&& forall|i: int| 0 <= i < n ==> (#[trigger] l.slots@[i]).slot == i
    &&& forall|i: int| 0 <= i < n ==> (#[trigger] l.slots@[i]).claimed == (l.slots@[i].profile is Some)
    &&& forall|i: int| 0 <= i < n ==> (#[trigger] l.tokens@[i] is Some) == l.slots@[i].claimed
}

pub open spec fn holds_token(o: Option<String>, token: Seq<char>) -> bool {
    match o {
        Some(t) => t@ == token,
        None => false,
    }
}

pub open spec fn is_first_holder(tokens: Seq<Option<String>>, token: Seq<char>, i: int) -> bool {
    &&& 0 <= i < tokens.len()
    &&& holds_token(tokens[i], token)
    &&& forall|j: int| 0 <= j < i ==> !holds_token(#[trigger] tokens[j], token)
}

/// The slot whose token this is.
pub open spec fn token_slot(tokens: Seq<Option<String>>, token: Seq<char>) -> Option<int> {
    if exists|i: int| #[trigger] is_first_holder(tokens, token, i) {
        Some(choose|i: int| #[trigger] is_first_holder(tokens, token, i))
    } else {
        None
    }
}

/// The revision moved on and `can_start` says whether a lobby roster could start now.
pub open spec fn bumped(old: Lobby, new: Lobby) -> bool {
    &&& new.revision == old.revision + 1
    &&& new.can_start == (new.phase == Phase::Lobby && roster_ok(new))
}

/// Phase, player count and teams stay.
pub open spec fn same_setup(old: Lobby, new: Lobby) -> bool {
    &&& new.phase == old.phase
    &&& new.player_count == old.player_count
    &&& new.available_teams == old.available_teams
}

/// `slot` can be claimed with this profile and team choice.
pub open spec fn claim_allowed(l: Lobby, slot: PlayerId, username: Seq<char>, color: Seq<char>, team: Option<Seq<char>>) -> bool {
    &&& l.phase == Phase::Lobby
    &&& slot < l.slots@.len()
    &&& !l.slots@[slot as int].claimed
    &&& profile_valid(username, color)
    &&& team_choice_ok(l, slot, team)
}

/// `new` is `old` after `slot` was claimed with this profile, team choice and token.
pub open spec fn claimed_into(
    old: Lobby,
    new: Lobby,
    slot: PlayerId,
    username: Seq<char>,
    color: String,
    team_id: Option<TeamId>,
    token: String,
) -> bool {
    &&& bumped(old, new)
    &&& same_setup(old, new)
    &&& only_slot_changed(old, new, slot as int)
    &&& new.slots@[slot as int].claimed
    &&& new.slots@[slot as int].connected
    &&& new.slots@[slot as int].profile matches Some(p) && p.player_id == slot && p.username@ == trimmed(username)
        && p.color == color && p.team_id == team_id
    &&& new.tokens@ == old.tokens@.update(slot as int, Some(token))
    &&& new.connections@ == old.connections@.update(slot as int, 1)
}

/// A free slot numbered `p`.
pub open spec fn free_slot(p: int) -> LobbySlot {
    LobbySlot { slot: p as u8, claimed: false, connected: false, profile: None }
}

/// `new` is `old` after slot `p` was released.
pub open spec fn released_from(old: Lobby, new: Lobby, p: int) -> bool {
    &&& bumped(old, new)
    &&& same_setup(old, new)
    &&& new.slots@ == old.slots@.update(p, free_slot(p))
    &&& new.tokens@ == old.tokens@.update(p, None)
    &&& new.connections@ == old.connections@.update(p, 0)
}

impl Lobby {
    /// An open lobby with every slot free.
    pub fn new(player_count: u8, available_teams: Vec<AvailableTeam>) -> (r: Lobby)
        ensures
            lobby_wf(r),
            r.phase == Phase::Lobby,
            r.player_count == player_count,
            r.revision == 0,
            !r.can_start,
            r.available_teams == available_teams,
            forall|i: int| 0 <= i < player_count ==> !(#[trigger] r.slots@[i]).claimed && !r.slots@[i].connected,
            forall|i: int| 0 <= i < player_count ==> #[trigger] r.connections@[i] == 0,
    {
        let mut slots: Vec<LobbySlot> = Vec::new();
        let mut tokens: Vec<Option<String>> = Vec::new();
        let mut connections: Vec<u32> = Vec::new();
        let mut i: u8 = 0;
        while i < player_count
            invariant
                0 <= i <= player_count,
                slots@.len() == i && tokens@.len() == i && connections@.len() == i,
                forall|k: int| 0 <= k < i ==> (#[trigger] slots@[k]).slot == k && !slots@[k].claimed && !slots@[k].connected
                    && slots@[k].profile is None,
                forall|k: int| 0 <= k < i ==> #[trigger] tokens@[k] is None,
                forall|k: int| 0 <= k < i ==> #[trigger] connections@[k] == 0,
            decreases player_count - i,
        {
            slots.push(LobbySlot { slot: i, claimed: false, connected: false, profile: None });
            tokens.push(None);
            connections.push(0);
            i += 1;
        }
        Lobby {
            phase: Phase::Lobby,
            player_count,
            revision: 0,
            slots,
            available_teams,
            can_start: false,
            tokens,
            connections,
        }
    }

    /// The player whose slot token this is.
    pub fn player_for(&self, token: &str) -> (r: Option<PlayerId>)
        requires
            self.tokens@.len() <= 256,
        ensures
            r matches Some(p) ==> token_slot(self.tokens@, token@) == Some(p as int),
            r is None ==> token_slot(self.tokens@, token@) is None,
    {
        let wanted = token.to_owned();
        let mut i: usize = 0;
        while i < self.tokens.len()
            invariant
                0 <= i <= self.tokens.len(),
                self.tokens@.len() <= 256,
                wanted@ == token@,
                forall|j: int| 0 <= j < i ==> !holds_token(#[trigger] self.tokens@[j], token@),
            decreases self.tokens.len() - i,
        {
            let held = match &self.tokens[i] {
                Some(t) => *t == wanted,
                None => false,
            };
            if held {
                proof {
                    assert(is_first_holder(self.tokens@, token@, i as int));
                    let k = choose|k: int| #[trigger] is_first_holder(self.tokens@, token@, k);
                    if k < i {
                        assert(!holds_token(self.tokens@[k], token@));
                    } else if k > i {
                        assert(!holds_token(self.tokens@[i as int], token@));
                    }
                }
                return Some(i as u8);
            }
            i += 1;
        }
        assert forall|k: int| !#[trigger] is_first_holder(self.tokens@, token@, k) by {
            if 0 <= k < self.tokens@.len() {
                assert(!holds_token(self.tokens@[k], token@));
            }
        }
        None
    }

    fn bump(&mut self)
        requires
            old(self).revision < u32::MAX,
        ensures
            bumped(*old(self), *final(self)),
            final(self).slots == old(self).slots,
            final(self).tokens == old(self).tokens,
            final(self).connections == old(self).connections,
            same_setup(*old(self), *final(self)),
    {
        self.revision = self.revision + 1;
        let ok = match self.roster_multiplayer() {
            Ok(_) => true,
            Err(_) => false,
        };
        self.can_start = self.phase == Phase::Lobby && ok;
    }

    /// Claims a free slot in the lobby with a profile, a team choice and the token that will
    /// identify its player; answers the token.
    pub fn claim_slot(
        &mut self,
        slot: PlayerId,
        username: String,
        color: String,
        team_id: Option<TeamId>,
        token: String,
    ) -> (r: Result<String, String>)
        requires
            lobby_wf(*old(self)),
            old(self).revision < u32::MAX,
        ensures
            lobby_wf(*final(self)),
            r is Ok <==> claim_allowed(*old(self), slot, username@, color@, opt_view(team_id)),
            r is Err ==> *final(self) == *old(self),
            r matches Ok(t) ==> t == token && claimed_into(*old(self), *final(self), slot, username@, color, team_id, token),
    {
        if self.phase != Phase::Lobby {
            return Err("match already started; reconnect with your slot token".to_string());
        }
        let index = slot as usize;
        if index >= self.slots.len() {
            return Err("no such slot".to_string());
        }
        if self.slots[index].claimed {
            return Err("slot already claimed".to_string());
        }
        validate_profile(username.as_str(), color.as_str())?;
        self.validate_team(slot, &team_id)?;
        let name = trim_text(username.as_str());
        self.slots.set(index, LobbySlot {
            slot,
            claimed: true,
            connected: true,
            profile: Some(PlayerProfile { player_id: slot, username: name, color, team_id }),
        });
        self.tokens.set(index, Some(token.clone()));
        self.connections.set(index, 1);
        self.bump();
        Ok(token)
    }

    /// Frees the slot of this token before the match starts.
    pub fn release_slot(&mut self, token: &str) -> (r: Result<(), String>)
        requires
            lobby_wf(*old(self)),
            old(self).revision < u32::MAX,
        ensures
            lobby_wf(*final(self)),
            r is Ok <==> old(self).phase == Phase::Lobby && token_slot(old(self).tokens@, token@) is Some,
            r is Err ==> *final(self) == *old(self),
            r is Ok ==> released_from(*old(self), *final(self), token_slot(old(self).tokens@, token@)->0),
    {
        if self.phase != Phase::Lobby {
            return Err("slots are pinned after start".to_string());
        }
        let player = match self.player_for(token) {
            Some(p) => p,
            None => {
                return Err("unknown slot token".to_string());
            },
        };
        let index = player as usize;
        proof {
            let k = choose|k: int| #[trigger] is_first_holder(self.tokens@, token@, k);
            assert(is_first_holder(self.tokens@, token@, k));
        }
        self.tokens.set(index, None);
        self.connections.set(index, 0);
        self.slots.set(index, LobbySlot { slot: player, claimed: false, connected: false, profile: None });
        self.bump();
        Ok(())
    }
}

/// The username and colour a profile update leaves: the given ones, or the current ones.
pub open spec fn updated_name(l: Lobby, p: int, username: Option<String>) -> Seq<char> {
    match username {
        Some(u) => u@,
        None => l.slots@[p].profile->0.username@,
    }
}

pub open spec fn updated_color(l: Lobby, p: int, color: Option<String>) -> Seq<char> {
    match color {
        Some(c) => c@,
        None => l.slots@[p].profile->0.color@,
    }
}

/// Slot `p` may take this profile update: a team choice must be valid, the slot claimed, and
/// the resulting profile valid.
pub open spec fn update_allowed(l: Lobby, p: int, username: Option<String>, color: Option<String>, team: Option<TeamId>) -> bool {
    &&& (team is Some ==> team_choice_ok(l, p as u8, opt_view(team)))
    &&& l.slots@[p].profile is Some
    &&& profile_valid(updated_name(l, p, username), updated_color(l, p, color))
}

/// Every slot but `p` is unchanged, and `p` keeps its number.
pub open spec fn only_slot_changed(old: Lobby, new: Lobby, p: int) -> bool {
    &&& new.slots@.len() == old.slots@.len()
    &&& forall|i: int| 0 <= i < old.slots@.len() && i != p ==> #[trigger] new.slots@[i] == old.slots@[i]
    &&& new.slots@[p].slot == old.slots@[p].slot
}

impl Lobby {
    /// Changes the name, colour or team of the token's slot before the match starts.
    pub fn update_profile(
        &mut self,
        token: &str,
        username: Option<String>,
        color: Option<String>,
        team_id: Option<TeamId>,
    ) -> (r: Result<(), String>)
        requires
            lobby_wf(*old(self)),
            old(self).revision < u32::MAX,
        ensures
            lobby_wf(*final(self)),
            r is Ok <==> {
                &&& old(self).phase == Phase::Lobby
                &&& token_slot(old(self).tokens@, token@) is Some
                &&& update_allowed(*old(self), token_slot(old(self).tokens@, token@)->0, username, color, team_id)
            },
            r is Err ==> *final(self) == *old(self),
            r is Ok ==> {
                let p = token_slot(old(self).tokens@, token@)->0;
                let before = old(self).slots@[p].profile->0;
                &&& bumped(*old(self), *final(self))
                &&& same_setup(*old(self), *final(self))
                &&& final(self).tokens == old(self).tokens
                &&& final(self).connections == old(self).connections
                &&& only_slot_changed(*old(self), *final(self), p)
                &&& final(self).slots@[p].claimed == old(self).slots@[p].claimed
                &&& final(self).slots@[p].connected == old(self).slots@[p].connected
                &&& final(self).slots@[p].profile matches Some(after) && after.player_id == before.player_id
                    && after.username@ == trimmed(updated_name(*old(self), p, username))
                    && after.color@ == updated_color(*old(self), p, color)
                    && after.team_id == if team_id is Some { team_id } else { before.team_id }
            },
    {
        if self.phase != Phase::Lobby {
            return Err("profiles are pinned after start".to_string());
        }
        let player = match self.player_for(token) {
            Some(p) => p,
            None => {
                return Err("unknown slot token".to_string());
            },
        };
        let index = player as usize;
        proof {
            let k = choose|k: int| #[trigger] is_first_holder(self.tokens@, token@, k);
            assert(is_first_holder(self.tokens@, token@, k));
        }
        if team_id.is_some() {
            self.validate_team(player, &team_id)?;
        }
        let (name, col) = match &self.slots[index].profile {
            Some(p) => {
                let name = match &username {
                    Some(u) => u.clone(),
                    None => p.username.clone(),
                };
                let col = match &color {
                    Some(c) => c.clone(),
                    None => p.color.clone(),
                };
                (name, col)
            },
            None => {
                return Err("slot not claimed".to_string());
            },
        };
        validate_profile(name.as_str(), col.as_str())?;
        let trimmed_name = trim_text(name.as_str());
        let entry = self.slots.remove(index);
        let ghost old_slots = self.slots@;
        let new_profile = match entry.profile {
            Some(p) => PlayerProfile {
                player_id: p.player_id,
                username: trimmed_name,
                color: col,
                team_id: if team_id.is_some() { team_id } else { p.team_id },
            },
            None => {
                proof {
                    assert(false);
                }
                return Err("slot not claimed".to_string());
            },
        };
        self.slots.insert(index, LobbySlot { slot: entry.slot, claimed: entry.claimed, connected: entry.connected, profile: Some(new_profile) });
        self.bump();
        Ok(())
    }

    /// Counts a connection of the token's player and marks the slot connected.
    pub fn connect(&mut self, token: Option<&str>) -> (r: Option<PlayerId>)
        requires
            lobby_wf(*old(self)),
            old(self).revision < u32::MAX,
            forall|i: int| 0 <= i < old(self).connections@.len() ==> #[trigger] old(self).connections@[i] < u32::MAX,
        ensures
            lobby_wf(*final(self)),
            r is Some <==> (token matches Some(t) && token_slot(old(self).tokens@, t@) is Some),
            r is None ==> *final(self) == *old(self),
            r matches Some(p) ==> {
                &&& token_slot(old(self).tokens@, token->0@) == Some(p as int)
                &&& same_setup(*old(self), *final(self))
                &&& final(self).tokens == old(self).tokens
                &&& final(self).connections@ == old(self).connections@.update(p as int, (old(self).connections@[p as int] + 1) as u32)
                &&& if old(self).slots@[p as int].connected {
                    final(self).slots == old(self).slots && final(self).revision == old(self).revision
                        && final(self).can_start == old(self).can_start
                } else {
                    &&& bumped(*old(self), *final(self))
                    &&& final(self).slots@ == old(self).slots@.update(p as int, LobbySlot { connected: true, ..old(self).slots@[p as int] })
                }
            },
    {
        let t = match token {
            Some(t) => t,
            None => {
                return None;
            },
        };
        let player = match self.player_for(t) {
            Some(p) => p,
            None => {
                return None;
            },
        };
        let index = player as usize;
        proof {
            let k = choose|k: int| #[trigger] is_first_holder(self.tokens@, t@, k);
            assert(is_first_holder(self.tokens@, t@, k));
        }
        let count = self.connections[index];
        self.connections.set(index, count + 1);
        if !self.slots[index].connected {
            let entry = self.slots.remove(index);
            self.slots.insert(index, LobbySlot { slot: entry.slot, claimed: entry.claimed, connected: true, profile: entry.profile });
            self.bump();
        }
        Some(player)
    }

    /// Drops one connection of `player`; the slot shows disconnected when none is left.
    pub fn disconnect(&mut self, player: PlayerId)
        requires
            lobby_wf(*old(self)),
            old(self).revision < u32::MAX,
            player < old(self).player_count,
        ensures
            lobby_wf(*final(self)),
            same_setup(*old(self), *final(self)),
            final(self).tokens == old(self).tokens,
            ({
                let p = player as int;
                let left = if old(self).connections@[p] > 0 { old(self).connections@[p] - 1 } else { 0 };
                &&& final(self).connections@ == old(self).connections@.update(p, left as u32)
                &&& if left == 0 && old(self).slots@[p].connected {
                    &&& bumped(*old(self), *final(self))
                    &&& final(self).slots@ == old(self).slots@.update(p, LobbySlot { connected: false, ..old(self).slots@[p] })
                } else {
                    final(self).slots == old(self).slots && final(self).revision == old(self).revision
                        && final(self).can_start == old(self).can_start
                }
            }),
    {
        let index = player as usize;
        let count = self.connections[index];
        let left = if count > 0 { count - 1 } else { 0 };
        self.connections.set(index, left);
        if left == 0 && self.slots[index].connected {
            let entry = self.slots.remove(index);
            self.slots.insert(index, LobbySlot { slot: entry.slot, claimed: entry.claimed, connected: false, profile: entry.profile });
            self.bump();
        }
    }
}

/// The first claimed slot, if any.
pub open spec fn first_claimed(slots: Seq<LobbySlot>) -> Option<int> {
    if exists|i: int| 0 <= i < slots.len() && (#[trigger] slots[i]).claimed {
        Some(choose|i: int| 0 <= i < slots.len() && (#[trigger] slots[i]).claimed && forall|j: int| 0 <= j < i ==> !(#[trigger] slots[j]).claimed)
    } else {
        None
    }
}

proof fn lemma_first_claimed(slots: Seq<LobbySlot>, i: int)
    requires
        0 <= i < slots.len(),
        slots[i].claimed,
        forall|j: int| 0 <= j < i ==> !(#[trigger] slots[j]).claimed,
    ensures
        first_claimed(slots) == Some(i),
{
    let k = choose|k: int| 0 <= k < slots.len() && (#[trigger] slots[k]).claimed && forall|j: int| 0 <= j < k ==> !(#[trigger] slots[j]).claimed;
    assert(0 <= k < slots.len() && slots[k].claimed && forall|j: int| 0 <= j < k ==> !(#[trigger] slots[j]).claimed);
    if k < i {
        assert(!slots[k].claimed);
    } else if k > i {
        assert(!slots[i].claimed);
    }
}

/// The lobby may start on this request: it is still open, the token's slot is the first
/// claimed one, the request saw the current lobby revision and the roster pins a mode.
pub open spec fn start_allowed(l: Lobby, token: Seq<char>, based_on: Revision) -> bool {
    &&& l.phase == Phase::Lobby
    &&& token_slot(l.tokens@, token) is Some
    &&& first_claimed(l.slots@) == token_slot(l.tokens@, token)
    &&& based_on == l.revision
    &&& roster_ok(l)
}

impl Lobby {
    /// Checks a start request and answers the multiplayer mode the roster pins. A request made
    /// against an older lobby revision is refused so that the player reviews the roster.
    pub fn start_check(&self, token: &str, based_on: Revision) -> (r: Result<Multiplayer, String>)
        requires
            lobby_wf(*self),
        ensures
            r is Ok <==> start_allowed(*self, token@, based_on),
            r matches Ok(m) ==> {
                &&& self.available_teams@.len() == 0 ==> m is Ffa
                &&& self.available_teams@.len() > 0 ==> (m matches Multiplayer::Teams { assignments } && assignments@ == roster_assignments(self.slots@))
            },
    {
        if self.phase != Phase::Lobby {
            return Err("match already started".to_string());
        }
        let player = match self.player_for(token) {
            Some(p) => p,
            None => {
                return Err("only a claimed slot can start".to_string());
            },
        };
        let mut i: usize = 0;
        while i < self.slots.len() && !self.slots[i].claimed
            invariant
                0 <= i <= self.slots.len(),
                forall|j: int| 0 <= j < i ==> !(#[trigger] self.slots@[j]).claimed,
            decreases self.slots.len() - i,
        {
            i += 1;
        }
        proof {
            if i < self.slots.len() {
                lemma_first_claimed(self.slots@, i as int);
            }
        }
        if i != player as usize {
            return Err("only the first occupied slot may start".to_string());
        }
        if based_on != self.revision {
            return Err("lobby changed; review the roster and start again".to_string());
        }
        self.roster_multiplayer()
    }

    /// Closes the lobby once the match has started.
    pub fn begin_match(&mut self)
        ensures
            final(self).phase == Phase::Simulating,
            !final(self).can_start,
            final(self).revision == old(self).revision,
            final(self).slots == old(self).slots,
            final(self).tokens == old(self).tokens,
            final(self).connections == old(self).connections,
            final(self).player_count == old(self).player_count,
            final(self).available_teams == old(self).available_teams,
    {
        self.phase = Phase::Simulating;
        self.can_start = false;
    }
}

/// A stop request may archive the match: it comes from the first claimed slot while the match
/// is planning or simulating, against the current revision.
pub open spec fn stop_allowed(l: Lobby, token: Seq<char>, based_on: Revision, current: Revision) -> bool {
    &&& token_slot(l.tokens@, token) is Some
    &&& first_claimed(l.slots@) == token_slot(l.tokens@, token)
    &&& (l.phase == Phase::Planning || l.phase == Phase::Simulating)
    &&& based_on == current
}

impl Lobby {
    /// Stops the match on the host's request and marks it archived; a refused request changes
    /// nothing.
    pub fn stop_and_archive(&mut self, token: &str, based_on_revision: Revision, current: Revision) -> (r: Result<(), String>)
        requires
            lobby_wf(*old(self)),
        ensures
            r is Ok <==> stop_allowed(*old(self), token@, based_on_revision, current),
            r is Ok ==> *final(self) == (Lobby { phase: Phase::Archived, ..*old(self) }),
            r is Err ==> *final(self) == *old(self),
    {
        let player = match self.player_for(token) {
            Some(p) => p,
            None => {
                return Err("only a claimed slot can stop the match".to_string());
            },
        };
        let mut i: usize = 0;
        while i < self.slots.len() && !self.slots[i].claimed
            invariant
                0 <= i <= self.slots.len(),
                forall|j: int| 0 <= j < i ==> !(#[trigger] self.slots@[j]).claimed,
            decreases self.slots.len() - i,
        {
            i += 1;
        }
        proof {
            if i < self.slots.len() {
                lemma_first_claimed(self.slots@, i as int);
            }
        }
        if i != player as usize {
            return Err("only the first occupied slot may stop the match".to_string());
        }
        if self.phase != Phase::Planning && self.phase != Phase::Simulating {
            return Err("match is not running; nothing to stop".to_string());
        }
        if based_on_revision != current {
            return Err("stale revision".to_string());
        }
        self.phase = Phase::Archived;
        Ok(())
    }
}

// ---- laws ------------------------------------------------------------------------------------

/// Releasing a slot right after claiming it frees the slot again: the other slots, every token
/// and every other connection count are as they were, and the lobby moved on two revisions.
pub proof fn law_release_undoes_claim(
    l0: Lobby,
    l1: Lobby,
    l2: Lobby,
    slot: PlayerId,
    username: Seq<char>,
    color: String,
    team_id: Option<TeamId>,
    token: String,
)
    requires
        lobby_wf(l0),
        slot < l0.player_count,
        !l0.slots@[slot as int].claimed,
        forall|i: int| 0 <= i < l0.tokens@.len() ==> !holds_token(#[trigger] l0.tokens@[i], token@),
        claimed_into(l0, l1, slot, username, color, team_id, token),
        released_from(l1, l2, token_slot(l1.tokens@, token@)->0),
    ensures
        token_slot(l1.tokens@, token@) == Some(slot as int),
        l2.slots@ == l0.slots@.update(slot as int, free_slot(slot as int)),
        l2.tokens@ == l0.tokens@,
        l2.connections@ == l0.connections@.update(slot as int, 0),
        l2.revision == l0.revision + 2,
        l2.phase == l0.phase,
{
    assert(is_first_holder(l1.tokens@, token@, slot as int)) by {
        assert forall|j: int| 0 <= j < slot implies !holds_token(#[trigger] l1.tokens@[j], token@) by {
            assert(l1.tokens@[j] == l0.tokens@[j]);
        }
    }
    let k = choose|k: int| #[trigger] is_first_holder(l1.tokens@, token@, k);
    assert(is_first_holder(l1.tokens@, token@, k));
    if k < slot {
        assert(!holds_token(l1.tokens@[k], token@));
    } else if k > slot {
        assert(!holds_token(l1.tokens@[slot as int], token@));
    }
    assert(l2.slots@ =~= l0.slots@.update(slot as int, free_slot(slot as int)));
    assert(l2.tokens@ =~= l0.tokens@);
    assert(l2.connections@ =~= l0.connections@.update(slot as int, 0));
}

} // verus!
