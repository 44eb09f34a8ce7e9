//! The structural checks a turn passes before it is admitted: retries of a recorded commit,
//! the planning phase, the revision it builds on, its tick window, the command limit, lock
//! policies and local references.
use vstd::prelude::*;
use crate::types::{Command, CommandId, DraftCommand, FutureOrderPolicy, PlayerId, Revision, Tick, TurnDraft};
use crate::draft::{entry_valid, policy_valid, resolve_local_references, validate_policy};
use crate::identity::command_id;
use crate::timed::TimedStatus;

verus! {

/// Where a match stands.
#[derive(Debug, Clone, Copy, PartialEq, Eq, Structural)]
pub enum Phase {
    Lobby,
    Planning,
    Simulating,
    Finished,
    Archived,
}

/// How many commands a turn may carry.
#[derive(Debug, Clone, Copy, PartialEq, Eq, Structural)]
pub enum ControlLimit {
    Timestamp,
    SingleOrder,
}

/// What the commit checks read of the running match.
#[derive(Debug, Clone, PartialEq, Eq)]
pub struct CommitGate {
    pub phase: Phase,
    pub current: Revision,
    pub round: u32,
    pub editable_from: Tick,
    pub available_through: Tick,
    pub max_tick: Tick,
    pub control_limit: ControlLimit,
    /// The configured future-order window, if any.
    pub window: Option<Tick>,
    /// The request id of the turn this player already committed in this round, if any.
    pub prior_request: Option<String>,
}

/// The answer to a retried commit: the recorded turn stands.
#[derive(Debug, Clone, PartialEq, Eq)]
pub struct CommitAccepted {
    pub request_id: String,
    pub round: u32,
}

/// The last tick a draft may address: the current revision's terminal tick, or 0 before
/// any outcome, and never past the horizon.
pub open spec fn spec_available_through(terminal: Option<Tick>, max_tick: Tick) -> Tick {
    let t = match terminal {
        Some(t) => t,
        None => 0,
    };
    if t < max_tick - 1 {
        t
    } else {
        (max_tick - 1) as Tick
    }
}

pub fn available_through(terminal: Option<Tick>, max_tick: Tick) -> (r: Tick)
    requires
        max_tick >= 1,
    ensures
        r == spec_available_through(terminal, max_tick),
{
    let t = match terminal {
        Some(t) => t,
        None => 0,
    };
    if t < max_tick - 1 {
        t
    } else {
        max_tick - 1
    }
}

/// A fresh draft that the checks admit.
pub open spec fn draft_admissible(gate: CommitGate, player: PlayerId, draft: TurnDraft) -> bool {
    let cmds = draft.commands@;
    &&& gate.phase == Phase::Planning
    &&& draft.based_on_revision == gate.current
    &&& gate.editable_from <= draft.tick <= gate.available_through
    &&& draft.tick < gate.max_tick
    &&& !(gate.control_limit == ControlLimit::SingleOrder && cmds.len() > 1)
    &&& forall|i: int| 0 <= i < cmds.len() ==> policy_valid(#[trigger] cmds[i].command, cmds[i].future_orders, gate.window)
    &&& gate.round != 0
    &&& forall|i: int| 0 <= i < cmds.len() ==> #[trigger] entry_valid(cmds, i, gate.round, player)
}

/// Checks a commit request before admission. A retry of the player's recorded commit is
/// answered from the record (`Some`); a second, different commit in the round is refused; a
/// fresh draft passes (`None`) exactly when it is admissible.
pub fn precheck_commit(
    gate: &CommitGate,
    player: PlayerId,
    request_id: &String,
    draft: &TurnDraft,
) -> (r: Result<Option<CommitAccepted>, String>)
    ensures
        gate.prior_request matches Some(id) ==> {
            &&& (r is Ok <==> id@ == request_id@)
            &&& r matches Ok(v) ==> v == Some(CommitAccepted { request_id: *request_id, round: gate.round })
        },
        gate.prior_request is None ==> {
            &&& (r is Ok <==> draft_admissible(*gate, player, *draft))
            &&& r matches Ok(v) ==> v is None
        },
{
    if let Some(id) = &gate.prior_request {
        if *id == *request_id {
            return Ok(Some(CommitAccepted { request_id: request_id.clone(), round: gate.round }));
        }
        return Err("already committed this round".to_string());
    }
    if gate.phase != Phase::Planning {
        return Err("planning is not open".to_string());
    }
    if draft.based_on_revision != gate.current {
        return Err("draft is based on a revision that is not current".to_string());
    }
    if draft.tick < gate.editable_from || draft.tick > gate.available_through || draft.tick >= gate.max_tick {
        return Err("tick is outside the editable window".to_string());
    }
    if gate.control_limit == ControlLimit::SingleOrder && draft.commands.len() > 1 {
        return Err("single-order mode allows one command per turn".to_string());
    }
    let mut i: usize = 0;
    while i < draft.commands.len()
        invariant
            0 <= i <= draft.commands@.len(),
            gate.prior_request is None,
            forall|k: int| 0 <= k < i ==> policy_valid(#[trigger] draft.commands@[k].command, draft.commands@[k].future_orders, gate.window),
        decreases draft.commands.len() - i,
    {
        validate_policy(&draft.commands[i], gate.window)?;
        i += 1;
    }
    match resolve_local_references(draft, gate.round, player) {
        Ok(_) => Ok(None),
        Err(e) => Err(e),
    }
}

/// Why a match ended.
#[derive(Debug, Clone, Copy, PartialEq, Eq, Structural)]
pub enum MatchEnd {
    /// Some side won.
    Victory,
    /// Locked history reached the horizon undecided: unfinished, with no invented result.
    HistoryExhausted,
}

/// Where a match goes after a revision is published.
#[derive(Debug, Clone, Copy, PartialEq, Eq, Structural)]
pub struct Publication {
    pub phase: Phase,
    pub round: u32,
    pub end: Option<MatchEnd>,
}

/// After publishing a revision of `round`: the match finishes when some side won or timed
/// adjudication left planning (a victory only when there are winners); otherwise planning opens
/// for the next round.
pub fn after_publication(round: u32, has_winners: bool, timed_status: Option<TimedStatus>) -> (r: Publication)
    requires
        round < u32::MAX,
    ensures
        ({
            let finished = has_winners || (timed_status matches Some(s) && s != TimedStatus::Planning);
            &&& finished ==> r == Publication {
                phase: Phase::Finished,
                round,
                end: Some(if has_winners { MatchEnd::Victory } else { MatchEnd::HistoryExhausted }),
            }
            &&& !finished ==> r == Publication { phase: Phase::Planning, round: (round + 1) as u32, end: None }
        }),
{
    let timed_done = match timed_status {
        Some(s) => s != TimedStatus::Planning,
        None => false,
    };
    if has_winners || timed_done {
        Publication {
            phase: Phase::Finished,
            round,
            end: Some(if has_winners { MatchEnd::Victory } else { MatchEnd::HistoryExhausted }),
        }
    } else {
        Publication { phase: Phase::Planning, round: round + 1, end: None }
    }
}

/// A command as the ledger records it: its causal id and the lock policy it was drafted with.
#[derive(Debug, Clone, PartialEq, Eq)]
pub struct CommittedCommand {
    pub id: CommandId,
    pub command: Command,
    pub future_orders: FutureOrderPolicy,
}

/// A player's admitted turn for a round.
#[derive(Debug, Clone, PartialEq, Eq)]
pub struct AcceptedTurn {
    pub player: PlayerId,
    pub round: u32,
    pub tick: Tick,
    pub commands: Vec<CommittedCommand>,
    pub duration_ms: u64,
}

/// Records an admitted turn: the resolved commands in draft order, each with the id of its
/// position in the turn and its drafted lock policy; a draft without a resolved command, or the
/// reverse, is left out.
pub fn accepted_turn(
    round: u32,
    player: PlayerId,
    tick: Tick,
    drafts: &Vec<DraftCommand>,
    commands: Vec<Command>,
    duration_ms: u64,
) -> (t: AcceptedTurn)
    requires
        drafts@.len() <= u32::MAX,
    ensures
        t.player == player,
        t.round == round,
        t.tick == tick,
        t.duration_ms == duration_ms,
        t.commands@.len() == if drafts@.len() < commands@.len() { drafts@.len() } else { commands@.len() },
        forall|i: int| 0 <= i < t.commands@.len() ==> {
            &&& (#[trigger] t.commands@[i]).id == (CommandId { round, player, index: i as u32 })
            &&& t.commands@[i].command == commands@[i]
            &&& t.commands@[i].future_orders == drafts@[i].future_orders
        },
{
    let ghost given = commands@;
    let n = if drafts.len() < commands.len() { drafts.len() } else { commands.len() };
    let mut rest = commands;
    let mut out: Vec<CommittedCommand> = Vec::new();
    let mut i: usize = 0;
    while i < n
        invariant
            0 <= i <= n,
            n <= drafts@.len(),
            n <= given.len(),
            drafts@.len() <= u32::MAX,
            rest@ == given.skip(i as int),
            out@.len() == i,
            forall|k: int| 0 <= k < i ==> {
                &&& (#[trigger] out@[k]).id == (CommandId { round, player, index: k as u32 })
                &&& out@[k].command == given[k]
                &&& out@[k].future_orders == drafts@[k].future_orders
            },
        decreases n - i,
    {
        let command = rest.remove(0);
        proof {
            assert(command == given[i as int]);
            assert(rest@ =~= given.skip(i + 1));
        }
        out.push(CommittedCommand { id: command_id(round, player, i as u32), command, future_orders: drafts[i].future_orders });
        i += 1;
    }
    AcceptedTurn { player, round, tick, commands: out, duration_ms }
}

/// The round closes once every player has committed.
pub fn round_closes(committed: usize, player_count: u8) -> (r: bool)
    ensures
        r == (committed >= player_count),
{
    committed >= player_count as usize
}

} // verus!
