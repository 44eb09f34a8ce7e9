use atemporal::commit::{
    accepted_turn, after_publication, available_through, round_closes, precheck_commit, CommitAccepted, CommitGate, ControlLimit, MatchEnd, Phase,
    Publication,
};
use atemporal::timed::TimedStatus;
use atemporal::identity::genesis;
use atemporal::types::{Command, CommandId, DraftCommand, DraftItemRef, FutureOrderPolicy, Order, Priority, Tile, TurnDraft};

fn gate() -> CommitGate {
    CommitGate {
        phase: Phase::Planning,
        current: 3,
        round: 2,
        editable_from: 10,
        available_through: 40,
        max_tick: 100,
        control_limit: ControlLimit::Timestamp,
        window: Some(10),
        prior_request: None,
    }
}

fn assign(local: &str, policy: FutureOrderPolicy) -> DraftCommand {
    DraftCommand {
        local_id: local.to_string(),
        future_orders: policy,
        command: Command::AssignOrder {
            entities: vec![genesis(0, 0).unwrap()],
            order: Order::AttackMove { destination: Tile { x: 4, y: 4 } },
        },
    }
}

fn draft(tick: u32, commands: Vec<DraftCommand>) -> TurnDraft {
    TurnDraft { based_on_revision: 3, tick, commands }
}

#[test]
fn retries_answer_from_the_recorded_turn() {
    let g = CommitGate { prior_request: Some("r1".to_string()), phase: Phase::Simulating, ..gate() };
    let d = draft(0, vec![]);
    assert_eq!(
        precheck_commit(&g, 0, &"r1".to_string(), &d).unwrap(),
        Some(CommitAccepted { request_id: "r1".to_string(), round: 2 })
    );
    assert!(precheck_commit(&g, 0, &"r2".to_string(), &d).unwrap_err().contains("already committed"));
}

#[test]
fn fresh_drafts_pass_inside_the_window() {
    let d = draft(10, vec![assign("a", FutureOrderPolicy::DropWindow), assign("b", FutureOrderPolicy::Keep)]);
    assert_eq!(precheck_commit(&gate(), 0, &"r".to_string(), &d).unwrap(), None);
    assert_eq!(precheck_commit(&gate(), 0, &"r".to_string(), &draft(40, vec![])).unwrap(), None);
}

#[test]
fn phase_revision_and_tick_window_are_checked() {
    let r = "r".to_string();
    let lobby = CommitGate { phase: Phase::Lobby, ..gate() };
    assert!(precheck_commit(&lobby, 0, &r, &draft(20, vec![])).is_err());
    let stale = TurnDraft { based_on_revision: 2, ..draft(20, vec![]) };
    assert!(precheck_commit(&gate(), 0, &r, &stale).is_err());
    assert!(precheck_commit(&gate(), 0, &r, &draft(9, vec![])).is_err());
    assert!(precheck_commit(&gate(), 0, &r, &draft(41, vec![])).is_err());
    let horizon = CommitGate { available_through: 150, ..gate() };
    assert!(precheck_commit(&horizon, 0, &r, &draft(100, vec![])).is_err());
    assert!(precheck_commit(&horizon, 0, &r, &draft(99, vec![])).is_ok());
}

#[test]
fn single_order_policies_and_local_ids_are_checked() {
    let r = "r".to_string();
    let single = CommitGate { control_limit: ControlLimit::SingleOrder, ..gate() };
    let two = draft(20, vec![assign("a", FutureOrderPolicy::Keep), assign("b", FutureOrderPolicy::Keep)]);
    assert!(precheck_commit(&single, 0, &r, &two).unwrap_err().contains("single-order"));
    assert!(precheck_commit(&single, 0, &r, &draft(20, vec![assign("a", FutureOrderPolicy::Keep)])).is_ok());
    let locking_setting = DraftCommand {
        local_id: "p".to_string(),
        future_orders: FutureOrderPolicy::DropAll,
        command: Command::SetPriority { entities: vec![genesis(0, 0).unwrap()], priority: Priority::High },
    };
    assert!(precheck_commit(&gate(), 0, &r, &draft(20, vec![locking_setting])).is_err());
    let no_window = CommitGate { window: None, ..gate() };
    assert!(precheck_commit(&no_window, 0, &r, &draft(20, vec![assign("a", FutureOrderPolicy::DropWindow)])).is_err());
    let duplicate = draft(20, vec![assign("a", FutureOrderPolicy::Keep), assign("a", FutureOrderPolicy::Keep)]);
    assert!(precheck_commit(&gate(), 0, &r, &duplicate).is_err());
    let dangling = DraftCommand {
        local_id: "c".to_string(),
        future_orders: FutureOrderPolicy::Keep,
        command: Command::CancelBlueprints {
            blueprint_ids: vec![DraftItemRef::Draft { local_id: "missing".to_string(), item_index: 0 }],
        },
    };
    assert!(precheck_commit(&gate(), 0, &r, &draft(20, vec![dangling])).is_err());
    let genesis_round = CommitGate { round: 0, ..gate() };
    assert!(precheck_commit(&genesis_round, 0, &r, &draft(20, vec![])).is_err());
}

#[test]
fn available_through_stops_before_the_horizon() {
    assert_eq!(available_through(None, 100), 0);
    assert_eq!(available_through(Some(40), 100), 40);
    assert_eq!(available_through(Some(150), 100), 99);
}

#[test]
fn publication_finishes_on_winners_or_settled_timed_history() {
    assert_eq!(after_publication(3, false, None), Publication { phase: Phase::Planning, round: 4, end: None });
    assert_eq!(
        after_publication(3, false, Some(TimedStatus::Planning)),
        Publication { phase: Phase::Planning, round: 4, end: None }
    );
    assert_eq!(
        after_publication(3, true, None),
        Publication { phase: Phase::Finished, round: 3, end: Some(MatchEnd::Victory) }
    );
    assert_eq!(
        after_publication(5, false, Some(TimedStatus::HistoryExhausted)),
        Publication { phase: Phase::Finished, round: 5, end: Some(MatchEnd::HistoryExhausted) }
    );
    assert_eq!(
        after_publication(5, true, Some(TimedStatus::Finished)),
        Publication { phase: Phase::Finished, round: 5, end: Some(MatchEnd::Victory) }
    );
}

#[test]
fn accepted_turns_number_commands_in_draft_order() {
    let drafts = vec![assign("a", FutureOrderPolicy::DropAll), assign("b", FutureOrderPolicy::Keep)];
    let commands: Vec<Command> = (0..2u32)
        .map(|k| Command::AssignOrder { entities: vec![genesis(0, k).unwrap()], order: Order::Idle {} })
        .collect();
    let turn = accepted_turn(4, 1, 25, &drafts, commands.clone(), 1500);
    assert_eq!(turn.player, 1);
    assert_eq!(turn.round, 4);
    assert_eq!(turn.tick, 25);
    assert_eq!(turn.duration_ms, 1500);
    assert_eq!(turn.commands.len(), 2);
    assert_eq!(turn.commands[1].id, CommandId { round: 4, player: 1, index: 1 });
    assert_eq!(turn.commands[0].future_orders, FutureOrderPolicy::DropAll);
    assert_eq!(turn.commands[1].command, commands[1]);
    assert_eq!(accepted_turn(4, 1, 25, &drafts, vec![], 0).commands.len(), 0);
    assert!(!round_closes(1, 2));
    assert!(round_closes(2, 2));
}
