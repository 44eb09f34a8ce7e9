use atemporal::safe::SafeInt;
use atemporal::scoreboard::{
    resolve_round, validate_rules, AwardReason, DrawScoring, RoundScore, ScoreboardRules,
    TiePolicy, TimePenalty, VictoryRule,
};
use atemporal::scoring::{
    classify, sides, validate_outcome, Multiplayer, Outcome, OutcomeKind, PlayerTime, Reason,
    SideId, StopReason, SurvivalStatus, SurvivalTransition, TeamAssignment,
};

fn outcome(n: u8, mode: &Multiplayer, alive: &[u8]) -> Outcome {
    let alive_v: Vec<u8> = alive.to_vec();
    Outcome {
        kind: classify(n, &alive_v).unwrap(),
        stop_reason: StopReason::Inactivity,
        terminal_state_tick: 40,
        last_progress_tick: 10,
        survivors: alive_v,
        eliminated: (0..n).filter(|p| !alive.contains(p)).collect(),
        surviving_sides: sides(n, mode)
            .unwrap()
            .into_iter()
            .filter(|s| s.members.iter().any(|p| alive.contains(p)))
            .map(|s| s.id)
            .collect(),
        survival_transitions: vec![],
    }
}

fn times(n: u8) -> Vec<PlayerTime> {
    (0..n)
        .map(|player_id| PlayerTime { player_id, total_ms: SafeInt::try_new(1000).unwrap() })
        .collect()
}

fn teams() -> Multiplayer {
    Multiplayer::Teams {
        assignments: (0..4)
            .map(|p| TeamAssignment {
                player_id: p,
                team_id: if p < 2 { "a" } else { "b" }.to_string(),
            })
            .collect(),
    }
}

fn rules_with(f: impl FnOnce(&mut ScoreboardRules)) -> ScoreboardRules {
    let mut r = ScoreboardRules::default();
    f(&mut r);
    r
}

#[test]
fn unchanged_pass_rounds_award_once_and_default_ends_at_five() {
    let rules = ScoreboardRules::default();
    let o = outcome(2, &Multiplayer::Ffa {}, &[0]);
    let mut prev: Option<RoundScore> = None;
    for round in 1..=5u32 {
        let result = resolve_round(round, 2, &Multiplayer::Ffa {}, &rules, &o, &times(2), prev.as_ref()).unwrap();
        assert_eq!(result.entries[0].raw_total, round as u64);
        assert_eq!(result.match_winners.len(), usize::from(round == 5));
        let retry = resolve_round(round, 2, &Multiplayer::Ffa {}, &rules, &o, &times(2), Some(&result)).unwrap();
        assert_eq!(retry, result);
        prev = Some(result);
    }
    assert!(resolve_round(6, 2, &Multiplayer::Ffa {}, &rules, &o, &times(2), prev.as_ref()).is_err());
}

#[test]
fn teams_stalemate_partial_win_and_both_draw_policies() {
    let mode = teams();
    let cases: Vec<(Vec<u8>, DrawScoring, [u64; 2])> = vec![
        (vec![0, 1, 2, 3], DrawScoring::AllPlayers, [0, 0]),
        (vec![0, 2, 3], DrawScoring::NoCredit, [1, 2]),
        (vec![], DrawScoring::NoCredit, [0, 0]),
        (vec![], DrawScoring::AllPlayers, [2, 2]),
    ];
    for (alive, draw, expected) in cases {
        let rules = rules_with(|r| r.draw_scoring = draw);
        let s = resolve_round(1, 4, &mode, &rules, &outcome(4, &mode, &alive), &times(4), None).unwrap();
        assert_eq!(s.entries.iter().map(|e| e.raw_delta).collect::<Vec<_>>(), expected);
        if alive.is_empty() {
            assert!(s.entries.iter().all(|e| e.surviving_members.is_empty()));
        }
    }
}

#[test]
fn simultaneous_threshold_ties_and_shared_victory() {
    let mode = Multiplayer::Ffa {};
    for policy in [TiePolicy::ContinueUntilUnique, TiePolicy::SharedVictory] {
        let rules = rules_with(|r| r.tie_policy = policy);
        let o = outcome(3, &mode, &[0, 1]);
        let mut prev: Option<RoundScore> = None;
        for round in 1..=5u32 {
            prev = Some(resolve_round(round, 3, &mode, &rules, &o, &times(3), prev.as_ref()).unwrap());
        }
        let s = prev.unwrap();
        assert_eq!(s.match_winners.len(), if policy == TiePolicy::SharedVictory { 2 } else { 0 });
        if policy == TiePolicy::ContinueUntilUnique {
            let next = resolve_round(6, 3, &mode, &rules, &outcome(3, &mode, &[0]), &times(3), Some(&s)).unwrap();
            assert_eq!(next.entries.iter().map(|e| e.raw_total).collect::<Vec<_>>(), [6, 5, 0]);
            assert_eq!(next.match_winners, vec![SideId::Player { player_id: 0 }]);
        }
    }
}

#[test]
fn lead_compares_strongest_rival_and_ignores_shared_tie_policy() {
    let rules = rules_with(|r| {
        r.victory_rule = VictoryRule::Lead { margin: 2 };
        r.tie_policy = TiePolicy::SharedVictory;
    });
    let mode = Multiplayer::Ffa {};
    let mut prev: Option<RoundScore> = None;
    for round in 1..=8u32 {
        prev = Some(resolve_round(round, 3, &mode, &rules, &outcome(3, &mode, &[0, 1]), &times(3), prev.as_ref()).unwrap());
    }
    assert!(prev.as_ref().unwrap().match_winners.is_empty());
    for round in 9..=10u32 {
        prev = Some(resolve_round(round, 3, &mode, &rules, &outcome(3, &mode, &[0]), &times(3), prev.as_ref()).unwrap());
        assert_eq!(prev.as_ref().unwrap().match_winners.len(), usize::from(round == 10));
    }
}

#[test]
fn penalty_uses_opposing_players_and_totals_not_teammates() {
    let mode = teams();
    let rules = rules_with(|r| r.time_penalty = TimePenalty::FastestOpponentRatio);
    let ts = vec![
        PlayerTime { player_id: 0, total_ms: SafeInt::try_new(10000).unwrap() },
        PlayerTime { player_id: 1, total_ms: SafeInt::try_new(1000).unwrap() },
        PlayerTime { player_id: 2, total_ms: SafeInt::try_new(5000).unwrap() },
        PlayerTime { player_id: 3, total_ms: SafeInt::try_new(20000).unwrap() },
    ];
    let result = resolve_round(1, 4, &mode, &rules, &outcome(4, &mode, &[0, 2, 3]), &ts, None).unwrap();
    assert_eq!(result.entries[0].raw_delta, 1);
    assert_eq!(result.entries[0].credited_players, vec![0]);
    assert_eq!(result.entries[1].credited_players, vec![2, 3]);
    // the weighted totals and the victory test on them are left to the caller
    assert!(result.match_winners.is_empty());
}

#[test]
fn recovery_stalemate_does_not_score_and_malformed_inputs_fail() {
    let mode = Multiplayer::Ffa {};
    let rules = ScoreboardRules::default();
    let mut o = outcome(2, &mode, &[0, 1]);
    o.survival_transitions = vec![
        SurvivalTransition { player_id: 0, resolved_tick: 1, status: SurvivalStatus::Eliminated, reasons: vec![Reason::NoActiveBuilding] },
        SurvivalTransition { player_id: 0, resolved_tick: 3, status: SurvivalStatus::Alive, reasons: vec![] },
    ];
    assert!(resolve_round(1, 2, &mode, &rules, &o, &times(2), None).unwrap().entries.iter().all(|e| e.raw_delta == 0));
    o.survivors = vec![0, 0];
    assert!(resolve_round(1, 2, &mode, &rules, &o, &times(2), None).is_err());
    assert!(validate_rules(&rules_with(|r| r.victory_rule = VictoryRule::FixedTarget { points: 0 })).is_err());
    assert!(resolve_round(2, 2, &mode, &rules, &outcome(2, &mode, &[0]), &times(2), None).is_err());
    assert!(resolve_round(1, 2, &mode, &rules, &outcome(2, &mode, &[0]), &vec![], None).is_err());
    assert!(sides(4, &Multiplayer::Teams { assignments: vec![] }).is_err());
}

#[test]
fn classify_distinguishes_draw_stalemate_and_win() {
    assert_eq!(classify(3, &vec![]).unwrap(), OutcomeKind::Draw);
    assert_eq!(classify(3, &vec![2, 0, 1]).unwrap(), OutcomeKind::Stalemate);
    assert_eq!(classify(3, &vec![1]).unwrap(), OutcomeKind::Win);
    assert!(classify(1, &vec![]).is_err());
    assert!(classify(3, &vec![3]).is_err());
    assert!(classify(3, &vec![1, 1]).is_err());
}

#[test]
fn team_sides_are_sorted_by_name_with_sorted_members() {
    let mode = Multiplayer::Teams {
        assignments: vec![
            TeamAssignment { player_id: 2, team_id: "red".to_string() },
            TeamAssignment { player_id: 0, team_id: "blue".to_string() },
            TeamAssignment { player_id: 3, team_id: "blue".to_string() },
            TeamAssignment { player_id: 1, team_id: "red".to_string() },
        ],
    };
    let s = sides(4, &mode).unwrap();
    assert_eq!(s.len(), 2);
    assert_eq!(s[0].id, SideId::Team { team_id: "blue".to_string() });
    assert_eq!(s[0].members, vec![0, 3]);
    assert_eq!(s[1].id, SideId::Team { team_id: "red".to_string() });
    assert_eq!(s[1].members, vec![1, 2]);
    // one team only, a blank team name, a duplicate player
    let one = Multiplayer::Teams { assignments: (0..2).map(|p| TeamAssignment { player_id: p, team_id: "x".to_string() }).collect() };
    assert!(sides(2, &one).is_err());
    let blank = Multiplayer::Teams { assignments: vec![
        TeamAssignment { player_id: 0, team_id: " ".to_string() },
        TeamAssignment { player_id: 1, team_id: "b".to_string() },
    ] };
    assert!(sides(2, &blank).is_err());
    let dup = Multiplayer::Teams { assignments: vec![
        TeamAssignment { player_id: 0, team_id: "a".to_string() },
        TeamAssignment { player_id: 0, team_id: "b".to_string() },
    ] };
    assert!(sides(2, &dup).is_err());
    assert!(sides(1, &Multiplayer::Ffa {}).is_err());
}

#[test]
fn outcome_validation_checks_partition_and_sides() {
    let mode = Multiplayer::Ffa {};
    let good = outcome(3, &mode, &[1]);
    assert!(validate_outcome(3, &mode, &good).is_ok());
    let mut wrong_kind = good.clone();
    wrong_kind.kind = OutcomeKind::Draw;
    assert!(validate_outcome(3, &mode, &wrong_kind).is_err());
    let mut wrong_elim = good.clone();
    wrong_elim.eliminated = vec![0];
    assert!(validate_outcome(3, &mode, &wrong_elim).is_err());
    let mut wrong_sides = good.clone();
    wrong_sides.surviving_sides = vec![SideId::Player { player_id: 2 }];
    assert!(validate_outcome(3, &mode, &wrong_sides).is_err());
    let mut late = good.clone();
    late.last_progress_tick = 41;
    assert!(validate_outcome(3, &mode, &late).is_err());
}

#[test]
fn retry_of_the_last_round_returns_its_record_even_with_another_outcome() {
    let mode = Multiplayer::Ffa {};
    let rules = ScoreboardRules::default();
    let first = resolve_round(1, 2, &mode, &rules, &outcome(2, &mode, &[0]), &times(2), None).unwrap();
    let again = resolve_round(1, 2, &mode, &rules, &outcome(2, &mode, &[1]), &times(2), Some(&first)).unwrap();
    assert_eq!(again, first);
    assert_eq!(first.entries[0].award_reason, AwardReason::Survival);
    assert_eq!(first.entries[1].award_reason, AwardReason::Unawarded);
    // a changed victory rule or a skipped round is refused
    let lead = rules_with(|r| r.victory_rule = VictoryRule::Lead { margin: 1 });
    assert!(resolve_round(2, 2, &mode, &lead, &outcome(2, &mode, &[0]), &times(2), Some(&first)).is_err());
    assert!(resolve_round(3, 2, &mode, &rules, &outcome(2, &mode, &[0]), &times(2), Some(&first)).is_err());
}

#[test]
fn draws_credit_everybody_only_when_configured() {
    let mode = Multiplayer::Ffa {};
    let all = rules_with(|r| r.draw_scoring = DrawScoring::AllPlayers);
    let s = resolve_round(1, 2, &mode, &all, &outcome(2, &mode, &[]), &times(2), None).unwrap();
    assert!(s.entries.iter().all(|e| e.award_reason == AwardReason::Draw && e.raw_delta == 1));
    let none = resolve_round(1, 2, &mode, &ScoreboardRules::default(), &outcome(2, &mode, &[]), &times(2), None).unwrap();
    assert!(none.entries.iter().all(|e| e.award_reason == AwardReason::Unawarded && e.raw_delta == 0));
}
