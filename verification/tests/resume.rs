use atemporal::commit::Phase;
use atemporal::resume::{previously_lost, record_publication, resume_state, Fingerprint, RoundSummary};
use atemporal::safe::{SafeInt, Version};
use atemporal::scoreboard::{RoundScore, VictoryRule};
use atemporal::scoring::{PlayerTime, SideId};
use atemporal::timed::{TimedAdjudication, TimedStatus};

fn print(content: &str) -> Fingerprint {
    Fingerprint {
        schema_version: Version::default(),
        sim_build: "build".to_string(),
        target: "target".to_string(),
        config_hash: "c".repeat(64),
        content_hash: content.to_string(),
    }
}

fn ms(n: u64) -> SafeInt {
    SafeInt::try_new(n).unwrap()
}

fn summary(score: Option<RoundScore>, timed: Option<TimedAdjudication>) -> RoundSummary {
    RoundSummary {
        revision: 3,
        round: 4,
        editable_from: 120,
        score,
        timed,
        time_totals: vec![PlayerTime { player_id: 0, total_ms: ms(500) }],
    }
}

#[test]
fn resume_refuses_an_archive_from_other_content() {
    let recorded = print(&"0".repeat(64));
    let current = print(&"a".repeat(64));
    let err = resume_state(&recorded, &current, None, false, 2, &vec![]).err().unwrap();
    assert!(err.contains("different content/config"), "{err}");
    let mut other_config = print("x");
    other_config.config_hash = "d".repeat(64);
    assert!(resume_state(&print("x"), &other_config, None, false, 2, &vec![]).is_err());
    let other_build = Fingerprint { sim_build: "newer".to_string(), ..print("x") };
    assert!(resume_state(&print("x"), &other_build, None, false, 2, &vec![]).is_ok(), "a new build alone is accepted");
}

#[test]
fn resume_without_a_round_simulates_the_opening_again() {
    let r = resume_state(&print("x"), &print("x"), None, true, 3, &vec![]).unwrap();
    assert_eq!(r.phase, Phase::Simulating);
    assert_eq!((r.current, r.round, r.editable_from), (0, 0, 0));
    assert_eq!(r.time_totals, vec![0, 0, 0]);
}

#[test]
fn resume_continues_planning_with_recorded_turns() {
    let r = resume_state(&print("x"), &print("x"), Some(summary(None, None)), false, 2, &vec![None, Some(ms(40))]).unwrap();
    assert_eq!(r.phase, Phase::Planning);
    assert_eq!((r.current, r.round, r.editable_from), (3, 5, 120));
    assert_eq!(r.time_totals, vec![500, 40], "padded to the player count, with the recorded turn's time");
    assert_eq!(r.committed, vec![1]);
    assert!(r.match_winners.is_empty());
}

#[test]
fn resume_keeps_archived_and_finished_matches() {
    let r = resume_state(&print("x"), &print("x"), Some(summary(None, None)), true, 2, &vec![Some(ms(7))]).unwrap();
    assert_eq!(r.phase, Phase::Archived);
    assert_eq!(r.time_totals, vec![500, 0]);
    assert!(r.committed.is_empty());
    let score = RoundScore {
        round: 4,
        entries: vec![],
        victory_rule: VictoryRule::Lead { margin: 2 },
        match_winners: vec![SideId::Player { player_id: 1 }],
    };
    let r = resume_state(&print("x"), &print("x"), Some(summary(Some(score), None)), false, 2, &vec![]).unwrap();
    assert_eq!(r.phase, Phase::Finished);
    assert_eq!(r.match_winners, vec![SideId::Player { player_id: 1 }]);
    let timed = TimedAdjudication {
        boundary: 300,
        timed_lost_players: vec![0],
        eligible_sides: vec![SideId::Player { player_id: 1 }],
        match_winners: vec![SideId::Player { player_id: 1 }],
        status: TimedStatus::Finished,
    };
    let r = resume_state(&print("x"), &print("x"), Some(summary(None, Some(timed.clone()))), false, 2, &vec![]).unwrap();
    assert_eq!(r.phase, Phase::Finished);
    assert_eq!(r.match_winners, vec![SideId::Player { player_id: 1 }], "winners from the timed result");
    assert_eq!(r.timed, Some(timed));
}

#[test]
fn publication_takes_the_boundary_and_winners_of_the_new_result() {
    let timed = TimedAdjudication {
        boundary: 300,
        timed_lost_players: vec![0, 2],
        eligible_sides: vec![SideId::Player { player_id: 1 }],
        match_winners: vec![SideId::Player { player_id: 1 }],
        status: TimedStatus::Planning,
    };
    assert_eq!(previously_lost(&None), Vec::<u8>::new());
    assert_eq!(previously_lost(&Some(timed.clone())), vec![0, 2]);
    let p = record_publication(120, &vec![], &None, &Some(timed));
    assert_eq!(p.editable_from, 300);
    assert_eq!(p.match_winners, vec![SideId::Player { player_id: 1 }]);
    let score = RoundScore {
        round: 4,
        entries: vec![],
        victory_rule: VictoryRule::Lead { margin: 2 },
        match_winners: vec![SideId::Player { player_id: 0 }],
    };
    let p = record_publication(120, &vec![], &Some(score), &None);
    assert_eq!((p.editable_from, p.match_winners), (120, vec![SideId::Player { player_id: 0 }]));
    let kept = vec![SideId::Player { player_id: 2 }];
    let p = record_publication(120, &kept, &None, &None);
    assert_eq!((p.editable_from, p.match_winners), (120, kept));
}
