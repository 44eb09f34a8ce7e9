use atemporal::commit::Phase;
use atemporal::lobby::{trim_text, validate_profile, AvailableTeam, Lobby};
use atemporal::scoring::Multiplayer;

fn lobby(teams: bool) -> Lobby {
    let available = if teams {
        ["cyan", "orange"]
            .iter()
            .map(|t| AvailableTeam { team_id: t.to_string(), label: t.to_uppercase(), capacity: Some(1) })
            .collect()
    } else {
        vec![]
    };
    Lobby::new(2, available)
}

fn claim(l: &mut Lobby, slot: u8, team: Option<&str>) -> Result<String, String> {
    l.claim_slot(slot, format!("player{slot}"), "#4fc3f7".into(), team.map(str::to_string), format!("token-{slot}"))
}

#[test]
fn teams_require_choice_capacity_and_two_sides() {
    let mut c = lobby(true);
    assert!(claim(&mut c, 0, None).unwrap_err().contains("choose a team"));
    assert!(claim(&mut c, 0, Some("pink")).unwrap_err().contains("unknown team"));
    let a = claim(&mut c, 0, Some("cyan")).unwrap();
    assert!(claim(&mut c, 1, Some("cyan")).unwrap_err().contains("is full"));
    assert!(!c.can_start);
    let b = claim(&mut c, 1, Some("orange")).unwrap();
    assert!(c.can_start);
    // Moving slot 1 onto slot 0's full team is rejected; swapping via a free team works.
    assert!(c.update_profile(&b, None, None, Some("cyan".into())).is_err());
    c.update_profile(&a, Some("Ada".into()), None, None).unwrap();
    assert_eq!(c.slots[0].profile.as_ref().unwrap().username, "Ada");
    match c.start_check(&a, c.revision).unwrap() {
        Multiplayer::Teams { assignments } => {
            assert_eq!(assignments.len(), 2);
            assert_eq!(assignments[1].team_id, "orange");
        },
        other => panic!("expected pinned teams, got {other:?}"),
    }
    c.begin_match();
    assert!(c.update_profile(&a, Some("late".into()), None, None).is_err());
}

#[test]
fn ffa_lobby_rejects_teams_and_pins_ffa() {
    let mut c = lobby(false);
    assert!(claim(&mut c, 0, Some("cyan")).is_err());
    let a = claim(&mut c, 0, None).unwrap();
    assert!(!c.can_start);
    claim(&mut c, 1, None).unwrap();
    assert!(c.can_start);
    assert_eq!(c.start_check(&a, c.revision).unwrap(), Multiplayer::Ffa {});
    c.begin_match();
    assert_eq!(c.phase, Phase::Simulating);
}

#[test]
fn stale_start_is_rejected_with_a_roster_refresh() {
    let mut c = lobby(false);
    let a = claim(&mut c, 0, None).unwrap();
    let seen = c.revision;
    let b = claim(&mut c, 1, None).unwrap();
    let err = c.start_check(&a, seen).unwrap_err();
    assert!(err.contains("lobby changed"), "{err}");
    assert_eq!(c.phase, Phase::Lobby);
    assert!(c.start_check(&b, c.revision).unwrap_err().contains("first occupied"));
    assert!(c.update_profile(&a, Some(" ".into()), None, None).is_err());
    assert!(c.update_profile(&a, None, Some("red".into()), None).is_err());
    c.update_profile(&a, None, Some("#ff0000".into()), None).unwrap();
    assert!(c.start_check(&a, c.revision).is_ok());
}

#[test]
fn profiles_trim_names_and_check_colours() {
    assert_eq!(trim_text("  Ada \t"), "Ada");
    assert_eq!(trim_text("\u{3000}x y\u{2003}"), "x y");
    assert!(validate_profile(" Ada ", "#a0B1c2").is_ok());
    assert!(validate_profile("   ", "#a0B1c2").is_err());
    assert!(validate_profile(&"x".repeat(24), "#000000").is_ok());
    assert!(validate_profile(&"x".repeat(25), "#000000").is_err());
    assert!(validate_profile(&"é".repeat(12), "#000000").is_ok(), "24 bytes");
    assert!(validate_profile(&"é".repeat(13), "#000000").is_err(), "26 bytes");
    assert!(validate_profile("Ada", "#00000g").is_err());
    assert!(validate_profile("Ada", "000000#").is_err());
    assert!(validate_profile("Ada", "#0000000").is_err());
}

#[test]
fn claims_record_trimmed_profiles_tokens_and_connections() {
    let mut c = lobby(false);
    let rev = c.revision;
    let t = c.claim_slot(1, "  Bo  ".into(), "#123456".into(), None, "secret-1".into()).unwrap();
    assert_eq!(t, "secret-1");
    assert_eq!(c.revision, rev + 1);
    let p = c.slots[1].profile.as_ref().unwrap();
    assert_eq!(p.username, "Bo");
    assert_eq!(p.player_id, 1);
    assert!(c.slots[1].claimed && c.slots[1].connected);
    assert_eq!(c.tokens[1].as_deref(), Some("secret-1"));
    assert_eq!(c.connections[1], 1);
    assert_eq!(c.player_for("secret-1"), Some(1));
    assert_eq!(c.player_for("nope"), None);
    assert!(claim(&mut c, 1, None).unwrap_err().contains("already claimed"));
    assert!(claim(&mut c, 2, None).unwrap_err().contains("no such slot"));
}

#[test]
fn release_undoes_a_claim() {
    let mut c = lobby(false);
    let before = c.clone();
    let t = claim(&mut c, 0, None).unwrap();
    c.release_slot(&t).unwrap();
    assert_eq!(c.slots, before.slots);
    assert_eq!(c.tokens, before.tokens);
    assert_eq!(c.connections, before.connections);
    assert_eq!(c.revision, before.revision + 2);
    assert!(c.release_slot(&t).unwrap_err().contains("unknown slot token"));
}

#[test]
fn connections_count_and_mark_slots() {
    let mut c = lobby(false);
    let t = claim(&mut c, 0, None).unwrap();
    assert_eq!(c.connect(Some(&t)), Some(0));
    assert_eq!(c.connections[0], 2);
    assert_eq!(c.connect(None), None);
    assert_eq!(c.connect(Some("stranger")), None);
    let rev = c.revision;
    c.disconnect(0);
    assert!(c.slots[0].connected, "one connection is left");
    assert_eq!(c.revision, rev);
    c.disconnect(0);
    assert!(!c.slots[0].connected);
    assert_eq!(c.revision, rev + 1);
    c.disconnect(0);
    assert_eq!(c.connections[0], 0);
    assert_eq!(c.connect(Some(&t)), Some(0));
    assert!(c.slots[0].connected);
    assert_eq!(c.revision, rev + 2);
}

#[test]
fn spectators_cannot_start_stop_or_commit() {
    let mut c = lobby(false);
    assert_eq!(c.player_for("guest"), None);
    assert_eq!(c.connect(Some("guest")), None);
    claim(&mut c, 0, None).unwrap();
    claim(&mut c, 1, None).unwrap();
    assert!(c.start_check("guest", c.revision).unwrap_err().contains("claimed slot"));
    assert!(c.stop_and_archive("guest", 0, 0).unwrap_err().contains("claimed slot"));
    assert!(c.release_slot("guest").is_err());
    assert!(c.can_start);
}

#[test]
fn only_the_host_stops_a_running_match_at_the_current_revision() {
    let mut c = lobby(false);
    let a = claim(&mut c, 0, None).unwrap();
    let b = claim(&mut c, 1, None).unwrap();
    assert!(c.stop_and_archive(&a, 0, 0).unwrap_err().contains("nothing to stop"));
    c.begin_match();
    c.phase = Phase::Planning;
    let before = c.clone();
    assert!(c.stop_and_archive(&b, 3, 3).unwrap_err().contains("first occupied slot"));
    assert_eq!(c.stop_and_archive(&a, 2, 3).unwrap_err(), "stale revision");
    assert_eq!(c, before);
    c.stop_and_archive(&a, 3, 3).unwrap();
    assert_eq!(c.phase, Phase::Archived);
    assert!(c.stop_and_archive(&a, 3, 3).is_err());
}
