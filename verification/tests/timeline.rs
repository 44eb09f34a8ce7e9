use atemporal::timeline::{timeline_index, Activity, ActivityBucket, TIMELINE_BUCKET, TIMELINE_INDEX_PER_PLAYER};

fn bucket(from: u32, to: u32, player: u8, activity: Activity, affected: u32) -> ActivityBucket {
    ActivityBucket { from_tick: from, to_tick_exclusive: to, player_id: player, activity, affected_entities: affected }
}

#[test]
fn timeline_index_is_bounded_for_cap_length_runs() {
    let mut fine = vec![];
    for from in (0..20_000).step_by(5) {
        for player in 0..4u8 {
            fine.push(bucket(from, from + 5, player, if from % 40 == 0 { Activity::Combat } else { Activity::Mining }, 3));
        }
    }
    let index = timeline_index(&fine, 4);
    assert!(index.len() <= 4 * TIMELINE_INDEX_PER_PLAYER as usize, "{}", index.len());
    assert!(index.iter().all(|b| b.activity == Activity::Combat && b.to_tick_exclusive - b.from_tick == 40));
    let short = timeline_index(&fine[..fine.len() / 100].to_vec(), 4);
    assert!(short.iter().all(|b| b.to_tick_exclusive - b.from_tick == TIMELINE_BUCKET));
}

#[test]
fn index_keeps_the_most_notable_activity_and_its_peak() {
    let fine = vec![
        bucket(0, 5, 1, Activity::Idle, 9),
        bucket(5, 10, 1, Activity::Mining, 2),
        bucket(10, 15, 1, Activity::Mining, 4),
        bucket(0, 5, 0, Activity::Movement, 1),
        bucket(25, 30, 0, Activity::Idle, 0),
        bucket(20, 25, 0, Activity::Construction, 6),
    ];
    let index = timeline_index(&fine, 2);
    assert_eq!(
        index,
        vec![
            bucket(0, 20, 0, Activity::Movement, 1),
            bucket(0, 20, 1, Activity::Mining, 4),
            bucket(20, 40, 0, Activity::Construction, 6),
        ]
    );
    assert!(timeline_index(&vec![], 2).is_empty());
    assert!(timeline_index(&vec![bucket(0, 5, 0, Activity::Combat, 0)], 1).is_empty(), "nothing was active");
}
