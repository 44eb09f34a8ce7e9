use atemporal::locks::{blocks, canonicalize, install};
use atemporal::types::{FutureOrderPolicy, OrderLock};

#[test]
fn interval_rounds_overlap_and_expiry_preserve_exact_restrictions() {
    let mut locks: Vec<OrderLock> = vec![];
    install(&mut locks, 20, 2, FutureOrderPolicy::DropWindow, Some(10), 100).unwrap();
    for (tick, expected) in [(20, false), (21, true), (30, true), (31, false)] {
        assert_eq!(blocks(&locks, tick, 1), expected);
    }
    assert!(!blocks(&locks, 25, 2));
    assert!(!blocks(&locks, 25, 3));
    install(&mut locks, 22, 3, FutureOrderPolicy::DropWindow, Some(2), 100).unwrap();
    assert_eq!(locks.len(), 2);
    assert!(blocks(&locks, 24, 2));
    assert!(!blocks(&locks, 25, 2));
    assert!(blocks(&locks, 30, 1));
    let mut restored = locks.clone();
    canonicalize(&mut restored, 25).unwrap();
    assert_eq!(restored.len(), 1);
    canonicalize(&mut restored, 31).unwrap();
    assert!(restored.is_empty());
}

#[test]
fn keep_preserves_locks_and_dominated_entries_prune_without_erasing_all() {
    let mut locks: Vec<OrderLock> = vec![];
    install(&mut locks, 20, 2, FutureOrderPolicy::DropAll, None, 100).unwrap();
    install(&mut locks, 21, 2, FutureOrderPolicy::DropAll, None, 100).unwrap();
    assert_eq!(locks.len(), 1);
    let before = locks.clone();
    install(&mut locks, 22, 3, FutureOrderPolicy::Keep, None, 100).unwrap();
    assert_eq!(locks, before);
    install(&mut locks, 23, 3, FutureOrderPolicy::DropAll, None, 100).unwrap();
    assert!(blocks(&locks, 23, 1));
    assert!(!blocks(&locks, 23, 2));
    canonicalize(&mut locks, 24).unwrap();
    assert_eq!(locks.len(), 1);
    assert!(blocks(&locks, 99, 2));
}

#[test]
fn install_refuses_bad_windows_and_late_ticks_without_changing_locks() {
    let mut locks: Vec<OrderLock> = vec![];
    install(&mut locks, 20, 2, FutureOrderPolicy::DropAll, None, 100).unwrap();
    let before = locks.clone();
    assert!(install(&mut locks, 30, 3, FutureOrderPolicy::DropWindow, None, 100).is_err());
    assert!(install(&mut locks, 30, 3, FutureOrderPolicy::DropWindow, Some(0), 100).is_err());
    assert!(install(&mut locks, 100, 3, FutureOrderPolicy::DropAll, None, 100).is_err());
    assert_eq!(locks, before);
}

#[test]
fn canonicalize_drops_expired_locks_and_keeps_blocking_behavior() {
    let mut locks = vec![
        OrderLock { from_tick: 10, until_tick: 20, issued_round: 2 },
        OrderLock { from_tick: 5, until_tick: 50, issued_round: 3 },
        OrderLock { from_tick: 0, until_tick: 8, issued_round: 1 },
    ];
    let probe: Vec<(u32, u32, bool)> = (0..60u32)
        .flat_map(|t| (0..5u32).map(move |r| (t, r, false)))
        .collect();
    let expected: Vec<bool> = probe.iter().filter(|(t, _, _)| *t > 12).map(|(t, r, _)| blocks(&locks, *t, *r)).collect();
    canonicalize(&mut locks, 12).unwrap();
    let after: Vec<bool> = probe.iter().filter(|(t, _, _)| *t > 12).map(|(t, r, _)| blocks(&locks, *t, *r)).collect();
    assert_eq!(expected, after);
    assert!(locks.iter().all(|l| l.until_tick > 12));
    let once = locks.clone();
    canonicalize(&mut locks, 12).unwrap();
    assert_eq!(locks, once);
}
