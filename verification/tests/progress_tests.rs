use raftstore::progress::EngineConfig;
use raftstore::progress::Inflight;
use raftstore::progress::LogicalSafetyFault;
use raftstore::progress::ProgressEntry;
use raftstore::progress::Updater;
use raftstore::types::LogId;

fn lid(term: u64, index: u64) -> LogId {
    LogId { term, index }
}

#[test]
fn empty_entry_starts_at_end() {
    let e = ProgressEntry::empty(10);
    assert_eq!(e.matching, None);
    assert_eq!(e.searching_end, 10);
    assert!(matches!(e.inflight, Inflight::Idle));
    assert!(!e.allow_log_reversion);
}

#[test]
fn update_matching_moves_forward() {
    let cfg = EngineConfig { allow_log_reversion: false };
    let mut u = Updater::new(&cfg, ProgressEntry::empty(10));
    u.update_matching(Some(lid(1, 3)));
    assert_eq!(u.entry.matching, Some(lid(1, 3)));
    assert_eq!(u.entry.searching_end, 10);
    u.update_matching(Some(lid(1, 20)));
    assert_eq!(u.entry.matching, Some(lid(1, 20)));
    assert_eq!(u.entry.searching_end, 21);
    assert!(u.entry.searching_end > u.entry.matching.unwrap().index);
}

#[test]
fn update_matching_acks_log_window() {
    let cfg = EngineConfig { allow_log_reversion: false };
    let mut e = ProgressEntry::empty(10);
    e.inflight = Inflight::Logs { prev: None, last: 5, request_id: 7 };
    let mut u = Updater::new(&cfg, e);
    // Partial acknowledgement keeps the window, moving its lower edge.
    u.update_matching(Some(lid(1, 3)));
    match u.entry.inflight {
        Inflight::Logs { prev, last, request_id } => {
            assert_eq!(prev, Some(lid(1, 3)));
            assert_eq!(last, 5);
            assert_eq!(request_id, 7);
        }
        _ => panic!("window should stay open"),
    }
    // Full acknowledgement closes it.
    u.update_matching(Some(lid(1, 5)));
    assert!(matches!(u.entry.inflight, Inflight::Idle));
}

#[test]
fn conflict_binary_search_narrowing() {
    // A leader probing for the divergence point: searching_end narrows with
    // each conflict, and searching_end > matching.index holds throughout.
    let cfg = EngineConfig { allow_log_reversion: false };
    let mut u = Updater::new(&cfg, ProgressEntry::empty(100));
    assert_eq!(u.entry.searching_end, 100);

    let r = u.update_conflicting(40, true);
    assert!(r.is_ok());
    assert_eq!(u.entry.searching_end, 40);
    assert_eq!(u.entry.matching, None);

    let r = u.update_conflicting(20, true);
    assert!(r.is_ok());
    assert_eq!(u.entry.searching_end, 20);

    u.update_matching(Some(lid(3, 15)));
    assert_eq!(u.entry.matching, Some(lid(3, 15)));
    assert_eq!(u.entry.searching_end, 20);
    assert!(u.entry.searching_end > u.entry.matching.unwrap().index);
}

#[test]
fn stale_conflict_is_ignored() {
    let cfg = EngineConfig { allow_log_reversion: false };
    let mut e = ProgressEntry::empty(50);
    e.inflight = Inflight::Probe { index: 60, request_id: 1 };
    let mut u = Updater::new(&cfg, e);
    let r = u.update_conflicting(60, false);
    assert!(r.is_ok());
    assert_eq!(u.entry.searching_end, 50);
    // A heartbeat-driven conflict opened no window, so inflight stands.
    assert!(matches!(u.entry.inflight, Inflight::Probe { .. }));
}

#[test]
fn payload_conflict_resets_inflight() {
    let cfg = EngineConfig { allow_log_reversion: false };
    let mut e = ProgressEntry::empty(50);
    e.inflight = Inflight::Logs { prev: None, last: 30, request_id: 2 };
    let mut u = Updater::new(&cfg, e);
    let r = u.update_conflicting(30, true);
    assert!(r.is_ok());
    assert!(matches!(u.entry.inflight, Inflight::Idle));
    assert_eq!(u.entry.searching_end, 30);
}

#[test]
fn log_reversion_without_permission_halts() {
    // The follower claims an acknowledged entry is gone; without
    // allow_log_reversion that is a fatal safety fault.
    let cfg = EngineConfig { allow_log_reversion: false };
    let mut e = ProgressEntry::empty(12);
    e.matching = Some(lid(1, 10));
    let mut u = Updater::new(&cfg, e);
    let r = u.update_conflicting(1, true);
    match r {
        Err(LogicalSafetyFault { conflict, matching }) => {
            assert_eq!(conflict, 1);
            assert_eq!(matching, Some(lid(1, 10)));
        }
        Ok(()) => panic!("reversion without permission must fault"),
    }
    // The entry stands as it was (besides the inflight reset).
    assert_eq!(u.entry.matching, Some(lid(1, 10)));
    assert_eq!(u.entry.searching_end, 12);
}

#[test]
fn log_reversion_with_engine_permission_resets() {
    let cfg = EngineConfig { allow_log_reversion: true };
    let mut e = ProgressEntry::empty(12);
    e.matching = Some(lid(1, 10));
    let mut u = Updater::new(&cfg, e);
    let r = u.update_conflicting(1, true);
    assert!(r.is_ok());
    assert_eq!(u.entry.matching, None);
    assert_eq!(u.entry.searching_end, 1);
    assert!(!u.entry.allow_log_reversion);
}

#[test]
fn log_reversion_one_shot_flag_is_consumed() {
    let cfg = EngineConfig { allow_log_reversion: false };
    let mut e = ProgressEntry::empty(12);
    e.matching = Some(lid(1, 10));
    e.allow_log_reversion = true;
    let mut u = Updater::new(&cfg, e);
    let r = u.update_conflicting(0, true);
    assert!(r.is_ok());
    assert_eq!(u.entry.matching, None);
    assert_eq!(u.entry.searching_end, 0);
    assert!(!u.entry.allow_log_reversion, "the one-shot flag is consumed");

    // A second reversion claim now faults.
    u.update_matching(Some(lid(2, 4)));
    let r = u.update_conflicting(0, true);
    assert!(r.is_err());
}

#[test]
fn into_entry_returns_the_entry() {
    let cfg = EngineConfig { allow_log_reversion: false };
    let mut u = Updater::new(&cfg, ProgressEntry::empty(7));
    u.update_matching(Some(lid(1, 2)));
    let e = u.into_entry();
    assert_eq!(e.matching, Some(lid(1, 2)));
}
