use raftstore::store::RocksStore;
use raftstore::types::Entry;
use raftstore::types::EntryPayload;
use raftstore::types::HardState;
use raftstore::types::LogId;
use raftstore::types::RocksRequest;
use raftstore::types::StorageError;

fn lid(term: u64, index: u64) -> LogId {
    LogId { term, index }
}

fn put(term: u64, index: u64, key: &str, value: &str) -> Entry {
    Entry {
        log_id: lid(term, index),
        payload: EntryPayload::Normal(RocksRequest::Put {
            key: String::from(key),
            value: String::from(value),
        }),
    }
}

fn blank(term: u64, index: u64) -> Entry {
    Entry { log_id: lid(term, index), payload: EntryPayload::Blank }
}

#[test]
fn hard_state_round_trips() {
    let mut s = RocksStore::new();
    assert_eq!(s.read_hard_state().unwrap(), None);
    let hs = HardState { current_term: 4, voted_for: Some(2) };
    s.save_hard_state(&hs).unwrap();
    assert_eq!(s.read_hard_state().unwrap(), Some(hs));
}

#[test]
fn append_then_try_get_returns_exactly_the_batch() {
    let mut s = RocksStore::new();
    let batch = vec![put(1, 1, "a", "1"), put(1, 2, "b", "2"), blank(2, 3)];
    s.append_to_log(&batch).unwrap();
    let got = s.try_get_log_entries(1, 4).unwrap();
    assert_eq!(got.len(), 3);
    for (g, e) in got.iter().zip(batch.iter()) {
        assert_eq!(g.log_id, e.log_id);
    }
    match (&got[1].payload, &batch[1].payload) {
        (
            EntryPayload::Normal(RocksRequest::Put { key: gk, value: gv }),
            EntryPayload::Normal(RocksRequest::Put { key: ek, value: ev }),
        ) => {
            assert_eq!(gk, ek);
            assert_eq!(gv, ev);
        }
        _ => panic!("payloads must agree"),
    }
}

#[test]
fn try_get_clips_to_resident_range() {
    let mut s = RocksStore::new();
    s.append_to_log(&vec![blank(1, 1), blank(1, 2), blank(1, 3)]).unwrap();
    let got = s.try_get_log_entries(0, 100).unwrap();
    assert_eq!(got.len(), 3);
    let got = s.try_get_log_entries(2, 3).unwrap();
    assert_eq!(got.len(), 1);
    assert_eq!(got[0].log_id, lid(1, 2));
    let got = s.try_get_log_entries(4, 9).unwrap();
    assert!(got.is_empty());
}

#[test]
fn log_state_falls_back_to_purged() {
    let mut s = RocksStore::new();
    let ls = s.get_log_state().unwrap();
    assert_eq!(ls.last_purged_log_id, None);
    assert_eq!(ls.last_log_id, None);

    s.append_to_log(&vec![put(1, 1, "a", "1"), put(1, 2, "b", "2"), blank(1, 3)]).unwrap();
    let resident = s.try_get_log_entries(1, 4).unwrap();
    s.apply_to_state_machine(&resident).unwrap();
    s.purge_logs_upto(lid(1, 2)).unwrap();

    let ls = s.get_log_state().unwrap();
    assert_eq!(ls.last_purged_log_id, Some(lid(1, 2)));
    assert_eq!(ls.last_log_id, Some(lid(1, 3)));
    // The purged prefix is gone.
    let got = s.try_get_log_entries(1, 4).unwrap();
    assert_eq!(got.len(), 1);
    assert_eq!(got[0].log_id, lid(1, 3));

    // Truncating the rest leaves last_log_id falling back to the purge point.
    s.delete_conflict_logs_since(lid(1, 3)).unwrap();
    let ls = s.get_log_state().unwrap();
    assert_eq!(ls.last_log_id, Some(lid(1, 2)));
}

#[test]
fn apply_writes_data_and_advances_applied() {
    let mut s = RocksStore::new();
    let batch = vec![blank(1, 1), put(1, 2, "k", "v1"), put(1, 3, "k", "v2")];
    s.append_to_log(&batch).unwrap();
    let responses = s.apply_to_state_machine(&batch).unwrap();
    assert_eq!(responses.len(), 3);
    assert_eq!(responses[0].value, None);
    assert_eq!(responses[1].value, Some(String::from("v1")));
    assert_eq!(responses[2].value, Some(String::from("v2")));
    assert_eq!(s.state_machine().get("k").unwrap(), Some(String::from("v2")));
    let (applied, membership) = s.last_applied_state().unwrap();
    assert_eq!(applied, Some(lid(1, 3)));
    assert!(membership.is_none());
}

#[test]
fn snapshot_id_counts_and_formats() {
    let mut s = RocksStore::new();
    let snap = s.build_snapshot().unwrap();
    assert_eq!(snap.meta.snapshot_id, "--1");
    assert_eq!(snap.meta.last_log_id, None);

    let batch = vec![put(1, 1, "k", "v")];
    s.append_to_log(&batch).unwrap();
    s.apply_to_state_machine(&batch).unwrap();
    let snap = s.build_snapshot().unwrap();
    assert_eq!(snap.meta.snapshot_id, "1-1-2");
    assert_eq!(snap.meta.last_log_id, Some(lid(1, 1)));

    let current = s.get_current_snapshot().unwrap().unwrap();
    assert_eq!(current.meta.snapshot_id, "1-1-2");
    assert_eq!(current.data, snap.data);
}

#[test]
fn snapshot_install_on_empty_store_restores_machine() {
    // Round trip: snapshot → install_snapshot on an empty machine yields
    // state-machine equality in data, last applied, and membership.
    let mut src = RocksStore::new();
    let batch = vec![put(1, 1, "a", "1"), put(1, 2, "b", "2"), put(2, 3, "a", "3")];
    src.append_to_log(&batch).unwrap();
    src.apply_to_state_machine(&batch).unwrap();
    let snap = src.build_snapshot().unwrap();

    let mut dst = RocksStore::new();
    let changes = dst.install_snapshot(&snap.meta, snap.data.clone()).unwrap();
    assert_eq!(changes.last_applied, Some(lid(2, 3)));
    assert!(changes.is_snapshot);

    assert_eq!(dst.state_machine().get("a").unwrap(), Some(String::from("3")));
    assert_eq!(dst.state_machine().get("b").unwrap(), Some(String::from("2")));
    assert_eq!(dst.state_machine().get("c").unwrap(), None);
    let (src_applied, _) = src.last_applied_state().unwrap();
    let (dst_applied, _) = dst.last_applied_state().unwrap();
    assert_eq!(src_applied, dst_applied);

    let stored = dst.get_current_snapshot().unwrap().unwrap();
    assert_eq!(stored.data, snap.data);
}

#[test]
fn snapshot_install_rejects_garbage_bytes() {
    let mut s = RocksStore::new();
    let snap_meta = raftstore::types::SnapshotMeta {
        last_log_id: None,
        snapshot_id: String::from("--1"),
    };
    let r = s.install_snapshot(&snap_meta, vec![1, 2, 3]);
    match r {
        Err(StorageError::IO { source }) => {
            assert!(matches!(source.verb, raftstore::types::ErrorVerb::Read));
            assert!(matches!(source.subject, raftstore::types::ErrorSubject::Snapshot(_)));
        }
        Ok(_) => panic!("garbage bytes must be refused"),
    }
    assert!(s.get_current_snapshot().unwrap().is_none());
}

#[test]
fn begin_receiving_snapshot_is_empty() {
    let s = RocksStore::new();
    assert!(s.begin_receiving_snapshot().unwrap().is_empty());
}

#[test]
fn error_constructors_carry_subject_and_verb() {
    let e = raftstore::types::sm_r_err();
    match e {
        StorageError::IO { source } => {
            assert!(matches!(source.subject, raftstore::types::ErrorSubject::StateMachine));
            assert!(matches!(source.verb, raftstore::types::ErrorVerb::Read));
        }
    }
    let e = raftstore::types::sm_w_err();
    match e {
        StorageError::IO { source } => {
            assert!(matches!(source.subject, raftstore::types::ErrorSubject::StateMachine));
            assert!(matches!(source.verb, raftstore::types::ErrorVerb::Write));
        }
    }
    let e = raftstore::types::read_logs_err();
    match e {
        StorageError::IO { source } => {
            assert!(matches!(source.subject, raftstore::types::ErrorSubject::Logs));
            assert!(matches!(source.verb, raftstore::types::ErrorVerb::Read));
        }
    }
}
