//! Scenario tests driving several stores as the nodes of a small cluster,
//! with the engine's decision functions standing in for the RPC layer.

use raftstore::engine::committed_index;
use raftstore::engine::handle_append_entries;
use raftstore::engine::handle_vote;
use raftstore::engine::AppendEntriesRequest;
use raftstore::engine::VoteRequest;
use raftstore::progress::EngineConfig;
use raftstore::progress::ProgressEntry;
use raftstore::progress::Updater;
use raftstore::store::RocksStore;
use raftstore::types::Entry;
use raftstore::types::EntryPayload;
use raftstore::types::HardState;
use raftstore::types::LogId;
use raftstore::types::RocksRequest;

fn lid(term: u64, index: u64) -> LogId {
    LogId { term, index }
}

fn put(term: u64, index: u64, key: &str, value: &str) -> Entry {
    Entry {
        log_id: lid(term, index),
        payload: EntryPayload::Normal(RocksRequest::Put {
            key: String::from(key),
            value: String::from(value),
        }),
    }
}

fn ae(term: u64, leader: u64, prev: Option<LogId>, entries: Vec<Entry>, commit: u64) -> AppendEntriesRequest {
    AppendEntriesRequest { term, leader_id: leader, prev_log_id: prev, entries, leader_commit: commit }
}

fn clone_entries(v: &[Entry]) -> Vec<Entry> {
    v.iter().cloned().collect()
}

#[test]
fn single_writer_commit_then_read() {
    // 3-node cluster: the leader replicates Set("k","1"), advances the
    // commit index by majority, applies, and a linearizable read sees "1".
    let mut leader = RocksStore::new();
    let mut f1 = RocksStore::new();
    let mut f2 = RocksStore::new();

    let term = 1u64;
    let batch = vec![put(term, 1, "k", "1")];
    leader.append_to_log(&batch).unwrap();

    // Replicate to both followers.
    let r1 = handle_append_entries(&mut f1, term, &ae(term, 1, None, clone_entries(&batch), 0)).unwrap();
    let r2 = handle_append_entries(&mut f2, term, &ae(term, 1, None, clone_entries(&batch), 0)).unwrap();
    assert!(r1.success && r2.success);

    // Progress: both followers acknowledge index 1; so does the leader.
    let cfg = EngineConfig { allow_log_reversion: false };
    let mut p1 = Updater::new(&cfg, ProgressEntry::empty(2));
    p1.update_matching(Some(lid(term, 1)));
    let matchings = vec![1u64, p1.entry.matching.unwrap().index, 1];
    let commit = committed_index(&matchings, 2);
    assert_eq!(commit, 1);

    // Apply the committed prefix on the leader, then answer the client.
    let committed = leader.try_get_log_entries(1, commit + 1).unwrap();
    let responses = leader.apply_to_state_machine(&committed).unwrap();
    assert_eq!(responses[0].value, Some(String::from("1")));

    // Linearizable read: the read index (the commit index) is applied.
    let (applied, _) = leader.last_applied_state().unwrap();
    assert!(applied.unwrap().index >= commit);
    assert_eq!(leader.state_machine().get("k").unwrap(), Some(String::from("1")));
}

#[test]
fn follower_log_conflict_is_overwritten() {
    // The follower holds extra uncommitted entries from an old term; the
    // new leader probes, the follower reports the conflict, and the
    // leader's entries overwrite the divergent suffix.
    let mut leader = RocksStore::new();
    let mut follower = RocksStore::new();

    // Shared committed prefix, term 2, indices 1..=4.
    let prefix = vec![
        put(2, 1, "a", "1"),
        put(2, 2, "b", "1"),
        put(2, 3, "c", "1"),
        put(2, 4, "d", "1"),
    ];
    leader.append_to_log(&prefix).unwrap();
    follower.append_to_log(&prefix).unwrap();

    // The follower took extra entries 5..=8 in term 2 that never committed.
    let extra = vec![
        put(2, 5, "k", "old5"),
        put(2, 6, "k", "old6"),
        put(2, 7, "k", "old7"),
        put(2, 8, "k", "old8"),
    ];
    follower.append_to_log(&extra).unwrap();

    // The new leader of term 3 has its own entries at 5..=6.
    let fresh = vec![put(3, 5, "k", "new5"), put(3, 6, "k", "new6")];
    leader.append_to_log(&fresh).unwrap();

    // Probe at the leader's last log id: the follower's entry 6 has term 2,
    // not 3, so it reports a conflict.
    let probe = ae(3, 1, Some(lid(3, 6)), vec![], 0);
    let r = handle_append_entries(&mut follower, 3, &probe).unwrap();
    assert!(!r.success);
    assert_eq!(r.conflict, Some(6));

    // The leader narrows its searching window with the reported conflict.
    let cfg = EngineConfig { allow_log_reversion: false };
    let mut p = Updater::new(&cfg, ProgressEntry::empty(7));
    p.update_conflicting(r.conflict.unwrap(), false).unwrap();
    assert_eq!(p.entry.searching_end, 6);

    // Next probe at (2,4) matches, and the batch overwrites 5..: the
    // follower's log becomes the leader's.
    let req = ae(3, 1, Some(lid(2, 4)), clone_entries(&fresh), 0);
    let r = handle_append_entries(&mut follower, 3, &req).unwrap();
    assert!(r.success);

    let ls = follower.get_log_state().unwrap();
    assert_eq!(ls.last_log_id, Some(lid(3, 6)));

    // Apply everything on both; the affected key reads the leader's value.
    let all_l = leader.try_get_log_entries(1, 7).unwrap();
    leader.apply_to_state_machine(&all_l).unwrap();
    let all_f = follower.try_get_log_entries(1, 7).unwrap();
    follower.apply_to_state_machine(&all_f).unwrap();
    assert_eq!(follower.state_machine().get("k").unwrap(), Some(String::from("new6")));
    assert_eq!(
        follower.state_machine().get("k").unwrap(),
        leader.state_machine().get("k").unwrap()
    );
}

#[test]
fn trailing_follower_gets_a_snapshot() {
    // The follower trails behind the leader's purge point, so no
    // AppendEntries can help; the leader sends its snapshot instead.
    let mut leader = RocksStore::new();
    let batch = vec![
        put(1, 1, "a", "1"),
        put(1, 2, "b", "2"),
        put(1, 3, "c", "3"),
        put(1, 4, "d", "4"),
    ];
    leader.append_to_log(&batch).unwrap();
    leader.apply_to_state_machine(&batch).unwrap();
    leader.build_snapshot().unwrap();
    leader.purge_logs_upto(lid(1, 3)).unwrap();

    let mut follower = RocksStore::new();
    // Replication from index 2 cannot work: the prefix is purged on the
    // leader, and the follower rejects the probe above its empty log.
    let probe = ae(1, 1, Some(lid(1, 3)), vec![], 0);
    let r = handle_append_entries(&mut follower, 1, &probe).unwrap();
    assert!(!r.success);

    // Install the leader's snapshot.
    let snap = leader.get_current_snapshot().unwrap().unwrap();
    let changes = follower.install_snapshot(&snap.meta, snap.data).unwrap();
    assert_eq!(changes.last_applied, Some(lid(1, 4)));

    let (applied, _) = follower.last_applied_state().unwrap();
    assert_eq!(applied, snap.meta.last_log_id);
    for (k, v) in [("a", "1"), ("b", "2"), ("c", "3"), ("d", "4")] {
        assert_eq!(follower.state_machine().get(k).unwrap(), Some(String::from(v)));
        assert_eq!(
            follower.state_machine().get(k).unwrap(),
            leader.state_machine().get(k).unwrap()
        );
    }
}

#[test]
fn crash_recovery_elects_survivor_and_retry_succeeds() {
    // The leader applies a write but dies before answering; a survivor
    // holding the entry wins the next election, and the client's retry
    // succeeds on the new leader.
    let mut leader = RocksStore::new();
    let mut f2 = RocksStore::new();
    let mut f3 = RocksStore::new();
    for s in [&mut leader, &mut f2, &mut f3] {
        s.save_hard_state(&HardState { current_term: 1, voted_for: Some(1) }).unwrap();
    }

    let batch = vec![put(1, 1, "k", "1")];
    leader.append_to_log(&batch).unwrap();
    // Replication reached f2 but not f3.
    let r = handle_append_entries(&mut f2, 1, &ae(1, 1, None, clone_entries(&batch), 0)).unwrap();
    assert!(r.success);
    // Quorum of leader + f2: committed; the leader applies, then crashes
    // before responding.
    let commit = committed_index(&vec![1, 1, 0], 2);
    assert_eq!(commit, 1);
    leader.apply_to_state_machine(&batch).unwrap();
    drop(leader);

    // Election in term 2: f2's log (last id (1,1)) is at least as up to
    // date as f3's (empty), so both grant.
    let req = VoteRequest { term: 2, candidate_id: 2, last_log_id: Some(lid(1, 1)) };
    let f2_hs = f2.read_hard_state().unwrap().unwrap();
    let f2_last = f2.get_log_state().unwrap().last_log_id;
    let (new_hs2, v2) = handle_vote(&f2_hs, &f2_last, &req);
    f2.save_hard_state(&new_hs2).unwrap();
    let f3_hs = f3.read_hard_state().unwrap().unwrap();
    let f3_last = f3.get_log_state().unwrap().last_log_id;
    let (new_hs3, v3) = handle_vote(&f3_hs, &f3_last, &req);
    f3.save_hard_state(&new_hs3).unwrap();
    assert!(v2.vote_granted && v3.vote_granted);

    // f2 leads term 2; the client retries the write. The new leader brings
    // f3 up to date and commits both entries.
    let retry = vec![put(2, 2, "k", "1")];
    f2.append_to_log(&retry).unwrap();
    let mut to_f3 = clone_entries(&batch);
    to_f3.extend(clone_entries(&retry));
    let r = handle_append_entries(&mut f3, 2, &ae(2, 2, None, to_f3, 0)).unwrap();
    assert!(r.success);
    let commit = committed_index(&vec![2, 2], 2);
    assert_eq!(commit, 2);

    let committed = f2.try_get_log_entries(1, 3).unwrap();
    let responses = f2.apply_to_state_machine(&committed).unwrap();
    assert_eq!(responses.last().unwrap().value, Some(String::from("1")));
    assert_eq!(f2.state_machine().get("k").unwrap(), Some(String::from("1")));
}

#[test]
fn stale_term_vote_and_append_are_refused() {
    let hs = HardState { current_term: 5, voted_for: Some(3) };
    let req = VoteRequest { term: 4, candidate_id: 1, last_log_id: None };
    let (hs2, v) = handle_vote(&hs, &None, &req);
    assert!(!v.vote_granted);
    assert_eq!(hs2, hs);
    assert_eq!(v.term, 5);

    let mut s = RocksStore::new();
    let r = handle_append_entries(&mut s, 5, &ae(4, 1, None, vec![], 0)).unwrap();
    assert!(!r.success);
    assert_eq!(r.conflict, None);
    assert_eq!(r.term, 5);
}

#[test]
fn vote_is_single_per_term_and_log_aware() {
    // A node that voted in this term refuses other candidates.
    let hs = HardState { current_term: 2, voted_for: Some(7) };
    let req = VoteRequest { term: 2, candidate_id: 8, last_log_id: Some(lid(2, 9)) };
    let (_, v) = handle_vote(&hs, &None, &req);
    assert!(!v.vote_granted);

    // A candidate with a shorter log is refused even in a newer term.
    let hs = HardState { current_term: 2, voted_for: Some(7) };
    let req = VoteRequest { term: 3, candidate_id: 8, last_log_id: Some(lid(1, 4)) };
    let (hs2, v) = handle_vote(&hs, &Some(lid(2, 5)), &req);
    assert!(!v.vote_granted);
    assert_eq!(hs2.current_term, 3);
    assert_eq!(hs2.voted_for, None);

    // An up-to-date candidate in a newer term gets the vote.
    let req = VoteRequest { term: 3, candidate_id: 8, last_log_id: Some(lid(2, 5)) };
    let (hs3, v) = handle_vote(&hs2, &Some(lid(2, 5)), &req);
    assert!(v.vote_granted);
    assert_eq!(hs3.voted_for, Some(8));
}

#[test]
fn committed_index_takes_the_quorum_maximum() {
    assert_eq!(committed_index(&vec![3, 1, 2], 2), 2);
    assert_eq!(committed_index(&vec![3, 3, 2], 2), 3);
    assert_eq!(committed_index(&vec![0, 0, 5], 2), 0);
    assert_eq!(committed_index(&vec![], 1), 0);
    assert_eq!(committed_index(&vec![4, 4, 4, 1, 1], 3), 4);
}
