use raftstore::sm::RocksStateMachine;
use raftstore::sm::SerializableRocksStateMachine;
use raftstore::sm::str_eq;
use raftstore::types::EffectiveMembership;
use raftstore::types::LogId;
use raftstore::types::MembershipConfig;

fn lid(term: u64, index: u64) -> LogId {
    LogId { term, index }
}

#[test]
fn str_eq_compares_by_content() {
    assert!(str_eq("", ""));
    assert!(str_eq("abc", "abc"));
    assert!(str_eq("héllo✓", "héllo✓"));
    assert!(!str_eq("abc", "abd"));
    assert!(!str_eq("abc", "ab"));
    assert!(!str_eq("a", "ä"));
}

#[test]
fn insert_then_get_returns_value() {
    let mut m = RocksStateMachine::new();
    m.insert(String::from("k"), String::from("1")).unwrap();
    assert_eq!(m.get("k").unwrap(), Some(String::from("1")));
    assert_eq!(m.get("other").unwrap(), None);
}

#[test]
fn insert_replaces_resident_value() {
    let mut m = RocksStateMachine::new();
    m.insert(String::from("k"), String::from("1")).unwrap();
    m.insert(String::from("k"), String::from("2")).unwrap();
    m.insert(String::from("l"), String::from("3")).unwrap();
    assert_eq!(m.get("k").unwrap(), Some(String::from("2")));
    assert_eq!(m.get("l").unwrap(), Some(String::from("3")));
}

#[test]
fn serializable_round_trip_preserves_machine() {
    let mut m = RocksStateMachine::new();
    m.insert(String::from("a"), String::from("1")).unwrap();
    m.insert(String::from("b"), String::from("2")).unwrap();
    m.set_last_applied_log(lid(2, 5)).unwrap();
    m.set_last_membership(EffectiveMembership {
        log_id: lid(1, 1),
        membership: MembershipConfig { configs: vec![vec![1, 2, 3]], learners: vec![4] },
    })
    .unwrap();

    let image = SerializableRocksStateMachine::from(&m);
    assert_eq!(image.last_applied_log, Some(lid(2, 5)));
    let m2 = RocksStateMachine::from_serializable(image).unwrap();
    assert_eq!(m2.get("a").unwrap(), Some(String::from("1")));
    assert_eq!(m2.get("b").unwrap(), Some(String::from("2")));
    assert_eq!(m2.get_last_applied_log().unwrap(), Some(lid(2, 5)));
    let em = m2.get_last_membership().unwrap().unwrap();
    assert_eq!(em.log_id, lid(1, 1));
    assert_eq!(em.membership.configs, vec![vec![1, 2, 3]]);
    assert_eq!(em.membership.learners, vec![4]);
}

#[test]
fn from_serializable_lets_a_later_duplicate_key_win() {
    let image = SerializableRocksStateMachine {
        last_applied_log: None,
        last_membership: None,
        data: vec![
            (String::from("k"), String::from("old")),
            (String::from("k"), String::from("new")),
        ],
    };
    let m = RocksStateMachine::from_serializable(image).unwrap();
    assert_eq!(m.get("k").unwrap(), Some(String::from("new")));
}

#[test]
fn snapshot_bytes_round_trip() {
    let mut m = RocksStateMachine::new();
    m.insert(String::from("key"), String::from("välue ✓")).unwrap();
    m.insert(String::from(""), String::from("empty")).unwrap();
    m.set_last_applied_log(lid(3, 9)).unwrap();
    m.set_last_membership(EffectiveMembership {
        log_id: lid(3, 8),
        membership: MembershipConfig { configs: vec![vec![1, 2], vec![1, 2, 5]], learners: vec![] },
    })
    .unwrap();

    let image = SerializableRocksStateMachine::from(&m);
    let bytes = image.to_bytes();
    let back = SerializableRocksStateMachine::from_bytes(&bytes).unwrap();
    assert_eq!(back.last_applied_log, Some(lid(3, 9)));
    let em = back.last_membership.unwrap();
    assert_eq!(em.log_id, lid(3, 8));
    assert_eq!(em.membership.configs, vec![vec![1, 2], vec![1, 2, 5]]);
    assert_eq!(em.membership.learners, Vec::<u64>::new());
    assert_eq!(
        back.data,
        vec![
            (String::from("key"), String::from("välue ✓")),
            (String::from(""), String::from("empty")),
        ]
    );
}

#[test]
fn snapshot_bytes_reject_garbage() {
    assert!(SerializableRocksStateMachine::from_bytes(&vec![]).is_none());
    assert!(SerializableRocksStateMachine::from_bytes(&vec![2, 0, 0]).is_none());
    let image = SerializableRocksStateMachine {
        last_applied_log: None,
        last_membership: None,
        data: vec![],
    };
    let mut bytes = image.to_bytes();
    bytes.push(0);
    // Trailing bytes mean the payload is not a machine image.
    assert!(SerializableRocksStateMachine::from_bytes(&bytes).is_none());
}
