use raft_kv::entry::{ClientRequest, Entry, EntryPayload};
use raft_kv::state_machine::StateMachine;
use raft_kv::store::{HardState, Snapshot, Store, StoreError};

fn set(index: u64, term: u64, key: &str, value: &str) -> Entry {
    Entry {
        index,
        term,
        payload: EntryPayload::Normal(ClientRequest { key: key.to_string(), value: value.to_string() }),
    }
}

fn blank(index: u64, term: u64) -> Entry {
    Entry { index, term, payload: EntryPayload::Blank }
}

fn value_of(sm: &StateMachine, key: &str) -> Option<String> {
    sm.get(&key.to_string())
}

fn indexes(es: &[Entry]) -> Vec<u64> {
    es.iter().map(|e| e.index).collect()
}

#[test]
fn applying_entries_sets_keys_and_last_applied() {
    let mut sm = StateMachine::new();
    sm.apply_entries(&vec![blank(1, 1), set(2, 1, "x", "1"), set(3, 1, "y", "2"), set(4, 2, "x", "3")]);
    assert_eq!(sm.last_applied(), 4);
    assert_eq!(value_of(&sm, "x"), Some("3".to_string()));
    assert_eq!(value_of(&sm, "y"), Some("2".to_string()));
    assert_eq!(value_of(&sm, "z"), None);
}

#[test]
fn reapplying_an_entry_changes_nothing() {
    let mut sm = StateMachine::new();
    sm.apply_entry(&set(1, 1, "x", "1"));
    sm.apply_entry(&set(2, 1, "x", "2"));
    // Entry 1 again, and a different command claiming index 2: both are skipped.
    sm.apply_entry(&set(1, 1, "x", "1"));
    sm.apply_entry(&set(2, 1, "x", "other"));
    assert_eq!(sm.last_applied(), 2);
    assert_eq!(value_of(&sm, "x"), Some("2".to_string()));
    assert_eq!(sm.pairs().len(), 1);
}

#[test]
fn replicas_applying_the_same_entries_agree() {
    let es = vec![set(1, 1, "a", "1"), set(2, 1, "b", "2"), set(3, 2, "a", "3"), blank(4, 3)];
    let mut first = StateMachine::new();
    first.apply_entries(&es);
    // The second replica had already applied a prefix.
    let mut second = StateMachine::new();
    second.apply_entries(&es[..2].to_vec());
    second.apply_entries(&es);
    assert_eq!(first.last_applied(), second.last_applied());
    let mut left = first.pairs();
    let mut right = second.pairs();
    left.sort();
    right.sort();
    assert_eq!(left, right);
    assert_eq!(left, vec![("a".to_string(), "3".to_string()), ("b".to_string(), "2".to_string())]);
}

#[test]
fn append_log_accepts_contiguous_entries() {
    let mut store = Store::new(1);
    assert_eq!(store.append_log(&vec![blank(1, 1), set(2, 1, "x", "1")]), Ok(()));
    assert_eq!(store.append_log(&vec![set(3, 2, "y", "2")]), Ok(()));
    assert_eq!(store.last_log_index(), 3);
    assert_eq!(store.last_log_term(), 2);
    assert_eq!(store.term_at(2), 1);
    assert_eq!(store.append_log(&vec![]), Ok(()));
}

#[test]
fn append_log_refuses_gaps_and_overlaps() {
    let mut store = Store::new(1);
    assert_eq!(store.append_log(&vec![blank(2, 1)]), Err(StoreError::NotContiguous));
    assert_eq!(store.append_log(&vec![blank(1, 1), blank(3, 1)]), Err(StoreError::NotContiguous));
    assert_eq!(store.last_log_index(), 0);
    assert_eq!(store.append_log(&vec![blank(1, 1)]), Ok(()));
    assert_eq!(store.append_log(&vec![blank(1, 1)]), Err(StoreError::NotContiguous));
    assert_eq!(store.last_log_index(), 1);
}

#[test]
fn log_range_returns_entries_in_range() {
    let mut store = Store::new(1);
    store.append_log(&vec![blank(1, 1), set(2, 1, "x", "1"), set(3, 1, "y", "2"), set(4, 2, "z", "3")]).unwrap();
    assert_eq!(indexes(&store.get_log_range(2, 4).unwrap()), vec![2, 3]);
    assert_eq!(indexes(&store.get_log_range(3, 100).unwrap()), vec![3, 4]);
    assert_eq!(indexes(&store.get_log_range(5, 9).unwrap()), Vec::<u64>::new());
    assert_eq!(indexes(&store.get_log_range(3, 3).unwrap()), Vec::<u64>::new());
}

#[test]
fn log_range_in_compacted_part_is_not_found() {
    let mut store = Store::new(1);
    store.append_log(&vec![set(1, 1, "x", "1"), set(2, 1, "y", "2"), set(3, 1, "z", "3"), blank(4, 2)]).unwrap();
    store.apply_to_state_machine(&store.get_log_range(1, 3).unwrap());
    store.compact_log();
    assert_eq!(store.current_snapshot().unwrap().last_included_index(), 2);
    assert!(matches!(store.get_log_range(1, 4), Err(StoreError::NotFound)));
    assert!(matches!(store.get_log_range(2, 3), Err(StoreError::NotFound)));
    assert_eq!(indexes(&store.get_log_range(3, 5).unwrap()), vec![3, 4]);
    assert_eq!(indexes(&store.get_log_range(0, 1).unwrap()), Vec::<u64>::new());
}

#[test]
fn delete_logs_from_truncates_the_tail() {
    let mut store = Store::new(1);
    store.append_log(&vec![blank(1, 1), blank(2, 1), blank(3, 1)]).unwrap();
    assert_eq!(store.delete_logs_from(2), Ok(()));
    assert_eq!(store.last_log_index(), 1);
    assert_eq!(store.append_log(&vec![blank(2, 2)]), Ok(()));
    assert_eq!(store.term_at(2), 2);
    assert_eq!(store.delete_logs_from(0), Err(StoreError::NotFound));
}

#[test]
fn hard_state_term_never_goes_back() {
    let mut store = Store::new(1);
    assert_eq!(store.get_hard_state(), HardState { current_term: 0, voted_for: None });
    assert_eq!(store.save_hard_state(HardState { current_term: 3, voted_for: Some(2) }), Ok(()));
    assert_eq!(store.save_hard_state(HardState { current_term: 2, voted_for: None }), Err(StoreError::StaleTerm));
    assert_eq!(store.get_hard_state(), HardState { current_term: 3, voted_for: Some(2) });
    assert_eq!(store.save_hard_state(HardState { current_term: 4, voted_for: None }), Ok(()));
    assert_eq!(store.get_hard_state().current_term, 4);
}

#[test]
fn snapshot_round_trip_on_fresh_node() {
    let mut source = Store::new(1);
    source.append_log(&vec![set(1, 1, "x", "1"), set(2, 2, "y", "2"), set(3, 2, "x", "3")]).unwrap();
    source.apply_to_state_machine(&source.get_log_range(1, 4).unwrap());
    let snap = source.create_snapshot();
    assert_eq!(snap.last_included_index(), 3);
    assert_eq!(snap.last_included_term(), 2);

    let mut fresh = Store::new(2);
    assert!(fresh.install_snapshot(snap));
    let sm = fresh.read_state_machine();
    assert_eq!(sm.last_applied(), 3);
    assert_eq!(value_of(sm, "x"), Some("3".to_string()));
    assert_eq!(value_of(sm, "y"), Some("2".to_string()));
    let mut a = sm.pairs();
    let mut b = source.read_state_machine().pairs();
    a.sort();
    b.sort();
    assert_eq!(a, b);
    assert_eq!(fresh.last_log_index(), 3);
    assert_eq!(fresh.last_log_term(), 2);
}

#[test]
fn stale_snapshot_is_ignored() {
    let mut store = Store::new(1);
    store.append_log(&vec![set(1, 1, "x", "1"), set(2, 1, "x", "2"), set(3, 1, "y", "9")]).unwrap();
    store.apply_to_state_machine(&store.get_log_range(1, 3).unwrap());

    let mut old_sm = StateMachine::new();
    old_sm.apply_entry(&set(1, 1, "x", "old"));
    assert!(!store.install_snapshot(Snapshot::new(1, old_sm)));

    let mut same_sm = StateMachine::new();
    same_sm.apply_entries(&vec![set(1, 1, "x", "1"), set(2, 1, "q", "q")]);
    assert!(!store.install_snapshot(Snapshot::new(1, same_sm)));

    assert_eq!(store.read_state_machine().last_applied(), 2);
    assert_eq!(value_of(store.read_state_machine(), "x"), Some("2".to_string()));
    assert_eq!(value_of(store.read_state_machine(), "q"), None);
    assert_eq!(indexes(&store.get_log_range(1, 10).unwrap()), vec![1, 2, 3]);
    assert!(store.current_snapshot().is_none());
}

#[test]
fn install_keeps_log_after_matching_entry() {
    let mut store = Store::new(2);
    store.append_log(&vec![set(1, 1, "a", "1"), set(2, 1, "b", "2"), set(3, 2, "c", "3")]).unwrap();
    let mut leader_sm = StateMachine::new();
    leader_sm.apply_entries(&vec![set(1, 1, "a", "1"), set(2, 1, "b", "2")]);
    assert!(store.install_snapshot(Snapshot::new(1, leader_sm)));
    assert_eq!(indexes(&store.get_log_range(3, 4).unwrap()), vec![3]);
    assert!(matches!(store.get_log_range(2, 4), Err(StoreError::NotFound)));
    assert_eq!(store.last_log_index(), 3);
}

#[test]
fn install_discards_log_that_conflicts() {
    let mut store = Store::new(2);
    store.append_log(&vec![set(1, 1, "a", "1"), set(2, 1, "b", "2"), set(3, 2, "c", "3")]).unwrap();
    let mut leader_sm = StateMachine::new();
    leader_sm.apply_entries(&vec![set(1, 1, "a", "1"), set(2, 3, "b", "x")]);
    assert!(store.install_snapshot(Snapshot::new(3, leader_sm)));
    assert_eq!(store.last_log_index(), 2);
    assert_eq!(store.last_log_term(), 3);
    assert_eq!(indexes(&store.get_log_range(3, 10).unwrap()), Vec::<u64>::new());
    assert_eq!(value_of(store.read_state_machine(), "b"), Some("x".to_string()));
}

#[test]
fn compact_log_drops_applied_entries() {
    let mut store = Store::new(1);
    store.append_log(&vec![set(1, 1, "x", "1"), set(2, 1, "y", "2"), set(3, 2, "z", "3")]).unwrap();
    store.apply_to_state_machine(&store.get_log_range(1, 3).unwrap());
    store.compact_log();
    let snap = store.current_snapshot().unwrap();
    assert_eq!(snap.last_included_index(), 2);
    assert_eq!(snap.last_included_term(), 1);
    assert_eq!(value_of(snap.state_machine(), "y"), Some("2".to_string()));
    assert_eq!(store.last_log_index(), 3);
    assert_eq!(indexes(&store.get_log_range(3, 4).unwrap()), vec![3]);
    assert_eq!(store.term_at(2), 1);
}

#[test]
fn restore_replays_committed_entries_after_snapshot() {
    let mut snap_sm = StateMachine::new();
    snap_sm.apply_entries(&vec![set(1, 1, "x", "1"), set(2, 1, "y", "2")]);
    let snap = Snapshot::new(1, snap_sm);
    let log = vec![set(3, 2, "x", "3"), set(4, 2, "z", "4"), set(5, 2, "y", "5")];
    let hs = HardState { current_term: 2, voted_for: Some(1) };
    let store = Store::restore(7, hs, Some(snap), &log, 4).unwrap();
    assert_eq!(store.id(), 7);
    assert_eq!(store.get_hard_state(), hs);
    assert_eq!(store.last_log_index(), 5);
    let sm = store.read_state_machine();
    assert_eq!(sm.last_applied(), 4);
    assert_eq!(value_of(sm, "x"), Some("3".to_string()));
    assert_eq!(value_of(sm, "y"), Some("2".to_string()));
    assert_eq!(value_of(sm, "z"), Some("4".to_string()));
    assert!(matches!(store.get_log_range(2, 3), Err(StoreError::NotFound)));
}

#[test]
fn restore_without_snapshot_and_refusing_gaps() {
    let hs = HardState { current_term: 1, voted_for: None };
    let store = Store::restore(1, hs, None, &vec![set(1, 1, "x", "1"), blank(2, 1)], 0).unwrap();
    assert_eq!(store.read_state_machine().last_applied(), 0);
    assert_eq!(value_of(store.read_state_machine(), "x"), None);
    assert!(matches!(Store::restore(1, hs, None, &vec![blank(2, 1)], 5), Err(StoreError::NotContiguous)));
}

#[test]
fn state_machine_from_pairs() {
    let pairs = vec![("a".to_string(), "1".to_string()), ("b".to_string(), "2".to_string()), ("a".to_string(), "3".to_string())];
    let sm = StateMachine::from_pairs(9, &pairs).unwrap();
    assert_eq!(sm.last_applied(), 9);
    assert_eq!(value_of(&sm, "a"), Some("3".to_string()));
    assert_eq!(value_of(&sm, "b"), Some("2".to_string()));
    assert_eq!(sm.pairs().len(), 2);
    assert!(StateMachine::from_pairs(0, &pairs).is_none());
    assert_eq!(StateMachine::from_pairs(0, &vec![]).unwrap().last_applied(), 0);
}

#[test]
fn log_range_from_index_zero_without_snapshot() {
    let mut store = Store::new(1);
    store.append_log(&vec![blank(1, 1), blank(2, 1), blank(3, 2)]).unwrap();
    assert_eq!(indexes(&store.get_log_range(0, 3).unwrap()), vec![1, 2]);
    assert_eq!(indexes(&store.get_log_range(0, 1).unwrap()), Vec::<u64>::new());
    let empty = Store::new(2);
    assert_eq!(indexes(&empty.get_log_range(0, 50).unwrap()), Vec::<u64>::new());
}

#[test]
fn log_range_from_index_zero_after_compaction() {
    let mut store = Store::new(1);
    store.append_log(&vec![set(1, 1, "x", "1"), blank(2, 1), blank(3, 1)]).unwrap();
    store.apply_to_state_machine(&store.get_log_range(1, 2).unwrap());
    store.compact_log();
    assert!(matches!(store.get_log_range(0, 2), Err(StoreError::NotFound)));
    assert_eq!(indexes(&store.get_log_range(0, 1).unwrap()), Vec::<u64>::new());
}

#[test]
fn ranges_covered_by_installed_snapshot_are_not_found() {
    let mut store = Store::new(2);
    store.append_log(&vec![blank(1, 1)]).unwrap();
    let mut leader_sm = StateMachine::new();
    leader_sm.apply_entries(&vec![set(1, 1, "a", "1"), set(2, 1, "b", "2"), set(3, 1, "c", "3")]);
    assert!(store.install_snapshot(Snapshot::new(1, leader_sm)));
    for start in 0..=3u64 {
        assert!(matches!(store.get_log_range(start, 4), Err(StoreError::NotFound)));
        assert!(matches!(store.get_log_range(start, 10), Err(StoreError::NotFound)));
    }
    assert_eq!(indexes(&store.get_log_range(4, 10).unwrap()), Vec::<u64>::new());
}

#[test]
fn replicate_log_overwrites_from_first_index() {
    let mut store = Store::new(2);
    assert_eq!(store.replicate_log(&vec![blank(1, 1), blank(2, 1), blank(3, 1)]), Ok(()));
    // The same first batch again: the log ends with it.
    assert_eq!(store.replicate_log(&vec![blank(1, 1), blank(2, 1)]), Ok(()));
    assert_eq!(store.last_log_index(), 2);
    // Entries from another leader replace the old ones at their indexes.
    assert_eq!(store.replicate_log(&vec![blank(2, 3), blank(3, 3)]), Ok(()));
    assert_eq!(store.last_log_index(), 3);
    assert_eq!(store.term_at(2), 3);
    assert_eq!(store.term_at(1), 1);
    assert_eq!(store.replicate_log(&vec![]), Ok(()));
    assert_eq!(store.last_log_index(), 3);
}

#[test]
fn replicate_log_refuses_gaps_and_compacted_part() {
    let mut store = Store::new(2);
    store.replicate_log(&vec![set(1, 1, "x", "1"), blank(2, 1)]).unwrap();
    assert_eq!(store.replicate_log(&vec![blank(4, 1)]), Err(StoreError::NotContiguous));
    assert_eq!(store.replicate_log(&vec![blank(2, 1), blank(4, 1)]), Err(StoreError::NotContiguous));
    assert_eq!(store.last_log_index(), 2);
    store.apply_to_state_machine(&store.get_log_range(1, 2).unwrap());
    store.compact_log();
    assert_eq!(store.replicate_log(&vec![blank(1, 1), blank(2, 1)]), Err(StoreError::NotFound));
    assert_eq!(store.replicate_log(&vec![blank(2, 2)]), Ok(()));
    assert_eq!(store.term_at(2), 2);
}

#[test]
fn redelivered_batch_is_accepted_and_changes_nothing() {
    let mut store = Store::new(2);
    let batch = vec![set(1, 1, "x", "1"), set(2, 1, "y", "2")];
    assert_eq!(store.replicate_log(&batch), Ok(()));
    store.apply_to_state_machine(&batch);
    assert_eq!(store.replicate_log(&batch), Ok(()));
    store.apply_to_state_machine(&batch);
    assert_eq!(indexes(&store.get_log_range(1, 10).unwrap()), vec![1, 2]);
    assert_eq!(store.term_at(2), 1);
    let sm = store.read_state_machine();
    assert_eq!(sm.last_applied(), 2);
    assert_eq!(value_of(sm, "x"), Some("1".to_string()));
    assert_eq!(value_of(sm, "y"), Some("2".to_string()));
    assert_eq!(sm.pairs().len(), 2);
}
