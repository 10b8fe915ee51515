use triad::batch::DeltaBatcher;
use triad::changes::{apply_changes, merge_changes};
use triad::recovery::{RecoveryError, RecoveryProtocol};

#[test]
fn recover_right_after_checkpoint_returns_it() {
    let mut p: RecoveryProtocol<&str, &str> = RecoveryProtocol::new();
    p.add_delta(50, "early");
    p.add_checkpoint(100, "s");
    let (cp, deltas) = p.recovery_plan(100).unwrap();
    assert_eq!(*p.checkpoint_state(cp), "s");
    assert!(deltas.is_empty());
}

#[test]
fn recovery_replays_deltas_in_timestamp_order() {
    let mut p: RecoveryProtocol<u32, &str> = RecoveryProtocol::new();
    p.add_checkpoint(10, 1);
    p.add_checkpoint(20, 2);
    p.add_delta(25, "b");
    p.add_delta(22, "a");
    p.add_delta(30, "c");
    p.add_delta(15, "before");
    let (cp, deltas) = p.recovery_plan(27).unwrap();
    assert_eq!(p.checkpoint_id(cp), 20);
    let names: Vec<&str> = deltas.iter().map(|&i| *p.delta_at(i)).collect();
    assert_eq!(names, vec!["a", "b"]);
    assert_eq!(p.recovery_plan(5), Err(RecoveryError::NoCheckpointBefore));
}

#[test]
fn checkpoints_evict_oldest() {
    let mut p: RecoveryProtocol<u32, u32> = RecoveryProtocol::with_limits(3, 2);
    p.add_checkpoint(5, 50);
    p.add_checkpoint(1, 10);
    p.add_checkpoint(9, 90);
    assert_eq!(p.checkpoint_count(), 2);
    assert_eq!(p.checkpoint_id(0), 5);
    assert_eq!(p.checkpoint_id(1), 9);
    p.add_checkpoint(9, 91);
    assert_eq!(*p.checkpoint_state(1), 91);
    assert_eq!(p.get_last_checkpoint(), Ok(1));
    for t in 0..5 {
        p.add_delta(t, t as u32);
    }
    assert_eq!(p.history_len(), 3);
    assert_eq!(*p.delta_at(0), 2);
    p.set_max_history_length(1);
    assert_eq!(p.history_len(), 1);
    p.set_max_checkpoints(1);
    assert_eq!(p.checkpoint_id(0), 9);
    p.clear_checkpoints();
    assert_eq!(p.get_last_checkpoint(), Err(RecoveryError::CheckpointNotFound));
}

#[test]
fn batch_leaves_on_count() {
    let mut b: DeltaBatcher<u8> = DeltaBatcher::new(1000, 3, 10_000);
    assert!(b.add_delta(1, 10, 0).is_none());
    assert!(b.add_delta(2, 10, 1).is_none());
    assert_eq!(b.pending_count(), 2);
    assert_eq!(b.pending_size(), 20);
    assert_eq!(b.add_delta(3, 10, 2), Some(vec![1, 2, 3]));
    assert_eq!(b.pending_count(), 0);
}

#[test]
fn batch_leaves_on_size_and_time() {
    let mut b: DeltaBatcher<u8> = DeltaBatcher::new(100, 10, 50);
    assert!(b.add_delta(1, 60, 0).is_none());
    assert_eq!(b.add_delta(2, 40, 10), Some(vec![1, 2]));
    assert!(b.add_delta(3, 1, 100).is_none());
    assert!(!b.should_send_batch(149));
    assert!(b.check_pending_batch(149).is_none());
    assert_eq!(b.check_pending_batch(150), Some(vec![3]));
    assert!(b.take_batch().is_empty());
}

#[test]
fn merge_lets_later_changes_win() {
    let a = vec![(1u64, 'a'), (4, 'b'), (7, 'c')];
    let b = vec![(0u64, 'x'), (4, 'y')];
    assert_eq!(merge_changes(&a, &b), vec![(0, 'x'), (1, 'a'), (4, 'y'), (7, 'c')]);
    assert_eq!(merge_changes(&a, &Vec::new()), a);
}

#[test]
fn apply_writes_changed_entries_only() {
    let mut state = vec![0i32, 1, 2, 3];
    apply_changes(&mut state, &vec![(1u64, 10), (3, 30)]);
    assert_eq!(state, vec![0, 10, 2, 30]);
    let before = state.clone();
    apply_changes(&mut state, &Vec::new());
    assert_eq!(state, before);
}

#[test]
fn history_keeps_arrival_order_and_evicts_first_arrival() {
    let mut p: RecoveryProtocol<u8, &str> = RecoveryProtocol::with_limits(2, 4);
    p.add_checkpoint(1, 0);
    p.add_delta(5, "five");
    p.add_delta(3, "three");
    assert_eq!(*p.delta_at(0), "five");
    assert_eq!(*p.delta_at(1), "three");
    let (_, order) = p.recovery_plan(10).unwrap();
    let names: Vec<&str> = order.iter().map(|&i| *p.delta_at(i)).collect();
    assert_eq!(names, vec!["three", "five"]);
    p.add_delta(4, "four");
    // the delta that arrived first leaves, not the smallest stamp
    assert_eq!(p.history_len(), 2);
    assert_eq!(*p.delta_at(0), "three");
    assert_eq!(*p.delta_at(1), "four");
    p.add_delta(4, "four-again");
    let (_, order) = p.recovery_plan(10).unwrap();
    let names: Vec<&str> = order.iter().map(|&i| *p.delta_at(i)).collect();
    assert_eq!(names, vec!["four", "four-again"]);
}
