use indexer_core::executor::{
    initial_cursor, BatchOutcome, ExecutorState, ExecutorSource, SchedulerAction, StoreOp,
    TxnStore,
};

#[test]
fn cursors_start_one_before_the_start_block() {
    assert_eq!(initial_cursor(1), None);
    assert_eq!(initial_cursor(10), Some("9".to_string()));
}

#[test]
fn executor_sources_hand_out_their_bytes() {
    assert_eq!(ExecutorSource::Manifest.to_vec(), Vec::<u8>::new());
    assert_eq!(
        ExecutorSource::Registry(vec![1, 2, 3]).to_vec(),
        vec![1, 2, 3]
    );
}

#[test]
fn a_delivered_cursor_advances_and_resets() {
    let mut st = ExecutorState::new(5, true);
    let a = st.on_batch_outcome(
        BatchOutcome::PageDone {
            cursor: Some("12".to_string()),
        },
        false,
    );
    assert_eq!(a, SchedulerAction::Proceed);
    assert_eq!(st.next_cursor, Some("12".to_string()));
    assert_eq!(st.num_empty_block_reqs, 0);
    assert_eq!(st.retry_count, 0);
}

#[test]
fn repeated_failures_give_up_at_the_cap() {
    let mut st = ExecutorState::new(1, true);
    for _ in 0..9 {
        let a = st.on_batch_outcome(BatchOutcome::HandlerFailed, false);
        assert_eq!(a, SchedulerAction::RetryAfterDelay { delay: 5 });
    }
    let a = st.on_batch_outcome(BatchOutcome::HandlerFailed, false);
    assert_eq!(a, SchedulerAction::GiveUpFailed);
}

#[test]
fn idle_pages_give_up_under_the_stop_idle_policy() {
    let mut st = ExecutorState::new(1, true);
    for _ in 0..9 {
        let a = st.on_batch_outcome(BatchOutcome::PageDone { cursor: None }, false);
        assert_eq!(a, SchedulerAction::IdleSleep { delay: 1 });
    }
    let a = st.on_batch_outcome(BatchOutcome::PageDone { cursor: None }, false);
    assert_eq!(a, SchedulerAction::GiveUpIdle);
}

#[test]
fn the_kill_flag_exits_between_batches() {
    let mut st = ExecutorState::new(1, false);
    let a = st.on_batch_outcome(
        BatchOutcome::PageDone {
            cursor: Some("2".to_string()),
        },
        true,
    );
    assert_eq!(a, SchedulerAction::Exit);
}

#[test]
fn a_failed_batch_leaves_no_rows_behind() {
    let mut store = TxnStore::new();
    store
        .handle_batch(
            vec![StoreOp::PutRow(1, vec![1]), StoreOp::PutRow(2, vec![2])],
            false,
        )
        .unwrap();
    assert_eq!(store.committed.get(1), Some(&vec![1u8]));
    let r = store.handle_batch(
        vec![StoreOp::PutRow(3, vec![3]), StoreOp::DeleteRow(1)],
        true,
    );
    assert!(r.is_err());
    assert_eq!(store.committed.get(3), None);
    assert_eq!(store.committed.get(1), Some(&vec![1u8]));
}

#[test]
fn a_committed_batch_publishes_every_row() {
    let mut store = TxnStore::new();
    store
        .handle_batch(
            vec![
                StoreOp::PutRow(1, vec![1]),
                StoreOp::PutRow(2, vec![2]),
                StoreOp::DeleteRow(1),
            ],
            false,
        )
        .unwrap();
    assert_eq!(store.committed.get(1), None);
    assert_eq!(store.committed.get(2), Some(&vec![2u8]));
}

#[test]
fn a_failed_fetch_waits_without_advancing() {
    let mut st = ExecutorState::new(7, true);
    st.on_batch_outcome(BatchOutcome::HandlerFailed, false);
    let a = st.on_batch_outcome(BatchOutcome::FetchFailed, false);
    assert_eq!(a, SchedulerAction::RetryAfterDelay { delay: 5 });
    assert_eq!(st.next_cursor, Some("6".to_string()));
    assert_eq!(st.retry_count, 0);
    assert_eq!(st.num_empty_block_reqs, 0);
    let a = st.on_batch_outcome(BatchOutcome::FetchFailed, true);
    assert_eq!(a, SchedulerAction::Exit);
}
