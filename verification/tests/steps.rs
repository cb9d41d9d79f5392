use app_store::app_store::AppStore;
use app_store::error::StoreError;
use app_store::existence::EnsurePathNodeType;
use app_store::id_sequence::cut_range;
use app_store::keys::{key_child_existence, key_tracking_info};
use app_store::path_nodes::{insert_in_order, path_less, path_recorded_by};
use app_store::retry::{OpenAttempt, ReadTxnRetry, RetryAction, RetryPhase};
use app_store::stable_path::{StableKey, StablePath};
use app_store::table::{Row, Write};
use app_store::values::{
    ChildExistenceInfo, StablePathEntryTrackingInfo, StablePathNodeType,
};
use std::collections::BTreeMap;

type Rows = BTreeMap<Vec<u8>, Vec<u8>>;

const DIRECTORY: StablePathNodeType = StablePathNodeType::Directory;
const COMPONENT: StablePathNodeType = StablePathNodeType::Component;

fn name(text: &str) -> StableKey {
    StableKey::Str(text.to_string())
}

fn path(names: &[&str]) -> StablePath {
    StablePath(names.iter().map(|n| name(n)).collect())
}

fn apply(rows: &mut Rows, write: Write) {
    match write {
        Write::Put { key, value } => {
            rows.insert(key, value);
        }
        other => panic!("expected a put, got {other:?}"),
    }
}

/// Carries the work out to its end; gives the number of lookups.
fn run(rows: &mut Rows, op: Option<EnsurePathNodeType>) -> Result<usize, StoreError> {
    let mut work = op;
    let mut lookups = 0;
    while let Some(op) = work {
        let lookup = op.lookup()?;
        lookups += 1;
        let reply = rows.get(&lookup.key).cloned();
        let step = op.resume(reply.as_deref())?;
        if let Some(write) = step.write {
            apply(rows, write);
        }
        work = step.next;
    }
    Ok(lookups)
}

fn node(rows: &Rows, names: &[&str]) -> Option<StablePathNodeType> {
    let p = path(names);
    let (parent, key) = p.as_ref().split_parent().unwrap();
    let store = AppStore;
    let lookup = store.read_path_node_type(parent, key).unwrap();
    let (parent, key) = p.as_ref().split_parent().unwrap();
    assert_eq!(lookup, store.read_path_node_type_in_txn(parent, key).unwrap());
    store.path_node_type(rows.get(&lookup.key).map(|v| v.as_slice())).unwrap()
}

// --- The path tree ---------------------------------------------------------

#[test]
fn a_component_is_recorded_with_its_directories() {
    let mut rows = Rows::new();
    let p = path(&["a", "b", "c"]);
    let op = AppStore.ensure_existence_chain(&p, &path(&["a", "b"]));
    assert_eq!(run(&mut rows, op), Ok(3));
    assert_eq!(node(&rows, &["a"]), Some(DIRECTORY));
    assert_eq!(node(&rows, &["a", "b"]), Some(DIRECTORY));
    assert_eq!(node(&rows, &["a", "b", "c"]), Some(COMPONENT));
    assert_eq!(rows.len(), 3);
}

#[test]
fn the_root_needs_no_record() {
    assert_eq!(AppStore.ensure_existence_chain_standalone(&StablePath(vec![])), None);
    assert_eq!(AppStore.ensure_existence_chain(&StablePath(vec![]), &path(&["x"])), None);
}

#[test]
fn recording_stops_at_the_first_row_that_is_there() {
    let mut rows = Rows::new();
    run(&mut rows, AppStore.ensure_existence_chain_standalone(&path(&["a", "b"]))).unwrap();
    let op = AppStore.ensure_existence_chain_standalone(&path(&["a", "c"]));
    assert_eq!(run(&mut rows, op), Ok(2));
    assert_eq!(rows.len(), 3);
}

#[test]
fn recording_again_changes_nothing() {
    let mut rows = Rows::new();
    let p = path(&["a", "b"]);
    run(&mut rows, AppStore.ensure_existence_chain_standalone(&p)).unwrap();
    let before = rows.clone();
    let again = AppStore.ensure_existence_chain_standalone(&p);
    assert_eq!(run(&mut rows, again), Ok(1));
    assert_eq!(rows, before);
}

#[test]
fn a_directory_is_promoted_and_a_component_is_not_demoted() {
    let mut rows = Rows::new();
    run(&mut rows, AppStore.ensure_existence_chain_standalone(&path(&["a", "b"]))).unwrap();
    assert_eq!(node(&rows, &["a"]), Some(DIRECTORY));
    run(&mut rows, AppStore.ensure_existence_chain_standalone(&path(&["a"]))).unwrap();
    assert_eq!(node(&rows, &["a"]), Some(COMPONENT));
    let root = StablePath(vec![]);
    let demote = AppStore.ensure_path_node_type(root.as_ref(), &name("a"), DIRECTORY);
    run(&mut rows, Some(demote)).unwrap();
    assert_eq!(node(&rows, &["a"]), Some(COMPONENT));
    assert_eq!(node(&rows, &["a", "b"]), Some(COMPONENT));
}

#[test]
fn rows_that_were_there_keep_their_bytes() {
    let mut rows = Rows::new();
    // The same info in a longer form than the store writes.
    let long = b"\x81\xd9\x09node_type\xa9Directory".to_vec();
    let root = StablePath(vec![]);
    let row = key_child_existence(&root, &name("a")).unwrap();
    rows.insert(row.clone(), long.clone());
    run(&mut rows, AppStore.ensure_existence_chain_standalone(&path(&["a", "b"]))).unwrap();
    assert_eq!(rows[&row], long);
    run(&mut rows, AppStore.ensure_existence_chain_standalone(&path(&["a"]))).unwrap();
    assert_ne!(rows[&row], long);
}

#[test]
fn paths_may_be_recorded_in_either_order() {
    let root = StablePath(vec![]);
    let deep = path(&["a", "b"]);
    let ops = || {
        vec![
            AppStore.ensure_existence_chain_standalone(&deep),
            AppStore.ensure_existence_chain_standalone(&path(&["a"])),
            Some(AppStore.ensure_path_node_type(root.as_ref(), &name("a"), DIRECTORY)),
            AppStore.ensure_existence_chain_standalone(&path(&["a", "b", "c"])),
        ]
    };
    let mut start = Rows::new();
    run(&mut start, AppStore.ensure_existence_chain_standalone(&path(&["z"]))).unwrap();
    for i in 0..4 {
        for j in 0..4 {
            let mut one = start.clone();
            run(&mut one, ops().swap_remove(i)).unwrap();
            run(&mut one, ops().swap_remove(j)).unwrap();
            let mut other = start.clone();
            run(&mut other, ops().swap_remove(j)).unwrap();
            run(&mut other, ops().swap_remove(i)).unwrap();
            assert_eq!(one, other);
        }
    }
}

#[test]
fn recorded_paths_are_listed_in_path_order() {
    let mut rows = Rows::new();
    for names in [&["b"][..], &["a", "x", "y"], &["a", "c"], &["ab"], &["a", "x"]] {
        run(&mut rows, AppStore.ensure_existence_chain_standalone(&path(names))).unwrap();
    }
    apply(&mut rows, AppStore.write_tracking_info_raw(&path(&["b"]), b"t").unwrap());
    apply(&mut rows, AppStore.write_id_sequence(&name("ids"), 3).unwrap());
    let scan = AppStore.spawn_stable_path_iter().unwrap();
    let scanned: Vec<Row> = rows
        .iter()
        .filter(|(key, _)| key.starts_with(&scan.prefix))
        .map(|(key, value)| Row { key: key.clone(), value: value.clone() })
        .collect();
    assert_eq!(
        AppStore.collect_path_nodes(&scanned),
        Ok(vec![
            (path(&["a"]), DIRECTORY),
            (path(&["a", "c"]), COMPONENT),
            (path(&["a", "x"]), COMPONENT),
            (path(&["a", "x", "y"]), COMPONENT),
            (path(&["ab"]), COMPONENT),
            (path(&["b"]), COMPONENT),
        ])
    );
    assert_eq!(AppStore.collect_path_nodes(&vec![]), Ok(vec![]));
}

#[test]
fn listing_recorded_paths_fails_at_the_first_bad_row() {
    let row = |key: Vec<u8>, value: Vec<u8>| Row { key, value };
    let root = StablePath(vec![]);
    let child = key_child_existence(&root, &name("a")).unwrap();
    let unreadable = row(child.clone(), vec![0xc1]);
    let other = row(vec![0x30, 2, b'a', 0], vec![]);
    let broken = row(vec![0x10], vec![]);
    let rows = vec![unreadable, other, broken];
    assert_eq!(AppStore.collect_path_nodes(&rows), Err(StoreError::ValueDecode));
    assert_eq!(
        AppStore.collect_path_nodes(&vec![row(vec![0x30, 2, b'a', 0], vec![])]),
        Err(StoreError::ExpectedStablePath)
    );
    let broken = vec![row(vec![0x10], vec![])];
    assert_eq!(AppStore.collect_path_nodes(&broken), Err(StoreError::KeyDecode));
    assert_eq!(path_recorded_by(&child), Ok(Some(path(&["a"]))));
    assert_eq!(path_recorded_by(&key_tracking_info(&root).unwrap()), Ok(None));
}

#[test]
fn paths_are_inserted_in_order() {
    let mut nodes = vec![];
    for names in [&["b"][..], &["a"], &["a", "z"], &["c"], &["a"]] {
        insert_in_order(&mut nodes, path(names), COMPONENT);
    }
    let listed: Vec<StablePath> = nodes.into_iter().map(|(p, _)| p).collect();
    let expected = [&["a"][..], &["a"], &["a", "z"], &["b"], &["c"]];
    assert_eq!(listed, expected.iter().map(|n| path(n)).collect::<Vec<_>>());
    assert!(path_less(&path(&["a"]), &path(&["a", "b"])));
    assert!(!path_less(&path(&["a"]), &path(&["a"])));
    assert!(!path_less(&path(&["ab"]), &path(&["a", "b"])));
}

#[test]
fn decisions_follow_the_promotion_rule() {
    let up = || EnsurePathNodeType::new(path(&["a"]).as_ref(), &name("b"), COMPONENT);
    let missing = up().decide(None);
    assert!(missing.write);
    let root = StablePath(vec![]);
    let rest = EnsurePathNodeType::new(root.as_ref(), &name("a"), DIRECTORY);
    assert_eq!(missing.next, Some(rest));
    let directory = up().decide(Some(DIRECTORY));
    assert!(directory.write && directory.next.is_none());
    let component = up().decide(Some(COMPONENT));
    assert!(!component.write && component.next.is_none());
    let down = EnsurePathNodeType::new(path(&["a"]).as_ref(), &name("b"), DIRECTORY);
    assert!(!down.decide(Some(DIRECTORY)).write);
    assert!(!down.decide(Some(COMPONENT)).write);
    assert!(down.decide(None).write);
}

#[test]
fn a_row_that_cannot_be_read_stops_the_recording() {
    let mut rows = Rows::new();
    rows.insert(key_child_existence(&path(&["a"]), &name("b")).unwrap(), vec![0xc1]);
    let before = rows.clone();
    let op = AppStore.ensure_existence_chain_standalone(&path(&["a", "b"]));
    assert_eq!(run(&mut rows, op), Err(StoreError::ValueDecode));
    assert_eq!(rows, before);
}

#[test]
fn child_existence_is_read_from_a_reply() {
    let info = ChildExistenceInfo { node_type: COMPONENT };
    let value = info.encode().unwrap();
    assert_eq!(AppStore.child_existence(Some(&value)), Ok(Some(info)));
    assert_eq!(AppStore.child_existence(None), Ok(None));
    assert_eq!(AppStore.child_existence(Some(&[1])), Err(StoreError::ValueDecode));
    let lookup = AppStore.read_child_existence_in_txn(&path(&["a"]), &name("b")).unwrap();
    assert_eq!(lookup.key, key_child_existence(&path(&["a"]), &name("b")).unwrap());
}

// --- ID sequencers ---------------------------------------------------------

fn reserve(rows: &mut Rows, key: &StableKey, count: u64) -> Result<u64, StoreError> {
    let op = AppStore.reserve_id_range(key, count);
    assert_eq!(op, AppStore.reserve_id_range_in_txn(key, count));
    let lookup = op.lookup()?;
    let reply = rows.get(&lookup.key).cloned();
    let range = op.resume(reply.as_deref())?;
    apply(rows, range.write);
    Ok(range.first_id)
}

fn peek(rows: &Rows, key: &StableKey) -> Option<u64> {
    let lookup = AppStore.peek_id_sequence_in_txn(key).unwrap();
    AppStore.id_sequence(rows.get(&lookup.key).map(|v| v.as_slice())).unwrap()
}

#[test]
fn ids_start_at_one_and_ranges_follow_each_other() {
    let mut rows = Rows::new();
    let key = name("ids");
    assert_eq!(peek(&rows, &key), None);
    assert_eq!(reserve(&mut rows, &key, 5), Ok(1));
    assert_eq!(peek(&rows, &key), Some(6));
    assert_eq!(reserve(&mut rows, &key, 0), Ok(6));
    assert_eq!(reserve(&mut rows, &key, 10), Ok(6));
    assert_eq!(reserve(&mut rows, &key, 1), Ok(16));
    assert_eq!(reserve(&mut rows, &name("other"), 1), Ok(1));
    assert_eq!(rows.len(), 2);
}

#[test]
fn other_work_between_reservations_does_not_matter() {
    let mut rows = Rows::new();
    let key = name("ids");
    let mut end = 1;
    for count in [3, 1, 7] {
        let first = reserve(&mut rows, &key, count).unwrap();
        assert!(first >= end);
        end = first + count;
        reserve(&mut rows, &name("other"), 100).unwrap();
        apply(&mut rows, AppStore.write_tracking_info_raw(&path(&["a"]), b"t").unwrap());
    }
    assert_eq!(end, 12);
}

#[test]
fn a_written_sequence_is_read_back() {
    let mut rows = Rows::new();
    let key = name("ids");
    apply(&mut rows, AppStore.write_id_sequence(&key, 42).unwrap());
    assert_eq!(peek(&rows, &key), Some(42));
    assert_eq!(reserve(&mut rows, &key, 3), Ok(42));
    assert_eq!(peek(&rows, &key), Some(45));
}

#[test]
fn an_exhausted_sequence_hands_out_nothing() {
    let mut rows = Rows::new();
    let key = name("ids");
    apply(&mut rows, AppStore.write_id_sequence(&key, u64::MAX - 1).unwrap());
    let before = rows.clone();
    assert_eq!(reserve(&mut rows, &key, 2), Err(StoreError::IdRangeExhausted));
    assert_eq!(rows, before);
    assert_eq!(reserve(&mut rows, &key, 1), Ok(u64::MAX - 1));
    assert_eq!(peek(&rows, &key), Some(u64::MAX));
    assert_eq!(reserve(&mut rows, &name("new"), u64::MAX), Err(StoreError::IdRangeExhausted));
}

#[test]
fn a_sequence_that_cannot_be_read_is_an_error() {
    let op = AppStore.reserve_id_range(&name("ids"), 1);
    assert_eq!(op.resume(Some(&[0x80])), Err(StoreError::ValueDecode));
    assert_eq!(AppStore.id_sequence(Some(&[0x80])), Err(StoreError::ValueDecode));
}

#[test]
fn cutting_a_range_moves_the_next_id() {
    assert_eq!(cut_range(None, 4), (1, 5));
    assert_eq!(cut_range(Some(7), 0), (7, 7));
    assert_eq!(cut_range(Some(0), 3), (0, 3));
}

#[test]
fn a_range_is_cut_where_enough_ids_are_left() {
    let op = AppStore.reserve_id_range(&name("ids"), 3);
    assert_eq!(op.range(None), Ok((1, 4)));
    assert_eq!(op.range(Some(10)), Ok((10, 13)));
    assert_eq!(op.range(Some(u64::MAX - 3)), Ok((u64::MAX - 3, u64::MAX)));
    assert_eq!(op.range(Some(u64::MAX - 2)), Err(StoreError::IdRangeExhausted));
}

// --- Staged tracking -------------------------------------------------------

fn tracking(token: Option<u128>) -> Vec<u8> {
    let info = StablePathEntryTrackingInfo {
        pending_process_token: token,
        fields: vec![
            ("version".to_string(), Some(vec![3])),
            ("states".to_string(), Some(vec![1, 2])),
        ],
    };
    info.encode().unwrap()
}

#[test]
fn a_process_clears_its_own_token_alone() {
    let p = path(&["a"]);
    let op = AppStore.clear_staged_tracking(&p, 77);
    assert_eq!(op.lookup().unwrap().key, key_tracking_info(&p).unwrap());
    assert_eq!(op.resume(None), Ok(None));
    assert_eq!(op.resume(Some(&tracking(None))), Ok(None));
    assert_eq!(op.resume(Some(&tracking(Some(78)))), Ok(None));
    let write = op.resume(Some(&tracking(Some(77)))).unwrap().unwrap();
    assert_eq!(
        write,
        Write::Put { key: key_tracking_info(&p).unwrap(), value: tracking(None) }
    );
}

#[test]
fn clearing_twice_writes_once_and_keeps_the_fields() {
    let op = AppStore.clear_staged_tracking(&path(&["a"]), u128::MAX);
    let mut rows = Rows::new();
    rows.insert(op.lookup().unwrap().key, tracking(Some(u128::MAX)));
    let first = op.resume(rows.get(&op.lookup().unwrap().key).map(|v| v.as_slice())).unwrap();
    apply(&mut rows, first.unwrap());
    let value = rows.get(&op.lookup().unwrap().key).unwrap();
    let info = StablePathEntryTrackingInfo::decode(value).unwrap();
    assert_eq!(info.pending_process_token, None);
    assert_eq!(
        info.fields,
        vec![
            ("states".to_string(), Some(vec![1, 2])),
            ("version".to_string(), Some(vec![3])),
        ]
    );
    assert_eq!(op.resume(Some(value)), Ok(None));
}

#[test]
fn only_the_own_token_is_unstaged() {
    let op = AppStore.clear_staged_tracking(&path(&["a"]), 5);
    let info = |token| StablePathEntryTrackingInfo {
        pending_process_token: token,
        fields: vec![("f".to_string(), Some(vec![1]))],
    };
    assert_eq!(op.unstage(info(Some(5))), Some(info(None)));
    assert_eq!(op.unstage(info(Some(6))), None);
    assert_eq!(op.unstage(info(None)), None);
}

#[test]
fn tracking_that_cannot_be_read_is_an_error() {
    let op = AppStore.clear_staged_tracking(&path(&["a"]), 1);
    assert_eq!(op.resume(Some(&[0xc1])), Err(StoreError::ValueDecode));
}

// --- Opening read transactions ---------------------------------------------

#[test]
fn pauses_double_up_to_the_longest() {
    let mut retry = AppStore.read_txn();
    let mut pauses = vec![];
    for _ in 0..9 {
        match retry.after(OpenAttempt::ReadersFull, 0) {
            RetryAction::Sleep { millis } => pauses.push(millis),
            other => panic!("expected a pause, got {other:?}"),
        }
    }
    assert_eq!(pauses, vec![10, 20, 40, 80, 160, 320, 640, 1000, 1000]);
    assert_eq!(retry.phase, RetryPhase::Short);
}

#[test]
fn the_last_pause_of_the_short_phase_is_cut() {
    let mut retry = ReadTxnRetry { phase: RetryPhase::Short, backoff_ms: 640 };
    let action = retry.after(OpenAttempt::ReadersFull, 2900);
    assert_eq!(action, RetryAction::Sleep { millis: 100 });
    assert_eq!(retry.backoff_ms, 1000);
}

#[test]
fn stale_readers_are_cleared_once_and_attempts_go_on() {
    let mut retry = ReadTxnRetry::new();
    let action = retry.after(OpenAttempt::ReadersFull, 3000);
    assert_eq!(action, RetryAction::ClearStaleReaders);
    assert_eq!(retry, ReadTxnRetry { phase: RetryPhase::Endless, backoff_ms: 10 });
    let action = retry.after(OpenAttempt::ReadersFull, u64::MAX);
    assert_eq!(action, RetryAction::Sleep { millis: 10 });
    assert_eq!(retry.after(OpenAttempt::Opened, 5), RetryAction::Finish);
}

#[test]
fn a_failed_clearing_is_handed_out() {
    let mut retry = AppStore.read_txn();
    assert_eq!(retry.after(OpenAttempt::ReadersFull, 3500), RetryAction::ClearStaleReaders);
    assert_eq!(retry.after_clearing(false), RetryAction::GiveUp);
    assert_eq!(retry.after_clearing(true), RetryAction::Open);
    assert_eq!(
        retry.after(OpenAttempt::ReadersFull, 9000),
        RetryAction::Sleep { millis: 10 }
    );
}

#[test]
fn another_failure_is_handed_out_at_once() {
    let mut retry = AppStore.read_txn();
    assert_eq!(retry.after(OpenAttempt::Failed, 0), RetryAction::GiveUp);
    let mut endless = ReadTxnRetry { phase: RetryPhase::Endless, backoff_ms: 1000 };
    assert_eq!(endless.after(OpenAttempt::Failed, 9), RetryAction::GiveUp);
}
