use app_store::app_store::AppStore;
use app_store::db_schema::{
    DbEntryKey, Fingerprint, StablePathEntryKey, StablePathPrefix, TargetStatePath,
};
use app_store::error::StoreError;
use app_store::keys::{
    key_child_existence, key_child_existence_prefix, key_component_memo, key_fn_memo,
    key_fn_memo_prefix, key_id_sequencer, key_target_state_owner, key_tombstone,
    key_tombstone_prefix, key_tracking_info, key_user_state, key_user_state_prefix,
};
use app_store::listing::keyed_child;
use app_store::stable_path::{StableKey, StablePath};
use app_store::table::{put_encoded, Row, Scan, Write};
use app_store::values::{
    value_encoded, ChildExistenceInfo, FunctionMemoizationEntry, IdSequencerInfo,
    StablePathEntryTrackingInfo, StablePathNodeType, TargetStateOwnerInfo,
};
use std::collections::BTreeMap;

fn name(text: &str) -> StableKey {
    StableKey::Str(text.to_string())
}

fn sym(text: &str) -> StableKey {
    StableKey::Symbol(text.to_string())
}

fn path(names: &[&str]) -> StablePath {
    StablePath(names.iter().map(|n| name(n)).collect())
}

fn put_parts(write: Write) -> (Vec<u8>, Vec<u8>) {
    match write {
        Write::Put { key, value } => (key, value),
        other => panic!("expected a put, got {other:?}"),
    }
}

fn scan_rows(rows: &BTreeMap<Vec<u8>, Vec<u8>>, scan: &Scan) -> Vec<Row> {
    rows.iter()
        .filter(|(key, _)| key.starts_with(&scan.prefix))
        .map(|(key, value)| Row { key: key.clone(), value: value.clone() })
        .collect()
}

// --- Row keys --------------------------------------------------------------

#[test]
fn row_keys_have_their_exact_bytes() {
    let p = path(&["a"]);
    let head = [0x10, 2, b'a', 0, 0];
    let with = |tail: &[u8]| {
        let mut bytes = head.to_vec();
        bytes.extend_from_slice(tail);
        bytes
    };
    assert_eq!(key_tracking_info(&p).unwrap(), with(&[0x10]));
    assert_eq!(key_component_memo(&p).unwrap(), with(&[0x20]));
    assert_eq!(key_fn_memo_prefix(&p).unwrap(), with(&[0x30]));
    assert_eq!(key_child_existence_prefix(&p).unwrap(), with(&[0x40]));
    assert_eq!(key_tombstone_prefix(&p).unwrap(), with(&[0x50]));
    assert_eq!(key_user_state_prefix(&p).unwrap(), with(&[0x60]));
    let mut memo = vec![0x30];
    memo.extend_from_slice(&[7; 16]);
    assert_eq!(key_fn_memo(&p, Fingerprint([7; 16])).unwrap(), with(&memo));
    assert_eq!(key_child_existence(&p, &sym("x")).unwrap(), with(&[0x40, 3, b'x', 0]));
    assert_eq!(key_user_state(&p, &name("x")).unwrap(), with(&[0x60, 2, b'x', 0]));
    assert_eq!(key_tombstone(&p, &path(&["b"])).unwrap(), with(&[0x50, 2, b'b', 0, 0]));
    assert_eq!(key_id_sequencer(&name("q")).unwrap(), vec![0x30, 2, b'q', 0]);
    let mut owner = vec![0x20, 2];
    owner.extend_from_slice(&[9; 16]);
    owner.push(0);
    let target = TargetStatePath(vec![Fingerprint([9; 16])]);
    assert_eq!(key_target_state_owner(&target).unwrap(), owner);
}

#[test]
fn text_in_row_keys_is_escaped() {
    let key = key_id_sequencer(&name("a\u{0}b\u{1}")).unwrap();
    assert_eq!(key, vec![0x30, 2, b'a', 1, 0, b'b', 1, 1, 0]);
}

#[test]
fn group_keys_have_their_exact_bytes() {
    let all = DbEntryKey::StablePathPrefixPrefix(StablePathPrefix::default());
    assert_eq!(all.encode().unwrap(), vec![0x10]);
    let some = DbEntryKey::StablePathPrefixPrefix(StablePathPrefix(vec![name("a")]));
    assert_eq!(some.encode().unwrap(), vec![0x10, 2, b'a', 0]);
    let one = DbEntryKey::StablePathPrefix(path(&["a"]));
    assert_eq!(one.encode().unwrap(), vec![0x10, 2, b'a', 0, 0]);
}

#[test]
fn row_keys_read_back() {
    let p = StablePath(vec![name("a\u{0}"), sym("\u{1}"), name("")]);
    let entries = vec![
        StablePathEntryKey::TrackingInfo,
        StablePathEntryKey::ComponentMemoization,
        StablePathEntryKey::FunctionMemoization(Fingerprint([0; 16])),
        StablePathEntryKey::ChildExistence(sym("k")),
        StablePathEntryKey::ChildComponentTombstone(path(&["x", "y"])),
        StablePathEntryKey::UserState(name("u")),
    ];
    for entry in entries {
        let key = DbEntryKey::StablePath(p.clone(), entry);
        assert_eq!(DbEntryKey::decode(&key.encode().unwrap()).unwrap(), key);
    }
    let target = DbEntryKey::TargetState(TargetStatePath(vec![
        Fingerprint([1; 16]),
        Fingerprint([0; 16]),
    ]));
    assert_eq!(DbEntryKey::decode(&target.encode().unwrap()).unwrap(), target);
    let sequencer = DbEntryKey::IdSequencer(sym("s"));
    assert_eq!(DbEntryKey::decode(&sequencer.encode().unwrap()).unwrap(), sequencer);
}

#[test]
fn broken_row_keys_are_refused() {
    let broken: Vec<Vec<u8>> = vec![
        vec![],
        vec![0x99],
        vec![0x10],
        vec![0x10, 0],
        vec![0x10, 0, 0x10, 0],
        vec![0x10, 0, 0x77],
        vec![0x10, 2, b'a'],
        vec![0x10, 2, 0xff, 0, 0, 0x10],
        vec![0x10, 0, 0x30, 1, 2],
        vec![0x10, 0, 0x40, 2, b'a', 0, 5],
        vec![0x20, 2, 1, 0],
        vec![0x20, 0, 0],
        vec![0x30, 4, b'a', 0],
    ];
    for bytes in broken {
        assert_eq!(DbEntryKey::decode(&bytes), Err(StoreError::KeyDecode), "{bytes:?}");
    }
}

#[test]
fn row_keys_are_ordered_as_paths_are() {
    let mut paths = vec![
        StablePath(vec![]),
        path(&["a"]),
        path(&["a", "b"]),
        path(&["a\u{0}"]),
        path(&["ab"]),
        path(&["b"]),
        StablePath(vec![sym("a")]),
        StablePath(vec![name("a"), sym("")]),
    ];
    let mut keys: Vec<Vec<u8>> = paths.iter().map(|p| key_tracking_info(p).unwrap()).collect();
    keys.sort();
    paths.sort();
    let sorted: Vec<Vec<u8>> = paths.iter().map(|p| key_tracking_info(p).unwrap()).collect();
    assert_eq!(keys, sorted);
}

#[test]
fn rows_of_a_path_share_a_prefix_of_their_own() {
    let prefix = DbEntryKey::StablePathPrefix(path(&["a"])).encode().unwrap();
    for (p, own) in [
        (path(&["a"]), true),
        (path(&["a", "b"]), false),
        (path(&["ab"]), false),
        (path(&["a\u{0}"]), false),
        (StablePath(vec![sym("a")]), false),
        (StablePath(vec![]), false),
    ] {
        let keys = [
            key_tracking_info(&p).unwrap(),
            key_user_state(&p, &sym("k")).unwrap(),
            key_tombstone(&p, &path(&["a"])).unwrap(),
        ];
        for key in keys {
            assert_eq!(key.starts_with(&prefix), own, "{p:?}");
        }
    }
    assert!(!key_id_sequencer(&name("a")).unwrap().starts_with(&prefix));
}

#[test]
fn different_rows_have_different_keys() {
    let paths = [StablePath(vec![]), path(&["a"]), path(&["a", "b"]), path(&["ab"])];
    let mut keys = Vec::new();
    for p in &paths {
        keys.push(key_tracking_info(p).unwrap());
        keys.push(key_component_memo(p).unwrap());
        keys.push(key_fn_memo(p, Fingerprint([1; 16])).unwrap());
        keys.push(key_child_existence(p, &name("a")).unwrap());
        keys.push(key_user_state(p, &name("a")).unwrap());
        for relative in &paths {
            keys.push(key_tombstone(p, relative).unwrap());
        }
    }
    keys.push(key_id_sequencer(&name("a")).unwrap());
    keys.push(key_id_sequencer(&sym("a")).unwrap());
    keys.push(key_target_state_owner(&TargetStatePath(vec![])).unwrap());
    let count = keys.len();
    keys.sort();
    keys.dedup();
    assert_eq!(keys.len(), count);
    for key in keys {
        assert_eq!(DbEntryKey::decode(&key).unwrap().encode().unwrap(), key);
    }
}

// --- Row values ------------------------------------------------------------

#[test]
fn id_sequencer_value_has_its_exact_bytes() {
    let value = IdSequencerInfo { next_id: 5 }.encode().unwrap();
    assert_eq!(value, b"\x81\xa7next_id\x05");
    assert_eq!(IdSequencerInfo::decode(&value), Ok(IdSequencerInfo { next_id: 5 }));
    let forms: Vec<(u64, Vec<u8>)> = vec![
        (0, vec![0]),
        (127, vec![0x7f]),
        (128, vec![0xcc, 0x80]),
        (255, vec![0xcc, 0xff]),
        (256, vec![0xcd, 1, 0]),
        (0xffff, vec![0xcd, 0xff, 0xff]),
        (0x1_0000, vec![0xce, 0, 1, 0, 0]),
        (0xffff_ffff, vec![0xce, 0xff, 0xff, 0xff, 0xff]),
        (0x1_0000_0000, vec![0xcf, 0, 0, 0, 1, 0, 0, 0, 0]),
        (u64::MAX, vec![0xcf, 0xff, 0xff, 0xff, 0xff, 0xff, 0xff, 0xff, 0xff]),
    ];
    for (next_id, form) in forms {
        let info = IdSequencerInfo { next_id };
        let value = info.encode().unwrap();
        assert_eq!(value[9..], form);
        assert_eq!(IdSequencerInfo::decode(&value), Ok(info));
    }
}

#[test]
fn child_existence_value_has_its_exact_bytes() {
    let directory = ChildExistenceInfo { node_type: StablePathNodeType::Directory };
    let component = ChildExistenceInfo { node_type: StablePathNodeType::Component };
    assert_eq!(directory.encode().unwrap(), b"\x81\xa9node_type\xa9Directory");
    assert_eq!(component.encode().unwrap(), b"\x81\xa9node_type\xa9Component");
    for info in [directory, component] {
        assert_eq!(ChildExistenceInfo::decode(&info.encode().unwrap()), Ok(info));
    }
}

#[test]
fn owner_value_has_its_exact_bytes() {
    let info = TargetStateOwnerInfo { component_path: path(&["a"]) };
    let value = info.encode().unwrap();
    assert_eq!(value, b"\x81\xaecomponent_path\x94\x02\x61\x00\x00");
    assert_eq!(TargetStateOwnerInfo::decode(&value), Ok(info));
}

#[test]
fn memo_value_reads_back() {
    let memo = FunctionMemoizationEntry { value: vec![0, 200, 7] };
    let value = memo.encode().unwrap();
    assert_eq!(value, b"\x81\xa5value\x93\x00\xcc\xc8\x07");
    assert_eq!(FunctionMemoizationEntry::decode(&value), Ok(memo));
}

#[test]
fn tracking_value_reads_back() {
    for token in [None, Some(0), Some(u128::MAX - 1)] {
        let info = StablePathEntryTrackingInfo {
            pending_process_token: token,
            fields: vec![("a".to_string(), Some(vec![1, 2])), ("z".to_string(), None)],
        };
        let again = StablePathEntryTrackingInfo {
            pending_process_token: token,
            fields: vec![("a".to_string(), Some(vec![1, 2])), ("z".to_string(), None)],
        };
        let value = info.encode().unwrap();
        assert_eq!(StablePathEntryTrackingInfo::decode(&value), Ok(again));
    }
}

#[test]
fn tracking_value_has_its_exact_bytes() {
    let none = StablePathEntryTrackingInfo { pending_process_token: None, fields: vec![] };
    assert_eq!(none.encode().unwrap(), b"\x81\xb5pending_process_token\xc0");
    let some = StablePathEntryTrackingInfo { pending_process_token: Some(258), fields: vec![] };
    let mut value = b"\x81\xb5pending_process_token\xdc\x00\x10".to_vec();
    value.extend_from_slice(&[0; 14]);
    value.extend_from_slice(&[1, 2]);
    assert_eq!(some.encode().unwrap(), value);
}

#[test]
fn a_token_is_read_as_a_number_is_written() {
    let mut record = std::collections::BTreeMap::new();
    for token in [Some(0x0102_0304_u128 << 64), None] {
        record.insert("pending_process_token", token);
        let value = rmp_serde::to_vec_named(&record).unwrap();
        let info = StablePathEntryTrackingInfo::decode(&value).unwrap();
        assert_eq!(info.pending_process_token, token);
        assert!(info.fields.is_empty());
    }
    let info = StablePathEntryTrackingInfo::decode(b"\x80").unwrap();
    assert_eq!(info.pending_process_token, None);
}

#[test]
fn broken_values_are_refused() {
    let refused = Err(StoreError::ValueDecode);
    assert_eq!(IdSequencerInfo::decode(b""), refused);
    assert_eq!(IdSequencerInfo::decode(b"\x81\xa5other\x05"), refused);
    assert_eq!(IdSequencerInfo::decode(b"\x81\xa7next_id\xa1x"), refused);
    let refused = Err(StoreError::ValueDecode);
    assert_eq!(ChildExistenceInfo::decode(b"\x81\xa9node_type\xa4Leaf"), refused);
    assert_eq!(ChildExistenceInfo::decode(b"\x80"), refused);
    assert_eq!(ChildExistenceInfo::decode(b"\xc1"), refused);
    assert!(TargetStateOwnerInfo::decode(b"\x81\xaecomponent_path\x91\x05").is_err());
    assert!(TargetStateOwnerInfo::decode(b"\x80").is_err());
    assert!(FunctionMemoizationEntry::decode(b"\x80").is_err());
    let short = b"\x81\xb5pending_process_token\x91\x01";
    assert_eq!(StablePathEntryTrackingInfo::decode(short), Err(StoreError::ValueDecode));
}

#[test]
fn records_are_read_by_field_name() {
    let pair = |a: &str, b: &str| (a.to_string(), b.to_string());
    let words = vec![pair("other", "x"), pair("node_type", "Component")];
    let component = ChildExistenceInfo { node_type: StablePathNodeType::Component };
    assert_eq!(ChildExistenceInfo::from_words(&words), Ok(component));
    let words = vec![pair("node_type", "component")];
    assert_eq!(ChildExistenceInfo::from_words(&words), Err(StoreError::ValueDecode));
    assert_eq!(ChildExistenceInfo::from_words(&vec![]), Err(StoreError::ValueDecode));

    let numbers = vec![("a".to_string(), 1), ("next_id".to_string(), 9)];
    assert_eq!(IdSequencerInfo::from_numbers(&numbers), Ok(IdSequencerInfo { next_id: 9 }));
    let numbers = vec![("a".to_string(), 1)];
    assert_eq!(IdSequencerInfo::from_numbers(&numbers), Err(StoreError::ValueDecode));

    let fields = vec![("component_path".to_string(), Some(vec![3, b'q', 0, 0]))];
    let owner = TargetStateOwnerInfo { component_path: StablePath(vec![sym("q")]) };
    assert_eq!(TargetStateOwnerInfo::from_fields(fields), Ok(owner));
    let fields = vec![("component_path".to_string(), Some(vec![3, b'q', 0]))];
    assert_eq!(TargetStateOwnerInfo::from_fields(fields), Err(StoreError::ValueDecode));

    let fields = vec![("component_path".to_string(), None)];
    assert_eq!(TargetStateOwnerInfo::from_fields(fields), Err(StoreError::ValueDecode));

    let fields = vec![("value".to_string(), Some(vec![8]))];
    let memo = FunctionMemoizationEntry { value: vec![8] };
    assert_eq!(FunctionMemoizationEntry::from_fields(fields), Ok(memo));

    let mut token = vec![0; 16];
    token[15] = 2;
    token[14] = 1;
    let fields = vec![
        ("pending_process_token".to_string(), Some(token)),
        ("rest".to_string(), Some(vec![5])),
    ];
    let info = StablePathEntryTrackingInfo {
        pending_process_token: Some(258),
        fields: vec![("rest".to_string(), Some(vec![5]))],
    };
    assert_eq!(StablePathEntryTrackingInfo::from_fields(fields), Ok(info));
    let fields = vec![("pending_process_token".to_string(), None)];
    let info = StablePathEntryTrackingInfo { pending_process_token: None, fields: vec![] };
    assert_eq!(StablePathEntryTrackingInfo::from_fields(fields), Ok(info));
    let fields = vec![("pending_process_token".to_string(), Some(vec![1; 17]))];
    let refused = Err(StoreError::ValueDecode);
    assert_eq!(StablePathEntryTrackingInfo::from_fields(fields), refused);
}

#[test]
fn a_value_that_cannot_be_encoded_is_not_put() {
    let failure = rmp_serde::encode::Error::InvalidDataModel("no");
    let value = value_encoded(Err(failure));
    assert_eq!(value, Err(StoreError::ValueEncode));
    assert_eq!(put_encoded(vec![1], value), Err(StoreError::ValueEncode));
    assert_eq!(value_encoded(Ok(vec![2])), Ok(vec![2]));
    let put = Write::Put { key: vec![1], value: vec![2] };
    assert_eq!(put_encoded(vec![1], Ok(vec![2])), Ok(put));
}

#[test]
fn a_child_needs_a_key_and_a_value() {
    let info = ChildExistenceInfo { node_type: StablePathNodeType::Directory };
    let key = [2, b'a', 0];
    assert_eq!(keyed_child(&key, Ok(info)), Ok((name("a"), info)));
    let failed = Err(StoreError::ValueDecode);
    assert_eq!(keyed_child(&key, failed), Err(StoreError::ValueDecode));
    assert_eq!(keyed_child(&key[..2], failed), Err(StoreError::KeyDecode));
    assert_eq!(keyed_child(&key[..2], Ok(info)), Err(StoreError::KeyDecode));
}

// --- Single rows -----------------------------------------------------------

#[test]
fn raw_rows_are_put_looked_up_and_deleted_under_one_key() {
    let store = AppStore;
    let p = path(&["a", "b"]);
    let key = key_tracking_info(&p).unwrap();
    assert_eq!(store.read_tracking_info(&p).unwrap().key, key);
    assert_eq!(store.read_tracking_info_in_txn(&p).unwrap().key, key);
    let put = store.write_tracking_info_raw(&p, b"raw").unwrap();
    assert_eq!(put, Write::Put { key: key.clone(), value: b"raw".to_vec() });
    assert_eq!(store.delete_tracking_info(&p).unwrap(), Write::Delete { key });

    let key = key_component_memo(&p).unwrap();
    assert_eq!(store.read_component_memo(&p).unwrap().key, key);
    assert_eq!(store.read_component_memo_in_txn(&p).unwrap().key, key);
    let put = Write::Put { key: key.clone(), value: b"memo".to_vec() };
    assert_eq!(store.write_component_memo_raw(&p, b"memo").unwrap(), put);
    assert_eq!(store.finalize_memoization(&p, b"memo").unwrap(), put);
    assert_eq!(store.finalize_memoization_standalone(&p, b"memo").unwrap(), put);
    assert_eq!(store.delete_component_memo(&p).unwrap(), Write::Delete { key: key.clone() });
    assert_eq!(store.delete_component_memo_in_txn(&p).unwrap(), Write::Delete { key });
}

#[test]
fn owner_is_read_back_and_replaced() {
    let store = AppStore;
    let target = TargetStatePath(vec![Fingerprint([1; 16]), Fingerprint([2; 16])]);
    let mut rows = BTreeMap::new();
    for owner in [path(&["a"]), path(&["b", "c"])] {
        let (key, value) = put_parts(store.upsert_target_state_owner(&target, &owner).unwrap());
        rows.insert(key, value);
        let lookup = store.read_target_state_owner_in_txn(&target).unwrap();
        let reply = rows.get(&lookup.key).map(|v| v.as_slice());
        let info = store.target_state_owner(reply).unwrap().unwrap();
        assert_eq!(info.component_path, owner);
    }
    assert_eq!(rows.len(), 1);
    match store.delete_target_state_owner(&target).unwrap() {
        Write::Delete { key } => assert!(rows.remove(&key).is_some()),
        other => panic!("expected a delete, got {other:?}"),
    }
    assert_eq!(store.target_state_owner(None), Ok(None));
    assert_eq!(store.target_state_owner(Some(&[0xc1])), Err(StoreError::ValueDecode));
}

// --- Listings --------------------------------------------------------------

#[test]
fn fn_memos_are_listed_and_deleted_by_path() {
    let store = AppStore;
    let p = path(&["a"]);
    let q = path(&["a", "b"]);
    let mut rows = BTreeMap::new();
    for (at, fp) in [(&p, [2; 16]), (&p, [1; 16]), (&q, [3; 16])] {
        let write = store.write_fn_memo_raw(at, Fingerprint(fp), &[fp[0]]).unwrap();
        let (key, value) = put_parts(write);
        rows.insert(key, value);
    }
    let scan = store.list_fn_memos(&p).unwrap();
    let listed = store.collect_fn_memos(&scan, &scan_rows(&rows, &scan)).unwrap();
    assert_eq!(
        listed,
        vec![(Fingerprint([1; 16]), vec![1]), (Fingerprint([2; 16]), vec![2])]
    );
    let gone = store.delete_fn_memo(&p, Fingerprint([1; 16])).unwrap();
    assert_eq!(gone, Write::Delete { key: key_fn_memo(&p, Fingerprint([1; 16])).unwrap() });
    let all = store.delete_all_fn_memos(&p).unwrap();
    assert_eq!(all, Write::DeletePrefix { prefix: scan.prefix.clone() });
    assert!(!key_fn_memo(&q, Fingerprint([3; 16])).unwrap().starts_with(&scan.prefix));
}

#[test]
fn encoded_fn_memo_is_put() {
    let store = AppStore;
    let p = path(&["a"]);
    let memo = FunctionMemoizationEntry { value: vec![4, 5] };
    let (key, value) = put_parts(store.write_fn_memo(&p, Fingerprint([6; 16]), &memo).unwrap());
    assert_eq!(key, key_fn_memo(&p, Fingerprint([6; 16])).unwrap());
    assert_eq!(FunctionMemoizationEntry::decode(&value), Ok(memo));
}

#[test]
fn tombstones_are_listed_and_swept() {
    let store = AppStore;
    let parent = path(&["p"]);
    let mut rows = BTreeMap::new();
    for relative in [path(&["b"]), path(&["a", "x"]), path(&["a"])] {
        let (key, value) = put_parts(store.write_tombstone(&parent, &relative).unwrap());
        assert!(value.is_empty());
        rows.insert(key, value);
    }
    let scan = store.list_tombstones(&parent).unwrap();
    let listed = store.collect_tombstones(&scan, &scan_rows(&rows, &scan)).unwrap();
    assert_eq!(listed, vec![path(&["a"]), path(&["a", "x"]), path(&["b"])]);
    let key = key_tombstone(&parent, &path(&["a"])).unwrap();
    let sweep = Write::Delete { key };
    assert_eq!(store.delete_tombstone(&parent, &path(&["a"])).unwrap(), sweep);
    assert_eq!(store.cleanup_tombstone(&parent, &path(&["a"])).unwrap(), sweep);
    assert_eq!(store.cleanup_tombstone_standalone(&parent, &path(&["a"])).unwrap(), sweep);
}

#[test]
fn removing_a_child_leaves_a_tombstone() {
    let store = AppStore;
    let writes = store
        .remove_child_with_tombstone(&path(&["p"]), &sym("c"), &path(&["o"]), &path(&["r"]))
        .unwrap();
    assert_eq!(
        writes,
        vec![
            Write::Delete { key: key_child_existence(&path(&["p"]), &sym("c")).unwrap() },
            Write::Put {
                key: key_tombstone(&path(&["o"]), &path(&["r"])).unwrap(),
                value: vec![],
            },
        ]
    );
}

#[test]
fn children_are_listed_in_key_order() {
    let store = AppStore;
    let parent = path(&["p"]);
    let directory = ChildExistenceInfo { node_type: StablePathNodeType::Directory };
    let component = ChildExistenceInfo { node_type: StablePathNodeType::Component };
    let mut rows = BTreeMap::new();
    for (key, info) in [(sym("a"), directory), (name("z"), component), (name("b"), directory)] {
        let (row, value) = put_parts(store.write_child_existence(&parent, &key, &info).unwrap());
        rows.insert(row, value);
    }
    let scan = store.list_child_existence_in_txn(&parent).unwrap();
    let listed = store.collect_child_existence(&scan, &scan_rows(&rows, &scan)).unwrap();
    assert_eq!(
        listed,
        vec![(name("b"), directory), (name("z"), component), (sym("a"), directory)]
    );
    match store.delete_child_existence(&parent, &name("b")).unwrap() {
        Write::Delete { key } => assert!(rows.remove(&key).is_some()),
        other => panic!("expected a delete, got {other:?}"),
    }
}

#[test]
fn listings_fail_at_the_first_row_that_cannot_be_read() {
    let store = AppStore;
    let parent = path(&["p"]);
    let scan = store.list_child_existence_in_txn(&parent).unwrap();
    let good = key_child_existence(&parent, &name("a")).unwrap();
    let mut cut = good.clone();
    cut.pop();
    let value = ChildExistenceInfo { node_type: StablePathNodeType::Directory }.encode().unwrap();
    let rows = vec![
        Row { key: good.clone(), value: value.clone() },
        Row { key: good.clone(), value: vec![0xc1] },
        Row { key: cut.clone(), value: value.clone() },
    ];
    assert_eq!(store.collect_child_existence(&scan, &rows), Err(StoreError::ValueDecode));
    let rows = vec![Row { key: cut.clone(), value: vec![0xc1] }];
    assert_eq!(store.collect_child_existence(&scan, &rows), Err(StoreError::KeyDecode));

    let scan = store.list_user_states(&parent).unwrap();
    let mut key = scan.prefix.clone();
    key.extend_from_slice(&[2, b'a']);
    let rows = vec![Row { key, value: vec![] }];
    assert_eq!(store.collect_user_states(&scan, &rows), Err(StoreError::KeyDecode));

    let scan = store.list_tombstones(&parent).unwrap();
    let rows = vec![Row { key: scan.prefix.clone(), value: vec![] }];
    assert_eq!(store.collect_tombstones(&scan, &rows), Err(StoreError::KeyDecode));

    let scan = store.list_fn_memos(&parent).unwrap();
    let mut key = scan.prefix.clone();
    key.extend_from_slice(&[1; 15]);
    let rows = vec![Row { key, value: vec![] }];
    assert_eq!(store.collect_fn_memos(&scan, &rows), Err(StoreError::KeyDecode));
}

#[test]
fn every_path_with_a_row_is_listed_once_in_order() {
    let store = AppStore;
    let mut rows = BTreeMap::new();
    let mut put = |write: Write| {
        let (key, value) = put_parts(write);
        rows.insert(key, value);
    };
    put(store.write_tracking_info_raw(&path(&["b"]), b"1").unwrap());
    put(store.write_component_memo_raw(&path(&["b"]), b"2").unwrap());
    put(store.write_user_state(&path(&["a", "x"]), &sym("k"), b"3").unwrap());
    put(store.write_tombstone(&path(&["a"]), &path(&["y"])).unwrap());
    put(store.write_tracking_info_raw(&StablePath(vec![]), b"4").unwrap());
    put(store.write_id_sequence(&name("ids"), 3).unwrap());
    let target = TargetStatePath(vec![Fingerprint([1; 16])]);
    put(store.upsert_target_state_owner(&target, &path(&["a"])).unwrap());

    let scan = store.list_all_stable_paths().unwrap();
    let listed = store.collect_stable_paths(&scan_rows(&rows, &scan)).unwrap();
    assert_eq!(
        listed,
        vec![StablePath(vec![]), path(&["a"]), path(&["a", "x"]), path(&["b"])]
    );
}

#[test]
fn listing_paths_refuses_rows_of_another_kind() {
    let store = AppStore;
    let row = |key: Vec<u8>| Row { key, value: vec![] };
    let other = vec![row(key_id_sequencer(&name("a")).unwrap())];
    assert_eq!(store.collect_stable_paths(&other), Err(StoreError::ExpectedStablePath));
    let broken = vec![row(vec![0x10, 7])];
    assert_eq!(store.collect_stable_paths(&broken), Err(StoreError::KeyDecode));
    // A row that goes on with the path of the one before is not read.
    let mut tail = DbEntryKey::StablePathPrefix(path(&["a"])).encode().unwrap();
    tail.push(0x77);
    let run = vec![row(key_tracking_info(&path(&["a"])).unwrap()), row(tail)];
    assert_eq!(store.collect_stable_paths(&run), Ok(vec![path(&["a"])]));
}
