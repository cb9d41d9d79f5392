use app_store::app_store::AppStore;
use app_store::stable_path::{StableKey, StablePath};
use app_store::table::{Row, Scan, Write};
use std::collections::{BTreeMap, HashMap};

/// A database in memory.
#[derive(Default)]
struct Db {
    rows: BTreeMap<Vec<u8>, Vec<u8>>,
}

impl Db {
    fn write(&mut self, write: Write) {
        match write {
            Write::Put { key, value } => {
                self.rows.insert(key, value);
            }
            Write::Delete { key } => {
                self.rows.remove(&key);
            }
            Write::DeletePrefix { prefix } => {
                self.rows.retain(|key, _| !key.starts_with(&prefix));
            }
            Write::Clear => self.rows.clear(),
        }
    }

    fn scan(&self, scan: &Scan) -> Vec<Row> {
        self.rows
            .iter()
            .filter(|(key, _)| key.starts_with(&scan.prefix))
            .map(|(key, value)| Row { key: key.clone(), value: value.clone() })
            .collect()
    }
}

fn comp_path(name: &str) -> StablePath {
    StablePath(vec![StableKey::Str(name.to_string())])
}

fn sym(s: &str) -> StableKey {
    StableKey::Symbol(s.to_string())
}

fn to_map(pairs: Vec<(StableKey, Vec<u8>)>) -> HashMap<StableKey, Vec<u8>> {
    pairs.into_iter().collect()
}

fn list(db: &Db, path: &StablePath) -> Vec<(StableKey, Vec<u8>)> {
    let store = AppStore;
    let scan = store.list_user_states(path).unwrap();
    store.collect_user_states(&scan, &db.scan(&scan)).unwrap()
}

fn put(db: &mut Db, path: &StablePath, key: &str, value: &[u8]) {
    db.write(AppStore.write_user_state(path, &sym(key), value).unwrap());
}

#[test]
fn list_user_states_empty_on_fresh_path() {
    let db = Db::default();
    let result = list(&db, &comp_path("comp"));
    assert!(result.is_empty());
}

#[test]
fn write_then_list_returns_all_entries() {
    let mut db = Db::default();
    let p = comp_path("comp");
    put(&mut db, &p, "count", b"42");
    put(&mut db, &p, "name", b"hello");
    put(&mut db, &p, "flag", b"true");

    let entries = to_map(list(&db, &p));
    assert_eq!(entries.len(), 3);
    assert_eq!(entries[&sym("count")], b"42");
    assert_eq!(entries[&sym("name")], b"hello");
    assert_eq!(entries[&sym("flag")], b"true");
}

#[test]
fn write_overwrites_existing_entry() {
    let mut db = Db::default();
    let p = comp_path("comp");
    put(&mut db, &p, "k", b"v1");
    put(&mut db, &p, "k", b"v2");

    let entries = to_map(list(&db, &p));
    assert_eq!(entries.len(), 1);
    assert_eq!(entries[&sym("k")], b"v2");
}

#[test]
fn delete_selective_within_flush_txn() {
    let mut db = Db::default();
    let p = comp_path("comp");
    put(&mut db, &p, "a", b"old_a");
    put(&mut db, &p, "b", b"b_val");
    put(&mut db, &p, "c", b"c_val");

    put(&mut db, &p, "a", b"new_a");
    db.write(AppStore.delete_user_state(&p, &sym("b")).unwrap());

    let entries = to_map(list(&db, &p));
    assert_eq!(entries.len(), 2);
    assert_eq!(entries[&sym("a")], b"new_a");
    assert!(!entries.contains_key(&sym("b")));
    assert_eq!(entries[&sym("c")], b"c_val");
}

#[test]
fn delete_all_then_write_within_flush_txn() {
    let mut db = Db::default();
    let p = comp_path("comp");
    put(&mut db, &p, "a", b"old_a");
    put(&mut db, &p, "b", b"b_val");
    put(&mut db, &p, "c", b"c_val");

    db.write(AppStore.delete_all_user_states(&p).unwrap());
    put(&mut db, &p, "a", b"new_a");
    put(&mut db, &p, "d", b"d_val");

    let entries = to_map(list(&db, &p));
    assert_eq!(entries.len(), 2);
    assert_eq!(entries[&sym("a")], b"new_a");
    assert!(!entries.contains_key(&sym("b")));
    assert!(!entries.contains_key(&sym("c")));
    assert_eq!(entries[&sym("d")], b"d_val");
}

#[test]
fn user_states_isolated_by_path() {
    let mut db = Db::default();
    let p1 = comp_path("comp_a");
    let p2 = comp_path("comp_b");
    put(&mut db, &p1, "k", b"from_a");
    put(&mut db, &p2, "k", b"from_b");

    let r1 = to_map(list(&db, &p1));
    let r2 = to_map(list(&db, &p2));
    assert_eq!(r1.len(), 1);
    assert_eq!(r2.len(), 1);
    assert_eq!(r1[&sym("k")], b"from_a");
    assert_eq!(r2[&sym("k")], b"from_b");
}

#[test]
fn delete_all_user_states_keeps_other_paths_and_kinds() {
    let mut db = Db::default();
    let p = comp_path("comp");
    let q = StablePath(vec![StableKey::Str("comp".to_string()), sym("deep")]);
    put(&mut db, &p, "a", b"1");
    put(&mut db, &q, "a", b"2");
    db.write(AppStore.write_tracking_info_raw(&p, b"t").unwrap());
    db.write(AppStore.write_component_memo_raw(&p, b"m").unwrap());

    db.write(AppStore.delete_all_user_states(&p).unwrap());
    assert!(list(&db, &p).is_empty());
    assert_eq!(list(&db, &q), vec![(sym("a"), b"2".to_vec())]);
    assert_eq!(db.rows.len(), 3);
}

#[test]
fn user_states_are_listed_in_key_order() {
    let mut db = Db::default();
    let p = comp_path("comp");
    let mut keys = vec![
        sym("b"),
        sym(""),
        sym("a\u{0}"),
        sym("a"),
        sym("a\u{1}b"),
        sym("aa"),
        sym("\u{e9}"),
        StableKey::Str("z".to_string()),
        StableKey::Str(String::new()),
    ];
    for key in &keys {
        db.write(AppStore.write_user_state(&p, key, b"v").unwrap());
    }
    keys.sort();
    let listed: Vec<StableKey> = list(&db, &p).into_iter().map(|(key, _)| key).collect();
    assert_eq!(listed, keys);
}

#[test]
fn deleting_a_missing_user_state_changes_nothing() {
    let mut db = Db::default();
    let p = comp_path("comp");
    put(&mut db, &p, "a", b"1");
    let before = db.rows.clone();
    db.write(AppStore.delete_user_state(&p, &sym("b")).unwrap());
    assert_eq!(db.rows, before);
    db.write(AppStore.delete_user_state(&p, &sym("a")).unwrap());
    db.write(AppStore.delete_user_state(&p, &sym("a")).unwrap());
    assert!(db.rows.is_empty());
}

#[test]
fn clear_all_leaves_nothing() {
    let mut db = Db::default();
    put(&mut db, &comp_path("a"), "k", b"1");
    db.write(AppStore.write_tracking_info_raw(&comp_path("b"), b"t").unwrap());
    db.write(AppStore.clear_all());
    assert!(db.rows.is_empty());
}
