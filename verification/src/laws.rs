//! What holds of a store as a whole: what is read back of what was written, what
//! a listing shows, and what an operation leaves alone.
use crate::app_store::{child_write, memo_write, owner_write};
use crate::db_schema::{
    db_key_of, key_of, law_listing_prefix, law_path_rows_apart,
    law_row_key_round_trip, law_row_keys_distinct, law_stable_path_rows, path_of, DbKeyView,
    EntryView,
};
use crate::error::StoreError;
use crate::existence::{node_row, node_type_found, nodes_of};
use crate::id_sequence::{next_id_found, next_id_write};
use crate::listing::{
    all_read, child_in, children_in, fn_memo_in, fn_memos_in, keys_reach, paths_in, row_keys,
    tombstone_in, tombstones_in, user_state_in, user_states_in,
};
use crate::msgpack::{number_fails, record_fails, word_fails};
use crate::order::{
    lemma_below_append, lemma_below_prepend, lemma_lex_asymmetric, lemma_lex_prepend,
    lemma_lex_total, lex_lt,
};
use crate::path_nodes::{
    lemma_nodes_in, lists_nodes, node_in, nodes_in, recorded_path, Node,
};
use crate::stable_path::{
    key_bytes, key_lt, law_key_order, lemma_key_round_trip, lemma_key_total, law_path_order,
    lemma_path_round_trip, lemma_path_total, path_bytes, path_lt, KeyView,
};
use crate::table::{
    apply, canonical, found, is_row_key, law_delete, law_delete_group, law_put, rows_of,
    scanned, RowView, Rows, Table, WriteView,
};
use crate::values::{
    child_existence_of, id_sequencer_of, memo_of, owner_of, ChildExistenceInfo, IdSequencerInfo,
    StablePathNodeType,
};
use vstd::prelude::*;

verus! {

/// The user states of `path`.
pub open spec fn user_states(rows: Rows, path: Seq<KeyView>) -> Map<KeyView, Seq<u8>> {
    Map::new(
        |key: KeyView|
            rows.dom().contains(DbKeyView::StablePath(path, EntryView::UserState(key))),
        |key: KeyView| rows[DbKeyView::StablePath(path, EntryView::UserState(key))],
    )
}

/// The function memos of `path`, by fingerprint.
pub open spec fn fn_memos(rows: Rows, path: Seq<KeyView>) -> Map<Seq<u8>, Seq<u8>> {
    Map::new(
        |fp: Seq<u8>|
            rows.dom().contains(DbKeyView::StablePath(path, EntryView::FunctionMemoization(fp))),
        |fp: Seq<u8>| rows[DbKeyView::StablePath(path, EntryView::FunctionMemoization(fp))],
    )
}

/// The relative paths that have a tombstone under `path`.
pub open spec fn tombstones(rows: Rows, path: Seq<KeyView>) -> Set<Seq<KeyView>> {
    Set::new(
        |relative: Seq<KeyView>|
            rows.dom().contains(
                DbKeyView::StablePath(path, EntryView::ChildComponentTombstone(relative)),
            ),
    )
}

/// The values of the child-existence rows of `path`.
pub open spec fn children(rows: Rows, path: Seq<KeyView>) -> Map<KeyView, Seq<u8>> {
    Map::new(
        |key: KeyView|
            rows.dom().contains(DbKeyView::StablePath(path, EntryView::ChildExistence(key))),
        |key: KeyView| rows[DbKeyView::StablePath(path, EntryView::ChildExistence(key))],
    )
}

/// `out` is the content of `map`, each key once, in the order `lt`.
pub open spec fn lists<K, V>(out: Seq<(K, V)>, map: Map<K, V>, lt: spec_fn(K, K) -> bool) -> bool {
    &&& forall|i: int, j: int|
        0 <= i < j < out.len() ==> lt((#[trigger] out[i]).0, (#[trigger] out[j]).0)
    &&& forall|i: int|
        0 <= i < out.len() ==> map.dom().contains((#[trigger] out[i]).0) && map[out[i].0]
            == out[i].1
    &&& forall|key: K| #[trigger]
        map.dom().contains(key) ==> exists|i: int|
            0 <= i < out.len() && (#[trigger] out[i]).0 == key
}

// --- Rows that are read back one by one ----------------------------------

/// A row reads back as what was put there last, and a row that was deleted is
/// not found.
pub proof fn law_read_back(table: Table, key: DbKeyView, value: Seq<u8>)
    ensures
        found(apply(table, WriteView::Put { key: key.bytes(), value }), key.bytes()) == Some(value),
        found(apply(table, WriteView::Delete { key: key.bytes() }), key.bytes()) is None,
{
}

/// Putting or deleting a row does not change what is found of another.
pub proof fn law_other_rows(table: Table, key: DbKeyView, value: Seq<u8>, other: DbKeyView)
    requires
        key.complete(),
        other.complete(),
        key != other,
    ensures
        found(apply(table, WriteView::Put { key: key.bytes(), value }), other.bytes()) == found(
            table,
            other.bytes(),
        ),
        found(apply(table, WriteView::Delete { key: key.bytes() }), other.bytes()) == found(
            table,
            other.bytes(),
        ),
{
    if key.bytes() == other.bytes() {
        law_row_keys_distinct(key, other);
    }
}

/// Deleting a row twice is the same as deleting it once.
pub proof fn law_delete_twice(table: Table, key: DbKeyView)
    ensures
        apply(
            apply(table, WriteView::Delete { key: key.bytes() }),
            WriteView::Delete { key: key.bytes() },
        ) == apply(table, WriteView::Delete { key: key.bytes() }),
{
    let once = apply(table, WriteView::Delete { key: key.bytes() });
    assert(once.remove(key.bytes()) =~= once);
}

/// A memo of any length that 32 bits can count is kept, and one that is longer is
/// not, unless the serializer fails on a record of that one value. The memo then
/// reads back as the value, and no other row changes.
pub proof fn law_keep_fn_memo(
    table: Table,
    path: Seq<KeyView>,
    fp: Seq<u8>,
    value: Seq<u8>,
    r: Result<WriteView, StoreError>,
)
    ensures
        memo_write(path, fp, value, r) ==> {
            let row = DbKeyView::StablePath(path, EntryView::FunctionMemoization(fp)).bytes();
            &&& value.len() > 0xffff_ffff ==> r is Err
            &&& value.len() <= 0xffff_ffff && !record_fails(map!["value"@ => Some(value)]) ==> r
                is Ok
            &&& r is Err ==> r->Err_0 == StoreError::ValueEncode
            &&& r matches Ok(write) ==> {
                let after = apply(table, write);
                &&& found(after, row) matches Some(now) && memo_of(now) == Some(value)
                &&& forall|key: Seq<u8>|
                    key != row ==> #[trigger] found(after, key) == found(table, key)
            }
        },
{
}

/// A component of any path whose bytes 32 bits can count becomes the owner of a
/// target state, and one of a longer path does not, unless the serializer fails on a
/// record of those bytes. It is then read back, and no other row changes.
pub proof fn law_make_owner(
    table: Table,
    path: Seq<Seq<u8>>,
    owner: Seq<KeyView>,
    r: Result<WriteView, StoreError>,
)
    ensures
        owner_write(path, owner, r) ==> {
            let row = DbKeyView::TargetState(path).bytes();
            let bytes = path_bytes(owner);
            &&& bytes.len() > 0xffff_ffff ==> r is Err
            &&& bytes.len() <= 0xffff_ffff && !record_fails(map!["component_path"@ => Some(bytes)])
                ==> r is Ok
            &&& r is Err ==> r->Err_0 == StoreError::ValueEncode
            &&& r matches Ok(write) ==> {
                let after = apply(table, write);
                &&& found(after, row) matches Some(now) && owner_of(now) == Some(owner)
                &&& forall|key: Seq<u8>|
                    key != row ==> #[trigger] found(after, key) == found(table, key)
            }
        },
{
}

/// A child is recorded whatever its path and key are, unless the serializer fails on
/// a record of that one word. It is then read back, and no other row changes.
pub proof fn law_record_child(
    table: Table,
    parent: Seq<KeyView>,
    child: KeyView,
    info: ChildExistenceInfo,
    r: Result<WriteView, StoreError>,
)
    ensures
        child_write(parent, child, info, r) ==> {
            let row = DbKeyView::StablePath(parent, EntryView::ChildExistence(child)).bytes();
            let word = match info.node_type {
                StablePathNodeType::Directory => "Directory"@,
                StablePathNodeType::Component => "Component"@,
            };
            &&& !word_fails("node_type"@, word) ==> r is Ok
            &&& r is Err ==> r->Err_0 == StoreError::ValueEncode
            &&& r matches Ok(write) ==> {
                let after = apply(table, write);
                &&& found(after, row) matches Some(now) && child_existence_of(now) == Some(info)
                &&& forall|key: Seq<u8>|
                    key != row ==> #[trigger] found(after, key) == found(table, key)
            }
        },
{
}

/// A sequencer takes any next free ID, unless the serializer fails on a record of
/// that one number. It is then read back, and no other row changes.
pub proof fn law_set_next_id(
    table: Table,
    key: KeyView,
    next_id: u64,
    r: Result<WriteView, StoreError>,
)
    ensures
        next_id_write(key, next_id, r) ==> {
            let row = DbKeyView::IdSequencer(key).bytes();
            &&& !number_fails("next_id"@, next_id) ==> r is Ok
            &&& r is Err ==> r->Err_0 == StoreError::ValueEncode
            &&& r matches Ok(write) ==> {
                let after = apply(table, write);
                &&& found(after, row) matches Some(now) && id_sequencer_of(now) == Some(
                    IdSequencerInfo { next_id },
                )
                &&& forall|other: Seq<u8>|
                    other != row ==> #[trigger] found(after, other) == found(table, other)
            }
        },
{
}

/// The owner that was written last is read back, and none once it was deleted.
pub proof fn law_owner_read_back(
    table: Table,
    path: Seq<Seq<u8>>,
    owner: Seq<KeyView>,
    value: Seq<u8>,
)
    ensures
        ({
            let row = DbKeyView::TargetState(path).bytes();
            &&& owner_of(value) == Some(owner) ==> (found(
                apply(table, WriteView::Put { key: row, value }),
                row,
            ) matches Some(bytes) && owner_of(bytes) == Some(owner))
            &&& found(apply(table, WriteView::Delete { key: row }), row) is None
        }),
{
}

/// The next free ID that was written last is read back.
pub proof fn law_id_sequence_read_back(table: Table, key: KeyView, next_id: u64, value: Seq<u8>)
    ensures
        ({
            let row = DbKeyView::IdSequencer(key).bytes();
            id_sequencer_of(value) == Some(IdSequencerInfo { next_id }) ==> next_id_found(
                found(apply(table, WriteView::Put { key: row, value }), row),
            ) == Ok::<Option<u64>, StoreError>(Some(next_id))
        }),
{
}

/// What a child was recorded as last is read back, and nothing once it was
/// deleted.
pub proof fn law_child_existence_read_back(
    table: Table,
    parent: Seq<KeyView>,
    child: KeyView,
    info: ChildExistenceInfo,
    value: Seq<u8>,
)
    ensures
        ({
            let row = DbKeyView::StablePath(parent, EntryView::ChildExistence(child)).bytes();
            &&& child_existence_of(value) == Some(info) ==> node_type_found(
                found(apply(table, WriteView::Put { key: row, value }), row),
            ) == Ok::<Option<StablePathNodeType>, StoreError>(Some(info.node_type))
            &&& node_type_found(found(apply(table, WriteView::Delete { key: row }), row)) == Ok::<
                Option<StablePathNodeType>,
                StoreError,
            >(None)
        }),
{
}

// --- User states ---------------------------------------------------------

/// Writing a user state adds or replaces it, and leaves the user states of every
/// other path as they are.
pub proof fn law_write_user_state(
    table: Table,
    path: Seq<KeyView>,
    key: KeyView,
    value: Seq<u8>,
    other: Seq<KeyView>,
)
    ensures
        ({
            let row = DbKeyView::StablePath(path, EntryView::UserState(key)).bytes();
            let after = rows_of(apply(table, WriteView::Put { key: row, value }));
            &&& user_states(after, path) == user_states(rows_of(table), path).insert(key, value)
            &&& other != path ==> user_states(after, other) == user_states(rows_of(table), other)
        }),
{
    let row = DbKeyView::StablePath(path, EntryView::UserState(key));
    law_put(table, row, value);
    let after = rows_of(apply(table, WriteView::Put { key: row.bytes(), value }));
    assert(user_states(after, path) =~= user_states(rows_of(table), path).insert(key, value));
    if other != path {
        assert(user_states(after, other) =~= user_states(rows_of(table), other));
    }
}

/// Deleting a user state takes it out alone.
pub proof fn law_delete_user_state(
    table: Table,
    path: Seq<KeyView>,
    key: KeyView,
    other: Seq<KeyView>,
)
    ensures
        ({
            let row = DbKeyView::StablePath(path, EntryView::UserState(key)).bytes();
            let after = rows_of(apply(table, WriteView::Delete { key: row }));
            &&& user_states(after, path) == user_states(rows_of(table), path).remove(key)
            &&& other != path ==> user_states(after, other) == user_states(rows_of(table), other)
        }),
{
    let row = DbKeyView::StablePath(path, EntryView::UserState(key));
    law_delete(table, row);
    let after = rows_of(apply(table, WriteView::Delete { key: row.bytes() }));
    assert(user_states(after, path) =~= user_states(rows_of(table), path).remove(key));
    if other != path {
        assert(user_states(after, other) =~= user_states(rows_of(table), other));
    }
}

/// Deleting all user states of a path leaves it none, and touches neither those
/// of another path nor a row of another kind.
pub proof fn law_delete_all_user_states(table: Table, path: Seq<KeyView>, other: Seq<KeyView>)
    ensures
        ({
            let prefix = DbKeyView::StablePath(path, EntryView::UserStatePrefix).bytes();
            let after = rows_of(apply(table, WriteView::DeletePrefix { prefix }));
            &&& user_states(after, path) == Map::<KeyView, Seq<u8>>::empty()
            &&& other != path ==> user_states(after, other) == user_states(rows_of(table), other)
            &&& fn_memos(after, other) == fn_memos(rows_of(table), other)
            &&& tombstones(after, other) == tombstones(rows_of(table), other)
            &&& children(after, other) == children(rows_of(table), other)
        }),
{
    let group = EntryView::UserStatePrefix;
    law_delete_group(table, path, group);
    let prefix = DbKeyView::StablePath(path, group).bytes();
    let after = rows_of(apply(table, WriteView::DeletePrefix { prefix }));
    assert(user_states(after, path) =~= Map::<KeyView, Seq<u8>>::empty());
    if other != path {
        assert(user_states(after, other) =~= user_states(rows_of(table), other));
    }
    assert(fn_memos(after, other) =~= fn_memos(rows_of(table), other));
    assert(tombstones(after, other) =~= tombstones(rows_of(table), other));
    assert(children(after, other) =~= children(rows_of(table), other));
}

/// Listing the user states of a path succeeds, and shows each of them once, in
/// key order, and nothing else.
pub proof fn law_list_user_states(
    table: Table,
    path: Seq<KeyView>,
    rows: Seq<RowView>,
    r: Result<Seq<(KeyView, Seq<u8>)>, StoreError>,
)
    requires
        canonical(table),
        scanned(table, DbKeyView::StablePath(path, EntryView::UserStatePrefix).bytes(), rows),
        all_read(
            user_states_in(
                rows,
                DbKeyView::StablePath(path, EntryView::UserStatePrefix).bytes().len(),
            ),
            r,
        ),
    ensures
        keys_reach(DbKeyView::StablePath(path, EntryView::UserStatePrefix).bytes(), rows),
        r matches Ok(out) && lists(
            out,
            user_states(rows_of(table), path),
            |a: KeyView, b: KeyView| key_lt(a, b),
        ),
{
    let group = EntryView::UserStatePrefix;
    let prefix = DbKeyView::StablePath(path, group).bytes();
    let got = user_states_in(rows, prefix.len());
    let map = user_states(rows_of(table), path);
    lemma_keys_reach(table, path, group, rows);
    assert forall|i: int| 0 <= i < rows.len() implies (#[trigger] got[i]) is Ok by {
        let entry = lemma_group_row(table, path, group, rows, i);
        lemma_key_of_bytes(entry->UserState_0);
    }
    let out = r->Ok_0;
    assert forall|i: int| 0 <= i < out.len() implies map.dom().contains((#[trigger] out[i]).0)
        && map[out[i].0] == out[i].1 && rows[i].key == prefix + key_bytes(out[i].0) by {
        let entry = lemma_group_row(table, path, group, rows, i);
        lemma_key_of_bytes(entry->UserState_0);
        assert(got[i] == user_state_in(rows[i], prefix.len()));
        assert(got[i] == Ok::<(KeyView, Seq<u8>), StoreError>(out[i]));
    }
    assert forall|i: int, j: int| 0 <= i < j < out.len() implies key_lt(
        (#[trigger] out[i]).0,
        (#[trigger] out[j]).0,
    ) by {
        assert(lex_lt(rows[i].key, rows[j].key));
        lemma_keys_sorted(prefix, out[i].0, out[j].0);
    }
    assert forall|key: KeyView| #[trigger] map.dom().contains(key) implies exists|i: int|
        0 <= i < out.len() && (#[trigger] out[i]).0 == key by {
        let entry = EntryView::UserState(key);
        let at = lemma_group_entry(table, path, group, rows, entry);
        lemma_key_of_bytes(key);
        assert(got[at] == user_state_in(rows[at], prefix.len()));
        assert(got[at] == Ok::<(KeyView, Seq<u8>), StoreError>(out[at]));
        assert(out[at].0 == key);
    }
}

// --- Function memos ------------------------------------------------------

/// Writing a function memo adds or replaces it, and leaves those of every other
/// path as they are; deleting it takes it out alone.
pub proof fn law_write_fn_memo(
    table: Table,
    path: Seq<KeyView>,
    fp: Seq<u8>,
    value: Seq<u8>,
    other: Seq<KeyView>,
)
    requires
        fp.len() == 16,
    ensures
        ({
            let row = DbKeyView::StablePath(path, EntryView::FunctionMemoization(fp)).bytes();
            let put = rows_of(apply(table, WriteView::Put { key: row, value }));
            let gone = rows_of(apply(table, WriteView::Delete { key: row }));
            &&& fn_memos(put, path) == fn_memos(rows_of(table), path).insert(fp, value)
            &&& fn_memos(gone, path) == fn_memos(rows_of(table), path).remove(fp)
            &&& other != path ==> fn_memos(put, other) == fn_memos(rows_of(table), other)
            &&& other != path ==> fn_memos(gone, other) == fn_memos(rows_of(table), other)
        }),
{
    let row = DbKeyView::StablePath(path, EntryView::FunctionMemoization(fp));
    law_put(table, row, value);
    law_delete(table, row);
    let put = rows_of(apply(table, WriteView::Put { key: row.bytes(), value }));
    let gone = rows_of(apply(table, WriteView::Delete { key: row.bytes() }));
    assert(fn_memos(put, path) =~= fn_memos(rows_of(table), path).insert(fp, value));
    assert(fn_memos(gone, path) =~= fn_memos(rows_of(table), path).remove(fp));
    if other != path {
        assert(fn_memos(put, other) =~= fn_memos(rows_of(table), other));
        assert(fn_memos(gone, other) =~= fn_memos(rows_of(table), other));
    }
}

/// Deleting all function memos of a path leaves it none, and touches neither
/// those of another path nor a row of another kind.
pub proof fn law_delete_all_fn_memos(table: Table, path: Seq<KeyView>, other: Seq<KeyView>)
    ensures
        ({
            let prefix = DbKeyView::StablePath(path, EntryView::FunctionMemoizationPrefix).bytes();
            let after = rows_of(apply(table, WriteView::DeletePrefix { prefix }));
            &&& fn_memos(after, path) == Map::<Seq<u8>, Seq<u8>>::empty()
            &&& other != path ==> fn_memos(after, other) == fn_memos(rows_of(table), other)
            &&& user_states(after, other) == user_states(rows_of(table), other)
            &&& tombstones(after, other) == tombstones(rows_of(table), other)
            &&& children(after, other) == children(rows_of(table), other)
        }),
{
    let group = EntryView::FunctionMemoizationPrefix;
    law_delete_group(table, path, group);
    let prefix = DbKeyView::StablePath(path, group).bytes();
    let after = rows_of(apply(table, WriteView::DeletePrefix { prefix }));
    assert(fn_memos(after, path) =~= Map::<Seq<u8>, Seq<u8>>::empty());
    if other != path {
        assert(fn_memos(after, other) =~= fn_memos(rows_of(table), other));
    }
    assert(user_states(after, other) =~= user_states(rows_of(table), other));
    assert(tombstones(after, other) =~= tombstones(rows_of(table), other));
    assert(children(after, other) =~= children(rows_of(table), other));
}

/// Listing the function memos of a path succeeds, and shows each of them once,
/// in the order of the fingerprints, and nothing else.
pub proof fn law_list_fn_memos(
    table: Table,
    path: Seq<KeyView>,
    rows: Seq<RowView>,
    r: Result<Seq<(Seq<u8>, Seq<u8>)>, StoreError>,
)
    requires
        canonical(table),
        scanned(
            table,
            DbKeyView::StablePath(path, EntryView::FunctionMemoizationPrefix).bytes(),
            rows,
        ),
        all_read(
            fn_memos_in(
                rows,
                DbKeyView::StablePath(path, EntryView::FunctionMemoizationPrefix).bytes().len(),
            ),
            r,
        ),
    ensures
        keys_reach(DbKeyView::StablePath(path, EntryView::FunctionMemoizationPrefix).bytes(), rows),
        r matches Ok(out) && lists(
            out,
            fn_memos(rows_of(table), path),
            |a: Seq<u8>, b: Seq<u8>| lex_lt(a, b),
        ),
{
    let group = EntryView::FunctionMemoizationPrefix;
    let prefix = DbKeyView::StablePath(path, group).bytes();
    let got = fn_memos_in(rows, prefix.len());
    let map = fn_memos(rows_of(table), path);
    lemma_keys_reach(table, path, group, rows);
    assert forall|i: int| 0 <= i < rows.len() implies (#[trigger] got[i]) is Ok by {
        let entry = lemma_group_row(table, path, group, rows, i);
    }
    let out = r->Ok_0;
    assert forall|i: int| 0 <= i < out.len() implies map.dom().contains((#[trigger] out[i]).0)
        && map[out[i].0] == out[i].1 && rows[i].key == prefix + out[i].0 by {
        let entry = lemma_group_row(table, path, group, rows, i);
        assert(got[i] == fn_memo_in(rows[i], prefix.len()));
        assert(got[i] == Ok::<(Seq<u8>, Seq<u8>), StoreError>(out[i]));
    }
    assert forall|i: int, j: int| 0 <= i < j < out.len() implies lex_lt(
        (#[trigger] out[i]).0,
        (#[trigger] out[j]).0,
    ) by {
        assert(lex_lt(rows[i].key, rows[j].key));
        lemma_lex_cut(prefix, out[i].0, out[j].0);
    }
    assert forall|fp: Seq<u8>| #[trigger] map.dom().contains(fp) implies exists|i: int|
        0 <= i < out.len() && (#[trigger] out[i]).0 == fp by {
        let entry = EntryView::FunctionMemoization(fp);
        let at = lemma_group_entry(table, path, group, rows, entry);
        assert(got[at] == fn_memo_in(rows[at], prefix.len()));
        assert(got[at] == Ok::<(Seq<u8>, Seq<u8>), StoreError>(out[at]));
        assert(out[at].0 == fp);
    }
}

// --- Children ------------------------------------------------------------

/// Listing the children of a path shows, where all their rows can be read, each
/// child once, in key order, and nothing else; a row that cannot be read fails
/// the listing.
pub proof fn law_list_child_existence(
    table: Table,
    path: Seq<KeyView>,
    rows: Seq<RowView>,
    r: Result<Seq<(KeyView, ChildExistenceInfo)>, StoreError>,
)
    requires
        canonical(table),
        scanned(table, DbKeyView::StablePath(path, EntryView::ChildExistencePrefix).bytes(), rows),
        all_read(
            children_in(
                rows,
                DbKeyView::StablePath(path, EntryView::ChildExistencePrefix).bytes().len(),
            ),
            r,
        ),
    ensures
        keys_reach(DbKeyView::StablePath(path, EntryView::ChildExistencePrefix).bytes(), rows),
        match r {
            Ok(out) => lists(
                out,
                Map::new(
                    |key: KeyView| children(rows_of(table), path).dom().contains(key),
                    |key: KeyView|
                        child_existence_of(children(rows_of(table), path)[key])->0,
                ),
                |a: KeyView, b: KeyView| key_lt(a, b),
            ) && forall|key: KeyView| #[trigger]
                children(rows_of(table), path).dom().contains(key) ==> nodes_of(
                    rows_of(table),
                ).dom().contains(path.push(key)),
            Err(e) => e == StoreError::ValueDecode && exists|key: KeyView| #[trigger]
                children(rows_of(table), path).dom().contains(key) && child_existence_of(
                    children(rows_of(table), path)[key],
                ) is None,
        },
{
    let group = EntryView::ChildExistencePrefix;
    let prefix = DbKeyView::StablePath(path, group).bytes();
    let got = children_in(rows, prefix.len());
    let raw = children(rows_of(table), path);
    let map = Map::new(
        |key: KeyView| raw.dom().contains(key),
        |key: KeyView| child_existence_of(raw[key])->0,
    );
    lemma_keys_reach(table, path, group, rows);
    match r {
        Ok(out) => {
            assert forall|i: int| 0 <= i < out.len() implies map.dom().contains(
                (#[trigger] out[i]).0,
            ) && map[out[i].0] == out[i].1 && child_existence_of(raw[out[i].0]) is Some
                && rows[i].key == prefix + key_bytes(out[i].0) by {
                let entry = lemma_group_row(table, path, group, rows, i);
                lemma_key_of_bytes(entry->ChildExistence_0);
                assert(got[i] == child_in(rows[i], prefix.len()));
                assert(got[i] == Ok::<(KeyView, ChildExistenceInfo), StoreError>(out[i]));
            }
            assert forall|i: int, j: int| 0 <= i < j < out.len() implies key_lt(
                (#[trigger] out[i]).0,
                (#[trigger] out[j]).0,
            ) by {
                assert(lex_lt(rows[i].key, rows[j].key));
                lemma_keys_sorted(prefix, out[i].0, out[j].0);
            }
            assert forall|key: KeyView| #[trigger] map.dom().contains(key) implies exists|i: int|
                0 <= i < out.len() && (#[trigger] out[i]).0 == key by {
                let entry = EntryView::ChildExistence(key);
                let at = lemma_group_entry(table, path, group, rows, entry);
                lemma_key_of_bytes(key);
                assert(got[at] == child_in(rows[at], prefix.len()));
                assert(got[at] == Ok::<(KeyView, ChildExistenceInfo), StoreError>(out[at]));
                assert(out[at].0 == key);
            }
            assert forall|key: KeyView| #[trigger] raw.dom().contains(key) implies nodes_of(
                rows_of(table),
            ).dom().contains(path.push(key)) by {
                assert(map.dom().contains(key));
                let i = choose|i: int| 0 <= i < out.len() && (#[trigger] out[i]).0 == key;
                assert(child_existence_of(raw[out[i].0]) is Some);
                assert(path.push(key).drop_last() =~= path);
                assert(node_row(path.push(key)) == DbKeyView::StablePath(
                    path,
                    EntryView::ChildExistence(key),
                ));
            }
        },
        Err(e) => {
            let i = choose|i: int|
                0 <= i < got.len() && #[trigger] got[i] == Err::<
                    (KeyView, ChildExistenceInfo),
                    StoreError,
                >(e) && forall|j: int| 0 <= j < i ==> (#[trigger] got[j]) is Ok;
            let entry = lemma_group_row(table, path, group, rows, i);
            lemma_key_of_bytes(entry->ChildExistence_0);
            assert(got[i] == child_in(rows[i], prefix.len()));
            assert(raw.dom().contains(entry->ChildExistence_0));
        },
    }
}

// --- Tombstones ----------------------------------------------------------

/// Writing a tombstone adds it, deleting it takes it out, and neither touches
/// the tombstones under another path.
pub proof fn law_write_tombstone(
    table: Table,
    parent: Seq<KeyView>,
    relative: Seq<KeyView>,
    value: Seq<u8>,
    other: Seq<KeyView>,
)
    ensures
        ({
            let row = DbKeyView::StablePath(
                parent,
                EntryView::ChildComponentTombstone(relative),
            ).bytes();
            let put = rows_of(apply(table, WriteView::Put { key: row, value }));
            let gone = rows_of(apply(table, WriteView::Delete { key: row }));
            &&& tombstones(put, parent) == tombstones(rows_of(table), parent).insert(relative)
            &&& tombstones(gone, parent) == tombstones(rows_of(table), parent).remove(relative)
            &&& other != parent ==> tombstones(put, other) == tombstones(rows_of(table), other)
            &&& other != parent ==> tombstones(gone, other) == tombstones(rows_of(table), other)
        }),
{
    let row = DbKeyView::StablePath(parent, EntryView::ChildComponentTombstone(relative));
    law_put(table, row, value);
    law_delete(table, row);
    let put = rows_of(apply(table, WriteView::Put { key: row.bytes(), value }));
    let gone = rows_of(apply(table, WriteView::Delete { key: row.bytes() }));
    assert(tombstones(put, parent) =~= tombstones(rows_of(table), parent).insert(relative));
    assert(tombstones(gone, parent) =~= tombstones(rows_of(table), parent).remove(relative));
    if other != parent {
        assert(tombstones(put, other) =~= tombstones(rows_of(table), other));
        assert(tombstones(gone, other) =~= tombstones(rows_of(table), other));
    }
}

/// Listing the tombstones under a path succeeds, and shows each of them once, in
/// path order, and nothing else.
pub proof fn law_list_tombstones(
    table: Table,
    parent: Seq<KeyView>,
    rows: Seq<RowView>,
    r: Result<Seq<Seq<KeyView>>, StoreError>,
)
    requires
        canonical(table),
        scanned(
            table,
            DbKeyView::StablePath(parent, EntryView::ChildComponentTombstonePrefix).bytes(),
            rows,
        ),
        all_read(
            tombstones_in(
                rows,
                DbKeyView::StablePath(
                    parent,
                    EntryView::ChildComponentTombstonePrefix,
                ).bytes().len(),
            ),
            r,
        ),
    ensures
        keys_reach(
            DbKeyView::StablePath(parent, EntryView::ChildComponentTombstonePrefix).bytes(),
            rows,
        ),
        r matches Ok(out) && lists_paths(out, tombstones(rows_of(table), parent)),
{
    let group = EntryView::ChildComponentTombstonePrefix;
    let prefix = DbKeyView::StablePath(parent, group).bytes();
    let got = tombstones_in(rows, prefix.len());
    let set = tombstones(rows_of(table), parent);
    lemma_keys_reach(table, parent, group, rows);
    assert forall|i: int| 0 <= i < rows.len() implies (#[trigger] got[i]) is Ok by {
        let entry = lemma_group_row(table, parent, group, rows, i);
        lemma_path_of_bytes(entry->ChildComponentTombstone_0);
    }
    let out = r->Ok_0;
    assert forall|i: int| 0 <= i < out.len() implies set.contains(#[trigger] out[i])
        && rows[i].key == prefix + path_bytes(out[i]) by {
        let entry = lemma_group_row(table, parent, group, rows, i);
        lemma_path_of_bytes(entry->ChildComponentTombstone_0);
        assert(got[i] == tombstone_in(rows[i], prefix.len()));
        assert(got[i] == Ok::<Seq<KeyView>, StoreError>(out[i]));
    }
    assert forall|i: int, j: int| 0 <= i < j < out.len() implies path_lt(
        #[trigger] out[i],
        #[trigger] out[j],
    ) by {
        assert(lex_lt(rows[i].key, rows[j].key));
        lemma_paths_sorted(prefix, out[i], Seq::empty(), out[j], Seq::empty());
        assert(prefix + path_bytes(out[i]) + Seq::<u8>::empty() =~= rows[i].key);
        assert(prefix + path_bytes(out[j]) + Seq::<u8>::empty() =~= rows[j].key);
        if out[i] == out[j] {
            lemma_lex_asymmetric(rows[i].key, rows[j].key);
        }
        lemma_path_total(out[i], out[j]);
    }
    assert forall|relative: Seq<KeyView>| #[trigger] set.contains(relative) implies exists|i: int|
        0 <= i < out.len() && #[trigger] out[i] == relative by {
        let entry = EntryView::ChildComponentTombstone(relative);
        let at = lemma_group_entry(table, parent, group, rows, entry);
        lemma_path_of_bytes(relative);
        assert(got[at] == tombstone_in(rows[at], prefix.len()));
        assert(got[at] == Ok::<Seq<KeyView>, StoreError>(out[at]));
        assert(out[at] == relative);
    }
}

/// `out` are the paths of `set`, each once, in path order.
pub open spec fn lists_paths(out: Seq<Seq<KeyView>>, set: Set<Seq<KeyView>>) -> bool {
    &&& forall|i: int, j: int|
        0 <= i < j < out.len() ==> path_lt(#[trigger] out[i], #[trigger] out[j])
    &&& forall|i: int| 0 <= i < out.len() ==> set.contains(#[trigger] out[i])
    &&& forall|path: Seq<KeyView>| #[trigger]
        set.contains(path) ==> exists|i: int| 0 <= i < out.len() && #[trigger] out[i] == path
}

/// Removing a child with a tombstone takes the child out, leaves the tombstone,
/// and touches nothing else.
pub proof fn law_remove_child_with_tombstone(
    table: Table,
    parent: Seq<KeyView>,
    child: KeyView,
    owner: Seq<KeyView>,
    relative: Seq<KeyView>,
    value: Seq<u8>,
)
    ensures
        ({
            let gone = DbKeyView::StablePath(parent, EntryView::ChildExistence(child));
            let left = DbKeyView::StablePath(owner, EntryView::ChildComponentTombstone(relative));
            let after = rows_of(
                apply(
                    apply(table, WriteView::Delete { key: gone.bytes() }),
                    WriteView::Put { key: left.bytes(), value },
                ),
            );
            &&& !children(after, parent).dom().contains(child)
            &&& tombstones(after, owner).contains(relative)
            &&& after == rows_of(table).remove(gone).insert(left, value)
        }),
{
    let gone = DbKeyView::StablePath(parent, EntryView::ChildExistence(child));
    let left = DbKeyView::StablePath(owner, EntryView::ChildComponentTombstone(relative));
    law_delete(table, gone);
    law_put(apply(table, WriteView::Delete { key: gone.bytes() }), left, value);
}

// --- Paths ---------------------------------------------------------------

/// The paths that have a row.
pub open spec fn stable_paths(rows: Rows) -> Set<Seq<KeyView>> {
    Set::new(
        |path: Seq<KeyView>|
            exists|entry: EntryView| #[trigger]
                rows.dom().contains(DbKeyView::StablePath(path, entry)),
    )
}

/// Listing all stable paths succeeds, and shows each path that has a row once,
/// in path order, and nothing else.
pub proof fn law_list_all_stable_paths(table: Table, rows: Seq<RowView>)
    requires
        canonical(table),
        scanned(table, DbKeyView::StablePathPrefixPrefix(Seq::empty()).bytes(), rows),
    ensures
        paths_in(row_keys(rows), None) matches Ok(out) && lists_paths(
            out,
            stable_paths(rows_of(table)),
        ),
{
    let keys = row_keys(rows);
    let prefix = DbKeyView::StablePathPrefixPrefix(Seq::empty()).bytes();
    assert forall|i: int| 0 <= i < keys.len() implies path_key(#[trigger] keys[i]) && rows_of(
        table,
    ).dom().contains(db_key_of(keys[i])->0) by {
        assert(keys[i] == rows[i].key);
        assert(table.dom().contains(keys[i]));
        assert(is_row_key(keys[i]));
        law_stable_path_rows(db_key_of(keys[i])->0);
    }
    assert(sorted(keys)) by {
        assert forall|i: int, j: int| 0 <= i < j < keys.len() implies lex_lt(
            #[trigger] keys[i],
            #[trigger] keys[j],
        ) by {
            assert(lex_lt(rows[i].key, rows[j].key));
        }
    }
    lemma_paths_in(keys, None);
    let out = paths_in(keys, None)->Ok_0;
    let set = stable_paths(rows_of(table));
    assert forall|i: int| 0 <= i < out.len() implies set.contains(#[trigger] out[i]) by {
        assert(out.contains(out[i]));
        let j = choose|j: int|
            0 <= j < keys.len() && path_of_key(#[trigger] keys[j]) == out[i];
        let entry = db_key_of(keys[j])->0->StablePath_1;
        assert(rows_of(table).dom().contains(DbKeyView::StablePath(out[i], entry)));
    }
    assert forall|path: Seq<KeyView>| #[trigger] set.contains(path) implies exists|i: int|
        0 <= i < out.len() && #[trigger] out[i] == path by {
        let entry = choose|entry: EntryView| #[trigger]
            rows_of(table).dom().contains(DbKeyView::StablePath(path, entry));
        let key = DbKeyView::StablePath(path, entry);
        law_row_key_round_trip(key);
        law_stable_path_rows(key);
        assert(table.dom().contains(key.bytes()));
        let j = choose|j: int| 0 <= j < rows.len() && (#[trigger] rows[j]).key == key.bytes();
        assert(path_of_key(keys[j]) == path);
        assert(out.contains(path));
    }
}

/// Listing the recorded paths with what each of them is shows, where all rows that
/// record a path can be read, each of them once, in path order, and nothing else;
/// a row that cannot be read fails the listing.
pub proof fn law_list_path_nodes(
    table: Table,
    rows: Seq<RowView>,
    r: Result<Seq<Node>, StoreError>,
)
    requires
        canonical(table),
        scanned(table, DbKeyView::StablePathPrefixPrefix(Seq::empty()).bytes(), rows),
    ensures
        lists_nodes(rows, r) ==> match r {
            Ok(out) => lists(
                out,
                nodes_of(rows_of(table)),
                |a: Seq<KeyView>, b: Seq<KeyView>| path_lt(a, b),
            ) && forall|path: Seq<KeyView>|
                path.len() > 0 && #[trigger] rows_of(table).dom().contains(node_row(path))
                    ==> nodes_of(rows_of(table)).dom().contains(path),
            Err(e) => e == StoreError::ValueDecode && exists|path: Seq<KeyView>|
                path.len() > 0 && #[trigger] rows_of(table).dom().contains(node_row(path))
                    && child_existence_of(rows_of(table)[node_row(path)]) is None,
        },
{
    if lists_nodes(rows, r) {
        let map = nodes_of(rows_of(table));
        assert forall|i: int| 0 <= i < rows.len() implies recording(table, #[trigger] rows[i]) by {
            lemma_recording(table, rows, i);
        }
        match r {
            Ok(out) => {
                let all = nodes_in(rows);
                lemma_nodes_in(rows);
                assert forall|i: int, j: int| 0 <= i < j < rows.len() implies node_in(
                    #[trigger] rows[i],
                ) != node_in(#[trigger] rows[j]) || node_in(rows[i]) == Ok::<
                    Option<Node>,
                    StoreError,
                >(None) || node_in(rows[i]) is Err by {
                    assert(recording(table, rows[i]) && recording(table, rows[j]));
                    assert(lex_lt(rows[i].key, rows[j].key));
                    lemma_lex_asymmetric(rows[i].key, rows[j].key);
                }
                all.lemma_multiset_has_no_duplicates();
                out.lemma_multiset_has_no_duplicates_conv();
                out.to_multiset_ensures();
                all.to_multiset_ensures();
                assert forall|i: int| 0 <= i < out.len() implies map.dom().contains(
                    (#[trigger] out[i]).0,
                ) && map[out[i].0] == out[i].1 by {
                    assert(out.contains(out[i]));
                    assert(out.to_multiset().count(out[i]) > 0);
                    assert(all.contains(out[i]));
                    let at = choose|at: int|
                        0 <= at < rows.len() && node_in(#[trigger] rows[at]) == Ok::<
                            Option<Node>,
                            StoreError,
                        >(Some(out[i]));
                    assert(recording(table, rows[at]));
                }
                assert forall|i: int, j: int| 0 <= i < j < out.len() implies path_lt(
                    (#[trigger] out[i]).0,
                    (#[trigger] out[j]).0,
                ) by {
                    assert(!path_lt(out[j].0, out[i].0));
                    lemma_path_total(out[i].0, out[j].0);
                    if out[i].0 == out[j].0 {
                        assert(map[out[i].0] == out[i].1 && map[out[j].0] == out[j].1);
                        assert(out[i] == out[j]);
                    }
                }
                assert forall|path: Seq<KeyView>|
                    path.len() > 0 && #[trigger] rows_of(table).dom().contains(
                        node_row(path),
                    ) implies map.dom().contains(path) && exists|i: int|
                    0 <= i < out.len() && (#[trigger] out[i]).0 == path by {
                    let at = lemma_recorded(table, rows, path);
                    assert(node_in(rows[at]) is Ok);
                    let node = node_in(rows[at])->Ok_0->0;
                    assert(all.contains(node));
                    assert(out.to_multiset().count(node) > 0);
                    assert(out.contains(node));
                    let i = choose|i: int| 0 <= i < out.len() && out[i] == node;
                    assert(out[i].0 == path);
                }
                assert forall|path: Seq<KeyView>| #[trigger] map.dom().contains(
                    path,
                ) implies exists|i: int| 0 <= i < out.len() && (#[trigger] out[i]).0 == path by {
                    assert(rows_of(table).dom().contains(node_row(path)));
                }
            },
            Err(e) => {
                let i = choose|i: int|
                    0 <= i < rows.len() && node_in(#[trigger] rows[i]) == Err::<
                        Option<Node>,
                        StoreError,
                    >(e) && forall|j: int| 0 <= j < i ==> node_in(#[trigger] rows[j]) is Ok;
                assert(recording(table, rows[i]));
                let path = recorded_path(rows[i].key)->Ok_0->0;
                assert(rows_of(table).dom().contains(node_row(path)));
            },
        }
    }
}

/// A row of some path; where it records a path, it is that path's row.
spec fn recording(table: Table, row: RowView) -> bool {
    recorded_path(row.key) matches Ok(recorded) && (recorded matches Some(path) ==> path.len() > 0
        && node_row(path).bytes() == row.key && rows_of(table).dom().contains(node_row(path))
        && rows_of(table)[node_row(path)] == row.value)
}

/// The rows that a scan of all stable paths goes through are rows of paths.
proof fn lemma_recording(table: Table, rows: Seq<RowView>, i: int)
    requires
        canonical(table),
        scanned(table, DbKeyView::StablePathPrefixPrefix(Seq::empty()).bytes(), rows),
        0 <= i < rows.len(),
    ensures
        recording(table, rows[i]),
{
    let bytes = rows[i].key;
    assert(table.dom().contains(bytes));
    assert(is_row_key(bytes));
    let key = db_key_of(bytes)->0;
    law_stable_path_rows(key);
    if let DbKeyView::StablePath(parent, EntryView::ChildExistence(child)) = key {
        assert(parent.push(child).drop_last() =~= parent);
        assert(node_row(parent.push(child)) == key);
    }
}

/// The row that records a path is among those that a scan of all stable paths
/// goes through.
proof fn lemma_recorded(table: Table, rows: Seq<RowView>, path: Seq<KeyView>) -> (at: int)
    requires
        scanned(table, DbKeyView::StablePathPrefixPrefix(Seq::empty()).bytes(), rows),
        path.len() > 0,
        rows_of(table).dom().contains(node_row(path)),
    ensures
        0 <= at < rows.len(),
        recorded_path(rows[at].key) == Ok::<Option<Seq<KeyView>>, StoreError>(Some(path)),
        rows[at].value == rows_of(table)[node_row(path)],
{
    let key = node_row(path);
    law_row_key_round_trip(key);
    law_stable_path_rows(key);
    assert(table.dom().contains(key.bytes()));
    let at = choose|i: int| 0 <= i < rows.len() && (#[trigger] rows[i]).key == key.bytes();
    assert(path.drop_last().push(path.last()) =~= path);
    at
}

/// `key` is the key of a row of some path.
spec fn path_key(key: Seq<u8>) -> bool {
    is_row_key(key) && db_key_of(key)->0 is StablePath
}

/// The path that a row of some path is about.
spec fn path_of_key(key: Seq<u8>) -> Seq<KeyView> {
    db_key_of(key)->0->StablePath_0
}

/// The keys are in order, none twice.
spec fn sorted(keys: Seq<Seq<u8>>) -> bool {
    forall|i: int, j: int|
        0 <= i < j < keys.len() ==> lex_lt(#[trigger] keys[i], #[trigger] keys[j])
}

/// Over sorted keys of paths, none before `last`, the paths come out sorted and
/// behind `last`, one for each path that a key has, but for `last` itself.
proof fn lemma_paths_in(keys: Seq<Seq<u8>>, last: Option<Seq<KeyView>>)
    requires
        forall|i: int| 0 <= i < keys.len() ==> path_key(#[trigger] keys[i]),
        sorted(keys),
        last matches Some(l) ==> forall|i: int|
            0 <= i < keys.len() ==> !path_lt(path_of_key(#[trigger] keys[i]), l),
    ensures
        paths_in(keys, last) matches Ok(out) && {
            &&& forall|i: int, j: int|
                0 <= i < j < out.len() ==> path_lt(#[trigger] out[i], #[trigger] out[j])
            &&& last matches Some(l) ==> forall|i: int|
                0 <= i < out.len() ==> path_lt(l, #[trigger] out[i])
            &&& forall|path: Seq<KeyView>| #[trigger]
                out.contains(path) ==> exists|j: int|
                    0 <= j < keys.len() && path_of_key(#[trigger] keys[j]) == path
            &&& forall|j: int|
                0 <= j < keys.len() ==> Some(path_of_key(#[trigger] keys[j])) == last
                    || out.contains(path_of_key(keys[j]))
        },
    decreases keys.len(),
{
    if keys.len() > 0 {
        let first = db_key_of(keys[0])->0;
        let path = path_of_key(keys[0]);
        let rest = keys.drop_first();
        assert(path_key(keys[0]));
        assert forall|i: int| 0 <= i < rest.len() implies path_key(#[trigger] rest[i]) && !path_lt(
            path_of_key(rest[i]),
            path,
        ) by {
            assert(rest[i] == keys[i + 1]);
            assert(path_key(keys[i + 1]));
            assert(lex_lt(keys[0], keys[i + 1]));
            lemma_key_paths_sorted(keys[0], keys[i + 1]);
        }
        assert(sorted(rest)) by {
            assert forall|i: int, j: int| 0 <= i < j < rest.len() implies lex_lt(
                #[trigger] rest[i],
                #[trigger] rest[j],
            ) by {
                assert(lex_lt(keys[i + 1], keys[j + 1]));
            }
        }
        if last is Some {
            law_path_rows_apart(last->0, first);
        }
        if last == Some(path) {
            lemma_paths_in(rest, last);
            let out = paths_in(rest, last)->Ok_0;
            assert forall|p: Seq<KeyView>| #[trigger] out.contains(p) implies exists|j: int|
                0 <= j < keys.len() && path_of_key(#[trigger] keys[j]) == p by {
                let j = choose|j: int| 0 <= j < rest.len() && path_of_key(#[trigger] rest[j]) == p;
                assert(path_of_key(keys[j + 1]) == p);
            }
            assert forall|j: int| 0 <= j < keys.len() implies Some(path_of_key(#[trigger] keys[j]))
                == last || out.contains(path_of_key(keys[j])) by {
                if j > 0 {
                    assert(rest[j - 1] == keys[j]);
                }
            }
        } else {
            lemma_paths_in(rest, Some(path));
            let tail = paths_in(rest, Some(path))->Ok_0;
            let out = seq![path] + tail;
            assert(paths_in(keys, last) == Ok::<Seq<Seq<KeyView>>, StoreError>(out));
            assert forall|i: int, j: int| 0 <= i < j < out.len() implies path_lt(
                #[trigger] out[i],
                #[trigger] out[j],
            ) by {
                assert(out[j] == tail[j - 1]);
                if i > 0 {
                    assert(out[i] == tail[i - 1]);
                }
            }
            assert forall|p: Seq<KeyView>| #[trigger] out.contains(p) implies exists|j: int|
                0 <= j < keys.len() && path_of_key(#[trigger] keys[j]) == p by {
                let i = choose|i: int| 0 <= i < out.len() && out[i] == p;
                if i == 0 {
                    assert(path_of_key(keys[0]) == p);
                } else {
                    assert(tail[i - 1] == p);
                    assert(tail.contains(p));
                    let j = choose|j: int|
                        0 <= j < rest.len() && path_of_key(#[trigger] rest[j]) == p;
                    assert(path_of_key(keys[j + 1]) == p);
                }
            }
            assert forall|j: int| 0 <= j < keys.len() implies out.contains(
                path_of_key(#[trigger] keys[j]),
            ) by {
                if j == 0 || path_of_key(keys[j]) == path {
                    assert(out[0] == path);
                } else {
                    assert(rest[j - 1] == keys[j]);
                    assert(tail.contains(path_of_key(rest[j - 1])));
                    let i = choose|i: int| 0 <= i < tail.len() && tail[i] == path_of_key(keys[j]);
                    assert(out[i + 1] == tail[i]);
                }
            }
            if last is Some {
                let l = last->0;
                assert forall|i: int| 0 <= i < out.len() implies path_lt(l, #[trigger] out[i]) by {
                    assert(out.contains(out[i]));
                    let j = choose|j: int|
                        0 <= j < keys.len() && path_of_key(#[trigger] keys[j]) == out[i];
                    assert(!path_lt(path_of_key(keys[j]), l));
                    lemma_path_total(l, out[i]);
                    if out[i] == l {
                        assert(!path_lt(path_of_key(keys[0]), l));
                        lemma_path_total(path, l);
                        if i > 0 {
                            assert(path_lt(path, tail[i - 1]));
                        }
                    }
                }
            }
        }
    }
}

/// Rows in key order are in path order.
proof fn lemma_key_paths_sorted(a: Seq<u8>, b: Seq<u8>)
    requires
        path_key(a),
        path_key(b),
        lex_lt(a, b),
    ensures
        !path_lt(path_of_key(b), path_of_key(a)),
{
    let kind = seq![crate::db_schema::STABLE_PATH_ROWS];
    let x = db_key_of(a)->0;
    let y = db_key_of(b)->0;
    lemma_paths_sorted(
        kind,
        x->StablePath_0,
        x->StablePath_1.bytes(),
        y->StablePath_0,
        y->StablePath_1.bytes(),
    );
}

// --- Order behind a prefix -----------------------------------------------

/// Strings behind a common prefix are ordered as the whole strings are.
proof fn lemma_lex_cut(prefix: Seq<u8>, a: Seq<u8>, b: Seq<u8>)
    requires
        lex_lt(prefix + a, prefix + b),
    ensures
        lex_lt(a, b),
{
    lemma_lex_asymmetric(prefix + a, prefix + b);
    lemma_lex_total(a, b);
    if lex_lt(b, a) {
        lemma_lex_prepend(prefix, b, a);
    }
}

/// Keys behind a common prefix are ordered as their bytes are.
proof fn lemma_keys_sorted(prefix: Seq<u8>, a: KeyView, b: KeyView)
    requires
        lex_lt(prefix + key_bytes(a), prefix + key_bytes(b)),
    ensures
        key_lt(a, b),
{
    lemma_lex_asymmetric(prefix + key_bytes(a), prefix + key_bytes(b));
    lemma_key_total(a, b);
    if key_lt(b, a) {
        law_key_order(b, a);
        lemma_below_prepend(prefix, key_bytes(b), key_bytes(a));
    }
}

/// Paths behind a common prefix are not ordered against their bytes, whatever
/// follows them.
proof fn lemma_paths_sorted(
    prefix: Seq<u8>,
    a: Seq<KeyView>,
    s: Seq<u8>,
    b: Seq<KeyView>,
    t: Seq<u8>,
)
    ensures
        lex_lt(prefix + path_bytes(a) + s, prefix + path_bytes(b) + t) ==> !path_lt(b, a),
{
    if lex_lt(prefix + path_bytes(a) + s, prefix + path_bytes(b) + t) && path_lt(b, a) {
        lemma_lex_asymmetric(prefix + path_bytes(a) + s, prefix + path_bytes(b) + t);
        law_path_order(b, a);
        lemma_below_prepend(prefix, path_bytes(b), path_bytes(a));
        lemma_below_append(prefix + path_bytes(b), prefix + path_bytes(a), t, s);
    }
}

// --- Rows of a group -----------------------------------------------------

/// The bytes of a key hold that key.
proof fn lemma_key_of_bytes(key: KeyView)
    ensures
        key_of(key_bytes(key)) == Some(key),
{
    lemma_key_round_trip(key, Seq::empty());
    assert(key_bytes(key) + Seq::<u8>::empty() =~= key_bytes(key));
}

/// The bytes of a path hold that path.
proof fn lemma_path_of_bytes(path: Seq<KeyView>)
    ensures
        path_of(path_bytes(path)) == Some(path),
{
    lemma_path_round_trip(path, Seq::empty());
    assert(path_bytes(path) + Seq::<u8>::empty() =~= path_bytes(path));
}

/// The keys that a scan goes through are at least as long as its prefix.
proof fn lemma_keys_reach(
    table: Table,
    path: Seq<KeyView>,
    group: EntryView,
    rows: Seq<RowView>,
)
    requires
        scanned(table, DbKeyView::StablePath(path, group).bytes(), rows),
    ensures
        keys_reach(DbKeyView::StablePath(path, group).bytes(), rows),
{
}

/// A row that a scan of a group goes through is a row of that group.
proof fn lemma_group_row(
    table: Table,
    path: Seq<KeyView>,
    group: EntryView,
    rows: Seq<RowView>,
    i: int,
) -> (entry: EntryView)
    requires
        canonical(table),
        group.suffix().len() == 0,
        scanned(table, DbKeyView::StablePath(path, group).bytes(), rows),
        0 <= i < rows.len(),
    ensures
        entry.complete(),
        entry.tag() == group.tag(),
        rows[i].key == DbKeyView::StablePath(path, group).bytes() + entry.suffix(),
        rows[i].key.skip(DbKeyView::StablePath(path, group).bytes().len() as int) == entry.suffix(),
        rows_of(table).dom().contains(DbKeyView::StablePath(path, entry)),
        rows_of(table)[DbKeyView::StablePath(path, entry)] == rows[i].value,
{
    let prefix = DbKeyView::StablePath(path, group).bytes();
    let bytes = rows[i].key;
    assert(table.dom().contains(bytes));
    assert(is_row_key(bytes));
    let key = db_key_of(bytes)->0;
    law_listing_prefix(path, group, key);
    let entry = key->StablePath_1;
    assert(bytes.skip(prefix.len() as int) =~= entry.suffix());
    entry
}

/// A row of a group is among those that a scan of the group goes through.
proof fn lemma_group_entry(
    table: Table,
    path: Seq<KeyView>,
    group: EntryView,
    rows: Seq<RowView>,
    entry: EntryView,
) -> (at: int)
    requires
        group.suffix().len() == 0,
        scanned(table, DbKeyView::StablePath(path, group).bytes(), rows),
        entry.tag() == group.tag(),
        rows_of(table).dom().contains(DbKeyView::StablePath(path, entry)),
    ensures
        0 <= at < rows.len(),
        rows[at].key.skip(DbKeyView::StablePath(path, group).bytes().len() as int)
            == entry.suffix(),
{
    let prefix = DbKeyView::StablePath(path, group).bytes();
    let key = DbKeyView::StablePath(path, entry);
    law_listing_prefix(path, group, key);
    assert(table.dom().contains(key.bytes()));
    let at = choose|i: int| 0 <= i < rows.len() && (#[trigger] rows[i]).key == key.bytes();
    assert(rows[at].key.skip(prefix.len() as int) =~= entry.suffix());
    at
}

} // verus!
