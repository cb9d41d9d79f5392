//! What the operations of a store do, stated on the calls themselves: what is found
//! after a change of what was there before, what a read gives back of a write, and
//! how an operation that looks before it writes goes on from what it found.
use crate::app_store::AppStore;
use crate::db_schema::{
    db_key_of, decode_fingerprint, decode_key, decode_path, key_of, law_row_key_round_trip,
    law_row_keys_distinct, path_of, DbEntryKey, DbKeyView, EntryView, Fingerprint, TargetStatePath,
};
use crate::error::StoreError;
use crate::existence::{
    law_recording_step, nodes_of, step_view, EnsureDecision, EnsurePathNodeType, EnsureStep,
};
use crate::id_sequence::{cut_range, law_reservation, ReserveIdRange, ReservedIdRange};
use crate::keys::{
    key_child_existence, key_child_existence_prefix, key_component_memo, key_fn_memo,
    key_fn_memo_prefix, key_id_sequencer, key_target_state_owner, key_tombstone,
    key_tombstone_prefix, key_tracking_info, key_user_state, key_user_state_prefix,
};
use crate::laws::{
    children, fn_memos, law_list_all_stable_paths, law_list_child_existence, law_list_fn_memos,
    law_list_path_nodes, law_list_tombstones, law_list_user_states, law_write_fn_memo,
    law_write_tombstone, law_write_user_state, lists, lists_paths, stable_paths, tombstones,
    user_states,
};
use crate::listing::{
    children_in, children_view, fn_memos_in, fn_memos_view, keyed_child, law_listed_in_order,
    paths_view, tombstones_in, user_states_in, user_states_view,
};
use crate::msgpack::{
    fields_view, named, number_fails, numbers_view, record_fails, record_fit, word_fails,
    words_view,
};
use crate::order::lex_lt;
use crate::path_nodes::{
    lemma_path_order_exact, lists_nodes, node_in, path_less, path_nodes_result, path_recorded_by,
    Node,
};
use crate::retry::{ReadTxnRetry, RetryAction, RetryPhase};
use crate::stable_path::{
    key_lt, lemma_path_total, path_bytes, path_lt, KeyView, StableKey, StablePath, StablePathRef,
};
use crate::table::{
    apply, canonical, found, put_encoded, reply_view, rows_of, rows_view, scanned, Lookup, Row,
    Scan, Table, Write, WriteView,
};
use crate::tracking::{clear_view, law_own_token_alone, ClearStagedTracking};
use crate::values::{
    child_existence_of, id_sequencer_of, is_token, law_node_type_in, law_tracking_form, memo_of,
    owner_of, tracking_of, value_encoded, ChildExistenceInfo, FunctionMemoizationEntry,
    IdSequencerInfo, StablePathEntryTrackingInfo, StablePathNodeType, TargetStateOwnerInfo,
};
use vstd::prelude::*;

verus! {

/// `write` is a put of `value` under `row` and nothing else.
pub open spec fn puts(write: Result<Write, StoreError>, row: DbKeyView, value: Seq<u8>) -> bool {
    write matches Ok(w) && forall|table: Table, at: Seq<u8>| #[trigger]
        found(apply(table, w@), at) == (if at == row.bytes() {
            Some(value)
        } else {
            found(table, at)
        })
}

/// `write` is a delete of `row` and nothing else.
pub open spec fn deletes(write: Result<Write, StoreError>, row: DbKeyView) -> bool {
    write matches Ok(w) && forall|table: Table, at: Seq<u8>| #[trigger]
        found(apply(table, w@), at) == (if at == row.bytes() {
            None
        } else {
            found(table, at)
        })
}

/// `write` is a delete of all rows that begin with `prefix` and nothing else.
pub open spec fn deletes_all(write: Result<Write, StoreError>, prefix: DbKeyView) -> bool {
    write matches Ok(w) && forall|table: Table, at: Seq<u8>| #[trigger]
        found(apply(table, w@), at) == (if prefix.bytes().is_prefix_of(at) {
            None
        } else {
            found(table, at)
        })
}

/// `read` is a lookup of `row`.
pub open spec fn looks_up(read: Result<Lookup, StoreError>, row: DbKeyView) -> bool {
    read matches Ok(lookup) && lookup@ == row.bytes()
}

/// `list` is a scan of the rows that begin with `prefix`.
pub open spec fn scans(list: Result<Scan, StoreError>, prefix: DbKeyView) -> bool {
    list matches Ok(scan) && scan@ == prefix.bytes()
}

// --- Rows whose values the caller has encoded ----------------------------

/// Tracking info is put, looked up and deleted in one row of its path.
pub proof fn law_tracking_info(
    store: &AppStore,
    path: &StablePath,
    encoded: &[u8],
    written: Result<Write, StoreError>,
    read: Result<Lookup, StoreError>,
)
    ensures
        ({
            let row = DbKeyView::StablePath(path@, EntryView::TrackingInfo);
            &&& call_ensures(AppStore::write_tracking_info_raw, (store, path, encoded), written)
                ==> puts(written, row, encoded@)
            &&& call_ensures(AppStore::delete_tracking_info, (store, path), written) ==> deletes(
                written,
                row,
            )
            &&& call_ensures(AppStore::read_tracking_info, (store, path), read) ==> looks_up(
                read,
                row,
            )
            &&& call_ensures(AppStore::read_tracking_info_in_txn, (store, path), read) ==> looks_up(
                read,
                row,
            )
        }),
{
}

/// A component memo is put, looked up and deleted in one row of its path, whichever
/// of the operations does it.
pub proof fn law_component_memo(
    store: &AppStore,
    path: &StablePath,
    encoded: &[u8],
    written: Result<Write, StoreError>,
    read: Result<Lookup, StoreError>,
)
    ensures
        ({
            let row = DbKeyView::StablePath(path@, EntryView::ComponentMemoization);
            &&& call_ensures(AppStore::write_component_memo_raw, (store, path, encoded), written)
                ==> puts(written, row, encoded@)
            &&& call_ensures(
                AppStore::finalize_memoization_standalone,
                (store, path, encoded),
                written,
            ) ==> puts(written, row, encoded@)
            &&& call_ensures(AppStore::finalize_memoization, (store, path, encoded), written)
                ==> puts(written, row, encoded@)
            &&& call_ensures(AppStore::delete_component_memo_in_txn, (store, path), written)
                ==> deletes(written, row)
            &&& call_ensures(AppStore::delete_component_memo, (store, path), written) ==> deletes(
                written,
                row,
            )
            &&& call_ensures(AppStore::read_component_memo, (store, path), read) ==> looks_up(
                read,
                row,
            )
            &&& call_ensures(AppStore::read_component_memo_in_txn, (store, path), read)
                ==> looks_up(read, row)
        }),
{
}

// --- User states ---------------------------------------------------------

/// A user state is put and deleted in one row of its path, and the user states of a
/// path are listed and deleted together.
pub proof fn law_user_states(
    store: &AppStore,
    path: &StablePath,
    key: &StableKey,
    value: &[u8],
    written: Result<Write, StoreError>,
    list: Result<Scan, StoreError>,
)
    ensures
        ({
            let row = DbKeyView::StablePath(path@, EntryView::UserState(key@));
            let group = DbKeyView::StablePath(path@, EntryView::UserStatePrefix);
            &&& call_ensures(AppStore::write_user_state, (store, path, key, value), written)
                ==> puts(written, row, value@)
            &&& call_ensures(AppStore::delete_user_state, (store, path, key), written) ==> deletes(
                written,
                row,
            )
            &&& call_ensures(AppStore::delete_all_user_states, (store, path), written)
                ==> deletes_all(written, group)
            &&& call_ensures(AppStore::list_user_states, (store, path), list) ==> scans(list, group)
        }),
{
}

/// What is listed after a user state was written are the user states from before
/// with that one added or replaced, each once, in key order.
pub proof fn law_listed_after_writing(
    store: &AppStore,
    table: Table,
    path: &StablePath,
    key: &StableKey,
    value: &[u8],
    written: Result<Write, StoreError>,
    scan: &Scan,
    rows: &Vec<Row>,
    out: Result<Vec<(StableKey, Vec<u8>)>, StoreError>,
)
    requires
        canonical(table),
    ensures
        call_ensures(AppStore::write_user_state, (store, path, key, value), written)
            && call_ensures(AppStore::list_user_states, (store, path), Ok(*scan)) && scanned(
            apply(table, written->Ok_0@),
            scan@,
            rows_view(rows@),
        ) && call_ensures(AppStore::collect_user_states, (store, scan, rows), out) ==> (
        user_states_view(out) matches Ok(listed) && lists(
            listed,
            user_states(rows_of(table), path@).insert(key@, value@),
            |a: KeyView, b: KeyView| key_lt(a, b),
        )),
{
    if call_ensures(AppStore::write_user_state, (store, path, key, value), written)
        && call_ensures(AppStore::list_user_states, (store, path), Ok(*scan)) && scanned(
        apply(table, written->Ok_0@),
        scan@,
        rows_view(rows@),
    ) && call_ensures(AppStore::collect_user_states, (store, scan, rows), out) {
        let row = DbKeyView::StablePath(path@, EntryView::UserState(key@));
        let after = apply(table, written->Ok_0@);
        law_row_key_round_trip(row);
        law_write_user_state(table, path@, key@, value@, path@);
        law_list_user_states(after, path@, rows_view(rows@), user_states_view(out));
    }
}

// --- Function memos ------------------------------------------------------

/// A function memo is put and deleted in one row of its path, and the function memos
/// of a path are listed and deleted together. An encoded memo of any length that 32
/// bits can count is put, unless the serializer fails on a record of it.
pub proof fn law_function_memos(
    store: &AppStore,
    path: &StablePath,
    fp: Fingerprint,
    encoded: &[u8],
    entry: &FunctionMemoizationEntry,
    written: Result<Write, StoreError>,
    list: Result<Scan, StoreError>,
)
    ensures
        ({
            let row = DbKeyView::StablePath(path@, EntryView::FunctionMemoization(fp@));
            let group = DbKeyView::StablePath(path@, EntryView::FunctionMemoizationPrefix);
            &&& call_ensures(AppStore::write_fn_memo_raw, (store, path, fp, encoded), written)
                ==> puts(written, row, encoded@)
            &&& call_ensures(AppStore::delete_fn_memo, (store, path, fp), written) ==> deletes(
                written,
                row,
            )
            &&& call_ensures(AppStore::delete_all_fn_memos, (store, path), written) ==> deletes_all(
                written,
                group,
            )
            &&& call_ensures(AppStore::list_fn_memos, (store, path), list) ==> scans(list, group)
            &&& call_ensures(AppStore::write_fn_memo, (store, path, fp, entry), written) ==> {
                &&& entry.value@.len() <= 0xffff_ffff && !record_fails(
                    map!["value"@ => Some(entry.value@)],
                ) ==> written is Ok
                &&& written is Err ==> written->Err_0 == StoreError::ValueEncode
                &&& written is Ok ==> exists|bytes: Seq<u8>| #[trigger]
                    puts(written, row, bytes) && memo_of(bytes) == Some(entry.value@)
            }
        }),
{
    if call_ensures(AppStore::write_fn_memo, (store, path, fp, entry), written) && written is Ok {
        let row = DbKeyView::StablePath(path@, EntryView::FunctionMemoization(fp@));
        assert(puts(written, row, written->Ok_0@->Put_value));
    }
}

/// What is listed after a memo was put are the function memos from before with that
/// one added or replaced, each once, in the order of the fingerprints.
pub proof fn law_memos_listed_after_writing(
    store: &AppStore,
    table: Table,
    path: &StablePath,
    fp: Fingerprint,
    encoded: &[u8],
    written: Result<Write, StoreError>,
    scan: &Scan,
    rows: &Vec<Row>,
    out: Result<Vec<(Fingerprint, Vec<u8>)>, StoreError>,
)
    requires
        canonical(table),
    ensures
        call_ensures(AppStore::write_fn_memo_raw, (store, path, fp, encoded), written)
            && call_ensures(AppStore::list_fn_memos, (store, path), Ok(*scan)) && scanned(
            apply(table, written->Ok_0@),
            scan@,
            rows_view(rows@),
        ) && call_ensures(AppStore::collect_fn_memos, (store, scan, rows), out) ==> (fn_memos_view(
            out,
        ) matches Ok(listed) && lists(
            listed,
            fn_memos(rows_of(table), path@).insert(fp@, encoded@),
            |a: Seq<u8>, b: Seq<u8>| lex_lt(a, b),
        )),
{
    if call_ensures(AppStore::write_fn_memo_raw, (store, path, fp, encoded), written)
        && call_ensures(AppStore::list_fn_memos, (store, path), Ok(*scan)) && scanned(
        apply(table, written->Ok_0@),
        scan@,
        rows_view(rows@),
    ) && call_ensures(AppStore::collect_fn_memos, (store, scan, rows), out) {
        let row = DbKeyView::StablePath(path@, EntryView::FunctionMemoization(fp@));
        let after = apply(table, written->Ok_0@);
        law_row_key_round_trip(row);
        law_write_fn_memo(table, path@, fp@, encoded@, path@);
        law_list_fn_memos(after, path@, rows_view(rows@), fn_memos_view(out));
    }
}

// --- Child existence -----------------------------------------------------

/// What a child is is put, looked up and deleted in one row of its parent, and the
/// children of a path are listed together. It is put whatever the path and the key
/// are, unless the serializer fails on a record of that one word, and is what is read
/// from the row then.
pub proof fn law_children(
    store: &AppStore,
    parent: &StablePath,
    key: &StableKey,
    info: &ChildExistenceInfo,
    written: Result<Write, StoreError>,
    read: Result<Lookup, StoreError>,
    list: Result<Scan, StoreError>,
)
    ensures
        ({
            let row = DbKeyView::StablePath(parent@, EntryView::ChildExistence(key@));
            let word = match info.node_type {
                StablePathNodeType::Directory => "Directory"@,
                StablePathNodeType::Component => "Component"@,
            };
            &&& call_ensures(AppStore::write_child_existence, (store, parent, key, info), written)
                ==> {
                &&& !word_fails("node_type"@, word) ==> written is Ok
                &&& written is Err ==> written->Err_0 == StoreError::ValueEncode
                &&& written is Ok ==> exists|bytes: Seq<u8>| #[trigger]
                    puts(written, row, bytes) && child_existence_of(bytes) == Some(*info)
            }
            &&& call_ensures(AppStore::delete_child_existence, (store, parent, key), written)
                ==> deletes(written, row)
            &&& call_ensures(AppStore::read_child_existence_in_txn, (store, parent, key), read)
                ==> looks_up(read, row)
            &&& call_ensures(AppStore::list_child_existence_in_txn, (store, parent), list)
                ==> scans(list, DbKeyView::StablePath(parent@, EntryView::ChildExistencePrefix))
        }),
{
    if call_ensures(AppStore::write_child_existence, (store, parent, key, info), written)
        && written is Ok {
        let row = DbKeyView::StablePath(parent@, EntryView::ChildExistence(key@));
        assert(puts(written, row, written->Ok_0@->Put_value));
    }
}

/// A child-existence row that was looked up says what it holds, nothing where it is
/// missing, and is an error where it cannot be read.
pub proof fn law_child_read(
    store: &AppStore,
    reply: Option<&[u8]>,
    child: Result<Option<ChildExistenceInfo>, StoreError>,
    node: Result<Option<StablePathNodeType>, StoreError>,
)
    ensures
        call_ensures(AppStore::child_existence, (store, reply), child) ==> match reply {
            Some(bytes) => match child_existence_of(bytes@) {
                Some(info) => child == Ok::<Option<ChildExistenceInfo>, StoreError>(Some(info)),
                None => child == Err::<Option<ChildExistenceInfo>, StoreError>(
                    StoreError::ValueDecode,
                ),
            },
            None => child == Ok::<Option<ChildExistenceInfo>, StoreError>(None),
        },
        call_ensures(AppStore::path_node_type, (store, reply), node) ==> match reply {
            Some(bytes) => match child_existence_of(bytes@) {
                Some(info) => node == Ok::<Option<StablePathNodeType>, StoreError>(
                    Some(info.node_type),
                ),
                None => node == Err::<Option<StablePathNodeType>, StoreError>(
                    StoreError::ValueDecode,
                ),
            },
            None => node == Ok::<Option<StablePathNodeType>, StoreError>(None),
        },
{
}

/// Where all child-existence rows of a path can be read, a listing shows each child
/// once, in key order, with what its row says; it fails otherwise.
pub proof fn law_children_listed(
    store: &AppStore,
    table: Table,
    parent: &StablePath,
    scan: &Scan,
    rows: &Vec<Row>,
    out: Result<Vec<(StableKey, ChildExistenceInfo)>, StoreError>,
)
    requires
        canonical(table),
    ensures
        call_ensures(AppStore::list_child_existence_in_txn, (store, parent), Ok(*scan)) && scanned(
            table,
            scan@,
            rows_view(rows@),
        ) && call_ensures(AppStore::collect_child_existence, (store, scan, rows), out)
            ==> match children_view(out) {
            Ok(listed) => lists(
                listed,
                Map::new(
                    |key: KeyView| children(rows_of(table), parent@).dom().contains(key),
                    |key: KeyView| child_existence_of(children(rows_of(table), parent@)[key])->0,
                ),
                |a: KeyView, b: KeyView| key_lt(a, b),
            ),
            Err(e) => e == StoreError::ValueDecode && exists|key: KeyView| #[trigger]
                children(rows_of(table), parent@).dom().contains(key) && child_existence_of(
                    children(rows_of(table), parent@)[key],
                ) is None,
        },
{
    if call_ensures(AppStore::list_child_existence_in_txn, (store, parent), Ok(*scan)) && scanned(
        table,
        scan@,
        rows_view(rows@),
    ) && call_ensures(AppStore::collect_child_existence, (store, scan, rows), out) {
        law_list_child_existence(table, parent@, rows_view(rows@), children_view(out));
    }
}

// --- Tombstones ----------------------------------------------------------

/// A tombstone is an empty row of its parent; it is put and deleted in one row,
/// whichever of the operations does it, and the tombstones of a path are listed
/// together.
pub proof fn law_tombstones(
    store: &AppStore,
    parent: &StablePath,
    relative: &StablePath,
    written: Result<Write, StoreError>,
    list: Result<Scan, StoreError>,
)
    ensures
        ({
            let row = DbKeyView::StablePath(
                parent@,
                EntryView::ChildComponentTombstone(relative@),
            );
            &&& call_ensures(AppStore::write_tombstone, (store, parent, relative), written)
                ==> puts(written, row, Seq::empty())
            &&& call_ensures(AppStore::delete_tombstone, (store, parent, relative), written)
                ==> deletes(written, row)
            &&& call_ensures(
                AppStore::cleanup_tombstone_standalone,
                (store, parent, relative),
                written,
            ) ==> deletes(written, row)
            &&& call_ensures(AppStore::cleanup_tombstone, (store, parent, relative), written)
                ==> deletes(written, row)
            &&& call_ensures(AppStore::list_tombstones, (store, parent), list) ==> scans(
                list,
                DbKeyView::StablePath(parent@, EntryView::ChildComponentTombstonePrefix),
            )
        }),
{
}

/// What is listed after a tombstone was left are the tombstones from before and that
/// one, each once, in path order.
pub proof fn law_tombstones_listed_after_writing(
    store: &AppStore,
    table: Table,
    parent: &StablePath,
    relative: &StablePath,
    written: Result<Write, StoreError>,
    scan: &Scan,
    rows: &Vec<Row>,
    out: Result<Vec<StablePath>, StoreError>,
)
    requires
        canonical(table),
    ensures
        call_ensures(AppStore::write_tombstone, (store, parent, relative), written)
            && call_ensures(AppStore::list_tombstones, (store, parent), Ok(*scan)) && scanned(
            apply(table, written->Ok_0@),
            scan@,
            rows_view(rows@),
        ) && call_ensures(AppStore::collect_tombstones, (store, scan, rows), out) ==> (paths_view(
            out,
        ) matches Ok(listed) && lists_paths(
            listed,
            tombstones(rows_of(table), parent@).insert(relative@),
        )),
{
    if call_ensures(AppStore::write_tombstone, (store, parent, relative), written)
        && call_ensures(AppStore::list_tombstones, (store, parent), Ok(*scan)) && scanned(
        apply(table, written->Ok_0@),
        scan@,
        rows_view(rows@),
    ) && call_ensures(AppStore::collect_tombstones, (store, scan, rows), out) {
        let row = DbKeyView::StablePath(parent@, EntryView::ChildComponentTombstone(relative@));
        let after = apply(table, written->Ok_0@);
        law_row_key_round_trip(row);
        law_write_tombstone(table, parent@, relative@, Seq::empty(), parent@);
        law_list_tombstones(after, parent@, rows_view(rows@), paths_view(out));
    }
}

/// Removing a child with a tombstone is two changes: the row of the child is gone,
/// and the tombstone is there, whatever the paths are; every other row stays.
pub proof fn law_child_removed(
    store: &AppStore,
    table: Table,
    parent: &StablePath,
    key: &StableKey,
    owner: &StablePath,
    relative: &StablePath,
    writes: Result<Vec<Write>, StoreError>,
    at: Seq<u8>,
)
    ensures
        call_ensures(
            AppStore::remove_child_with_tombstone,
            (store, parent, key, owner, relative),
            writes,
        ) ==> (writes matches Ok(both) && both@.len() == 2 && {
            let gone = DbKeyView::StablePath(parent@, EntryView::ChildExistence(key@)).bytes();
            let left = DbKeyView::StablePath(
                owner@,
                EntryView::ChildComponentTombstone(relative@),
            ).bytes();
            let after = apply(apply(table, both@[0]@), both@[1]@);
            &&& gone != left
            &&& found(after, at) == (if at == gone {
                None
            } else if at == left {
                Some(Seq::<u8>::empty())
            } else {
                found(table, at)
            })
        }),
{
    let gone = DbKeyView::StablePath(parent@, EntryView::ChildExistence(key@));
    let left = DbKeyView::StablePath(owner@, EntryView::ChildComponentTombstone(relative@));
    if gone.bytes() == left.bytes() {
        law_row_keys_distinct(gone, left);
    }
}

// --- Target-state owners -------------------------------------------------

/// An owner is put, looked up and deleted in one row of the target state. It is put
/// whatever the path of the target state is, and whatever the owner is whose bytes 32
/// bits can count, unless the serializer fails on a record of those bytes, and is
/// what is read from the row then.
pub proof fn law_owners(
    store: &AppStore,
    path: &TargetStatePath,
    owner: &StablePath,
    written: Result<Write, StoreError>,
    read: Result<Lookup, StoreError>,
)
    ensures
        ({
            let row = DbKeyView::TargetState(path@);
            &&& call_ensures(AppStore::upsert_target_state_owner, (store, path, owner), written)
                ==> {
                &&& path_bytes(owner@).len() <= 0xffff_ffff && !record_fails(
                    map!["component_path"@ => Some(path_bytes(owner@))],
                ) ==> written is Ok
                &&& written is Err ==> written->Err_0 == StoreError::ValueEncode
                &&& written is Ok ==> exists|bytes: Seq<u8>| #[trigger]
                    puts(written, row, bytes) && owner_of(bytes) == Some(owner@)
            }
            &&& call_ensures(AppStore::delete_target_state_owner, (store, path), written)
                ==> deletes(written, row)
            &&& call_ensures(AppStore::read_target_state_owner_in_txn, (store, path), read)
                ==> looks_up(read, row)
        }),
{
    if call_ensures(AppStore::upsert_target_state_owner, (store, path, owner), written)
        && written is Ok {
        let row = DbKeyView::TargetState(path@);
        assert(puts(written, row, written->Ok_0@->Put_value));
    }
}

/// An owner row that was looked up says who the owner is, nobody where it is missing,
/// and is an error where it cannot be read.
pub proof fn law_owner_read(
    store: &AppStore,
    reply: Option<&[u8]>,
    owner: Result<Option<TargetStateOwnerInfo>, StoreError>,
)
    ensures
        call_ensures(AppStore::target_state_owner, (store, reply), owner) ==> match reply {
            Some(bytes) => match owner_of(bytes@) {
                Some(path) => owner matches Ok(Some(info)) && info.component_path@ == path,
                None => owner == Err::<Option<TargetStateOwnerInfo>, StoreError>(
                    StoreError::ValueDecode,
                ),
            },
            None => owner == Ok::<Option<TargetStateOwnerInfo>, StoreError>(None),
        },
{
}

// --- ID sequencers -------------------------------------------------------

/// The next free ID is put and looked up in one row of the sequencer. Any ID is put,
/// unless the serializer fails on a record of that one number, and is what is read
/// from the row then.
pub proof fn law_sequencer(
    store: &AppStore,
    key: &StableKey,
    next_id: u64,
    written: Result<Write, StoreError>,
    read: Result<Lookup, StoreError>,
)
    ensures
        ({
            let row = DbKeyView::IdSequencer(key@);
            &&& call_ensures(AppStore::write_id_sequence, (store, key, next_id), written) ==> {
                &&& !number_fails("next_id"@, next_id) ==> written is Ok
                &&& written is Err ==> written->Err_0 == StoreError::ValueEncode
                &&& written is Ok ==> exists|bytes: Seq<u8>| #[trigger]
                    puts(written, row, bytes) && id_sequencer_of(bytes) == Some(
                        IdSequencerInfo { next_id },
                    )
            }
            &&& call_ensures(AppStore::peek_id_sequence_in_txn, (store, key), read) ==> looks_up(
                read,
                row,
            )
        }),
{
    if call_ensures(AppStore::write_id_sequence, (store, key, next_id), written) && written is Ok {
        let row = DbKeyView::IdSequencer(key@);
        assert(puts(written, row, written->Ok_0@->Put_value));
    }
}

/// A sequencer row that was looked up says what the next free ID is, nothing where it
/// is missing, and is an error where it cannot be read.
pub proof fn law_sequencer_read(
    store: &AppStore,
    reply: Option<&[u8]>,
    next_id: Result<Option<u64>, StoreError>,
)
    ensures
        call_ensures(AppStore::id_sequence, (store, reply), next_id) ==> match reply {
            Some(bytes) => match id_sequencer_of(bytes@) {
                Some(info) => next_id == Ok::<Option<u64>, StoreError>(Some(info.next_id)),
                None => next_id == Err::<Option<u64>, StoreError>(StoreError::ValueDecode),
            },
            None => next_id == Ok::<Option<u64>, StoreError>(None),
        },
{
}

/// A reservation looks up the row of its sequencer, and any count is reserved that
/// leaves the next free ID within 64 bits, unless the serializer fails on a record of
/// that one number: from 1 where the row is missing, and from where it says
/// otherwise. The row then holds the ID behind the range, and no other row changes.
pub proof fn law_reserved(
    store: &AppStore,
    key: &StableKey,
    count: u64,
    op: &ReserveIdRange,
    read: Result<Lookup, StoreError>,
    reply: Option<&[u8]>,
    r: Result<ReservedIdRange, StoreError>,
)
    ensures
        (call_ensures(AppStore::reserve_id_range, (store, key, count), *op) || call_ensures(
            AppStore::reserve_id_range_in_txn,
            (store, key, count),
            *op,
        )) ==> {
            &&& call_ensures(ReserveIdRange::lookup, (op,), read) ==> looks_up(
                read,
                DbKeyView::IdSequencer(key@),
            )
            &&& call_ensures(ReserveIdRange::resume, (op, reply), r) ==> {
                let readable = reply matches Some(bytes) ==> id_sequencer_of(bytes@) is Some;
                let start: int = match reply {
                    Some(bytes) => id_sequencer_of(bytes@)->0.next_id as int,
                    None => 1,
                };
                let end = start + count;
                &&& !readable ==> r == Err::<ReservedIdRange, StoreError>(StoreError::ValueDecode)
                &&& readable && end > 0xffff_ffff_ffff_ffff ==> r == Err::<
                    ReservedIdRange,
                    StoreError,
                >(StoreError::IdRangeExhausted)
                &&& readable && end <= 0xffff_ffff_ffff_ffff && !number_fails(
                    "next_id"@,
                    end as u64,
                ) ==> r is Ok
                &&& readable && end <= 0xffff_ffff_ffff_ffff && r is Err ==> r->Err_0
                    == StoreError::ValueEncode
                &&& r is Ok ==> r->Ok_0.first_id == start && exists|bytes: Seq<u8>| #[trigger]
                    puts(Ok(r->Ok_0.write), DbKeyView::IdSequencer(key@), bytes) && (
                    id_sequencer_of(bytes) matches Some(info) && info.next_id == end)
            }
        },
{
    if call_ensures(ReserveIdRange::resume, (op, reply), r) {
        law_reservation(*op, reply_view(reply), r);
        if r is Ok {
            assert(puts(
                Ok(r->Ok_0.write),
                DbKeyView::IdSequencer(op.key@),
                r->Ok_0.write@->Put_value,
            ));
        }
    }
}

/// Two reservations from one sequencer, one after the other: the second starts right
/// behind the first.
pub proof fn law_reserved_in_turn(
    table: Table,
    first: &ReserveIdRange,
    second: &ReserveIdRange,
    reply: Option<&[u8]>,
    next_reply: Option<&[u8]>,
    one: Result<ReservedIdRange, StoreError>,
    two: Result<ReservedIdRange, StoreError>,
)
    ensures
        first.key@ == second.key@ && call_ensures(ReserveIdRange::resume, (first, reply), one)
            && call_ensures(ReserveIdRange::resume, (second, next_reply), two) && one is Ok && two
            is Ok && reply_view(next_reply) == found(
            apply(table, one->Ok_0.write@),
            DbKeyView::IdSequencer(first.key@).bytes(),
        ) ==> two->Ok_0.first_id == one->Ok_0.first_id + first.count,
{
    if call_ensures(ReserveIdRange::resume, (first, reply), one) {
        law_reservation(*first, reply_view(reply), one);
    }
    if call_ensures(ReserveIdRange::resume, (second, next_reply), two) {
        law_reservation(*second, reply_view(next_reply), two);
    }
}

// --- Staged tracking info ------------------------------------------------

/// Clearing looks up the tracking info of its path, and takes out the token of its
/// own process and no other. Where the row is missing, or holds no token, or that of
/// another process, nothing is written. Where it holds the token, the row is put with
/// the same fields and no token, unless its record is too large or the serializer
/// fails on it. A row that cannot be read is an error.
pub proof fn law_staged_token(
    store: &AppStore,
    path: &StablePath,
    token: u128,
    op: &ClearStagedTracking,
    read: Result<Lookup, StoreError>,
    reply: Option<&[u8]>,
    r: Result<Option<Write>, StoreError>,
)
    ensures
        call_ensures(AppStore::clear_staged_tracking, (store, path, token), *op) ==> {
            let row = DbKeyView::StablePath(path@, EntryView::TrackingInfo);
            &&& call_ensures(ClearStagedTracking::lookup, (op,), read) ==> looks_up(read, row)
            &&& call_ensures(ClearStagedTracking::resume, (op, reply), r) ==> match reply {
                Some(bytes) => match tracking_of(bytes@) {
                    Some(info) => {
                        let left = info.fields.insert("pending_process_token"@, None);
                        &&& info.pending_process_token != Some(token) ==> r == Ok::<
                            Option<Write>,
                            StoreError,
                        >(None)
                        &&& info.pending_process_token == Some(token) && record_fit(left)
                            && !record_fails(left) ==> r is Ok
                        &&& r is Err ==> r->Err_0 == StoreError::ValueEncode
                        &&& info.pending_process_token == Some(token) && r is Ok ==> (
                        r->Ok_0 matches Some(write) && exists|now: Seq<u8>| #[trigger]
                            puts(Ok(write), row, now) && (tracking_of(now) matches Some(kept)
                                && kept.pending_process_token is None && kept.fields
                                == info.fields))
                    },
                    None => r == Err::<Option<Write>, StoreError>(StoreError::ValueDecode),
                },
                None => r == Ok::<Option<Write>, StoreError>(None),
            }
        },
{
    if call_ensures(AppStore::clear_staged_tracking, (store, path, token), *op) && call_ensures(
        ClearStagedTracking::resume,
        (op, reply),
        r,
    ) {
        let row = DbKeyView::StablePath(path@, EntryView::TrackingInfo);
        let table: Table = match reply_view(reply) {
            Some(bytes) => map![row.bytes() => bytes],
            None => Map::empty(),
        };
        law_own_token_alone(table, path@, token, reply_view(reply), clear_view(r));
        if r is Ok && r->Ok_0 is Some {
            assert(puts(Ok(r->Ok_0->0), row, r->Ok_0->0@->Put_value));
        }
    }
}

// --- Path node types -----------------------------------------------------

/// Recording a path starts with its own row: a component for a chain of existence,
/// and nothing for the root. What is known of the parent does not matter.
pub proof fn law_recording_starts(
    store: &AppStore,
    path: &StablePath,
    known: &StablePath,
    parent: StablePathRef<'_>,
    key: &StableKey,
    target: StablePathNodeType,
    op: EnsurePathNodeType,
    chain: Option<EnsurePathNodeType>,
)
    ensures
        call_ensures(AppStore::ensure_path_node_type, (store, parent, key, target), op)
            ==> op.parent@ == parent@ && op.key@ == key@ && op.target == target,
        (call_ensures(AppStore::ensure_existence_chain_standalone, (store, path), chain)
            || call_ensures(AppStore::ensure_existence_chain, (store, path, known), chain)) ==> {
            &&& path@.len() == 0 ==> chain is None
            &&& path@.len() > 0 ==> (chain matches Some(first) && first.parent@.push(first.key@)
                == path@ && first.target == StablePathNodeType::Component)
        },
{
    if path@.len() > 0 {
        assert(path@.drop_last().push(path@.last()) =~= path@);
    }
}

/// What a path is is looked up in the row of its last key under its parent.
pub proof fn law_node_looked_up(
    store: &AppStore,
    parent: StablePathRef<'_>,
    key: &StableKey,
    op: &EnsurePathNodeType,
    read: Result<Lookup, StoreError>,
)
    ensures
        call_ensures(AppStore::read_path_node_type, (store, parent, key), read) ==> looks_up(
            read,
            DbKeyView::StablePath(parent@, EntryView::ChildExistence(key@)),
        ),
        call_ensures(AppStore::read_path_node_type_in_txn, (store, parent, key), read) ==> looks_up(
            read,
            DbKeyView::StablePath(parent@, EntryView::ChildExistence(key@)),
        ),
        call_ensures(EnsurePathNodeType::lookup, (op,), read) ==> looks_up(
            read,
            DbKeyView::StablePath(op.parent@, EntryView::ChildExistence(op.key@)),
        ),
{
    assert(op@.path().drop_last() =~= op.parent@);
}

/// Recording goes on from what the lookup found. A missing row, whatever its depth
/// and its key, is put as the target, and so is a directory that is to be a
/// component, unless the serializer fails on a record of that one word; any other
/// row stays. A missing row leads on to its parent, as a directory, up to the root. A
/// row that cannot be read is an error.
pub proof fn law_recording_goes_on(
    op: &EnsurePathNodeType,
    reply: Option<&[u8]>,
    r: Result<EnsureStep, StoreError>,
)
    ensures
        call_ensures(EnsurePathNodeType::resume, (op, reply), r) ==> {
            let word = match op.target {
                StablePathNodeType::Directory => "Directory"@,
                StablePathNodeType::Component => "Component"@,
            };
            let row = DbKeyView::StablePath(op.parent@, EntryView::ChildExistence(op.key@));
            let readable = reply matches Some(bytes) ==> child_existence_of(bytes@) is Some;
            let directory = ChildExistenceInfo { node_type: StablePathNodeType::Directory };
            let due = reply is None || (op.target == StablePathNodeType::Component
                && child_existence_of(reply->0@) == Some(directory));
            &&& !readable ==> r == Err::<EnsureStep, StoreError>(StoreError::ValueDecode)
            &&& readable && !due ==> (r matches Ok(step) && step.write is None && step.next is None)
            &&& due && !word_fails("node_type"@, word) ==> r is Ok
            &&& due && r is Err ==> r->Err_0 == StoreError::ValueEncode
            &&& due && r is Ok ==> (r->Ok_0.write matches Some(write) && exists|now: Seq<u8>|
                #[trigger]
                puts(Ok(write), row, now) && child_existence_of(now) == Some(
                    ChildExistenceInfo { node_type: op.target },
                ))
            &&& reply is None && op.parent@.len() > 0 && r is Ok ==> (r->Ok_0.next matches Some(
                next,
            ) && next.parent@.push(next.key@) == op.parent@ && next.target
                == StablePathNodeType::Directory)
            &&& (reply is Some || op.parent@.len() == 0) && r is Ok ==> r->Ok_0.next is None
        },
{
    if call_ensures(EnsurePathNodeType::resume, (op, reply), r) {
        law_recording_step(op@, reply_view(reply), step_view(r));
        let row = DbKeyView::StablePath(op.parent@, EntryView::ChildExistence(op.key@));
        if r is Ok && r->Ok_0.write is Some {
            assert(puts(Ok(r->Ok_0.write->0), row, r->Ok_0.write->0@->Put_value));
        }
        if op.parent@.len() > 0 {
            assert(op.parent@.drop_last().push(op.parent@.last()) =~= op.parent@);
        }
    }
}

// --- The whole app -------------------------------------------------------

/// Clearing everything leaves no row.
pub proof fn law_cleared_all(store: &AppStore, table: Table, write: Write, at: Seq<u8>)
    ensures
        call_ensures(AppStore::clear_all, (store,), write) ==> found(apply(table, write@), at)
            is None,
{
}

/// A listing of all stable paths shows each path that has a row once, in path order,
/// and nothing else.
pub proof fn law_all_paths_listed(
    store: &AppStore,
    table: Table,
    scan: &Scan,
    rows: &Vec<Row>,
    out: Result<Vec<StablePath>, StoreError>,
)
    requires
        canonical(table),
    ensures
        call_ensures(AppStore::list_all_stable_paths, (store,), Ok(*scan)) && scanned(
            table,
            scan@,
            rows_view(rows@),
        ) && call_ensures(AppStore::collect_stable_paths, (store, rows), out) ==> (paths_view(
            out,
        ) matches Ok(listed) && lists_paths(listed, stable_paths(rows_of(table)))),
{
    if call_ensures(AppStore::list_all_stable_paths, (store,), Ok(*scan)) && scanned(
        table,
        scan@,
        rows_view(rows@),
    ) && call_ensures(AppStore::collect_stable_paths, (store, rows), out) {
        law_list_all_stable_paths(table, rows_view(rows@));
    }
}

/// The recorded paths are listed from the rows of all stable paths: each of them
/// once, in path order, with what it is, where all rows that record one can be read;
/// the listing fails otherwise.
pub proof fn law_all_nodes_listed(
    store: &AppStore,
    table: Table,
    scan: &Scan,
    rows: &Vec<Row>,
    out: Result<Vec<(StablePath, StablePathNodeType)>, StoreError>,
)
    requires
        canonical(table),
    ensures
        call_ensures(AppStore::spawn_stable_path_iter, (store,), Ok(*scan)) && scanned(
            table,
            scan@,
            rows_view(rows@),
        ) && call_ensures(AppStore::collect_path_nodes, (store, rows), out)
            ==> match path_nodes_result(out) {
            Ok(listed) => lists(
                listed,
                nodes_of(rows_of(table)),
                |a: Seq<KeyView>, b: Seq<KeyView>| path_lt(a, b),
            ),
            Err(e) => e == StoreError::ValueDecode,
        },
{
    if call_ensures(AppStore::spawn_stable_path_iter, (store,), Ok(*scan)) && scanned(
        table,
        scan@,
        rows_view(rows@),
    ) && call_ensures(AppStore::collect_path_nodes, (store, rows), out) {
        law_list_path_nodes(table, rows_view(rows@), path_nodes_result(out));
    }
}

/// Scanning all stable paths succeeds, in either form.
pub proof fn law_all_paths_scanned(store: &AppStore, list: Result<Scan, StoreError>)
    ensures
        call_ensures(AppStore::list_all_stable_paths, (store,), list) || call_ensures(
            AppStore::spawn_stable_path_iter,
            (store,),
            list,
        ) ==> (list matches Ok(scan) && scan@ == seq![0x10u8]),
{
    assert(DbKeyView::StablePathPrefixPrefix(Seq::empty()).bytes() =~= seq![0x10u8]);
}

// --- Rows that cannot be read --------------------------------------------

/// A listing of names and values fails at the first row whose name cannot be read
/// behind the prefix.
pub proof fn law_first_bad_name(
    store: &AppStore,
    scan: &Scan,
    rows: &Vec<Row>,
    k: int,
    states: Result<Vec<(StableKey, Vec<u8>)>, StoreError>,
    memos: Result<Vec<(Fingerprint, Vec<u8>)>, StoreError>,
    stones: Result<Vec<StablePath>, StoreError>,
)
    requires
        0 <= k < rows@.len(),
    ensures
        ({
            let n = scan@.len() as int;
            &&& call_ensures(AppStore::collect_user_states, (store, scan, rows), states) && (
            forall|j: int|
                0 <= j < k ==> key_of((#[trigger] rows@[j]).key@.skip(n)) is Some) && key_of(
                rows@[k].key@.skip(n),
            ) is None ==> states == Err::<Vec<(StableKey, Vec<u8>)>, StoreError>(
                StoreError::KeyDecode,
            )
            &&& call_ensures(AppStore::collect_fn_memos, (store, scan, rows), memos) && (
            forall|j: int|
                0 <= j < k ==> (#[trigger] rows@[j]).key@.skip(n).len() == 16)
                && rows@[k].key@.skip(n).len() != 16 ==> memos == Err::<
                Vec<(Fingerprint, Vec<u8>)>,
                StoreError,
            >(StoreError::KeyDecode)
            &&& call_ensures(AppStore::collect_tombstones, (store, scan, rows), stones) && (
            forall|j: int|
                0 <= j < k ==> path_of((#[trigger] rows@[j]).key@.skip(n)) is Some) && path_of(
                rows@[k].key@.skip(n),
            ) is None ==> stones == Err::<Vec<StablePath>, StoreError>(StoreError::KeyDecode)
        }),
{
    let n = scan@.len();
    let views = rows_view(rows@);
    assert(views[k] == rows@[k]@);
    assert forall|j: int| 0 <= j < k implies #[trigger] views[j] == rows@[j]@ by {}
    let got = user_states_in(views, n);
    if call_ensures(AppStore::collect_user_states, (store, scan, rows), states) && (forall|j: int|
        0 <= j < k ==> key_of((#[trigger] rows@[j]).key@.skip(n as int)) is Some) && key_of(
        rows@[k].key@.skip(n as int),
    ) is None {
        assert forall|j: int| 0 <= j < k implies (#[trigger] got[j]) is Ok by {
            assert(key_of(rows@[j].key@.skip(n as int)) is Some);
        }
        law_listed_in_order(got, user_states_view(states), k);
    }
    let got = fn_memos_in(views, n);
    if call_ensures(AppStore::collect_fn_memos, (store, scan, rows), memos) && (forall|j: int|
        0 <= j < k ==> (#[trigger] rows@[j]).key@.skip(n as int).len() == 16)
        && rows@[k].key@.skip(n as int).len() != 16 {
        assert forall|j: int| 0 <= j < k implies (#[trigger] got[j]) is Ok by {
            assert(rows@[j].key@.skip(n as int).len() == 16);
        }
        law_listed_in_order(got, fn_memos_view(memos), k);
    }
    let got = tombstones_in(views, n);
    if call_ensures(AppStore::collect_tombstones, (store, scan, rows), stones) && (forall|j: int|
        0 <= j < k ==> path_of((#[trigger] rows@[j]).key@.skip(n as int)) is Some) && path_of(
        rows@[k].key@.skip(n as int),
    ) is None {
        assert forall|j: int| 0 <= j < k implies (#[trigger] got[j]) is Ok by {
            assert(path_of(rows@[j].key@.skip(n as int)) is Some);
        }
        law_listed_in_order(got, paths_view(stones), k);
    }
}

/// A listing of children fails at the first row whose key or value cannot be read,
/// and a listing of recorded paths at the first row that is not one of a stable path,
/// or that records a path and cannot be read.
pub proof fn law_first_bad_row(
    store: &AppStore,
    scan: &Scan,
    rows: &Vec<Row>,
    k: int,
    out: Result<Vec<(StableKey, ChildExistenceInfo)>, StoreError>,
    nodes: Result<Vec<(StablePath, StablePathNodeType)>, StoreError>,
)
    requires
        0 <= k < rows@.len(),
    ensures
        ({
            let n = scan@.len() as int;
            &&& call_ensures(AppStore::collect_child_existence, (store, scan, rows), out) && (
            forall|j: int|
                0 <= j < k ==> key_of((#[trigger] rows@[j]).key@.skip(n)) is Some
                    && child_existence_of(rows@[j].value@) is Some) ==> {
                &&& key_of(rows@[k].key@.skip(n)) is None ==> out == Err::<
                    Vec<(StableKey, ChildExistenceInfo)>,
                    StoreError,
                >(StoreError::KeyDecode)
                &&& key_of(rows@[k].key@.skip(n)) is Some && child_existence_of(rows@[k].value@)
                    is None ==> out == Err::<Vec<(StableKey, ChildExistenceInfo)>, StoreError>(
                    StoreError::ValueDecode,
                )
            }
            &&& call_ensures(AppStore::collect_path_nodes, (store, rows), nodes) && (forall|j: int|
                0 <= j < k ==> (db_key_of((#[trigger] rows@[j]).key@) matches Some(
                    DbKeyView::StablePath(_, entry),
                ) && (entry is ChildExistence ==> child_existence_of(rows@[j].value@) is Some)))
                ==> {
                &&& db_key_of(rows@[k].key@) is None ==> nodes == Err::<
                    Vec<(StablePath, StablePathNodeType)>,
                    StoreError,
                >(StoreError::KeyDecode)
                &&& (db_key_of(rows@[k].key@) matches Some(key) && !(key is StablePath)) ==> nodes
                    == Err::<Vec<(StablePath, StablePathNodeType)>, StoreError>(
                    StoreError::ExpectedStablePath,
                )
                &&& (db_key_of(rows@[k].key@) matches Some(
                    DbKeyView::StablePath(_, EntryView::ChildExistence(_)),
                ) && child_existence_of(rows@[k].value@) is None) ==> nodes == Err::<
                    Vec<(StablePath, StablePathNodeType)>,
                    StoreError,
                >(StoreError::ValueDecode)
            }
        }),
{
    let n = scan@.len();
    let views = rows_view(rows@);
    assert(views[k] == rows@[k]@);
    assert forall|j: int| 0 <= j < k implies #[trigger] views[j] == rows@[j]@ by {}
    let got = children_in(views, n);
    if call_ensures(AppStore::collect_child_existence, (store, scan, rows), out) && (forall|j: int|
        0 <= j < k ==> key_of((#[trigger] rows@[j]).key@.skip(n as int)) is Some
            && child_existence_of(rows@[j].value@) is Some) {
        assert forall|j: int| 0 <= j < k implies (#[trigger] got[j]) is Ok by {
            assert(key_of(rows@[j].key@.skip(n as int)) is Some);
        }
        law_listed_in_order(got, children_view(out), k);
    }
    if call_ensures(AppStore::collect_path_nodes, (store, rows), nodes) && (forall|j: int|
        0 <= j < k ==> (db_key_of((#[trigger] rows@[j]).key@) matches Some(
            DbKeyView::StablePath(_, entry),
        ) && (entry is ChildExistence ==> child_existence_of(rows@[j].value@) is Some)))
        && node_in(views[k]) is Err {
        assert(lists_nodes(views, path_nodes_result(nodes)));
        assert(nodes is Err) by {
            if nodes is Ok {
                assert(node_in(views[k]) is Ok);
            }
        }
        let e = nodes->Err_0;
        let i = choose|i: int|
            0 <= i < views.len() && node_in(#[trigger] views[i]) == Err::<Option<Node>, StoreError>(
                e,
            ) && forall|j: int| 0 <= j < i ==> node_in(#[trigger] views[j]) is Ok;
        if i < k {
            assert(views[i] == rows@[i]@);
            assert(db_key_of(rows@[i].key@) is Some);
        } else if k < i {
            assert(node_in(views[k]) is Ok);
        }
    }
}

// --- Read transactions ---------------------------------------------------

/// Opening a read transaction starts with the short phase and a pause of 10
/// milliseconds. Once stale readers were cleared an attempt is made at once, and a
/// clearing that failed is the end.
pub proof fn law_read_txn(
    store: &AppStore,
    start: ReadTxnRetry,
    retry: &ReadTxnRetry,
    cleared: bool,
    action: RetryAction,
)
    ensures
        call_ensures(AppStore::read_txn, (store,), start) || call_ensures(
            ReadTxnRetry::new,
            (),
            start,
        ) ==> start.phase == RetryPhase::Short && start.backoff_ms == 10,
        call_ensures(ReadTxnRetry::after_clearing, (retry, cleared), action) ==> action == (
        if cleared {
            RetryAction::Open
        } else {
            RetryAction::GiveUp
        }),
{
}

// --- Row keys and values -------------------------------------------------

/// A row key that names one row is read back from its bytes as what was encoded.
pub proof fn law_row_key_read_back(
    key: &DbEntryKey,
    encoded: Result<Vec<u8>, StoreError>,
    bytes: &[u8],
    decoded: Result<DbEntryKey, StoreError>,
)
    ensures
        key@.complete() && call_ensures(DbEntryKey::encode, (key,), encoded) && encoded is Ok
            && bytes@ == encoded->Ok_0@ && call_ensures(DbEntryKey::decode, (bytes,), decoded) ==> (
        decoded matches Ok(got) && got@ == key@),
        call_ensures(DbEntryKey::encode, (key,), encoded) ==> encoded is Ok,
{
    if key@.complete() {
        law_row_key_round_trip(key@);
    }
}

/// A value is read back from its bytes as what was encoded, and encoding it fails
/// only where its lengths are more than 32 bits can count, or the serializer fails.
pub proof fn law_value_read_back(
    encoded: Result<Vec<u8>, StoreError>,
    bytes: &[u8],
    child: &ChildExistenceInfo,
    got_child: Result<ChildExistenceInfo, StoreError>,
    sequencer: &IdSequencerInfo,
    got_sequencer: Result<IdSequencerInfo, StoreError>,
    owner: &TargetStateOwnerInfo,
    got_owner: Result<TargetStateOwnerInfo, StoreError>,
    memo: &FunctionMemoizationEntry,
    got_memo: Result<FunctionMemoizationEntry, StoreError>,
)
    ensures
        encoded is Ok && bytes@ == encoded->Ok_0@ ==> {
            &&& call_ensures(ChildExistenceInfo::encode, (child,), encoded) && call_ensures(
                ChildExistenceInfo::decode,
                (bytes,),
                got_child,
            ) ==> got_child == Ok::<ChildExistenceInfo, StoreError>(*child)
            &&& call_ensures(IdSequencerInfo::encode, (sequencer,), encoded) && call_ensures(
                IdSequencerInfo::decode,
                (bytes,),
                got_sequencer,
            ) ==> got_sequencer == Ok::<IdSequencerInfo, StoreError>(*sequencer)
            &&& call_ensures(TargetStateOwnerInfo::encode, (owner,), encoded) && call_ensures(
                TargetStateOwnerInfo::decode,
                (bytes,),
                got_owner,
            ) ==> (got_owner matches Ok(got) && got.component_path@ == owner.component_path@)
            &&& call_ensures(FunctionMemoizationEntry::encode, (memo,), encoded) && call_ensures(
                FunctionMemoizationEntry::decode,
                (bytes,),
                got_memo,
            ) ==> (got_memo matches Ok(got) && got.value@ == memo.value@)
        },
        encoded is Err ==> {
            &&& call_ensures(ChildExistenceInfo::encode, (child,), encoded) ==> word_fails(
                "node_type"@,
                match child.node_type {
                    StablePathNodeType::Directory => "Directory"@,
                    StablePathNodeType::Component => "Component"@,
                },
            )
            &&& call_ensures(IdSequencerInfo::encode, (sequencer,), encoded) ==> number_fails(
                "next_id"@,
                sequencer.next_id,
            )
            &&& call_ensures(TargetStateOwnerInfo::encode, (owner,), encoded) ==> path_bytes(
                owner.component_path@,
            ).len() > 0xffff_ffff || record_fails(
                map!["component_path"@ => Some(path_bytes(owner.component_path@))],
            )
            &&& call_ensures(FunctionMemoizationEntry::encode, (memo,), encoded)
                ==> memo.value@.len() > 0xffff_ffff || record_fails(
                map!["value"@ => Some(memo.value@)],
            )
        },
{
}

/// Tracking info is read back from its bytes as what was encoded, and encoding it
/// fails only where its record is too large, or the serializer fails on it.
pub proof fn law_tracking_read_back(
    info: StablePathEntryTrackingInfo,
    encoded: Result<Vec<u8>, StoreError>,
    bytes: &[u8],
    decoded: Result<StablePathEntryTrackingInfo, StoreError>,
)
    ensures
        call_ensures(StablePathEntryTrackingInfo::encode, (info,), encoded) ==> {
            let name = "pending_process_token"@;
            &&& encoded is Ok && bytes@ == encoded->Ok_0@ && call_ensures(
                StablePathEntryTrackingInfo::decode,
                (bytes,),
                decoded,
            ) ==> (decoded matches Ok(got) && got.pending_process_token
                == info.pending_process_token && got@.fields == info@.fields)
            &&& encoded is Err ==> encoded->Err_0 == StoreError::ValueEncode
            &&& encoded is Err ==> exists|record: Map<Seq<char>, Option<Seq<u8>>>|
                record.dom().contains(name) && #[trigger] record.remove(name)
                    == info@.fields.remove(name) && (match info.pending_process_token {
                    Some(token) => record[name] matches Some(held) && is_token(held, token),
                    None => record[name] is None,
                }) && (!record_fit(record) || record_fails(record))
        },
{
    law_tracking_form(bytes@, info@.fields, info@);
    assert(info@.record().remove("pending_process_token"@) == info@.fields.remove(
        "pending_process_token"@,
    ));
}

/// A value is what its bytes hold, and `ValueDecode` where they hold none.
pub proof fn law_values_decoded(
    bytes: &[u8],
    child: Result<ChildExistenceInfo, StoreError>,
    sequencer: Result<IdSequencerInfo, StoreError>,
    owner: Result<TargetStateOwnerInfo, StoreError>,
    memo: Result<FunctionMemoizationEntry, StoreError>,
    tracking: Result<StablePathEntryTrackingInfo, StoreError>,
)
    ensures
        call_ensures(ChildExistenceInfo::decode, (bytes,), child) ==> match child {
            Ok(info) => child_existence_of(bytes@) == Some(info),
            Err(e) => e == StoreError::ValueDecode && child_existence_of(bytes@) is None,
        },
        call_ensures(IdSequencerInfo::decode, (bytes,), sequencer) ==> match sequencer {
            Ok(info) => id_sequencer_of(bytes@) == Some(info),
            Err(e) => e == StoreError::ValueDecode && id_sequencer_of(bytes@) is None,
        },
        call_ensures(TargetStateOwnerInfo::decode, (bytes,), owner) ==> match owner {
            Ok(info) => owner_of(bytes@) == Some(info.component_path@),
            Err(e) => e == StoreError::ValueDecode && owner_of(bytes@) is None,
        },
        call_ensures(FunctionMemoizationEntry::decode, (bytes,), memo) ==> match memo {
            Ok(entry) => memo_of(bytes@) == Some(entry.value@),
            Err(e) => e == StoreError::ValueDecode && memo_of(bytes@) is None,
        },
        call_ensures(StablePathEntryTrackingInfo::decode, (bytes,), tracking) ==> match tracking {
            Ok(info) => tracking_of(bytes@) == Some(info@),
            Err(e) => e == StoreError::ValueDecode && tracking_of(bytes@) is None,
        },
{
}

/// A value is what a record that was read holds under its name, whatever else the
/// record holds, and `ValueDecode` where that is none.
pub proof fn law_records_read(
    words: &Vec<(String, String)>,
    child: Result<ChildExistenceInfo, StoreError>,
    numbers: &Vec<(String, u64)>,
    sequencer: Result<IdSequencerInfo, StoreError>,
    fields: Vec<(String, Option<Vec<u8>>)>,
    owner: Result<TargetStateOwnerInfo, StoreError>,
    memo: Result<FunctionMemoizationEntry, StoreError>,
    tracking: Result<StablePathEntryTrackingInfo, StoreError>,
)
    ensures
        call_ensures(ChildExistenceInfo::from_words, (words,), child) ==> {
            let record = named(words_view(words@));
            let name = "node_type"@;
            let word = record[name];
            &&& !record.dom().contains(name) || (word != "Directory"@ && word != "Component"@)
                ==> child == Err::<ChildExistenceInfo, StoreError>(StoreError::ValueDecode)
            &&& record.dom().contains(name) && word == "Directory"@ ==> child == Ok::<
                ChildExistenceInfo,
                StoreError,
            >(ChildExistenceInfo { node_type: StablePathNodeType::Directory })
            &&& record.dom().contains(name) && word == "Component"@ ==> child == Ok::<
                ChildExistenceInfo,
                StoreError,
            >(ChildExistenceInfo { node_type: StablePathNodeType::Component })
        },
        call_ensures(IdSequencerInfo::from_numbers, (numbers,), sequencer) ==> {
            let record = named(numbers_view(numbers@));
            if record.dom().contains("next_id"@) {
                sequencer matches Ok(info) && info.next_id == record["next_id"@]
            } else {
                sequencer == Err::<IdSequencerInfo, StoreError>(StoreError::ValueDecode)
            }
        },
        call_ensures(TargetStateOwnerInfo::from_fields, (fields,), owner) ==> {
            let record = named(fields_view(fields@));
            let name = "component_path"@;
            if record.dom().contains(name) && record[name] is Some && path_of(record[name]->0)
                is Some {
                owner matches Ok(info) && Some(info.component_path@) == path_of(record[name]->0)
            } else {
                owner == Err::<TargetStateOwnerInfo, StoreError>(StoreError::ValueDecode)
            }
        },
        call_ensures(FunctionMemoizationEntry::from_fields, (fields,), memo) ==> {
            let record = named(fields_view(fields@));
            if record.dom().contains("value"@) && record["value"@] is Some {
                memo matches Ok(entry) && Some(entry.value@) == record["value"@]
            } else {
                memo == Err::<FunctionMemoizationEntry, StoreError>(StoreError::ValueDecode)
            }
        },
        call_ensures(StablePathEntryTrackingInfo::from_fields, (fields,), tracking) ==> {
            let record = named(fields_view(fields@));
            let name = "pending_process_token"@;
            let held = if record.dom().contains(name) {
                record[name]
            } else {
                None
            };
            if held is Some && held->0.len() != 16 {
                tracking == Err::<StablePathEntryTrackingInfo, StoreError>(StoreError::ValueDecode)
            } else {
                tracking matches Ok(info) && info@.fields == record.remove(name) && (
                match info.pending_process_token {
                    Some(token) => held matches Some(bytes) && is_token(bytes, token),
                    None => held is None,
                })
            }
        },
{
    law_node_type_in(named(words_view(words@)), StablePathNodeType::Directory);
    law_node_type_in(named(words_view(words@)), StablePathNodeType::Component);
    if call_ensures(StablePathEntryTrackingInfo::from_fields, (fields,), tracking) && tracking
        is Ok {
        law_tracking_form(Seq::empty(), named(fields_view(fields@)), tracking->Ok_0@);
    }
}

/// The row keys that the operations use name their rows and groups of rows.
pub proof fn law_row_keys(
    path: &StablePath,
    fp: Fingerprint,
    key: &StableKey,
    relative: &StablePath,
    target: &TargetStatePath,
    r: Result<Vec<u8>, StoreError>,
)
    ensures
        call_ensures(key_tracking_info, (path,), r) ==> (r matches Ok(bytes) && bytes@
            == DbKeyView::StablePath(path@, EntryView::TrackingInfo).bytes()),
        call_ensures(key_component_memo, (path,), r) ==> (r matches Ok(bytes) && bytes@
            == DbKeyView::StablePath(path@, EntryView::ComponentMemoization).bytes()),
        call_ensures(key_fn_memo, (path, fp), r) ==> (r matches Ok(bytes) && bytes@
            == DbKeyView::StablePath(path@, EntryView::FunctionMemoization(fp@)).bytes()),
        call_ensures(key_fn_memo_prefix, (path,), r) ==> (r matches Ok(bytes) && bytes@
            == DbKeyView::StablePath(path@, EntryView::FunctionMemoizationPrefix).bytes()),
        call_ensures(key_child_existence, (path, key), r) ==> (r matches Ok(bytes) && bytes@
            == DbKeyView::StablePath(path@, EntryView::ChildExistence(key@)).bytes()),
        call_ensures(key_child_existence_prefix, (path,), r) ==> (r matches Ok(bytes) && bytes@
            == DbKeyView::StablePath(path@, EntryView::ChildExistencePrefix).bytes()),
        call_ensures(key_tombstone, (path, relative), r) ==> (r matches Ok(bytes) && bytes@
            == DbKeyView::StablePath(
            path@,
            EntryView::ChildComponentTombstone(relative@),
        ).bytes()),
        call_ensures(key_tombstone_prefix, (path,), r) ==> (r matches Ok(bytes) && bytes@
            == DbKeyView::StablePath(path@, EntryView::ChildComponentTombstonePrefix).bytes()),
        call_ensures(key_user_state, (path, key), r) ==> (r matches Ok(bytes) && bytes@
            == DbKeyView::StablePath(path@, EntryView::UserState(key@)).bytes()),
        call_ensures(key_user_state_prefix, (path,), r) ==> (r matches Ok(bytes) && bytes@
            == DbKeyView::StablePath(path@, EntryView::UserStatePrefix).bytes()),
        call_ensures(key_target_state_owner, (target,), r) ==> (r matches Ok(bytes) && bytes@
            == DbKeyView::TargetState(target@).bytes()),
        call_ensures(key_id_sequencer, (key,), r) ==> (r matches Ok(bytes) && bytes@
            == DbKeyView::IdSequencer(key@).bytes()),
{
}

/// Bytes that hold a key, a path or a fingerprint are read as that, and anything else
/// is `KeyDecode`.
pub proof fn law_names_decoded(
    bytes: &[u8],
    key: Result<StableKey, StoreError>,
    path: Result<StablePath, StoreError>,
    print: Result<Fingerprint, StoreError>,
    row_key: Result<DbEntryKey, StoreError>,
)
    ensures
        call_ensures(decode_key, (bytes,), key) ==> match key {
            Ok(got) => key_of(bytes@) == Some(got@),
            Err(e) => e == StoreError::KeyDecode && key_of(bytes@) is None,
        },
        call_ensures(decode_path, (bytes,), path) ==> match path {
            Ok(got) => path_of(bytes@) == Some(got@),
            Err(e) => e == StoreError::KeyDecode && path_of(bytes@) is None,
        },
        call_ensures(decode_fingerprint, (bytes,), print) ==> match print {
            Ok(got) => bytes@ == got.0@,
            Err(e) => e == StoreError::KeyDecode && bytes@.len() != 16,
        },
        call_ensures(DbEntryKey::decode, (bytes,), row_key) ==> match row_key {
            Ok(got) => db_key_of(bytes@) == Some(got@),
            Err(e) => e == StoreError::KeyDecode && db_key_of(bytes@) is None,
        },
{
}

// --- Steps of the operations ---------------------------------------------

/// The parent of a path and its last key are together the path; the root has none.
pub proof fn law_parent_split(
    path: StablePathRef<'_>,
    split: Option<(StablePathRef<'_>, &StableKey)>,
    owned: StablePath,
    root: StablePath,
)
    ensures
        call_ensures(StablePath::root, (), root) ==> root@.len() == 0,
        call_ensures(StablePath::as_ref, (&owned,), path) ==> path@ == owned@,
        call_ensures(StablePathRef::split_parent, (path,), split) ==> match split {
            Some((parent, key)) => parent@.push(key@) == path@,
            None => path@.len() == 0,
        },
        call_ensures(StablePathRef::to_path, (path,), owned) ==> owned@ == path@,
{
    if path@.len() > 0 {
        assert(path@.drop_last().push(path@.last()) =~= path@);
    }
}

/// A row is given the target type where it is missing, or is a directory that is to
/// be a component; where it is missing the parent comes next, as a directory, up to
/// the root.
pub proof fn law_promotion(
    op: &EnsurePathNodeType,
    existing: Option<StablePathNodeType>,
    decision: EnsureDecision,
)
    ensures
        call_ensures(EnsurePathNodeType::decide, (op, existing), decision) ==> {
            &&& decision.write <==> existing is None || (existing == Some(
                StablePathNodeType::Directory,
            ) && op.target == StablePathNodeType::Component)
            &&& decision.next is Some <==> existing is None && op.parent@.len() > 0
            &&& decision.next matches Some(next) ==> next.parent@.push(next.key@) == op.parent@
                && next.target == StablePathNodeType::Directory
        },
{
    if op.parent@.len() > 0 {
        assert(op.parent@.drop_last().push(op.parent@.last()) =~= op.parent@);
    }
}

/// A range starts at the next free ID, or at 1, and ends that many IDs behind it;
/// where that is more than 64 bits can hold there is none.
pub proof fn law_range(
    op: &ReserveIdRange,
    next_id: Option<u64>,
    count: u64,
    r: Result<(u64, u64), StoreError>,
    cut: (u64, u64),
)
    ensures
        ({
            let start: int = match next_id {
                Some(id) => id as int,
                None => 1,
            };
            &&& call_ensures(ReserveIdRange::range, (op, next_id), r) ==> (if start + op.count
                > 0xffff_ffff_ffff_ffff {
                r == Err::<(u64, u64), StoreError>(StoreError::IdRangeExhausted)
            } else {
                r matches Ok(range) && range.0 == start && range.1 == start + op.count
            })
            &&& call_ensures(cut_range, (next_id, count), cut) ==> cut.0 == start && cut.1 == start
                + count
        }),
{
}

/// The token is taken out where it is that of the process, with nothing else
/// changed; a token of another process stays.
pub proof fn law_unstaged(
    op: &ClearStagedTracking,
    info: StablePathEntryTrackingInfo,
    left: Option<StablePathEntryTrackingInfo>,
)
    ensures
        call_ensures(ClearStagedTracking::unstage, (op, info), left) ==> {
            &&& left is Some <==> info.pending_process_token == Some(op.self_token)
            &&& left matches Some(now) ==> now.pending_process_token is None && now.fields
                == info.fields
        },
{
}

/// Of two paths that differ, one stands before the other, and not both; and a path
/// stands before another if and only if its bytes in row keys do.
pub proof fn law_paths_compared(a: &StablePath, b: &StablePath, before: bool, behind: bool)
    ensures
        call_ensures(path_less, (a, b), before) && call_ensures(path_less, (b, a), behind) ==> {
            &&& !(before && behind)
            &&& a@ == b@ <==> !before && !behind
            &&& before <==> lex_lt(path_bytes(a@), path_bytes(b@))
        },
{
    lemma_path_order_exact(a@, b@);
    lemma_path_order_exact(b@, a@);
    lemma_path_total(a@, b@);
}

/// The path that a row records is the path of the row and the child's key behind it,
/// where the row is a child-existence row. Another row of a stable path records none,
/// and anything else is refused.
pub proof fn law_path_recorded(key: &[u8], r: Result<Option<StablePath>, StoreError>)
    ensures
        call_ensures(path_recorded_by, (key,), r) ==> match db_key_of(key@) {
            Some(DbKeyView::StablePath(parent, EntryView::ChildExistence(child))) => r matches Ok(
                Some(path),
            ) && path@ == parent.push(child),
            Some(DbKeyView::StablePath(_, _)) => r == Ok::<Option<StablePath>, StoreError>(None),
            Some(_) => r == Err::<Option<StablePath>, StoreError>(StoreError::ExpectedStablePath),
            None => r == Err::<Option<StablePath>, StoreError>(StoreError::KeyDecode),
        },
{
}

/// A child is listed where both its key and its value can be read; the failure of the
/// key comes first.
pub proof fn law_child_keyed(
    key: &[u8],
    info: Result<ChildExistenceInfo, StoreError>,
    r: Result<(StableKey, ChildExistenceInfo), StoreError>,
)
    ensures
        call_ensures(keyed_child, (key, info), r) ==> match key_of(key@) {
            Some(name) => match info {
                Ok(i) => r matches Ok(child) && child.0@ == name && child.1 == i,
                Err(e) => r == Err::<(StableKey, ChildExistenceInfo), StoreError>(e),
            },
            None => r == Err::<(StableKey, ChildExistenceInfo), StoreError>(StoreError::KeyDecode),
        },
{
}

/// A value that was encoded is put under its key as it is; one that was not is not
/// put, and its failure is handed on.
pub proof fn law_encoded_put(
    key: Vec<u8>,
    value: Result<Vec<u8>, StoreError>,
    r: Result<Write, StoreError>,
    serialized: Result<Vec<u8>, rmp_serde::encode::Error>,
    encoded: Result<Vec<u8>, StoreError>,
)
    ensures
        call_ensures(put_encoded, (key, value), r) ==> match value {
            Ok(bytes) => r matches Ok(write) && write@ == (WriteView::Put {
                key: key@,
                value: bytes@,
            }),
            Err(e) => r == Err::<Write, StoreError>(e),
        },
        call_ensures(value_encoded, (serialized,), encoded) ==> match serialized {
            Ok(bytes) => encoded == Ok::<Vec<u8>, StoreError>(bytes),
            Err(_) => encoded == Err::<Vec<u8>, StoreError>(StoreError::ValueEncode),
        },
{
}

} // verus!
