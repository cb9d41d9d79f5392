//! The operations of a per-app store.
//!
//! Reads come in two forms. `read_.._in_txn` is for a lookup inside a write
//! transaction, where uncommitted writes are seen; `read_..` and `list_..` are
//! for a snapshot of their own. What is looked up is the same in both; the
//! caller chooses the transaction, and hands what was found to the function
//! that reads it.
use crate::db_schema::{
    DbEntryKey, DbKeyView, EntryView, Fingerprint, StablePathPrefix, TargetStatePath,
};
use crate::error::StoreError;
use crate::existence::{EnsurePathNodeType, EnsureView};
use crate::id_sequence::ReserveIdRange;
use crate::keys::{
    key_child_existence, key_child_existence_prefix, key_component_memo, key_fn_memo,
    key_fn_memo_prefix, key_id_sequencer, key_target_state_owner, key_tombstone,
    key_tombstone_prefix, key_tracking_info, key_user_state, key_user_state_prefix,
};
use crate::msgpack::{record_fails, word_fails};
use crate::retry::{ReadTxnRetry, RetryPhase, INITIAL_BACKOFF_MS};
use crate::stable_path::{path_bytes, KeyView, StableKey, StablePath, StablePathRef};
use crate::table::{put_encoded, reply_view, write_result, Lookup, Scan, Write, WriteView};
use crate::tracking::ClearStagedTracking;
use crate::values::{
    child_existence_bytes, child_existence_of, memo_bytes, memo_of, node_type_word, owner_bytes,
    owner_of, ChildExistenceInfo, FunctionMemoizationEntry, StablePathNodeType,
    TargetStateOwnerInfo,
};
use vstd::prelude::*;

verus! {

/// The store of one app.
#[derive(Debug, Clone, Copy, PartialEq, Eq, Structural)]
pub struct AppStore;

/// A put of `value`, copied, under `key`.
fn put(key: Result<Vec<u8>, StoreError>, value: &[u8]) -> (r: Result<Write, StoreError>)
    ensures
        match key {
            Ok(key) => r matches Ok(write) && write@ == (WriteView::Put {
                key: key@,
                value: value@,
            }),
            Err(e) => r == Err::<Write, StoreError>(e),
        },
{
    match key {
        Ok(key) => {
            let mut copy: Vec<u8> = Vec::new();
            copy.extend_from_slice(value);
            assert(copy@ =~= value@);
            Ok(Write::Put { key, value: copy })
        },
        Err(e) => Err(e),
    }
}

/// A delete of the row `key`.
fn delete(key: Result<Vec<u8>, StoreError>) -> (r: Result<Write, StoreError>)
    ensures
        match key {
            Ok(key) => r matches Ok(write) && write@ == (WriteView::Delete { key: key@ }),
            Err(e) => r == Err::<Write, StoreError>(e),
        },
{
    match key {
        Ok(key) => Ok(Write::Delete { key }),
        Err(e) => Err(e),
    }
}

/// A delete of all rows that begin with `prefix`.
fn delete_prefix(prefix: Result<Vec<u8>, StoreError>) -> (r: Result<Write, StoreError>)
    ensures
        match prefix {
            Ok(prefix) => r matches Ok(write) && write@ == (WriteView::DeletePrefix {
                prefix: prefix@,
            }),
            Err(e) => r == Err::<Write, StoreError>(e),
        },
{
    match prefix {
        Ok(prefix) => Ok(Write::DeletePrefix { prefix }),
        Err(e) => Err(e),
    }
}

/// A lookup of the row `key`.
fn lookup(key: Result<Vec<u8>, StoreError>) -> (r: Result<Lookup, StoreError>)
    ensures
        match key {
            Ok(key) => r matches Ok(lookup) && lookup@ == key@,
            Err(e) => r == Err::<Lookup, StoreError>(e),
        },
{
    match key {
        Ok(key) => Ok(Lookup { key }),
        Err(e) => Err(e),
    }
}

/// A scan of the rows that begin with `prefix`.
fn scan(prefix: Result<Vec<u8>, StoreError>) -> (r: Result<Scan, StoreError>)
    ensures
        match prefix {
            Ok(prefix) => r matches Ok(scan) && scan@ == prefix@,
            Err(e) => r == Err::<Scan, StoreError>(e),
        },
{
    match prefix {
        Ok(prefix) => Ok(Scan { prefix }),
        Err(e) => Err(e),
    }
}

// --- Writes of encoded values --------------------------------------------

/// `r` is what keeping the memo `value` of the call `fp` under `path` gives: it fails
/// where the value is longer than 32 bits can count, and where the serializer does.
pub open spec fn memo_write(
    path: Seq<KeyView>,
    fp: Seq<u8>,
    value: Seq<u8>,
    r: Result<WriteView, StoreError>,
) -> bool {
    match r {
        Ok(write) => write matches WriteView::Put { key, value: bytes } && key
            == DbKeyView::StablePath(path, EntryView::FunctionMemoization(fp)).bytes() && bytes
            == memo_bytes(value) && memo_of(bytes) == Some(value) && value.len() <= u32::MAX,
        Err(e) => e == StoreError::ValueEncode && (value.len() > u32::MAX || record_fails(
            map!["value"@ => Some(value)],
        )),
    }
}

/// `r` is what recording the child `child` of `parent` gives: it fails where the
/// serializer does.
pub open spec fn child_write(
    parent: Seq<KeyView>,
    child: KeyView,
    info: ChildExistenceInfo,
    r: Result<WriteView, StoreError>,
) -> bool {
    match r {
        Ok(write) => write matches WriteView::Put { key, value } && key == DbKeyView::StablePath(
            parent,
            EntryView::ChildExistence(child),
        ).bytes() && value == child_existence_bytes(info) && child_existence_of(value) == Some(
            info,
        ),
        Err(e) => e == StoreError::ValueEncode && word_fails(
            "node_type"@,
            node_type_word(info.node_type),
        ),
    }
}

/// `r` is what making `owner` the owner of the target state at `path` gives: it fails
/// where the bytes of the owner's path are more than 32 bits can count, and where
/// the serializer does.
pub open spec fn owner_write(
    path: Seq<Seq<u8>>,
    owner: Seq<KeyView>,
    r: Result<WriteView, StoreError>,
) -> bool {
    match r {
        Ok(write) => write matches WriteView::Put { key, value } && key == DbKeyView::TargetState(
            path,
        ).bytes() && value == owner_bytes(owner) && owner_of(value) == Some(owner) && path_bytes(
            owner,
        ).len() <= u32::MAX,
        Err(e) => e == StoreError::ValueEncode && (path_bytes(owner).len() > u32::MAX
            || record_fails(map!["component_path"@ => Some(path_bytes(owner))])),
    }
}

// --- Read transactions ---------------------------------------------------

impl AppStore {
    /// Opens a read transaction: where the attempts to do so stand at first.
    pub fn read_txn(&self) -> (r: ReadTxnRetry)
        ensures
            r == (ReadTxnRetry { phase: RetryPhase::Short, backoff_ms: INITIAL_BACKOFF_MS }),
            r.wf(),
    {
        ReadTxnRetry::new()
    }
}

// --- Tracking info -------------------------------------------------------

impl AppStore {
    /// The tracking-info row of `path`, inside a write transaction.
    pub fn read_tracking_info_in_txn(&self, path: &StablePath) -> (r: Result<Lookup, StoreError>)
        ensures
            r matches Ok(lookup) && lookup@ == DbKeyView::StablePath(
                path@,
                EntryView::TrackingInfo,
            ).bytes(),
    {
        lookup(key_tracking_info(path))
    }

    /// The tracking-info row of `path`, in a snapshot.
    pub fn read_tracking_info(&self, path: &StablePath) -> (r: Result<Lookup, StoreError>)
        ensures
            r matches Ok(lookup) && lookup@ == DbKeyView::StablePath(
                path@,
                EntryView::TrackingInfo,
            ).bytes(),
    {
        lookup(key_tracking_info(path))
    }

    /// Gives `path` tracking info that the caller has encoded.
    pub fn write_tracking_info_raw(&self, path: &StablePath, encoded: &[u8]) -> (r: Result<
        Write,
        StoreError,
    >)
        ensures
            r matches Ok(write) && write@ == (WriteView::Put {
                key: DbKeyView::StablePath(path@, EntryView::TrackingInfo).bytes(),
                value: encoded@,
            }),
    {
        put(key_tracking_info(path), encoded)
    }

    /// Takes out the tracking info of `path`.
    pub fn delete_tracking_info(&self, path: &StablePath) -> (r: Result<Write, StoreError>)
        ensures
            r matches Ok(write) && write@ == (WriteView::Delete {
                key: DbKeyView::StablePath(path@, EntryView::TrackingInfo).bytes(),
            }),
    {
        delete(key_tracking_info(path))
    }

    /// Takes the token `self_token` out of the tracking info of `path`, if it is
    /// the token that is there.
    pub fn clear_staged_tracking(
        &self,
        path: &StablePath,
        self_token: u128,
    ) -> (r: ClearStagedTracking)
        ensures
            r.path@ == path@,
            r.self_token == self_token,
    {
        ClearStagedTracking { path: path.clone(), self_token }
    }
}

// --- Component memoization -----------------------------------------------

impl AppStore {
    /// The component-memo row of `path`, inside a write transaction.
    pub fn read_component_memo_in_txn(&self, path: &StablePath) -> (r: Result<Lookup, StoreError>)
        ensures
            r matches Ok(lookup) && lookup@ == DbKeyView::StablePath(
                path@,
                EntryView::ComponentMemoization,
            ).bytes(),
    {
        lookup(key_component_memo(path))
    }

    /// The component-memo row of `path`, in a snapshot.
    pub fn read_component_memo(&self, path: &StablePath) -> (r: Result<Lookup, StoreError>)
        ensures
            r matches Ok(lookup) && lookup@ == DbKeyView::StablePath(
                path@,
                EntryView::ComponentMemoization,
            ).bytes(),
    {
        lookup(key_component_memo(path))
    }

    /// Gives `path` a component memo that the caller has encoded.
    pub fn write_component_memo_raw(&self, path: &StablePath, encoded: &[u8]) -> (r: Result<
        Write,
        StoreError,
    >)
        ensures
            r matches Ok(write) && write@ == (WriteView::Put {
                key: DbKeyView::StablePath(path@, EntryView::ComponentMemoization).bytes(),
                value: encoded@,
            }),
    {
        put(key_component_memo(path), encoded)
    }

    /// Takes out the component memo of `path`.
    pub fn delete_component_memo_in_txn(&self, path: &StablePath) -> (r: Result<Write, StoreError>)
        ensures
            r matches Ok(write) && write@ == (WriteView::Delete {
                key: DbKeyView::StablePath(path@, EntryView::ComponentMemoization).bytes(),
            }),
    {
        delete(key_component_memo(path))
    }

    /// Takes out the component memo of `path`, in a transaction of its own.
    pub fn delete_component_memo(&self, path: &StablePath) -> (r: Result<Write, StoreError>)
        ensures
            r matches Ok(write) && write@ == (WriteView::Delete {
                key: DbKeyView::StablePath(path@, EntryView::ComponentMemoization).bytes(),
            }),
    {
        self.delete_component_memo_in_txn(path)
    }

    /// Gives `component_path` its component memo, in a transaction of its own.
    pub fn finalize_memoization_standalone(
        &self,
        component_path: &StablePath,
        encoded: &[u8],
    ) -> (r: Result<Write, StoreError>)
        ensures
            r matches Ok(write) && write@ == (WriteView::Put {
                key: DbKeyView::StablePath(
                    component_path@,
                    EntryView::ComponentMemoization,
                ).bytes(),
                value: encoded@,
            }),
    {
        self.write_component_memo_raw(component_path, encoded)
    }

    /// The last phase of a submit: keeps the component memo.
    pub fn finalize_memoization(&self, component_path: &StablePath, encoded: &[u8]) -> (r: Result<
        Write,
        StoreError,
    >)
        ensures
            r matches Ok(write) && write@ == (WriteView::Put {
                key: DbKeyView::StablePath(
                    component_path@,
                    EntryView::ComponentMemoization,
                ).bytes(),
                value: encoded@,
            }),
    {
        self.finalize_memoization_standalone(component_path, encoded)
    }
}

// --- Function memoization ------------------------------------------------

impl AppStore {
    /// All function-memo rows of `path`.
    pub fn list_fn_memos(&self, path: &StablePath) -> (r: Result<Scan, StoreError>)
        ensures
            r matches Ok(scan) && scan@ == DbKeyView::StablePath(
                path@,
                EntryView::FunctionMemoizationPrefix,
            ).bytes(),
    {
        scan(key_fn_memo_prefix(path))
    }

    /// Keeps the memo `entry` of the call `fp` under `path`. Fails only where the
    /// memo cannot be encoded; so it is where it is longer than 32 bits can count.
    pub fn write_fn_memo(
        &self,
        path: &StablePath,
        fp: Fingerprint,
        entry: &FunctionMemoizationEntry,
    ) -> (r: Result<Write, StoreError>)
        ensures
            memo_write(path@, fp@, entry.value@, write_result(r)),
            r is Err ==> entry.value@.len() > 0xffff_ffff || record_fails(
                map!["value"@ => Some(entry.value@)],
            ),
    {
        match entry.encode() {
            Ok(value) => self.write_fn_memo_raw(path, fp, value.as_slice()),
            Err(e) => Err(e),
        }
    }

    /// Keeps a memo of the call `fp` under `path` that the caller has encoded.
    pub fn write_fn_memo_raw(
        &self,
        path: &StablePath,
        fp: Fingerprint,
        encoded: &[u8],
    ) -> (r: Result<Write, StoreError>)
        ensures
            r matches Ok(write) && write@ == (WriteView::Put {
                key: DbKeyView::StablePath(path@, EntryView::FunctionMemoization(fp@)).bytes(),
                value: encoded@,
            }),
    {
        put(key_fn_memo(path, fp), encoded)
    }

    /// Takes out the memo of the call `fp` under `path`.
    pub fn delete_fn_memo(&self, path: &StablePath, fp: Fingerprint) -> (r: Result<
        Write,
        StoreError,
    >)
        ensures
            r matches Ok(write) && write@ == (WriteView::Delete {
                key: DbKeyView::StablePath(path@, EntryView::FunctionMemoization(fp@)).bytes(),
            }),
    {
        delete(key_fn_memo(path, fp))
    }

    /// Takes out all function memos of `path`.
    pub fn delete_all_fn_memos(&self, path: &StablePath) -> (r: Result<Write, StoreError>)
        ensures
            r matches Ok(write) && write@ == (WriteView::DeletePrefix {
                prefix: DbKeyView::StablePath(path@, EntryView::FunctionMemoizationPrefix).bytes(),
            }),
    {
        delete_prefix(key_fn_memo_prefix(path))
    }
}

// --- Child existence -----------------------------------------------------

impl AppStore {
    /// The child-existence row of the child `child_key` of `parent`.
    pub fn read_child_existence_in_txn(
        &self,
        parent: &StablePath,
        child_key: &StableKey,
    ) -> (r: Result<Lookup, StoreError>)
        ensures
            r matches Ok(lookup) && lookup@ == DbKeyView::StablePath(
                parent@,
                EntryView::ChildExistence(child_key@),
            ).bytes(),
    {
        lookup(key_child_existence(parent, child_key))
    }

    /// What a looked-up child-existence row says, if it is there.
    pub fn child_existence(&self, reply: Option<&[u8]>) -> (r: Result<
        Option<ChildExistenceInfo>,
        StoreError,
    >)
        ensures
            r == (match reply_view(reply) {
                Some(bytes) => match child_existence_of(bytes) {
                    Some(info) => Ok(Some(info)),
                    None => Err(StoreError::ValueDecode),
                },
                None => Ok(None),
            }),
    {
        match reply {
            Some(bytes) => match ChildExistenceInfo::decode(bytes) {
                Ok(info) => Ok(Some(info)),
                Err(e) => Err(e),
            },
            None => Ok(None),
        }
    }

    /// Records what the child `child_key` of `parent` is. Fails only where that
    /// cannot be encoded.
    pub fn write_child_existence(
        &self,
        parent: &StablePath,
        child_key: &StableKey,
        info: &ChildExistenceInfo,
    ) -> (r: Result<Write, StoreError>)
        ensures
            child_write(parent@, child_key@, *info, write_result(r)),
    {
        match key_child_existence(parent, child_key) {
            Ok(key) => put_encoded(key, info.encode()),
            Err(e) => Err(e),
        }
    }

    /// Takes out the record of the child `child_key` of `parent`.
    pub fn delete_child_existence(&self, parent: &StablePath, child_key: &StableKey) -> (r: Result<
        Write,
        StoreError,
    >)
        ensures
            r matches Ok(write) && write@ == (WriteView::Delete {
                key: DbKeyView::StablePath(parent@, EntryView::ChildExistence(child_key@)).bytes(),
            }),
    {
        delete(key_child_existence(parent, child_key))
    }

    /// All child-existence rows of `parent`.
    pub fn list_child_existence_in_txn(&self, parent: &StablePath) -> (r: Result<Scan, StoreError>)
        ensures
            r matches Ok(scan) && scan@ == DbKeyView::StablePath(
                parent@,
                EntryView::ChildExistencePrefix,
            ).bytes(),
    {
        scan(key_child_existence_prefix(parent))
    }
}

// --- Tombstones ----------------------------------------------------------

impl AppStore {
    /// Leaves a tombstone of `relative_path` under `parent`; its value is empty.
    pub fn write_tombstone(&self, parent: &StablePath, relative_path: &StablePath) -> (r: Result<
        Write,
        StoreError,
    >)
        ensures
            r matches Ok(write) && write@ == (WriteView::Put {
                key: DbKeyView::StablePath(
                    parent@,
                    EntryView::ChildComponentTombstone(relative_path@),
                ).bytes(),
                value: Seq::empty(),
            }),
    {
        match key_tombstone(parent, relative_path) {
            Ok(key) => {
                let value: Vec<u8> = Vec::new();
                assert(value@ =~= Seq::<u8>::empty());
                Ok(Write::Put { key, value })
            },
            Err(e) => Err(e),
        }
    }

    /// Takes out the tombstone of `relative_path` under `parent`.
    pub fn delete_tombstone(&self, parent: &StablePath, relative_path: &StablePath) -> (r: Result<
        Write,
        StoreError,
    >)
        ensures
            r matches Ok(write) && write@ == (WriteView::Delete {
                key: DbKeyView::StablePath(
                    parent@,
                    EntryView::ChildComponentTombstone(relative_path@),
                ).bytes(),
            }),
    {
        delete(key_tombstone(parent, relative_path))
    }

    /// All tombstone rows under `parent`.
    pub fn list_tombstones(&self, parent: &StablePath) -> (r: Result<Scan, StoreError>)
        ensures
            r matches Ok(scan) && scan@ == DbKeyView::StablePath(
                parent@,
                EntryView::ChildComponentTombstonePrefix,
            ).bytes(),
    {
        scan(key_tombstone_prefix(parent))
    }

    /// Takes out the child `child_key` of `parent`, and leaves a tombstone of
    /// `relative_child` under `owner_path`: two writes, for one transaction.
    pub fn remove_child_with_tombstone(
        &self,
        parent: &StablePath,
        child_key: &StableKey,
        owner_path: &StablePath,
        relative_child: &StablePath,
    ) -> (r: Result<Vec<Write>, StoreError>)
        ensures
            r matches Ok(writes) && writes@.len() == 2 && writes@[0]@ == (WriteView::Delete {
                key: DbKeyView::StablePath(parent@, EntryView::ChildExistence(child_key@)).bytes(),
            }) && writes@[1]@ == (WriteView::Put {
                key: DbKeyView::StablePath(
                    owner_path@,
                    EntryView::ChildComponentTombstone(relative_child@),
                ).bytes(),
                value: Seq::empty(),
            }),
    {
        match self.delete_child_existence(parent, child_key) {
            Ok(gone) => match self.write_tombstone(owner_path, relative_child) {
                Ok(left) => {
                    let mut writes: Vec<Write> = Vec::new();
                    writes.push(gone);
                    writes.push(left);
                    Ok(writes)
                },
                Err(e) => Err(e),
            },
            Err(e) => Err(e),
        }
    }

    /// Sweeps one tombstone, in a transaction of its own.
    pub fn cleanup_tombstone_standalone(
        &self,
        parent: &StablePath,
        relative: &StablePath,
    ) -> (r: Result<Write, StoreError>)
        ensures
            r matches Ok(write) && write@ == (WriteView::Delete {
                key: DbKeyView::StablePath(
                    parent@,
                    EntryView::ChildComponentTombstone(relative@),
                ).bytes(),
            }),
    {
        self.delete_tombstone(parent, relative)
    }

    /// A late phase of a submit: sweeps one tombstone.
    pub fn cleanup_tombstone(
        &self,
        parent_path: &StablePath,
        relative_path: &StablePath,
    ) -> (r: Result<Write, StoreError>)
        ensures
            r matches Ok(write) && write@ == (WriteView::Delete {
                key: DbKeyView::StablePath(
                    parent_path@,
                    EntryView::ChildComponentTombstone(relative_path@),
                ).bytes(),
            }),
    {
        self.cleanup_tombstone_standalone(parent_path, relative_path)
    }
}

// --- Target-state owners -------------------------------------------------

impl AppStore {
    /// The owner row of the target state at `path`.
    pub fn read_target_state_owner_in_txn(&self, path: &TargetStatePath) -> (r: Result<
        Lookup,
        StoreError,
    >)
        ensures
            r matches Ok(lookup) && lookup@ == DbKeyView::TargetState(path@).bytes(),
    {
        lookup(key_target_state_owner(path))
    }

    /// The owner in a looked-up owner row, if it is there.
    pub fn target_state_owner(&self, reply: Option<&[u8]>) -> (r: Result<
        Option<TargetStateOwnerInfo>,
        StoreError,
    >)
        ensures
            match reply_view(reply) {
                Some(bytes) => match owner_of(bytes) {
                    Some(owner) => r matches Ok(Some(info)) && info.component_path@ == owner,
                    None => r == Err::<Option<TargetStateOwnerInfo>, StoreError>(
                        StoreError::ValueDecode,
                    ),
                },
                None => r == Ok::<Option<TargetStateOwnerInfo>, StoreError>(None),
            },
    {
        match reply {
            Some(bytes) => match TargetStateOwnerInfo::decode(bytes) {
                Ok(info) => Ok(Some(info)),
                Err(e) => Err(e),
            },
            None => Ok(None),
        }
    }

    /// Makes `owner` the owner of the target state at `path`, whether or not it
    /// has one. Fails only where that cannot be encoded; so it is where the bytes
    /// of the owner's path are more than 32 bits can count.
    pub fn upsert_target_state_owner(
        &self,
        path: &TargetStatePath,
        owner: &StablePath,
    ) -> (r: Result<Write, StoreError>)
        ensures
            owner_write(path@, owner@, write_result(r)),
            r is Err ==> path_bytes(owner@).len() > 0xffff_ffff || record_fails(
                map!["component_path"@ => Some(path_bytes(owner@))],
            ),
    {
        match key_target_state_owner(path) {
            Ok(key) => put_encoded(
                key,
                (TargetStateOwnerInfo { component_path: owner.clone() }).encode(),
            ),
            Err(e) => Err(e),
        }
    }

    /// Takes out the owner of the target state at `path`.
    pub fn delete_target_state_owner(&self, path: &TargetStatePath) -> (r: Result<
        Write,
        StoreError,
    >)
        ensures
            r matches Ok(write) && write@ == (WriteView::Delete {
                key: DbKeyView::TargetState(path@).bytes(),
            }),
    {
        delete(key_target_state_owner(path))
    }
}

// --- ID sequencers -------------------------------------------------------

impl AppStore {
    /// The row of the sequencer `key`.
    pub fn peek_id_sequence_in_txn(&self, key: &StableKey) -> (r: Result<Lookup, StoreError>)
        ensures
            r matches Ok(lookup) && lookup@ == DbKeyView::IdSequencer(key@).bytes(),
    {
        lookup(key_id_sequencer(key))
    }

    /// Reserves `count` IDs in a row from the sequencer `key`.
    pub fn reserve_id_range_in_txn(&self, key: &StableKey, count: u64) -> (r: ReserveIdRange)
        ensures
            r.key@ == key@,
            r.count == count,
    {
        ReserveIdRange { key: key.clone(), count }
    }

    /// Reserves `count` IDs in a row from the sequencer `key`, in a transaction of
    /// its own.
    pub fn reserve_id_range(&self, key: &StableKey, count: u64) -> (r: ReserveIdRange)
        ensures
            r.key@ == key@,
            r.count == count,
    {
        self.reserve_id_range_in_txn(key, count)
    }
}

// --- The whole app -------------------------------------------------------

impl AppStore {
    /// Takes out everything.
    pub fn clear_all(&self) -> (r: Write)
        ensures
            r@ == WriteView::Clear,
    {
        Write::Clear
    }

    /// All rows of stable paths.
    pub fn list_all_stable_paths(&self) -> (r: Result<Scan, StoreError>)
        ensures
            r matches Ok(scan) && scan@ == DbKeyView::StablePathPrefixPrefix(
                Seq::empty(),
            ).bytes(),
    {
        scan(DbEntryKey::StablePathPrefixPrefix(StablePathPrefix::default()).encode())
    }

    /// All rows of stable paths, to stream the recorded paths from, each with
    /// what it is.
    pub fn spawn_stable_path_iter(&self) -> (r: Result<Scan, StoreError>)
        ensures
            r matches Ok(scan) && scan@ == DbKeyView::StablePathPrefixPrefix(
                Seq::empty(),
            ).bytes(),
    {
        self.list_all_stable_paths()
    }
}

// --- Path node types -----------------------------------------------------

impl AppStore {
    /// The row that records what `parent_path/key` is, inside a write transaction.
    pub fn read_path_node_type_in_txn(
        &self,
        parent_path: StablePathRef<'_>,
        key: &StableKey,
    ) -> (r: Result<Lookup, StoreError>)
        ensures
            r matches Ok(lookup) && lookup@ == DbKeyView::StablePath(
                parent_path@,
                EntryView::ChildExistence(key@),
            ).bytes(),
    {
        lookup(key_child_existence(&parent_path.to_path(), key))
    }

    /// The row that records what `parent_path/key` is, in a snapshot.
    pub fn read_path_node_type(
        &self,
        parent_path: StablePathRef<'_>,
        key: &StableKey,
    ) -> (r: Result<Lookup, StoreError>)
        ensures
            r matches Ok(lookup) && lookup@ == DbKeyView::StablePath(
                parent_path@,
                EntryView::ChildExistence(key@),
            ).bytes(),
    {
        lookup(key_child_existence(&parent_path.to_path(), key))
    }

    /// Records `parent_path/key` as `target_node_type`, and the directories that
    /// lead to it: a missing row is written, a directory that is to be a component
    /// is made one, and any other row stays.
    pub fn ensure_path_node_type(
        &self,
        parent_path: StablePathRef<'_>,
        key: &StableKey,
        target_node_type: StablePathNodeType,
    ) -> (r: EnsurePathNodeType)
        ensures
            r@ == (EnsureView { parent: parent_path@, key: key@, target: target_node_type }),
    {
        EnsurePathNodeType::new(parent_path, key, target_node_type)
    }

    /// Records `path` as a component, in a transaction of its own. There is
    /// nothing to do for the root.
    pub fn ensure_existence_chain_standalone(
        &self,
        path: &StablePath,
    ) -> (r: Option<EnsurePathNodeType>)
        ensures
            match r {
                Some(op) => path@.len() > 0 && op@ == (EnsureView {
                    parent: path@.drop_last(),
                    key: path@.last(),
                    target: StablePathNodeType::Component,
                }),
                None => path@.len() == 0,
            },
    {
        match path.as_ref().split_parent() {
            Some((parent, key)) => Some(
                self.ensure_path_node_type(parent, key, StablePathNodeType::Component),
            ),
            None => None,
        }
    }

    /// An early phase of a submit: records `path` as a component. What is known of
    /// its parent does not matter, since the work stops at the first row that is
    /// there.
    pub fn ensure_existence_chain(
        &self,
        path: &StablePath,
        _known_parent_path: &StablePath,
    ) -> (r: Option<EnsurePathNodeType>)
        ensures
            match r {
                Some(op) => path@.len() > 0 && op@ == (EnsureView {
                    parent: path@.drop_last(),
                    key: path@.last(),
                    target: StablePathNodeType::Component,
                }),
                None => path@.len() == 0,
            },
    {
        self.ensure_existence_chain_standalone(path)
    }
}

// --- User states ---------------------------------------------------------

impl AppStore {
    /// All user-state rows of `path`.
    pub fn list_user_states(&self, path: &StablePath) -> (r: Result<Scan, StoreError>)
        ensures
            r matches Ok(scan) && scan@ == DbKeyView::StablePath(
                path@,
                EntryView::UserStatePrefix,
            ).bytes(),
    {
        scan(key_user_state_prefix(path))
    }

    /// Gives the user state `user_key` of `path` a value.
    pub fn write_user_state(
        &self,
        path: &StablePath,
        user_key: &StableKey,
        value: &[u8],
    ) -> (r: Result<Write, StoreError>)
        ensures
            r matches Ok(write) && write@ == (WriteView::Put {
                key: DbKeyView::StablePath(path@, EntryView::UserState(user_key@)).bytes(),
                value: value@,
            }),
    {
        put(key_user_state(path, user_key), value)
    }

    /// Takes out the user state `user_key` of `path`.
    pub fn delete_user_state(&self, path: &StablePath, user_key: &StableKey) -> (r: Result<
        Write,
        StoreError,
    >)
        ensures
            r matches Ok(write) && write@ == (WriteView::Delete {
                key: DbKeyView::StablePath(path@, EntryView::UserState(user_key@)).bytes(),
            }),
    {
        delete(key_user_state(path, user_key))
    }

    /// Takes out all user states of `path`.
    pub fn delete_all_user_states(&self, path: &StablePath) -> (r: Result<Write, StoreError>)
        ensures
            r matches Ok(write) && write@ == (WriteView::DeletePrefix {
                prefix: DbKeyView::StablePath(path@, EntryView::UserStatePrefix).bytes(),
            }),
    {
        delete_prefix(key_user_state_prefix(path))
    }
}

} // verus!
