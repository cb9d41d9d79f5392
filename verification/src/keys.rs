//! The row keys that the store's operations use.
use crate::db_schema::{
    DbEntryKey, DbKeyView, EntryView, Fingerprint, StablePathEntryKey, TargetStatePath,
};
use crate::error::StoreError;
use crate::stable_path::{StableKey, StablePath};
use vstd::prelude::*;

verus! {

/// Row key of the tracking info of `path`.
pub fn key_tracking_info(path: &StablePath) -> (r: Result<Vec<u8>, StoreError>)
    ensures
        r matches Ok(bytes) && bytes@ == DbKeyView::StablePath(
            path@,
            EntryView::TrackingInfo,
        ).bytes(),
{
    DbEntryKey::StablePath(path.clone(), StablePathEntryKey::TrackingInfo).encode()
}

/// Row key of the component memo of `path`.
pub fn key_component_memo(path: &StablePath) -> (r: Result<Vec<u8>, StoreError>)
    ensures
        r matches Ok(bytes) && bytes@ == DbKeyView::StablePath(
            path@,
            EntryView::ComponentMemoization,
        ).bytes(),
{
    DbEntryKey::StablePath(path.clone(), StablePathEntryKey::ComponentMemoization).encode()
}

/// Row key of the memo of the function call `fp` under `path`.
pub fn key_fn_memo(path: &StablePath, fp: Fingerprint) -> (r: Result<Vec<u8>, StoreError>)
    ensures
        r matches Ok(bytes) && bytes@ == DbKeyView::StablePath(
            path@,
            EntryView::FunctionMemoization(fp@),
        ).bytes(),
{
    DbEntryKey::StablePath(path.clone(), StablePathEntryKey::FunctionMemoization(fp)).encode()
}

/// What the row keys of all function memos under `path` begin with.
pub fn key_fn_memo_prefix(path: &StablePath) -> (r: Result<Vec<u8>, StoreError>)
    ensures
        r matches Ok(bytes) && bytes@ == DbKeyView::StablePath(
            path@,
            EntryView::FunctionMemoizationPrefix,
        ).bytes(),
{
    DbEntryKey::StablePath(path.clone(), StablePathEntryKey::FunctionMemoizationPrefix).encode()
}

/// Row key of the existence of the child `child_key` of `parent`.
pub fn key_child_existence(parent: &StablePath, child_key: &StableKey) -> (r: Result<
    Vec<u8>,
    StoreError,
>)
    ensures
        r matches Ok(bytes) && bytes@ == DbKeyView::StablePath(
            parent@,
            EntryView::ChildExistence(child_key@),
        ).bytes(),
{
    DbEntryKey::StablePath(
        parent.clone(),
        StablePathEntryKey::ChildExistence(child_key.clone()),
    ).encode()
}

/// What the row keys of the existence of all children of `parent` begin with.
pub fn key_child_existence_prefix(parent: &StablePath) -> (r: Result<Vec<u8>, StoreError>)
    ensures
        r matches Ok(bytes) && bytes@ == DbKeyView::StablePath(
            parent@,
            EntryView::ChildExistencePrefix,
        ).bytes(),
{
    DbEntryKey::StablePath(parent.clone(), StablePathEntryKey::ChildExistencePrefix).encode()
}

/// Row key of the tombstone of `relative_path` under `parent`.
pub fn key_tombstone(parent: &StablePath, relative_path: &StablePath) -> (r: Result<
    Vec<u8>,
    StoreError,
>)
    ensures
        r matches Ok(bytes) && bytes@ == DbKeyView::StablePath(
            parent@,
            EntryView::ChildComponentTombstone(relative_path@),
        ).bytes(),
{
    DbEntryKey::StablePath(
        parent.clone(),
        StablePathEntryKey::ChildComponentTombstone(relative_path.clone()),
    ).encode()
}

/// What the row keys of all tombstones under `parent` begin with.
pub fn key_tombstone_prefix(parent: &StablePath) -> (r: Result<Vec<u8>, StoreError>)
    ensures
        r matches Ok(bytes) && bytes@ == DbKeyView::StablePath(
            parent@,
            EntryView::ChildComponentTombstonePrefix,
        ).bytes(),
{
    DbEntryKey::StablePath(
        parent.clone(),
        StablePathEntryKey::ChildComponentTombstonePrefix,
    ).encode()
}

/// Row key of the owner of the target state at `path`.
pub fn key_target_state_owner(path: &TargetStatePath) -> (r: Result<Vec<u8>, StoreError>)
    ensures
        r matches Ok(bytes) && bytes@ == DbKeyView::TargetState(path@).bytes(),
{
    DbEntryKey::TargetState(path.clone()).encode()
}

/// Row key of the ID sequencer `key`.
pub fn key_id_sequencer(key: &StableKey) -> (r: Result<Vec<u8>, StoreError>)
    ensures
        r matches Ok(bytes) && bytes@ == DbKeyView::IdSequencer(key@).bytes(),
{
    DbEntryKey::IdSequencer(key.clone()).encode()
}

/// Row key of the user state `user_key` of `path`.
pub fn key_user_state(path: &StablePath, user_key: &StableKey) -> (r: Result<Vec<u8>, StoreError>)
    ensures
        r matches Ok(bytes) && bytes@ == DbKeyView::StablePath(
            path@,
            EntryView::UserState(user_key@),
        ).bytes(),
{
    DbEntryKey::StablePath(path.clone(), StablePathEntryKey::UserState(user_key.clone())).encode()
}

/// What the row keys of all user states of `path` begin with.
pub fn key_user_state_prefix(path: &StablePath) -> (r: Result<Vec<u8>, StoreError>)
    ensures
        r matches Ok(bytes) && bytes@ == DbKeyView::StablePath(
            path@,
            EntryView::UserStatePrefix,
        ).bytes(),
{
    DbEntryKey::StablePath(path.clone(), StablePathEntryKey::UserStatePrefix).encode()
}

} // verus!
