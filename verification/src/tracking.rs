//! Staged tracking info: a process that has staged changes of a path leaves its
//! token in the path's tracking info, and takes it out again.
use crate::db_schema::{DbKeyView, EntryView};
use crate::error::StoreError;
use crate::keys::key_tracking_info;
use crate::msgpack::{fields_bytes, record_fails, record_fit};
use crate::stable_path::{KeyView, StablePath};
use crate::table::{
    apply, canonical, found, law_put, put_encoded, reply_view, rows_of, write_view, written, Lookup,
    Table, Write, WriteView,
};
use crate::values::{tracking_of, StablePathEntryTrackingInfo, TrackingView};
use vstd::prelude::*;

verus! {

/// Takes the token of a process out of the tracking info of a path.
#[derive(Debug, PartialEq, Eq)]
pub struct ClearStagedTracking {
    pub path: StablePath,
    pub self_token: u128,
}

/// The row that holds the tracking info of `path`.
pub open spec fn tracking_row(path: Seq<KeyView>) -> DbKeyView {
    DbKeyView::StablePath(path, EntryView::TrackingInfo)
}

impl TrackingView {
    /// The token of `token`'s process is in it.
    pub open spec fn staged_by(self, token: u128) -> bool {
        self.pending_process_token == Some(token)
    }

    /// The same info without a token.
    pub open spec fn unstaged(self) -> TrackingView {
        TrackingView { pending_process_token: None, fields: self.fields }
    }
}

/// `write` clears the tracking info `info` of `path` for the process `token`:
/// it puts the same info without the token where the token is that process's,
/// and is nothing otherwise.
pub open spec fn clears(
    path: Seq<KeyView>,
    token: u128,
    info: TrackingView,
    write: Option<WriteView>,
) -> bool {
    if info.staged_by(token) {
        write matches Some(WriteView::Put { key, value }) && key == tracking_row(path).bytes()
            && value == fields_bytes(info.unstaged().record()) && tracking_of(value) == Some(
            info.unstaged(),
        )
    } else {
        write is None
    }
}

/// `write` clears what a lookup of the tracking info of `path` found. A missing
/// row is left missing; one that cannot be read is never cleared.
pub open spec fn clears_found(
    path: Seq<KeyView>,
    token: u128,
    reply: Option<Seq<u8>>,
    write: Option<WriteView>,
) -> bool {
    match reply {
        Some(bytes) => tracking_of(bytes) matches Some(info) && clears(path, token, info, write),
        None => write is None,
    }
}

/// What resuming gives, as a value.
pub open spec fn clear_view(r: Result<Option<Write>, StoreError>) -> Result<
    Option<WriteView>,
    StoreError,
> {
    match r {
        Ok(write) => Ok(write_view(write)),
        Err(e) => Err(e),
    }
}

/// `r` is what resuming gives when the lookup found `reply`. It fails where the row
/// cannot be read, and where the token is to be taken out and what is left cannot
/// be written.
pub open spec fn cleared(
    path: Seq<KeyView>,
    token: u128,
    reply: Option<Seq<u8>>,
    r: Result<Option<WriteView>, StoreError>,
) -> bool {
    match r {
        Ok(write) => clears_found(path, token, reply, write),
        Err(StoreError::ValueEncode) => reply matches Some(bytes) && tracking_of(
            bytes,
        ) matches Some(info) && info.staged_by(token) && (!record_fit(info.unstaged().record())
            || record_fails(info.unstaged().record())),
        Err(StoreError::ValueDecode) => reply matches Some(bytes) && tracking_of(bytes) is None,
        Err(_) => false,
    }
}

impl ClearStagedTracking {
    /// The row to look up.
    pub fn lookup(&self) -> (r: Result<Lookup, StoreError>)
        ensures
            r matches Ok(lookup) && lookup@ == tracking_row(self.path@).bytes(),
    {
        match key_tracking_info(&self.path) {
            Ok(key) => Ok(Lookup { key }),
            Err(e) => Err(e),
        }
    }

    /// The info without the token, where it is this process's token; nothing
    /// otherwise.
    pub fn unstage(&self, info: StablePathEntryTrackingInfo) -> (r: Option<
        StablePathEntryTrackingInfo,
    >)
        ensures
            match r {
                Some(left) => info@.staged_by(self.self_token) && left@ == info@.unstaged()
                    && left.fields == info.fields,
                None => !info@.staged_by(self.self_token),
            },
            info.pending_process_token == Some(self.self_token) ==> r is Some,
            info.pending_process_token != Some(self.self_token) ==> r is None,
            r matches Some(left) ==> left.pending_process_token is None,
    {
        let staged = match info.pending_process_token {
            Some(token) => token == self.self_token,
            None => false,
        };
        if staged {
            Some(
                StablePathEntryTrackingInfo { pending_process_token: None, fields: info.fields },
            )
        } else {
            None
        }
    }

    /// What to write, given what the lookup found. Fails where the row cannot
    /// be read, and where the info without the token cannot be encoded.
    pub fn resume(&self, reply: Option<&[u8]>) -> (r: Result<Option<Write>, StoreError>)
        ensures
            cleared(self.path@, self.self_token, reply_view(reply), clear_view(r)),
            reply is None ==> r == Ok::<Option<Write>, StoreError>(None),
            reply matches Some(bytes) ==> (tracking_of(bytes@) matches Some(info) ==> (if
            info.pending_process_token == Some(self.self_token) {
                r is Ok ==> r->Ok_0 is Some
            } else {
                r == Ok::<Option<Write>, StoreError>(None)
            })),
    {
        let bytes = match reply {
            Some(bytes) => bytes,
            None => {
                return Ok(None);
            },
        };
        let info = match StablePathEntryTrackingInfo::decode(bytes) {
            Ok(info) => info,
            Err(e) => {
                return Err(e);
            },
        };
        match self.unstage(info) {
            Some(left) => match key_tracking_info(&self.path) {
                Ok(key) => match put_encoded(key, left.encode()) {
                    Ok(write) => Ok(Some(write)),
                    Err(e) => Err(e),
                },
                Err(e) => Err(e),
            },
            None => Ok(None),
        }
    }
}

/// The tracking info of `path`, as the table has it.
pub open spec fn tracking_at(table: Table, path: Seq<KeyView>) -> Option<TrackingView> {
    match found(table, tracking_row(path).bytes()) {
        Some(bytes) => tracking_of(bytes),
        None => None,
    }
}

/// A process clears its own token and no other. Where the row is missing, or holds no
/// token, or that of another process, nothing is written. Where it holds the token,
/// the row is written with the same fields and no token, unless its record is too
/// large or the serializer fails on it. A row that cannot be read is an error.
pub proof fn law_own_token_alone(
    table: Table,
    path: Seq<KeyView>,
    token: u128,
    reply: Option<Seq<u8>>,
    r: Result<Option<WriteView>, StoreError>,
)
    requires
        reply == found(table, DbKeyView::StablePath(path, EntryView::TrackingInfo).bytes()),
    ensures
        cleared(path, token, reply, r) ==> match reply {
            Some(bytes) => match tracking_of(bytes) {
                Some(info) => {
                    let left = info.fields.insert("pending_process_token"@, None);
                    &&& info.pending_process_token != Some(token) ==> r == Ok::<
                        Option<WriteView>,
                        StoreError,
                    >(None)
                    &&& info.pending_process_token == Some(token) ==> {
                        &&& record_fit(left) && !record_fails(left) ==> r is Ok
                        &&& r is Err ==> r->Err_0 == StoreError::ValueEncode
                        &&& r matches Ok(write) ==> (write matches Some(w) && {
                            let row = DbKeyView::StablePath(path, EntryView::TrackingInfo).bytes();
                            let after = apply(table, w);
                            &&& found(after, row) matches Some(now) && (tracking_of(
                                now,
                            ) matches Some(kept) && kept.pending_process_token is None
                                && kept.fields == info.fields)
                            &&& forall|key: Seq<u8>|
                                key != row ==> #[trigger] found(after, key) == found(table, key)
                        })
                    }
                },
                None => r == Err::<Option<WriteView>, StoreError>(StoreError::ValueDecode),
            },
            None => r == Ok::<Option<WriteView>, StoreError>(None),
        },
{
}

/// Clearing leaves no token of that process, keeps a token of any other process
/// and all fields beside it, leaves a missing row missing, and touches no other
/// row.
pub proof fn law_clear_staged(
    table: Table,
    path: Seq<KeyView>,
    token: u128,
    write: Option<WriteView>,
)
    ensures
        clears_found(path, token, found(table, tracking_row(path).bytes()), write) ==> {
            let after = written(table, write);
            &&& match tracking_at(table, path) {
                Some(info) => if info.staged_by(token) {
                    tracking_at(after, path) == Some(info.unstaged())
                } else {
                    after == table
                },
                None => after == table,
            }
            &&& rows_of(after).remove(tracking_row(path)) == rows_of(table).remove(
                tracking_row(path),
            )
            &&& canonical(table) ==> canonical(after)
        },
{
    let row = tracking_row(path);
    if clears_found(path, token, found(table, row.bytes()), write) && write is Some {
        law_put(table, row, write->0->Put_value);
        assert(rows_of(written(table, write)).remove(row) =~= rows_of(table).remove(row));
    }
}

/// Clearing a second time writes nothing, whatever there was to clear.
pub proof fn law_clear_staged_idempotent(
    table: Table,
    path: Seq<KeyView>,
    token: u128,
    first: Option<WriteView>,
    second: Option<WriteView>,
)
    ensures
        ({
            let row = tracking_row(path).bytes();
            let after = written(table, first);
            clears_found(path, token, found(table, row), first) && clears_found(
                path,
                token,
                found(after, row),
                second,
            ) ==> second is None && written(after, second) == after
        }),
{
    law_clear_staged(table, path, token, first);
}

} // verus!
