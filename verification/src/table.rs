//! The table that a store keeps its rows in, and what is asked of it.
//!
//! A store does not touch the database itself. Its operations say which row to
//! look up, which rows to scan and what to write; the caller carries that out
//! in a transaction of its own, and hands back what was found.
use crate::db_schema::{
    db_key_of, law_listing_prefix, law_row_key_round_trip, law_row_keys_distinct, DbKeyView,
    EntryView,
};
use crate::error::StoreError;
use crate::order::lex_lt;
use crate::stable_path::KeyView;
use vstd::prelude::*;

verus! {

/// A row as it stands in the database.
#[derive(Debug, PartialEq, Eq)]
pub struct Row {
    pub key: Vec<u8>,
    pub value: Vec<u8>,
}

/// Look up the value of one row.
#[derive(Debug, PartialEq, Eq)]
pub struct Lookup {
    pub key: Vec<u8>,
}

/// Go through all rows whose keys begin with `prefix`, in key order.
#[derive(Debug, PartialEq, Eq)]
pub struct Scan {
    pub prefix: Vec<u8>,
}

/// A change of the table.
#[derive(Debug, PartialEq, Eq)]
pub enum Write {
    /// Give the row this value, whether or not it is there.
    Put { key: Vec<u8>, value: Vec<u8> },
    /// Take the row out, if it is there.
    Delete { key: Vec<u8> },
    /// Take out all rows whose keys begin with `prefix`.
    DeletePrefix { prefix: Vec<u8> },
    /// Take out all rows.
    Clear,
}

/// A row, as a value.
pub struct RowView {
    pub key: Seq<u8>,
    pub value: Seq<u8>,
}

/// A change, as a value.
pub enum WriteView {
    Put { key: Seq<u8>, value: Seq<u8> },
    Delete { key: Seq<u8> },
    DeletePrefix { prefix: Seq<u8> },
    Clear,
}

impl View for Row {
    type V = RowView;

    open spec fn view(&self) -> RowView {
        RowView { key: self.key@, value: self.value@ }
    }
}

impl View for Lookup {
    type V = Seq<u8>;

    open spec fn view(&self) -> Seq<u8> {
        self.key@
    }
}

impl View for Scan {
    type V = Seq<u8>;

    open spec fn view(&self) -> Seq<u8> {
        self.prefix@
    }
}

impl View for Write {
    type V = WriteView;

    open spec fn view(&self) -> WriteView {
        match self {
            Write::Put { key, value } => WriteView::Put { key: key@, value: value@ },
            Write::Delete { key } => WriteView::Delete { key: key@ },
            Write::DeletePrefix { prefix } => WriteView::DeletePrefix { prefix: prefix@ },
            Write::Clear => WriteView::Clear,
        }
    }
}

/// The value of a lookup's reply.
pub open spec fn reply_view(reply: Option<&[u8]>) -> Option<Seq<u8>> {
    match reply {
        Some(bytes) => Some(bytes@),
        None => None,
    }
}

/// A change that may be none, as a value.
pub open spec fn write_view(write: Option<Write>) -> Option<WriteView> {
    match write {
        Some(w) => Some(w@),
        None => None,
    }
}

/// A change that may have failed to be made out, as a value.
pub open spec fn write_result(r: Result<Write, StoreError>) -> Result<WriteView, StoreError> {
    match r {
        Ok(w) => Ok(w@),
        Err(e) => Err(e),
    }
}

/// The rows, as values.
pub open spec fn rows_view(rows: Seq<Row>) -> Seq<RowView> {
    rows.map_values(|r: Row| r@)
}

/// A put of a value that may have failed to be encoded: the failure, if so.
pub fn put_encoded(key: Vec<u8>, value: Result<Vec<u8>, StoreError>) -> (r: Result<
    Write,
    StoreError,
>)
    ensures
        match value {
            Ok(bytes) => r matches Ok(write) && write@ == (WriteView::Put {
                key: key@,
                value: bytes@,
            }),
            Err(e) => r == Err::<Write, StoreError>(e),
        },
{
    match value {
        Ok(value) => Ok(Write::Put { key, value }),
        Err(e) => Err(e),
    }
}

/// The raw content of a database: values by row key.
pub type Table = Map<Seq<u8>, Seq<u8>>;

/// The content of a store: values by what the row is about.
pub type Rows = Map<DbKeyView, Seq<u8>>;

/// The table after a change.
pub open spec fn apply(table: Table, write: WriteView) -> Table {
    match write {
        WriteView::Put { key, value } => table.insert(key, value),
        WriteView::Delete { key } => table.remove(key),
        WriteView::DeletePrefix { prefix } => table.remove_keys(
            Set::new(|key: Seq<u8>| prefix.is_prefix_of(key)),
        ),
        WriteView::Clear => Map::empty(),
    }
}

/// The table after a change, if there is one.
pub open spec fn written(table: Table, write: Option<WriteView>) -> Table {
    match write {
        Some(w) => apply(table, w),
        None => table,
    }
}

/// The value that a lookup finds.
pub open spec fn found(table: Table, key: Seq<u8>) -> Option<Seq<u8>> {
    if table.dom().contains(key) {
        Some(table[key])
    } else {
        None
    }
}

/// `rows` is what a scan of the table for `prefix` goes through: each row whose
/// key begins with it once, in the order of the keys.
pub open spec fn scanned(table: Table, prefix: Seq<u8>, rows: Seq<RowView>) -> bool {
    &&& forall|i: int, j: int|
        0 <= i < j < rows.len() ==> lex_lt((#[trigger] rows[i]).key, (#[trigger] rows[j]).key)
    &&& forall|i: int|
        0 <= i < rows.len() ==> prefix.is_prefix_of((#[trigger] rows[i]).key) && found(
            table,
            rows[i].key,
        ) == Some(rows[i].value)
    &&& forall|key: Seq<u8>| #[trigger]
        table.dom().contains(key) && prefix.is_prefix_of(key) ==> exists|i: int|
            0 <= i < rows.len() && (#[trigger] rows[i]).key == key
}

/// `key` is the key of one row of a store.
pub open spec fn is_row_key(key: Seq<u8>) -> bool {
    db_key_of(key) matches Some(k) && k.complete() && k.bytes() == key
}

/// Every row of the table is a row of a store.
pub open spec fn canonical(table: Table) -> bool {
    forall|key: Seq<u8>| #[trigger] table.dom().contains(key) ==> is_row_key(key)
}

/// What the store holds, as the table has it.
pub open spec fn rows_of(table: Table) -> Rows {
    Map::new(
        |k: DbKeyView| k.complete() && table.dom().contains(k.bytes()),
        |k: DbKeyView| table[k.bytes()],
    )
}

/// The rows of the group `group` under `path`.
pub open spec fn in_group(key: DbKeyView, path: Seq<KeyView>, group: EntryView) -> bool {
    key matches DbKeyView::StablePath(p, entry) && p == path && entry.tag() == group.tag()
}

/// A change that a store makes: rows are put and deleted one by one under their
/// own keys, or deleted together.
pub open spec fn store_write(write: WriteView) -> bool {
    match write {
        WriteView::Put { key, .. } => is_row_key(key),
        WriteView::Delete { key } => is_row_key(key),
        WriteView::DeletePrefix { .. } => true,
        WriteView::Clear => true,
    }
}

/// What changes made one after the other bring an empty table to.
pub open spec fn after_writes(writes: Seq<WriteView>) -> Table
    decreases writes.len(),
{
    if writes.len() == 0 {
        Map::empty()
    } else {
        apply(after_writes(writes.drop_last()), writes.last())
    }
}

/// Every complete key is the key of a row.
pub proof fn law_complete_key(key: DbKeyView)
    requires
        key.complete(),
    ensures
        is_row_key(key.bytes()),
{
    law_row_key_round_trip(key);
}

/// Whatever a store has done, its table holds rows of the store alone.
pub proof fn law_always_canonical(writes: Seq<WriteView>)
    requires
        forall|i: int| 0 <= i < writes.len() ==> store_write(#[trigger] writes[i]),
    ensures
        canonical(after_writes(writes)),
    decreases writes.len(),
{
    if writes.len() > 0 {
        assert forall|i: int| 0 <= i < writes.len() - 1 implies store_write(
            #[trigger] writes.drop_last()[i],
        ) by {
            assert(writes.drop_last()[i] == writes[i]);
        }
        law_always_canonical(writes.drop_last());
        assert(store_write(writes[writes.len() - 1]));
    }
}

/// A table without rows holds nothing, and is canonical.
pub proof fn law_empty_table()
    ensures
        canonical(Map::empty()),
        rows_of(Map::empty()) == Map::<DbKeyView, Seq<u8>>::empty(),
{
    assert(rows_of(Map::empty()) =~= Map::<DbKeyView, Seq<u8>>::empty());
}

/// Putting a row gives it the value, whether or not it was there, and touches
/// no other row.
pub proof fn law_put(table: Table, key: DbKeyView, value: Seq<u8>)
    requires
        key.complete(),
    ensures
        rows_of(apply(table, WriteView::Put { key: key.bytes(), value })) == rows_of(table).insert(
            key,
            value,
        ),
        canonical(table) ==> canonical(
            apply(table, WriteView::Put { key: key.bytes(), value }),
        ),
{
    law_row_key_round_trip(key);
    let after = rows_of(apply(table, WriteView::Put { key: key.bytes(), value }));
    assert forall|k: DbKeyView| #[trigger] after.dom().contains(k) == rows_of(table).insert(
        key,
        value,
    ).dom().contains(k) by {
        if k.complete() && k.bytes() == key.bytes() {
            law_row_keys_distinct(k, key);
        }
    }
    assert forall|k: DbKeyView| #[trigger] after.dom().contains(k) implies after[k] == rows_of(
        table,
    ).insert(key, value)[k] by {
        if k.bytes() == key.bytes() {
            law_row_keys_distinct(k, key);
        }
    }
    assert(after =~= rows_of(table).insert(key, value));
}

/// Deleting a row takes it out, does nothing where it is missing, and touches
/// no other row.
pub proof fn law_delete(table: Table, key: DbKeyView)
    requires
        key.complete(),
    ensures
        rows_of(apply(table, WriteView::Delete { key: key.bytes() })) == rows_of(table).remove(key),
        canonical(table) ==> canonical(apply(table, WriteView::Delete { key: key.bytes() })),
        !rows_of(table).dom().contains(key) ==> apply(
            table,
            WriteView::Delete { key: key.bytes() },
        ) == table,
{
    let after = rows_of(apply(table, WriteView::Delete { key: key.bytes() }));
    assert forall|k: DbKeyView| #[trigger] after.dom().contains(k) == rows_of(table).remove(
        key,
    ).dom().contains(k) by {
        if k.complete() && k.bytes() == key.bytes() {
            law_row_keys_distinct(k, key);
        }
    }
    assert(after =~= rows_of(table).remove(key));
    if !rows_of(table).dom().contains(key) {
        assert(table.remove(key.bytes()) =~= table);
    }
}

/// Deleting a group takes out the rows of that kind under that path, and
/// touches no other row.
pub proof fn law_delete_group(table: Table, path: Seq<KeyView>, group: EntryView)
    requires
        group.suffix().len() == 0,
    ensures
        rows_of(
            apply(
                table,
                WriteView::DeletePrefix { prefix: DbKeyView::StablePath(path, group).bytes() },
            ),
        ) == rows_of(table).remove_keys(Set::new(|k: DbKeyView| in_group(k, path, group))),
        canonical(table) ==> canonical(
            apply(
                table,
                WriteView::DeletePrefix { prefix: DbKeyView::StablePath(path, group).bytes() },
            ),
        ),
{
    let prefix = DbKeyView::StablePath(path, group).bytes();
    let after = rows_of(apply(table, WriteView::DeletePrefix { prefix }));
    let want = rows_of(table).remove_keys(Set::new(|k: DbKeyView| in_group(k, path, group)));
    assert forall|k: DbKeyView| #[trigger] after.dom().contains(k) == want.dom().contains(k) by {
        if k.complete() {
            law_listing_prefix(path, group, k);
        }
    }
    assert(after =~= want);
}

/// Clearing leaves nothing.
pub proof fn law_clear(table: Table)
    ensures
        rows_of(apply(table, WriteView::Clear)) == Map::<DbKeyView, Seq<u8>>::empty(),
        canonical(apply(table, WriteView::Clear)),
{
    law_empty_table();
}

/// A lookup finds what the store holds under that key.
pub proof fn law_lookup(table: Table, key: DbKeyView)
    requires
        key.complete(),
    ensures
        found(table, key.bytes()) == (if rows_of(table).dom().contains(key) {
            Some(rows_of(table)[key])
        } else {
            None
        }),
{
}

/// The value of a row, a lookup, a scan or a change is all of its bytes.
pub proof fn law_change_value(
    row: Row,
    lookup: Lookup,
    scan: Scan,
    key: Vec<u8>,
    value: Vec<u8>,
    rows: Seq<Row>,
    i: int,
    bytes: &[u8],
    write: Write,
    e: StoreError,
)
    ensures
        reply_view(Some(bytes)) == Some(bytes@) && reply_view(None) is None,
        write_view(Some(write)) == Some(write@) && write_view(None) is None,
        write_result(Ok(write)) == Ok::<WriteView, StoreError>(write@),
        write_result(Err(e)) == Err::<WriteView, StoreError>(e),
        row@.key == row.key@ && row@.value == row.value@,
        lookup@ == lookup.key@,
        scan@ == scan.prefix@,
        (Write::Put { key, value })@ == (WriteView::Put { key: key@, value: value@ }),
        (Write::Delete { key })@ == (WriteView::Delete { key: key@ }),
        (Write::DeletePrefix { prefix: key })@ == (WriteView::DeletePrefix { prefix: key@ }),
        Write::Clear@ == WriteView::Clear,
        rows_view(rows).len() == rows.len(),
        0 <= i < rows.len() ==> rows_view(rows)[i] == rows[i]@,
{
}

/// A put gives one row its value, a delete takes one row out, a delete by prefix all
/// rows that begin with it, and a clearing all rows; what is found of every other row
/// stays.
pub proof fn law_change_found(table: Table, key: Seq<u8>, value: Seq<u8>, at: Seq<u8>)
    ensures
        found(apply(table, WriteView::Put { key, value }), at) == (if at == key {
            Some(value)
        } else {
            found(table, at)
        }),
        found(apply(table, WriteView::Delete { key }), at) == (if at == key {
            None
        } else {
            found(table, at)
        }),
        found(apply(table, WriteView::DeletePrefix { prefix: key }), at) == (if key.is_prefix_of(
            at,
        ) {
            None
        } else {
            found(table, at)
        }),
        found(apply(table, WriteView::Clear), at) is None,
{
}

} // verus!
