//! The state store of one app: what is kept of its components, under which keys
//! and in which form.
//!
//! - `stable_path`, `text`, `order`: the names of components, their bytes, and
//!   the order that both share.
//! - `db_schema`, `keys`: the keys of rows.
//! - `values`, `msgpack`: the values of rows.
//! - `table`: what is asked of the database, and what that does to it.
//! - `app_store`: the operations. `existence`, `id_sequence` and `tracking` hold
//!   those that look before they write, `listing` and `path_nodes` the reading of
//!   scans, `retry` the opening of read transactions.
//! - `laws`: what holds of the store as a whole.
//! - `operations`: what each operation does, stated on the calls.
use vstd::prelude::*;

pub mod app_store;
pub mod db_schema;
pub mod error;
pub mod existence;
pub mod id_sequence;
pub mod keys;
pub mod laws;
pub mod listing;
pub mod msgpack;
pub mod operations;
pub mod order;
pub mod path_nodes;
pub mod retry;
pub mod stable_path;
pub mod table;
pub mod text;
pub mod tracking;
pub mod values;

verus! {

} // verus!
