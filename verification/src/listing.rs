//! Reading the rows that a scan went through.
use crate::app_store::AppStore;
use crate::db_schema::{
    db_key_of, decode_fingerprint, decode_key, decode_path, fingerprint_of, key_of,
    law_row_key_form, law_row_key_read, path_of, DbEntryKey, DbKeyView, Fingerprint,
};
use crate::error::StoreError;
use crate::stable_path::{KeyView, StableKey, StablePath};
use crate::table::{rows_view, Row, RowView, Scan};
use crate::values::{child_existence_of, ChildExistenceInfo};
use vstd::prelude::*;

verus! {

/// What reading rows one after the other gives, when `got` is what each row
/// reads as: all of it, or the first failure.
pub open spec fn all_read<T>(
    got: Seq<Result<T, StoreError>>,
    r: Result<Seq<T>, StoreError>,
) -> bool {
    match r {
        Ok(out) => out.len() == got.len() && forall|i: int|
            0 <= i < got.len() ==> #[trigger] got[i] == Ok::<T, StoreError>(out[i]),
        Err(e) => exists|i: int|
            0 <= i < got.len() && #[trigger] got[i] == Err::<T, StoreError>(e) && forall|j: int|
                0 <= j < i ==> (#[trigger] got[j]) is Ok,
    }
}

/// Every key is at least as long as the prefix that the scan was for.
pub open spec fn keys_reach(scan: Seq<u8>, rows: Seq<RowView>) -> bool {
    forall|i: int| 0 <= i < rows.len() ==> scan.len() <= (#[trigger] rows[i]).key.len()
}

/// What a function-memo row reads as, behind a prefix of `n` bytes.
pub open spec fn fn_memo_in(row: RowView, n: nat) -> Result<(Seq<u8>, Seq<u8>), StoreError> {
    match fingerprint_of(row.key.skip(n as int)) {
        Some(fp) => Ok((fp, row.value)),
        None => Err(StoreError::KeyDecode),
    }
}

/// What a child-existence row reads as, behind a prefix of `n` bytes.
pub open spec fn child_in(row: RowView, n: nat) -> Result<
    (KeyView, ChildExistenceInfo),
    StoreError,
> {
    match key_of(row.key.skip(n as int)) {
        Some(key) => match child_existence_of(row.value) {
            Some(info) => Ok((key, info)),
            None => Err(StoreError::ValueDecode),
        },
        None => Err(StoreError::KeyDecode),
    }
}

/// What a tombstone row reads as, behind a prefix of `n` bytes.
pub open spec fn tombstone_in(row: RowView, n: nat) -> Result<Seq<KeyView>, StoreError> {
    match path_of(row.key.skip(n as int)) {
        Some(path) => Ok(path),
        None => Err(StoreError::KeyDecode),
    }
}

/// What a user-state row reads as, behind a prefix of `n` bytes.
pub open spec fn user_state_in(row: RowView, n: nat) -> Result<(KeyView, Seq<u8>), StoreError> {
    match key_of(row.key.skip(n as int)) {
        Some(key) => Ok((key, row.value)),
        None => Err(StoreError::KeyDecode),
    }
}

/// What the function-memo rows read as.
pub open spec fn fn_memos_in(rows: Seq<RowView>, n: nat) -> Seq<
    Result<(Seq<u8>, Seq<u8>), StoreError>,
> {
    rows.map_values(|row: RowView| fn_memo_in(row, n))
}

/// What the child-existence rows read as.
pub open spec fn children_in(rows: Seq<RowView>, n: nat) -> Seq<
    Result<(KeyView, ChildExistenceInfo), StoreError>,
> {
    rows.map_values(|row: RowView| child_in(row, n))
}

/// What the tombstone rows read as.
pub open spec fn tombstones_in(rows: Seq<RowView>, n: nat) -> Seq<
    Result<Seq<KeyView>, StoreError>,
> {
    rows.map_values(|row: RowView| tombstone_in(row, n))
}

/// What the user-state rows read as.
pub open spec fn user_states_in(rows: Seq<RowView>, n: nat) -> Seq<
    Result<(KeyView, Seq<u8>), StoreError>,
> {
    rows.map_values(|row: RowView| user_state_in(row, n))
}

/// The result of listing function memos, as a value.
pub open spec fn fn_memos_view(r: Result<Vec<(Fingerprint, Vec<u8>)>, StoreError>) -> Result<
    Seq<(Seq<u8>, Seq<u8>)>,
    StoreError,
> {
    match r {
        Ok(out) => Ok(out@.map_values(|m: (Fingerprint, Vec<u8>)| (m.0@, m.1@))),
        Err(e) => Err(e),
    }
}

/// The result of listing children, as a value.
pub open spec fn children_view(
    r: Result<Vec<(StableKey, ChildExistenceInfo)>, StoreError>,
) -> Result<Seq<(KeyView, ChildExistenceInfo)>, StoreError> {
    match r {
        Ok(out) => Ok(out@.map_values(|c: (StableKey, ChildExistenceInfo)| (c.0@, c.1))),
        Err(e) => Err(e),
    }
}

/// The result of listing paths, as a value.
pub open spec fn paths_view(r: Result<Vec<StablePath>, StoreError>) -> Result<
    Seq<Seq<KeyView>>,
    StoreError,
> {
    match r {
        Ok(out) => Ok(out@.map_values(|p: StablePath| p@)),
        Err(e) => Err(e),
    }
}

/// The result of listing user states, as a value.
pub open spec fn user_states_view(r: Result<Vec<(StableKey, Vec<u8>)>, StoreError>) -> Result<
    Seq<(KeyView, Seq<u8>)>,
    StoreError,
> {
    match r {
        Ok(out) => Ok(out@.map_values(|s: (StableKey, Vec<u8>)| (s.0@, s.1@))),
        Err(e) => Err(e),
    }
}

/// The part of a key behind a prefix of `n` bytes.
fn behind(key: &Vec<u8>, n: usize) -> (r: &[u8])
    requires
        n <= key.len(),
    ensures
        r@ == key@.skip(n as int),
{
    let r = vstd::slice::slice_subrange(key.as_slice(), n, key.len());
    assert(r@ =~= key@.skip(n as int));
    r
}

/// A child from the bytes of its key and what its row's value was read as. A key
/// that cannot be read is the failure where both fail.
pub fn keyed_child(key: &[u8], info: Result<ChildExistenceInfo, StoreError>) -> (r: Result<
    (StableKey, ChildExistenceInfo),
    StoreError,
>)
    ensures
        match key_of(key@) {
            Some(k) => match info {
                Ok(i) => r matches Ok(child) && child.0@ == k && child.1 == i,
                Err(e) => r == Err::<(StableKey, ChildExistenceInfo), StoreError>(e),
            },
            None => r == Err::<(StableKey, ChildExistenceInfo), StoreError>(StoreError::KeyDecode),
        },
{
    match decode_key(key) {
        Ok(k) => match info {
            Ok(i) => Ok((k, i)),
            Err(e) => Err(e),
        },
        Err(e) => Err(e),
    }
}

/// A copy of the bytes.
fn copied(bytes: &Vec<u8>) -> (r: Vec<u8>)
    ensures
        r@ == bytes@,
{
    let mut r: Vec<u8> = Vec::new();
    r.extend_from_slice(bytes.as_slice());
    assert(r@ =~= bytes@);
    r
}

impl AppStore {
    /// The function memos in the rows that `scan` went through, in that order.
    /// Fails at the first row whose key holds no fingerprint behind the prefix.
    pub fn collect_fn_memos(&self, scan: &Scan, rows: &Vec<Row>) -> (r: Result<
        Vec<(Fingerprint, Vec<u8>)>,
        StoreError,
    >)
        requires
            keys_reach(scan@, rows_view(rows@)),
        ensures
            all_read(fn_memos_in(rows_view(rows@), scan@.len()), fn_memos_view(r)),
    {
        let n: usize = scan.prefix.len();
        let ghost got = fn_memos_in(rows_view(rows@), n as nat);
        let mut out: Vec<(Fingerprint, Vec<u8>)> = Vec::new();
        let mut i: usize = 0;
        while i < rows.len()
            invariant
                i <= rows.len(),
                out.len() == i,
                n == scan@.len(),
                got == fn_memos_in(rows_view(rows@), n as nat),
                keys_reach(scan@, rows_view(rows@)),
                forall|j: int|
                    0 <= j < i ==> #[trigger] got[j] == Ok::<(Seq<u8>, Seq<u8>), StoreError>(
                        (out@[j].0@, out@[j].1@),
                    ),
            decreases rows.len() - i,
        {
            assert(rows_view(rows@)[i as int].key == rows@[i as int].key@);
            assert(got[i as int] == fn_memo_in(rows@[i as int]@, n as nat));
            match decode_fingerprint(behind(&rows[i].key, n)) {
                Ok(fp) => {
                    out.push((fp, copied(&rows[i].value)));
                },
                Err(e) => {
                    return Err(e);
                },
            }
            i += 1;
        }
        Ok(out)
    }
}

impl AppStore {
    /// The children in the rows that `scan` went through, in that order. Fails at
    /// the first row whose key holds no stable key behind the prefix, or whose
    /// value cannot be read.
    pub fn collect_child_existence(&self, scan: &Scan, rows: &Vec<Row>) -> (r: Result<
        Vec<(StableKey, ChildExistenceInfo)>,
        StoreError,
    >)
        requires
            keys_reach(scan@, rows_view(rows@)),
        ensures
            all_read(children_in(rows_view(rows@), scan@.len()), children_view(r)),
    {
        let n: usize = scan.prefix.len();
        let ghost got = children_in(rows_view(rows@), n as nat);
        let mut out: Vec<(StableKey, ChildExistenceInfo)> = Vec::new();
        let mut i: usize = 0;
        while i < rows.len()
            invariant
                i <= rows.len(),
                out.len() == i,
                n == scan@.len(),
                got == children_in(rows_view(rows@), n as nat),
                keys_reach(scan@, rows_view(rows@)),
                forall|j: int|
                    0 <= j < i ==> #[trigger] got[j] == Ok::<
                        (KeyView, ChildExistenceInfo),
                        StoreError,
                    >((out@[j].0@, out@[j].1)),
            decreases rows.len() - i,
        {
            assert(rows_view(rows@)[i as int].key == rows@[i as int].key@);
            assert(got[i as int] == child_in(rows@[i as int]@, n as nat));
            let info = ChildExistenceInfo::decode(rows[i].value.as_slice());
            match keyed_child(behind(&rows[i].key, n), info) {
                Ok(child) => {
                    out.push(child);
                },
                Err(e) => {
                    return Err(e);
                },
            }
            i += 1;
        }
        Ok(out)
    }
}

impl AppStore {
    /// The relative paths in the tombstone rows that `scan` went through, in that
    /// order. Fails at the first row whose key holds no path behind the prefix.
    pub fn collect_tombstones(&self, scan: &Scan, rows: &Vec<Row>) -> (r: Result<
        Vec<StablePath>,
        StoreError,
    >)
        requires
            keys_reach(scan@, rows_view(rows@)),
        ensures
            all_read(tombstones_in(rows_view(rows@), scan@.len()), paths_view(r)),
    {
        let n: usize = scan.prefix.len();
        let ghost got = tombstones_in(rows_view(rows@), n as nat);
        let mut out: Vec<StablePath> = Vec::new();
        let mut i: usize = 0;
        while i < rows.len()
            invariant
                i <= rows.len(),
                out.len() == i,
                n == scan@.len(),
                got == tombstones_in(rows_view(rows@), n as nat),
                keys_reach(scan@, rows_view(rows@)),
                forall|j: int|
                    0 <= j < i ==> #[trigger] got[j] == Ok::<Seq<KeyView>, StoreError>(out@[j]@),
            decreases rows.len() - i,
        {
            assert(rows_view(rows@)[i as int].key == rows@[i as int].key@);
            assert(got[i as int] == tombstone_in(rows@[i as int]@, n as nat));
            match decode_path(behind(&rows[i].key, n)) {
                Ok(relative) => {
                    out.push(relative);
                },
                Err(e) => {
                    return Err(e);
                },
            }
            i += 1;
        }
        Ok(out)
    }
}

impl AppStore {
    /// The user states in the rows that `scan` went through, in that order. Fails
    /// at the first row whose key holds no stable key behind the prefix.
    pub fn collect_user_states(&self, scan: &Scan, rows: &Vec<Row>) -> (r: Result<
        Vec<(StableKey, Vec<u8>)>,
        StoreError,
    >)
        requires
            keys_reach(scan@, rows_view(rows@)),
        ensures
            all_read(user_states_in(rows_view(rows@), scan@.len()), user_states_view(r)),
    {
        let n: usize = scan.prefix.len();
        let ghost got = user_states_in(rows_view(rows@), n as nat);
        let mut out: Vec<(StableKey, Vec<u8>)> = Vec::new();
        let mut i: usize = 0;
        while i < rows.len()
            invariant
                i <= rows.len(),
                out.len() == i,
                n == scan@.len(),
                got == user_states_in(rows_view(rows@), n as nat),
                keys_reach(scan@, rows_view(rows@)),
                forall|j: int|
                    0 <= j < i ==> #[trigger] got[j] == Ok::<(KeyView, Seq<u8>), StoreError>(
                        (out@[j].0@, out@[j].1@),
                    ),
            decreases rows.len() - i,
        {
            assert(rows_view(rows@)[i as int].key == rows@[i as int].key@);
            assert(got[i as int] == user_state_in(rows@[i as int]@, n as nat));
            match decode_key(behind(&rows[i].key, n)) {
                Ok(key) => {
                    out.push((key, copied(&rows[i].value)));
                },
                Err(e) => {
                    return Err(e);
                },
            }
            i += 1;
        }
        Ok(out)
    }
}

/// The paths that row keys are about, one for each run of rows of the same
/// path; `last` is the path of the row before.
pub open spec fn paths_in(keys: Seq<Seq<u8>>, last: Option<Seq<KeyView>>) -> Result<
    Seq<Seq<KeyView>>,
    StoreError,
>
    decreases keys.len(),
{
    if keys.len() == 0 {
        Ok(Seq::empty())
    } else if last matches Some(path) && DbKeyView::StablePathPrefix(path).bytes().is_prefix_of(
        keys[0],
    ) {
        paths_in(keys.drop_first(), last)
    } else {
        match db_key_of(keys[0]) {
            Some(DbKeyView::StablePath(path, _)) => match paths_in(
                keys.drop_first(),
                Some(path),
            ) {
                Ok(paths) => Ok(seq![path] + paths),
                Err(e) => Err(e),
            },
            Some(_) => Err(StoreError::ExpectedStablePath),
            None => Err(StoreError::KeyDecode),
        }
    }
}

/// The keys of rows.
pub open spec fn row_keys(rows: Seq<RowView>) -> Seq<Seq<u8>> {
    rows.map_values(|row: RowView| row.key)
}

/// Whether `bytes` begin with `prefix`.
fn starts_with(bytes: &Vec<u8>, prefix: &Vec<u8>) -> (r: bool)
    ensures
        r == prefix@.is_prefix_of(bytes@),
{
    if bytes.len() < prefix.len() {
        return false;
    }
    let mut i: usize = 0;
    while i < prefix.len()
        invariant
            i <= prefix.len() <= bytes.len(),
            forall|j: int| 0 <= j < i ==> prefix@[j] == #[trigger] bytes@[j],
        decreases prefix.len() - i,
    {
        if bytes[i] != prefix[i] {
            assert(bytes@.subrange(0, prefix@.len() as int)[i as int] == bytes@[i as int]);
            return false;
        }
        i += 1;
    }
    assert(bytes@.subrange(0, prefix@.len() as int) =~= prefix@);
    true
}

impl AppStore {
    /// The paths that have rows, from the rows of a scan of all of them: one for
    /// each run of rows of one path. Fails at the first row that starts a run and is
    /// not one of a stable path.
    pub fn collect_stable_paths(&self, rows: &Vec<Row>) -> (r: Result<Vec<StablePath>, StoreError>)
        ensures
            paths_view(r) == paths_in(row_keys(rows_view(rows@)), None),
    {
        let ghost keys = row_keys(rows_view(rows@));
        let ghost mut last: Option<Seq<KeyView>> = None;
        let mut out: Vec<StablePath> = Vec::new();
        let mut last_prefix: Option<Vec<u8>> = None;
        let mut i: usize = 0;
        proof {
            assert(keys.skip(0) =~= keys);
            assert(out@.map_values(|p: StablePath| p@) =~= Seq::<Seq<KeyView>>::empty());
            if let Ok(paths) = paths_in(keys, None) {
                assert(Seq::<Seq<KeyView>>::empty() + paths =~= paths);
            }
        }
        while i < rows.len()
            invariant
                i <= rows.len(),
                keys == row_keys(rows_view(rows@)),
                match last {
                    Some(path) => last_prefix matches Some(bytes) && bytes@
                        == DbKeyView::StablePathPrefix(path).bytes(),
                    None => last_prefix is None,
                },
                paths_in(keys, None) == (match paths_in(keys.skip(i as int), last) {
                    Ok(paths) => Ok::<Seq<Seq<KeyView>>, StoreError>(
                        out@.map_values(|p: StablePath| p@) + paths,
                    ),
                    Err(e) => Err(e),
                }),
            decreases rows.len() - i,
        {
            let ghost rest = keys.skip(i as int);
            assert(rest[0] == rows@[i as int].key@);
            assert(rest.drop_first() =~= keys.skip(i + 1));
            let known = match &last_prefix {
                Some(prefix) => starts_with(&rows[i].key, prefix),
                None => false,
            };
            if !known {
                let path = match DbEntryKey::decode(rows[i].key.as_slice()) {
                    Ok(DbEntryKey::StablePath(path, _)) => path,
                    Ok(_) => {
                        return Err(StoreError::ExpectedStablePath);
                    },
                    Err(e) => {
                        return Err(e);
                    },
                };
                match DbEntryKey::StablePathPrefix(path.clone()).encode() {
                    Ok(prefix) => {
                        last_prefix = Some(prefix);
                    },
                    Err(e) => {
                        return Err(e);
                    },
                }
                proof {
                    last = Some(path@);
                    let before = out@.map_values(|p: StablePath| p@);
                    assert(out@.push(path).map_values(|p: StablePath| p@) =~= before.push(path@));
                    if let Ok(paths) = paths_in(rest.drop_first(), last) {
                        assert(before + (seq![path@] + paths) =~= before.push(path@) + paths);
                    }
                }
                out.push(path);
            }
            i += 1;
        }
        proof {
            assert(keys.skip(i as int) =~= Seq::<Seq<u8>>::empty());
            assert(out@.map_values(|p: StablePath| p@) + Seq::<Seq<KeyView>>::empty()
                =~= out@.map_values(|p: StablePath| p@));
        }
        Ok(out)
    }
}

/// What a row of a listing reads as is in the bytes behind the prefix and in its
/// value, all of it: a fingerprint is 16 bytes, a key or a path leaves nothing
/// over, and values are handed out as they are. A key that cannot be read is the
/// failure, and only then a value that cannot be.
pub proof fn law_listed_rows(
    prefix: Seq<u8>,
    name: Seq<u8>,
    value: Seq<u8>,
    key: KeyView,
    path: Seq<KeyView>,
    info: ChildExistenceInfo,
)
    ensures
        ({
            let row = RowView { key: prefix + name, value };
            let n = prefix.len();
            &&& fn_memo_in(row, n) == (if name.len() == 16 {
                Ok::<(Seq<u8>, Seq<u8>), StoreError>((name, value))
            } else {
                Err(StoreError::KeyDecode)
            })
            &&& user_state_in(row, n) == Ok::<(KeyView, Seq<u8>), StoreError>((key, value))
                <==> key_of(name) == Some(key)
            &&& user_state_in(row, n) matches Ok((_, kept)) ==> kept == value
            &&& user_state_in(row, n) matches Err(e) ==> e == StoreError::KeyDecode && key_of(
                name,
            ) is None
            &&& tombstone_in(row, n) == Ok::<Seq<KeyView>, StoreError>(path) <==> path_of(name)
                == Some(path)
            &&& tombstone_in(row, n) matches Err(e) ==> e == StoreError::KeyDecode
            &&& child_in(row, n) == Ok::<(KeyView, ChildExistenceInfo), StoreError>((key, info))
                <==> key_of(name) == Some(key) && child_existence_of(value) == Some(info)
            &&& child_in(row, n) == Err::<(KeyView, ChildExistenceInfo), StoreError>(
                StoreError::KeyDecode,
            ) <==> key_of(name) is None
            &&& child_in(row, n) == Err::<(KeyView, ChildExistenceInfo), StoreError>(
                StoreError::ValueDecode,
            ) <==> key_of(name) is Some && child_existence_of(value) is None
        }),
{
    assert((prefix + name).skip(prefix.len() as int) =~= name);
}

/// A listing shows what each row reads as, one for one and in order, where all of
/// them can be read; otherwise it shows the failure of the first that cannot.
pub proof fn law_listed_in_order<T>(
    got: Seq<Result<T, StoreError>>,
    r: Result<Seq<T>, StoreError>,
    k: int,
)
    requires
        all_read(got, r),
        0 <= k < got.len(),
    ensures
        r is Ok ==> r->Ok_0.len() == got.len() && got[k] == Ok::<T, StoreError>(r->Ok_0[k]),
        (forall|j: int| 0 <= j < k ==> (#[trigger] got[j]) is Ok) && got[k] is Err ==> r is Err
            && r->Err_0 == got[k]->Err_0,
{
    if (forall|j: int| 0 <= j < k ==> (#[trigger] got[j]) is Ok) && got[k] is Err {
        assert(got[k] == Err::<T, StoreError>(got[k]->Err_0));
        if r is Err {
            let i = choose|i: int|
                0 <= i < got.len() && #[trigger] got[i] == Err::<T, StoreError>(r->Err_0)
                    && forall|j: int| 0 <= j < i ==> (#[trigger] got[j]) is Ok;
            if i < k {
                assert(got[i] is Ok);
            } else if k < i {
                assert(got[k] is Ok);
            }
        }
    }
}

/// Listing paths shows no path but one that a row is about, and each row is about
/// one that is shown, or begins with its bytes. It goes through rows of stable
/// paths alone: one of another kind fails it, and so does a key that cannot be read.
pub proof fn law_listed_paths(keys: Seq<Seq<u8>>)
    ensures
        match paths_in(keys, None) {
            Ok(out) => {
                &&& forall|j: int|
                    0 <= j < out.len() ==> exists|k: int|
                        0 <= k < keys.len() && is_about(#[trigger] keys[k], #[trigger] out[j])
                &&& forall|k: int|
                    0 <= k < keys.len() ==> (#[trigger] keys[k]).len() > 0 && keys[k][0] == 0x10
                        && exists|j: int|
                        0 <= j < out.len() && (is_about(keys[k], #[trigger] out[j])
                            || DbKeyView::StablePathPrefix(out[j]).bytes().is_prefix_of(keys[k]))
            },
            Err(e) => exists|k: int| 0 <= k < keys.len() && is_refused(#[trigger] keys[k], e),
        },
{
    lemma_listed_paths(keys, None);
}

/// The row key is one of the path.
pub open spec fn is_about(key: Seq<u8>, path: Seq<KeyView>) -> bool {
    db_key_of(key) matches Some(DbKeyView::StablePath(p, _)) && p == path
}

/// The row key is of another kind, or cannot be read, and `e` says which.
pub open spec fn is_refused(key: Seq<u8>, e: StoreError) -> bool {
    match db_key_of(key) {
        Some(DbKeyView::StablePath(_, _)) => false,
        Some(_) => e == StoreError::ExpectedStablePath,
        None => e == StoreError::KeyDecode,
    }
}

/// The same behind rows of the path `last`.
proof fn lemma_listed_paths(keys: Seq<Seq<u8>>, last: Option<Seq<KeyView>>)
    ensures
        match paths_in(keys, last) {
            Ok(out) => {
                &&& forall|j: int|
                    0 <= j < out.len() ==> exists|k: int|
                        0 <= k < keys.len() && is_about(#[trigger] keys[k], #[trigger] out[j])
                &&& forall|k: int|
                    0 <= k < keys.len() ==> (#[trigger] keys[k]).len() > 0 && keys[k][0] == 0x10
                        && ((last matches Some(l) && DbKeyView::StablePathPrefix(
                        l,
                    ).bytes().is_prefix_of(keys[k])) || exists|j: int|
                        0 <= j < out.len() && (is_about(keys[k], #[trigger] out[j])
                            || DbKeyView::StablePathPrefix(out[j]).bytes().is_prefix_of(keys[k])))
            },
            Err(e) => exists|k: int| 0 <= k < keys.len() && is_refused(#[trigger] keys[k], e),
        },
    decreases keys.len(),
{
    if keys.len() > 0 {
        let rest = keys.drop_first();
        let known = last is Some && DbKeyView::StablePathPrefix(last->0).bytes().is_prefix_of(
            keys[0],
        );
        if known {
            let pre = DbKeyView::StablePathPrefix(last->0).bytes();
            law_row_key_form(DbKeyView::StablePathPrefix(last->0));
            assert(pre[0] == keys[0].subrange(0, pre.len() as int)[0]);
        }
        let path = match db_key_of(keys[0]) {
            Some(DbKeyView::StablePath(p, _)) => Some(p),
            _ => None,
        };
        let next = if known { last } else { path };
        if known || path is Some {
            if !known {
                law_row_key_read(keys[0], db_key_of(keys[0])->0);
            }
            lemma_listed_paths(rest, next);
            match paths_in(rest, next) {
                Ok(tail) => {
                    let out = if known { tail } else { seq![path->0] + tail };
                    let shift: int = if known { 0 } else { 1 };
                    assert(paths_in(keys, last) == Ok::<Seq<Seq<KeyView>>, StoreError>(out));
                    assert forall|j: int| 0 <= j < out.len() implies exists|k: int|
                        0 <= k < keys.len() && is_about(#[trigger] keys[k], #[trigger] out[j]) by {
                        if j < shift {
                            assert(is_about(keys[0], out[j]));
                        } else {
                            assert(out[j] == tail[j - shift]);
                            let k = choose|k: int|
                                0 <= k < rest.len() && is_about(
                                    #[trigger] rest[k],
                                    tail[j - shift],
                                );
                            assert(is_about(keys[k + 1], out[j]));
                        }
                    }
                    assert forall|k: int| 0 <= k < keys.len() implies (
                    #[trigger] keys[k]).len() > 0 && keys[k][0] == 0x10 && ((last matches Some(l)
                        && DbKeyView::StablePathPrefix(l).bytes().is_prefix_of(keys[k]))
                        || exists|j: int|
                        0 <= j < out.len() && (is_about(keys[k], #[trigger] out[j])
                            || DbKeyView::StablePathPrefix(out[j]).bytes().is_prefix_of(
                            keys[k],
                        ))) by {
                        if k == 0 {
                            if !known {
                                assert(is_about(keys[0], out[0]));
                            }
                        } else {
                            assert(rest[k - 1] == keys[k]);
                            if next is Some && DbKeyView::StablePathPrefix(
                                next->0,
                            ).bytes().is_prefix_of(keys[k]) {
                                if !known {
                                    assert(out[0] == path->0);
                                }
                            } else {
                                let j = choose|j: int|
                                    0 <= j < tail.len() && (is_about(
                                        rest[k - 1],
                                        #[trigger] tail[j],
                                    ) || DbKeyView::StablePathPrefix(
                                        tail[j],
                                    ).bytes().is_prefix_of(rest[k - 1]));
                                assert(out[j + shift] == tail[j]);
                            }
                        }
                    }
                },
                Err(e) => {
                    assert(paths_in(keys, last) == Err::<Seq<Seq<KeyView>>, StoreError>(e));
                    let k = choose|k: int| 0 <= k < rest.len() && is_refused(#[trigger] rest[k], e);
                    assert(is_refused(keys[k + 1], e));
                },
            }
        } else {
            assert(is_refused(keys[0], paths_in(keys, last)->Err_0));
        }
    } else {
        assert(paths_in(keys, last) == Ok::<Seq<Seq<KeyView>>, StoreError>(Seq::empty()));
    }
}

/// The value of a listing is all that was listed, in order, or the failure.
pub proof fn law_listing_value(
    memos: Vec<(Fingerprint, Vec<u8>)>,
    children: Vec<(StableKey, ChildExistenceInfo)>,
    paths: Vec<StablePath>,
    states: Vec<(StableKey, Vec<u8>)>,
    e: StoreError,
    i: int,
)
    ensures
        fn_memos_view(Ok(memos)) matches Ok(out) && out.len() == memos@.len() && (0 <= i
            < out.len() ==> out[i] == (memos@[i].0@, memos@[i].1@)),
        children_view(Ok(children)) matches Ok(out) && out.len() == children@.len() && (0 <= i
            < out.len() ==> out[i] == (children@[i].0@, children@[i].1)),
        paths_view(Ok(paths)) matches Ok(out) && out.len() == paths@.len() && (0 <= i < out.len()
            ==> out[i] == paths@[i]@),
        user_states_view(Ok(states)) matches Ok(out) && out.len() == states@.len() && (0 <= i
            < out.len() ==> out[i] == (states@[i].0@, states@[i].1@)),
        fn_memos_view(Err(e)) == Err::<Seq<(Seq<u8>, Seq<u8>)>, StoreError>(e),
        children_view(Err(e)) == Err::<Seq<(KeyView, ChildExistenceInfo)>, StoreError>(e),
        paths_view(Err(e)) == Err::<Seq<Seq<KeyView>>, StoreError>(e),
        user_states_view(Err(e)) == Err::<Seq<(KeyView, Seq<u8>)>, StoreError>(e),
{
}

} // verus!
