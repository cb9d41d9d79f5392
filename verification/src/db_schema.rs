//! Row keys: what a row of the store is about, and the bytes it is filed under.
//!
//! A row key is a kind byte followed by the parts that name the row. All rows
//! of one stable path share the bytes of that path, so they stand together in
//! key order; the rows of one kind under a path share one more byte.
use crate::error::StoreError;
use crate::order::{lemma_below_append, lemma_below_no_prefix, lemma_below_prepend};
use crate::stable_path::{
    key_at, key_bytes, keys_view, law_path_order, lemma_key_extends, lemma_key_round_trip,
    lemma_path_extends, lemma_path_round_trip, lemma_path_total, path_at, path_bytes, read_key,
    read_path, steps_bytes, write_key, write_path, write_steps, KeyView, StableKey, StablePath,
};
use vstd::prelude::*;

verus! {

/// Kind byte of the rows of stable paths.
pub const STABLE_PATH_ROWS: u8 = 0x10;

/// Kind byte of the target-state owner rows.
pub const TARGET_STATE_ROWS: u8 = 0x20;

/// Kind byte of the ID sequencer rows.
pub const ID_SEQUENCER_ROWS: u8 = 0x30;

/// Entry byte of the tracking-info row of a path.
pub const TRACKING_INFO_ENTRY: u8 = 0x10;

/// Entry byte of the component-memo row of a path.
pub const COMPONENT_MEMO_ENTRY: u8 = 0x20;

/// Entry byte of the function-memo rows of a path.
pub const FUNCTION_MEMO_ENTRY: u8 = 0x30;

/// Entry byte of the child-existence rows of a path.
pub const CHILD_EXISTENCE_ENTRY: u8 = 0x40;

/// Entry byte of the child-component tombstone rows of a path.
pub const TOMBSTONE_ENTRY: u8 = 0x50;

/// Entry byte of the user-state rows of a path.
pub const USER_STATE_ENTRY: u8 = 0x60;

/// Marks a fingerprint in a target-state path.
pub const FINGERPRINT_TAG: u8 = 2;

/// Ends a target-state path.
pub const TARGET_STATE_END: u8 = 0;

/// A 128-bit content fingerprint.
#[derive(Debug, Clone, Copy, PartialEq, Eq, PartialOrd, Ord, Hash)]
pub struct Fingerprint(pub [u8; 16]);

impl View for Fingerprint {
    type V = Seq<u8>;

    open spec fn view(&self) -> Seq<u8> {
        self.0@
    }
}

/// The path of a target state: one fingerprint per level.
#[derive(Debug, PartialEq, Eq, Hash)]
pub struct TargetStatePath(pub Vec<Fingerprint>);

/// The fingerprints, as values.
pub open spec fn fingerprints_view(prints: Seq<Fingerprint>) -> Seq<Seq<u8>> {
    prints.map_values(|p: Fingerprint| p@)
}

impl View for TargetStatePath {
    type V = Seq<Seq<u8>>;

    open spec fn view(&self) -> Seq<Seq<u8>> {
        fingerprints_view(self.0@)
    }
}

impl Clone for TargetStatePath {
    fn clone(&self) -> (r: Self)
        ensures
            r@ == self@,
    {
        let mut out: Vec<Fingerprint> = Vec::new();
        let mut i: usize = 0;
        while i < self.0.len()
            invariant
                i <= self.0.len(),
                out@ == self.0@.take(i as int),
            decreases self.0.len() - i,
        {
            out.push(self.0[i]);
            assert(self.0@.take(i + 1) =~= self.0@.take(i as int).push(self.0@[i as int]));
            i += 1;
        }
        assert(out@ =~= self.0@);
        TargetStatePath(out)
    }
}

/// The leading keys of stable paths; the default is the prefix of all of them.
#[derive(Debug, PartialEq, Eq, Hash)]
pub struct StablePathPrefix(pub Vec<StableKey>);

impl View for StablePathPrefix {
    type V = Seq<KeyView>;

    open spec fn view(&self) -> Seq<KeyView> {
        keys_view(self.0@)
    }
}

impl Default for StablePathPrefix {
    fn default() -> (r: Self)
        ensures
            r@ == Seq::<KeyView>::empty(),
    {
        let r = StablePathPrefix(Vec::new());
        assert(r@ =~= Seq::<KeyView>::empty());
        r
    }
}

/// Which entry of a stable path a row holds. A `..Prefix` variant stands for
/// what all rows of a kind have in common.
#[derive(Debug, PartialEq, Eq, Hash)]
pub enum StablePathEntryKey {
    TrackingInfo,
    ComponentMemoization,
    FunctionMemoizationPrefix,
    FunctionMemoization(Fingerprint),
    ChildExistencePrefix,
    ChildExistence(StableKey),
    ChildComponentTombstonePrefix,
    ChildComponentTombstone(StablePath),
    UserStatePrefix,
    UserState(StableKey),
}

/// `StablePathEntryKey`, as a value.
pub enum EntryView {
    TrackingInfo,
    ComponentMemoization,
    FunctionMemoizationPrefix,
    FunctionMemoization(Seq<u8>),
    ChildExistencePrefix,
    ChildExistence(KeyView),
    ChildComponentTombstonePrefix,
    ChildComponentTombstone(Seq<KeyView>),
    UserStatePrefix,
    UserState(KeyView),
}

impl View for StablePathEntryKey {
    type V = EntryView;

    open spec fn view(&self) -> EntryView {
        match self {
            StablePathEntryKey::TrackingInfo => EntryView::TrackingInfo,
            StablePathEntryKey::ComponentMemoization => EntryView::ComponentMemoization,
            StablePathEntryKey::FunctionMemoizationPrefix => EntryView::FunctionMemoizationPrefix,
            StablePathEntryKey::FunctionMemoization(fp) => EntryView::FunctionMemoization(fp@),
            StablePathEntryKey::ChildExistencePrefix => EntryView::ChildExistencePrefix,
            StablePathEntryKey::ChildExistence(key) => EntryView::ChildExistence(key@),
            StablePathEntryKey::ChildComponentTombstonePrefix =>
                EntryView::ChildComponentTombstonePrefix,
            StablePathEntryKey::ChildComponentTombstone(path) =>
                EntryView::ChildComponentTombstone(path@),
            StablePathEntryKey::UserStatePrefix => EntryView::UserStatePrefix,
            StablePathEntryKey::UserState(key) => EntryView::UserState(key@),
        }
    }
}

/// What a row key says. The `..Prefix` variants are what several row keys
/// begin with.
#[derive(Debug, PartialEq, Eq, Hash)]
pub enum DbEntryKey {
    StablePath(StablePath, StablePathEntryKey),
    StablePathPrefixPrefix(StablePathPrefix),
    StablePathPrefix(StablePath),
    TargetState(TargetStatePath),
    IdSequencer(StableKey),
}

/// `DbEntryKey`, as a value.
pub enum DbKeyView {
    StablePath(Seq<KeyView>, EntryView),
    StablePathPrefixPrefix(Seq<KeyView>),
    StablePathPrefix(Seq<KeyView>),
    TargetState(Seq<Seq<u8>>),
    IdSequencer(KeyView),
}

impl View for DbEntryKey {
    type V = DbKeyView;

    open spec fn view(&self) -> DbKeyView {
        match self {
            DbEntryKey::StablePath(path, entry) => DbKeyView::StablePath(path@, entry@),
            DbEntryKey::StablePathPrefixPrefix(prefix) =>
                DbKeyView::StablePathPrefixPrefix(prefix@),
            DbEntryKey::StablePathPrefix(path) => DbKeyView::StablePathPrefix(path@),
            DbEntryKey::TargetState(path) => DbKeyView::TargetState(path@),
            DbEntryKey::IdSequencer(key) => DbKeyView::IdSequencer(key@),
        }
    }
}

impl EntryView {
    /// The byte that the rows of this kind have behind the path.
    pub open spec fn tag(self) -> u8 {
        match self {
            EntryView::TrackingInfo => TRACKING_INFO_ENTRY,
            EntryView::ComponentMemoization => COMPONENT_MEMO_ENTRY,
            EntryView::FunctionMemoizationPrefix => FUNCTION_MEMO_ENTRY,
            EntryView::FunctionMemoization(_) => FUNCTION_MEMO_ENTRY,
            EntryView::ChildExistencePrefix => CHILD_EXISTENCE_ENTRY,
            EntryView::ChildExistence(_) => CHILD_EXISTENCE_ENTRY,
            EntryView::ChildComponentTombstonePrefix => TOMBSTONE_ENTRY,
            EntryView::ChildComponentTombstone(_) => TOMBSTONE_ENTRY,
            EntryView::UserStatePrefix => USER_STATE_ENTRY,
            EntryView::UserState(_) => USER_STATE_ENTRY,
        }
    }

    /// The bytes behind the tag.
    pub open spec fn suffix(self) -> Seq<u8> {
        match self {
            EntryView::FunctionMemoization(fp) => fp,
            EntryView::ChildExistence(key) => key_bytes(key),
            EntryView::ChildComponentTombstone(path) => path_bytes(path),
            EntryView::UserState(key) => key_bytes(key),
            _ => Seq::empty(),
        }
    }

    /// The bytes of the entry.
    pub open spec fn bytes(self) -> Seq<u8> {
        seq![self.tag()] + self.suffix()
    }

    /// Names one row, not a group of rows.
    pub open spec fn complete(self) -> bool {
        match self {
            EntryView::FunctionMemoizationPrefix => false,
            EntryView::ChildExistencePrefix => false,
            EntryView::ChildComponentTombstonePrefix => false,
            EntryView::UserStatePrefix => false,
            EntryView::FunctionMemoization(fp) => fp.len() == 16,
            _ => true,
        }
    }
}

/// The bytes of a target-state path.
pub open spec fn target_bytes(path: Seq<Seq<u8>>) -> Seq<u8>
    decreases path.len(),
{
    if path.len() == 0 {
        seq![TARGET_STATE_END]
    } else {
        seq![FINGERPRINT_TAG] + path[0] + target_bytes(path.drop_first())
    }
}

impl DbKeyView {
    /// The bytes of the row key.
    pub open spec fn bytes(self) -> Seq<u8> {
        match self {
            DbKeyView::StablePath(path, entry) => seq![STABLE_PATH_ROWS] + path_bytes(path)
                + entry.bytes(),
            DbKeyView::StablePathPrefixPrefix(prefix) => seq![STABLE_PATH_ROWS] + steps_bytes(
                prefix,
            ),
            DbKeyView::StablePathPrefix(path) => seq![STABLE_PATH_ROWS] + path_bytes(path),
            DbKeyView::TargetState(path) => seq![TARGET_STATE_ROWS] + target_bytes(path),
            DbKeyView::IdSequencer(key) => seq![ID_SEQUENCER_ROWS] + key_bytes(key),
        }
    }

    /// Names one row, not a group of rows.
    pub open spec fn complete(self) -> bool {
        match self {
            DbKeyView::StablePath(_, entry) => entry.complete(),
            DbKeyView::StablePathPrefixPrefix(_) => false,
            DbKeyView::StablePathPrefix(_) => false,
            DbKeyView::TargetState(path) => forall|i: int|
                0 <= i < path.len() ==> (#[trigger] path[i]).len() == 16,
            DbKeyView::IdSequencer(_) => true,
        }
    }
}

/// The key that `bytes` hold, if they hold exactly one.
pub open spec fn key_of(bytes: Seq<u8>) -> Option<KeyView> {
    match key_at(bytes) {
        Some((key, rest)) => if rest.len() == 0 {
            Some(key)
        } else {
            None
        },
        None => None,
    }
}

/// The path that `bytes` hold, if they hold exactly one.
pub open spec fn path_of(bytes: Seq<u8>) -> Option<Seq<KeyView>> {
    match path_at(bytes) {
        Some((path, rest)) => if rest.len() == 0 {
            Some(path)
        } else {
            None
        },
        None => None,
    }
}

/// The fingerprint that `bytes` hold, if they hold exactly one.
pub open spec fn fingerprint_of(bytes: Seq<u8>) -> Option<Seq<u8>> {
    if bytes.len() == 16 {
        Some(bytes)
    } else {
        None
    }
}

/// The entry that `bytes` hold, if they hold exactly one.
pub open spec fn entry_of(bytes: Seq<u8>) -> Option<EntryView> {
    if bytes.len() == 0 {
        None
    } else {
        let body = bytes.skip(1);
        if bytes[0] == TRACKING_INFO_ENTRY && body.len() == 0 {
            Some(EntryView::TrackingInfo)
        } else if bytes[0] == COMPONENT_MEMO_ENTRY && body.len() == 0 {
            Some(EntryView::ComponentMemoization)
        } else if bytes[0] == FUNCTION_MEMO_ENTRY {
            match fingerprint_of(body) {
                Some(fp) => Some(EntryView::FunctionMemoization(fp)),
                None => None,
            }
        } else if bytes[0] == CHILD_EXISTENCE_ENTRY {
            match key_of(body) {
                Some(key) => Some(EntryView::ChildExistence(key)),
                None => None,
            }
        } else if bytes[0] == TOMBSTONE_ENTRY {
            match path_of(body) {
                Some(path) => Some(EntryView::ChildComponentTombstone(path)),
                None => None,
            }
        } else if bytes[0] == USER_STATE_ENTRY {
            match key_of(body) {
                Some(key) => Some(EntryView::UserState(key)),
                None => None,
            }
        } else {
            None
        }
    }
}

/// The target-state path that `bytes` hold, if they hold exactly one.
pub open spec fn target_of(bytes: Seq<u8>) -> Option<Seq<Seq<u8>>>
    decreases bytes.len(),
{
    if bytes.len() == 0 {
        None
    } else if bytes[0] == TARGET_STATE_END {
        if bytes.len() == 1 {
            Some(Seq::empty())
        } else {
            None
        }
    } else if bytes[0] == FINGERPRINT_TAG && bytes.len() > 16 {
        match target_of(bytes.skip(17)) {
            Some(tail) => Some(seq![bytes.subrange(1, 17)] + tail),
            None => None,
        }
    } else {
        None
    }
}

/// What the row key `bytes` says, if it is a key of one row of this store.
pub open spec fn db_key_of(bytes: Seq<u8>) -> Option<DbKeyView> {
    if bytes.len() == 0 {
        None
    } else {
        let body = bytes.skip(1);
        if bytes[0] == STABLE_PATH_ROWS {
            match path_at(body) {
                Some((path, rest)) => match entry_of(rest) {
                    Some(entry) => Some(DbKeyView::StablePath(path, entry)),
                    None => None,
                },
                None => None,
            }
        } else if bytes[0] == TARGET_STATE_ROWS {
            match target_of(body) {
                Some(path) => Some(DbKeyView::TargetState(path)),
                None => None,
            }
        } else if bytes[0] == ID_SEQUENCER_ROWS {
            match key_of(body) {
                Some(key) => Some(DbKeyView::IdSequencer(key)),
                None => None,
            }
        } else {
            None
        }
    }
}

/// Appends the bytes of a fingerprint.
fn write_fingerprint(buf: &mut Vec<u8>, fp: &Fingerprint)
    ensures
        final(buf)@ == old(buf)@ + fp@,
{
    let ghost start = buf@;
    let mut i: usize = 0;
    while i < 16
        invariant
            i <= 16,
            buf@ == start + fp@.take(i as int),
        decreases 16 - i,
    {
        buf.push(fp.0[i]);
        assert(fp@.take(i + 1) =~= fp@.take(i as int).push(fp@[i as int]));
        assert(buf@ =~= start + fp@.take(i + 1));
        i += 1;
    }
    assert(fp@.take(16) =~= fp@);
}

/// Appends the bytes of a target-state path.
fn write_target(buf: &mut Vec<u8>, path: &TargetStatePath)
    ensures
        final(buf)@ == old(buf)@ + target_bytes(path@),
{
    let ghost start = buf@;
    let ghost all = path@;
    let mut i: usize = 0;
    assert(all.skip(0) =~= all);
    while i < path.0.len()
        invariant
            i <= path.0.len(),
            all == fingerprints_view(path.0@),
            buf@ + target_bytes(all.skip(i as int)) == start + target_bytes(all),
        decreases path.0.len() - i,
    {
        let ghost before = buf@;
        let ghost rest = all.skip(i as int);
        buf.push(FINGERPRINT_TAG);
        write_fingerprint(buf, &path.0[i]);
        assert(rest.drop_first() =~= all.skip(i + 1));
        assert(rest[0] == path.0@[i as int]@);
        assert(buf@ + target_bytes(all.skip(i + 1)) =~= before + target_bytes(rest));
        i += 1;
    }
    assert(all.skip(i as int) =~= Seq::<Seq<u8>>::empty());
    buf.push(TARGET_STATE_END);
    assert(buf@ =~= start + target_bytes(all));
}

impl StablePathEntryKey {
    /// Appends the bytes of the entry.
    fn write(&self, buf: &mut Vec<u8>) -> (r: Result<(), StoreError>)
        ensures
            r is Ok,
            final(buf)@ == old(buf)@ + self@.bytes(),
    {
        let tag: u8 = match self {
            StablePathEntryKey::TrackingInfo => TRACKING_INFO_ENTRY,
            StablePathEntryKey::ComponentMemoization => COMPONENT_MEMO_ENTRY,
            StablePathEntryKey::FunctionMemoizationPrefix => FUNCTION_MEMO_ENTRY,
            StablePathEntryKey::FunctionMemoization(_) => FUNCTION_MEMO_ENTRY,
            StablePathEntryKey::ChildExistencePrefix => CHILD_EXISTENCE_ENTRY,
            StablePathEntryKey::ChildExistence(_) => CHILD_EXISTENCE_ENTRY,
            StablePathEntryKey::ChildComponentTombstonePrefix => TOMBSTONE_ENTRY,
            StablePathEntryKey::ChildComponentTombstone(_) => TOMBSTONE_ENTRY,
            StablePathEntryKey::UserStatePrefix => USER_STATE_ENTRY,
            StablePathEntryKey::UserState(_) => USER_STATE_ENTRY,
        };
        buf.push(tag);
        let done = match self {
            StablePathEntryKey::FunctionMemoization(fp) => {
                write_fingerprint(buf, fp);
                Ok(())
            },
            StablePathEntryKey::ChildExistence(key) => write_key(buf, key),
            StablePathEntryKey::ChildComponentTombstone(path) => write_path(buf, path),
            StablePathEntryKey::UserState(key) => write_key(buf, key),
            _ => Ok(()),
        };
        assert(buf@ =~= old(buf)@ + self@.bytes());
        done
    }
}

impl DbEntryKey {
    /// The bytes of the row key, or of what the row keys of a group begin with.
    pub fn encode(&self) -> (r: Result<Vec<u8>, StoreError>)
        ensures
            r matches Ok(bytes) && bytes@ == self@.bytes(),
    {
        let mut buf: Vec<u8> = Vec::new();
        let done = match self {
            DbEntryKey::StablePath(path, entry) => {
                buf.push(STABLE_PATH_ROWS);
                match write_path(&mut buf, path) {
                    Ok(()) => entry.write(&mut buf),
                    Err(e) => Err(e),
                }
            },
            DbEntryKey::StablePathPrefixPrefix(prefix) => {
                buf.push(STABLE_PATH_ROWS);
                write_steps(&mut buf, prefix.0.as_slice())
            },
            DbEntryKey::StablePathPrefix(path) => {
                buf.push(STABLE_PATH_ROWS);
                write_path(&mut buf, path)
            },
            DbEntryKey::TargetState(path) => {
                buf.push(TARGET_STATE_ROWS);
                write_target(&mut buf, path);
                Ok(())
            },
            DbEntryKey::IdSequencer(key) => {
                buf.push(ID_SEQUENCER_ROWS);
                write_key(&mut buf, key)
            },
        };
        assert(buf@ =~= self@.bytes());
        match done {
            Ok(()) => Ok(buf),
            Err(e) => Err(e),
        }
    }

    /// Reads a row key.
    pub fn decode(bytes: &[u8]) -> (r: Result<DbEntryKey, StoreError>)
        ensures
            match db_key_of(bytes@) {
                Some(key) => r matches Ok(got) && got@ == key,
                None => r == Err::<DbEntryKey, StoreError>(StoreError::KeyDecode),
            },
    {
        if bytes.len() == 0 {
            return Err(StoreError::KeyDecode);
        }
        let kind: u8 = bytes[0];
        let body = vstd::slice::slice_subrange(bytes, 1, bytes.len());
        assert(body@ =~= bytes@.skip(1));
        if kind == STABLE_PATH_ROWS {
            match read_path(body) {
                Ok((path, rest)) => match decode_entry(rest) {
                    Ok(entry) => Ok(DbEntryKey::StablePath(path, entry)),
                    Err(e) => Err(e),
                },
                Err(e) => Err(e),
            }
        } else if kind == TARGET_STATE_ROWS {
            match decode_target(body) {
                Ok(path) => Ok(DbEntryKey::TargetState(path)),
                Err(e) => Err(e),
            }
        } else if kind == ID_SEQUENCER_ROWS {
            match decode_key(body) {
                Ok(key) => Ok(DbEntryKey::IdSequencer(key)),
                Err(e) => Err(e),
            }
        } else {
            Err(StoreError::KeyDecode)
        }
    }
}

/// Reads bytes that hold exactly one key.
pub fn decode_key(bytes: &[u8]) -> (r: Result<StableKey, StoreError>)
    ensures
        match key_of(bytes@) {
            Some(key) => r matches Ok(got) && got@ == key,
            None => r == Err::<StableKey, StoreError>(StoreError::KeyDecode),
        },
{
    match read_key(bytes) {
        Ok((key, rest)) => if rest.len() == 0 {
            Ok(key)
        } else {
            Err(StoreError::KeyDecode)
        },
        Err(e) => Err(e),
    }
}

/// Reads bytes that hold exactly one path.
pub fn decode_path(bytes: &[u8]) -> (r: Result<StablePath, StoreError>)
    ensures
        match path_of(bytes@) {
            Some(path) => r matches Ok(got) && got@ == path,
            None => r == Err::<StablePath, StoreError>(StoreError::KeyDecode),
        },
{
    match read_path(bytes) {
        Ok((path, rest)) => if rest.len() == 0 {
            Ok(path)
        } else {
            Err(StoreError::KeyDecode)
        },
        Err(e) => Err(e),
    }
}

/// Reads bytes that hold exactly one fingerprint.
pub fn decode_fingerprint(bytes: &[u8]) -> (r: Result<Fingerprint, StoreError>)
    ensures
        match fingerprint_of(bytes@) {
            Some(fp) => r matches Ok(got) && got@ == fp,
            None => r == Err::<Fingerprint, StoreError>(StoreError::KeyDecode),
        },
{
    if bytes.len() != 16 {
        return Err(StoreError::KeyDecode);
    }
    let mut out: [u8; 16] = [0u8; 16];
    let mut i: usize = 0;
    while i < 16
        invariant
            i <= 16,
            bytes@.len() == 16,
            forall|j: int| 0 <= j < i ==> out@[j] == #[trigger] bytes@[j],
        decreases 16 - i,
    {
        out[i] = bytes[i];
        i += 1;
    }
    assert(out@ =~= bytes@);
    Ok(Fingerprint(out))
}

/// Reads bytes that hold exactly one entry.
fn decode_entry(bytes: &[u8]) -> (r: Result<StablePathEntryKey, StoreError>)
    ensures
        match entry_of(bytes@) {
            Some(entry) => r matches Ok(got) && got@ == entry,
            None => r == Err::<StablePathEntryKey, StoreError>(StoreError::KeyDecode),
        },
{
    if bytes.len() == 0 {
        return Err(StoreError::KeyDecode);
    }
    let tag: u8 = bytes[0];
    let body = vstd::slice::slice_subrange(bytes, 1, bytes.len());
    assert(body@ =~= bytes@.skip(1));
    if tag == TRACKING_INFO_ENTRY && body.len() == 0 {
        Ok(StablePathEntryKey::TrackingInfo)
    } else if tag == COMPONENT_MEMO_ENTRY && body.len() == 0 {
        Ok(StablePathEntryKey::ComponentMemoization)
    } else if tag == FUNCTION_MEMO_ENTRY {
        match decode_fingerprint(body) {
            Ok(fp) => Ok(StablePathEntryKey::FunctionMemoization(fp)),
            Err(e) => Err(e),
        }
    } else if tag == CHILD_EXISTENCE_ENTRY {
        match decode_key(body) {
            Ok(key) => Ok(StablePathEntryKey::ChildExistence(key)),
            Err(e) => Err(e),
        }
    } else if tag == TOMBSTONE_ENTRY {
        match decode_path(body) {
            Ok(path) => Ok(StablePathEntryKey::ChildComponentTombstone(path)),
            Err(e) => Err(e),
        }
    } else if tag == USER_STATE_ENTRY {
        match decode_key(body) {
            Ok(key) => Ok(StablePathEntryKey::UserState(key)),
            Err(e) => Err(e),
        }
    } else {
        Err(StoreError::KeyDecode)
    }
}

/// Reads bytes that hold exactly one target-state path.
fn decode_target(bytes: &[u8]) -> (r: Result<TargetStatePath, StoreError>)
    ensures
        match target_of(bytes@) {
            Some(path) => r matches Ok(got) && got@ == path,
            None => r == Err::<TargetStatePath, StoreError>(StoreError::KeyDecode),
        },
{
    let mut prints: Vec<Fingerprint> = Vec::new();
    let mut rest: &[u8] = bytes;
    assert(fingerprints_view(prints@) =~= Seq::<Seq<u8>>::empty());
    proof {
        if let Some(tail) = target_of(bytes@) {
            assert(Seq::<Seq<u8>>::empty() + tail =~= tail);
        }
    }
    while rest.len() > 16 && rest[0] == FINGERPRINT_TAG
        invariant
            match target_of(rest@) {
                Some(tail) => target_of(bytes@) == Some(fingerprints_view(prints@) + tail),
                None => target_of(bytes@) is None,
            },
        decreases rest@.len(),
    {
        let body = vstd::slice::slice_subrange(rest, 1, 17);
        let after = vstd::slice::slice_subrange(rest, 17, rest.len());
        assert(after@ =~= rest@.skip(17));
        match decode_fingerprint(body) {
            Ok(fp) => {
                let ghost before = fingerprints_view(prints@);
                prints.push(fp);
                assert(fingerprints_view(prints@) =~= before.push(fp@));
                proof {
                    if let Some(tail) = target_of(after@) {
                        assert(before + (seq![fp@] + tail) =~= before.push(fp@) + tail);
                    }
                }
                rest = after;
            },
            Err(_) => {
                return Err(StoreError::KeyDecode);
            },
        }
    }
    if rest.len() == 1 && rest[0] == TARGET_STATE_END {
        assert(fingerprints_view(prints@) + Seq::<Seq<u8>>::empty() =~= fingerprints_view(
            prints@,
        ));
        Ok(TargetStatePath(prints))
    } else {
        Err(StoreError::KeyDecode)
    }
}

/// A target-state path read back from its bytes is the path.
proof fn lemma_target_round_trip(path: Seq<Seq<u8>>)
    requires
        forall|i: int| 0 <= i < path.len() ==> (#[trigger] path[i]).len() == 16,
    ensures
        target_of(target_bytes(path)) == Some(path),
    decreases path.len(),
{
    let all = target_bytes(path);
    if path.len() == 0 {
        assert(path =~= Seq::<Seq<u8>>::empty());
    } else {
        let tail = path.drop_first();
        lemma_target_round_trip(tail);
        assert(all.skip(17) =~= target_bytes(tail));
        assert(all.subrange(1, 17) =~= path[0]);
        assert(seq![path[0]] + tail =~= path);
        assert(target_bytes(tail).len() > 0);
    }
}

/// Every complete row key is read back from its bytes as what was encoded.
pub proof fn law_row_key_round_trip(key: DbKeyView)
    requires
        key.complete(),
    ensures
        db_key_of(key.bytes()) == Some(key),
{
    let all = key.bytes();
    match key {
        DbKeyView::StablePath(path, entry) => {
            let rest = entry.bytes();
            assert(all.skip(1) =~= path_bytes(path) + rest);
            lemma_path_round_trip(path, rest);
            assert(rest.skip(1) =~= entry.suffix());
            match entry {
                EntryView::ChildExistence(k) | EntryView::UserState(k) => {
                    lemma_key_round_trip(k, Seq::empty());
                    assert(key_bytes(k) + Seq::<u8>::empty() =~= key_bytes(k));
                },
                EntryView::ChildComponentTombstone(p) => {
                    lemma_path_round_trip(p, Seq::empty());
                    assert(path_bytes(p) + Seq::<u8>::empty() =~= path_bytes(p));
                },
                _ => {},
            }
        },
        DbKeyView::TargetState(path) => {
            assert(all.skip(1) =~= target_bytes(path));
            lemma_target_round_trip(path);
        },
        DbKeyView::IdSequencer(k) => {
            assert(all.skip(1) =~= key_bytes(k));
            lemma_key_round_trip(k, Seq::empty());
            assert(key_bytes(k) + Seq::<u8>::empty() =~= key_bytes(k));
        },
        _ => {},
    }
}

/// Different rows have different row keys.
pub proof fn law_row_keys_distinct(a: DbKeyView, b: DbKeyView)
    requires
        a.complete(),
        b.complete(),
        a.bytes() == b.bytes(),
    ensures
        a == b,
{
    law_row_key_round_trip(a);
    law_row_key_round_trip(b);
}

/// The bytes that all rows of `path` begin with are those of no other row.
pub proof fn law_path_rows_apart(path: Seq<KeyView>, key: DbKeyView)
    requires
        key.complete(),
    ensures
        DbKeyView::StablePathPrefix(path).bytes().is_prefix_of(key.bytes()) <==> (key matches
            DbKeyView::StablePath(p, _) && p == path),
{
    let pre = DbKeyView::StablePathPrefix(path).bytes();
    let all = key.bytes();
    match key {
        DbKeyView::StablePath(p, entry) => {
            if p == path {
                assert(all =~= pre + entry.bytes());
                assert(all.subrange(0, pre.len() as int) =~= pre);
            } else {
                lemma_paths_part(p, path, entry.bytes());
            }
        },
        _ => {
            if pre.is_prefix_of(all) {
                assert(pre[0] == all.subrange(0, pre.len() as int)[0]);
            }
        },
    }
}

/// The rows of different paths part before either path ends.
proof fn lemma_paths_part(p: Seq<KeyView>, q: Seq<KeyView>, rest: Seq<u8>)
    requires
        p != q,
    ensures
        !(seq![STABLE_PATH_ROWS] + path_bytes(q)).is_prefix_of(
            seq![STABLE_PATH_ROWS] + path_bytes(p) + rest,
        ),
{
    let kind = seq![STABLE_PATH_ROWS];
    let x = kind + path_bytes(q);
    let y = kind + path_bytes(p) + rest;
    lemma_path_total(p, q);
    assert(x + Seq::<u8>::empty() =~= x);
    if crate::stable_path::path_lt(p, q) {
        law_path_order(p, q);
        lemma_below_prepend(kind, path_bytes(p), path_bytes(q));
        lemma_below_append(kind + path_bytes(p), kind + path_bytes(q), rest, Seq::empty());
        lemma_below_no_prefix(y, x);
    } else {
        law_path_order(q, p);
        lemma_below_prepend(kind, path_bytes(q), path_bytes(p));
        lemma_below_append(kind + path_bytes(q), kind + path_bytes(p), Seq::empty(), rest);
        lemma_below_no_prefix(x, y);
    }
}

/// A listing prefix names a path and a kind of entry; the complete row keys
/// that begin with it are those of the entries of that kind under that path.
pub proof fn law_listing_prefix(path: Seq<KeyView>, group: EntryView, key: DbKeyView)
    requires
        group.suffix().len() == 0,
        key.complete(),
    ensures
        DbKeyView::StablePath(path, group).bytes().is_prefix_of(key.bytes()) <==> (key matches
            DbKeyView::StablePath(p, entry) && p == path && entry.tag() == group.tag()),
        key matches DbKeyView::StablePath(p, entry) ==> (p == path && entry.tag() == group.tag()
            ==> key.bytes() == DbKeyView::StablePath(path, group).bytes() + entry.suffix()),
{
    let whole = DbKeyView::StablePathPrefix(path).bytes();
    let pre = DbKeyView::StablePath(path, group).bytes();
    let all = key.bytes();
    assert(pre =~= whole.push(group.tag()));
    law_path_rows_apart(path, key);
    if pre.is_prefix_of(all) {
        assert(all.subrange(0, whole.len() as int) =~= whole) by {
            assert(all.subrange(0, pre.len() as int).subrange(0, whole.len() as int) =~= whole);
        }
        assert(pre[whole.len() as int] == all.subrange(0, pre.len() as int)[whole.len() as int]);
    }
    match key {
        DbKeyView::StablePath(p, entry) => {
            if p == path {
                assert(all =~= whole.push(entry.tag()) + entry.suffix());
                if entry.tag() == group.tag() {
                    assert(all =~= pre + entry.suffix());
                    assert(all.subrange(0, pre.len() as int) =~= pre);
                }
            }
        },
        _ => {},
    }
}

/// All rows of stable paths, and no others, begin with the default path prefix.
pub proof fn law_stable_path_rows(key: DbKeyView)
    requires
        key.complete(),
    ensures
        DbKeyView::StablePathPrefixPrefix(Seq::empty()).bytes().is_prefix_of(key.bytes()) <==> key
            is StablePath,
{
    let pre = DbKeyView::StablePathPrefixPrefix(Seq::empty()).bytes();
    assert(pre =~= seq![STABLE_PATH_ROWS]);
    let all = key.bytes();
    if pre.is_prefix_of(all) {
        assert(pre[0] == all.subrange(0, 1)[0]);
    }
    if key is StablePath {
        assert(all.subrange(0, 1) =~= pre);
    }
}

/// The bytes of a target-state path are a 2 and the fingerprint for each level, and a
/// 0 at the end; nothing else is read as one.
pub proof fn law_target_form(bytes: Seq<u8>, print: Seq<u8>, path: Seq<Seq<u8>>)
    ensures
        target_bytes(Seq::empty()) == seq![0u8],
        target_bytes(seq![print] + path) == seq![2u8] + print + target_bytes(path),
        target_of(bytes) == Some(path) <==> bytes == target_bytes(path) && forall|i: int|
            0 <= i < path.len() ==> (#[trigger] path[i]).len() == 16,
{
    let longer = seq![print] + path;
    assert(longer.drop_first() =~= path);
    lemma_target_inverse(bytes);
    if forall|i: int| 0 <= i < path.len() ==> (#[trigger] path[i]).len() == 16 {
        lemma_target_round_trip(path);
    }
}

/// Bytes that are read as a target-state path are its bytes.
proof fn lemma_target_inverse(bytes: Seq<u8>)
    ensures
        target_of(bytes) matches Some(path) ==> bytes == target_bytes(path) && forall|i: int|
            0 <= i < path.len() ==> (#[trigger] path[i]).len() == 16,
    decreases bytes.len(),
{
    if let Some(path) = target_of(bytes) {
        if bytes[0] == TARGET_STATE_END {
            assert(bytes =~= seq![TARGET_STATE_END]);
        } else {
            lemma_target_inverse(bytes.skip(17));
            let tail = target_of(bytes.skip(17))->0;
            assert(path.drop_first() =~= tail);
            assert(bytes =~= target_bytes(path));
            assert forall|i: int| 0 <= i < path.len() implies (#[trigger] path[i]).len() == 16 by {
                if i > 0 {
                    assert(path[i] == tail[i - 1]);
                }
            }
        }
    }
}

/// The entries of a path are told apart by the byte behind it, and each kind that
/// there are many of has the bytes of its name behind that.
pub proof fn law_entry_form(entry: EntryView)
    ensures
        entry.bytes() == (match entry {
            EntryView::TrackingInfo => seq![0x10u8],
            EntryView::ComponentMemoization => seq![0x20u8],
            EntryView::FunctionMemoizationPrefix => seq![0x30u8],
            EntryView::FunctionMemoization(fp) => seq![0x30u8] + fp,
            EntryView::ChildExistencePrefix => seq![0x40u8],
            EntryView::ChildExistence(key) => seq![0x40u8] + key_bytes(key),
            EntryView::ChildComponentTombstonePrefix => seq![0x50u8],
            EntryView::ChildComponentTombstone(path) => seq![0x50u8] + path_bytes(path),
            EntryView::UserStatePrefix => seq![0x60u8],
            EntryView::UserState(key) => seq![0x60u8] + key_bytes(key),
        }),
{
    assert(entry.suffix().len() == 0 ==> entry.bytes() =~= seq![entry.tag()]);
}

/// Rows of stable paths begin with 0x10 and the bytes of the path, owners of target
/// states with 0x20, and sequencers with 0x30.
pub proof fn law_row_key_form(key: DbKeyView)
    ensures
        key.bytes() == (match key {
            DbKeyView::StablePath(path, entry) => seq![0x10u8] + path_bytes(path) + entry.bytes(),
            DbKeyView::StablePathPrefixPrefix(prefix) => seq![0x10u8] + path_bytes(
                prefix,
            ).drop_last(),
            DbKeyView::StablePathPrefix(path) => seq![0x10u8] + path_bytes(path),
            DbKeyView::TargetState(path) => seq![0x20u8] + target_bytes(path),
            DbKeyView::IdSequencer(name) => seq![0x30u8] + key_bytes(name),
        }),
{
    if let DbKeyView::StablePathPrefixPrefix(prefix) = key {
        assert(path_bytes(prefix).drop_last() =~= steps_bytes(prefix));
    }
}

/// Bytes hold a key, or a path, or a fingerprint, where one is read off them and
/// nothing is left.
pub proof fn law_whole_form(
    bytes: Seq<u8>,
    key: KeyView,
    path: Seq<KeyView>,
    print: Seq<u8>,
)
    ensures
        key_of(bytes) == Some(key) <==> key_at(bytes) == Some((key, Seq::<u8>::empty())),
        path_of(bytes) == Some(path) <==> path_at(bytes) == Some((path, Seq::<u8>::empty())),
        fingerprint_of(bytes) == Some(print) <==> bytes == print && print.len() == 16,
{
    if let Some((_, rest)) = key_at(bytes) {
        assert(rest.len() == 0 ==> rest =~= Seq::<u8>::empty());
    }
    if let Some((_, rest)) = path_at(bytes) {
        assert(rest.len() == 0 ==> rest =~= Seq::<u8>::empty());
    }
}

/// An entry is read from the byte of its kind and the whole of its name behind it.
/// What names a group of entries is never read.
pub proof fn law_entry_read(bytes: Seq<u8>, entry: EntryView)
    ensures
        entry_of(bytes) == Some(entry) <==> (match entry {
            EntryView::TrackingInfo => bytes == seq![0x10u8],
            EntryView::ComponentMemoization => bytes == seq![0x20u8],
            EntryView::FunctionMemoization(fp) => fp.len() == 16 && bytes == seq![0x30u8] + fp,
            EntryView::ChildExistence(key) => bytes.len() > 0 && bytes[0] == 0x40 && key_of(
                bytes.skip(1),
            ) == Some(key),
            EntryView::ChildComponentTombstone(path) => bytes.len() > 0 && bytes[0] == 0x50
                && path_of(bytes.skip(1)) == Some(path),
            EntryView::UserState(key) => bytes.len() > 0 && bytes[0] == 0x60 && key_of(
                bytes.skip(1),
            ) == Some(key),
            _ => false,
        }),
{
    if bytes.len() > 0 {
        assert(bytes =~= seq![bytes[0]] + bytes.skip(1));
        assert(bytes.len() == 1 ==> bytes =~= seq![bytes[0]]);
        if let EntryView::FunctionMemoization(fp) = entry {
            assert((seq![0x30u8] + fp).skip(1) =~= fp);
        }
    }
}

/// A row key is read from the byte of its kind and the whole of what names the row
/// behind it. What names a group of rows is never read.
pub proof fn law_row_key_read(bytes: Seq<u8>, key: DbKeyView)
    ensures
        db_key_of(bytes) == Some(key) <==> bytes.len() > 0 && (match key {
            DbKeyView::StablePath(path, entry) => bytes[0] == 0x10 && (path_at(
                bytes.skip(1),
            ) matches Some((got, rest)) && got == path && entry_of(rest) == Some(entry)),
            DbKeyView::TargetState(path) => bytes[0] == 0x20 && target_of(bytes.skip(1)) == Some(
                path,
            ),
            DbKeyView::IdSequencer(name) => bytes[0] == 0x30 && key_of(bytes.skip(1)) == Some(name),
            _ => false,
        }),
        db_key_of(bytes) == Some(key) ==> key.complete(),
{
    if let Some(DbKeyView::TargetState(_)) = db_key_of(bytes) {
        lemma_target_inverse(bytes.skip(1));
    }
}

/// Nothing stands behind a row key, nor behind a key or a path that bytes hold: with
/// more bytes behind they hold none.
pub proof fn law_nothing_behind(bytes: Seq<u8>, more: Seq<u8>)
    requires
        more.len() > 0,
    ensures
        key_of(bytes) is Some ==> key_of(bytes + more) is None,
        path_of(bytes) is Some ==> path_of(bytes + more) is None,
        db_key_of(bytes) is Some ==> db_key_of(bytes + more) is None,
{
    let all = bytes + more;
    lemma_key_extends(bytes, more);
    lemma_path_extends(bytes, more);
    if let Some(key) = db_key_of(bytes) {
        let body = bytes.skip(1);
        assert(all.skip(1) =~= body + more);
        lemma_key_extends(body, more);
        lemma_path_extends(body, more);
        match key {
            DbKeyView::StablePath(path, entry) => {
                let (_, rest) = path_at(body)->0;
                assert((rest + more).skip(1) =~= rest.skip(1) + more);
                lemma_key_extends(rest.skip(1), more);
                lemma_path_extends(rest.skip(1), more);
            },
            DbKeyView::TargetState(path) => {
                lemma_target_nothing_behind(body, more);
            },
            _ => {},
        }
    }
}

/// Nothing stands behind a target-state path.
proof fn lemma_target_nothing_behind(bytes: Seq<u8>, more: Seq<u8>)
    requires
        more.len() > 0,
    ensures
        target_of(bytes) is Some ==> target_of(bytes + more) is None,
    decreases bytes.len(),
{
    if target_of(bytes) is Some && bytes[0] != TARGET_STATE_END {
        lemma_target_nothing_behind(bytes.skip(17), more);
        assert((bytes + more).skip(17) =~= bytes.skip(17) + more);
    }
}

/// The value of a row key is its kind and the values of its parts, and those of a
/// prefix and of a target-state path are all of their parts in order.
pub proof fn law_row_key_value(
    print: Fingerprint,
    target: TargetStatePath,
    prefix: StablePathPrefix,
    path: StablePath,
    key: StableKey,
    entry: StablePathEntryKey,
    i: int,
)
    ensures
        print@ == print.0@,
        target@.len() == target.0@.len(),
        0 <= i < target.0@.len() ==> target@[i] == target.0@[i]@,
        prefix@.len() == prefix.0@.len(),
        0 <= i < prefix.0@.len() ==> prefix@[i] == prefix.0@[i]@,
        entry@ == (match entry {
            StablePathEntryKey::TrackingInfo => EntryView::TrackingInfo,
            StablePathEntryKey::ComponentMemoization => EntryView::ComponentMemoization,
            StablePathEntryKey::FunctionMemoizationPrefix => EntryView::FunctionMemoizationPrefix,
            StablePathEntryKey::FunctionMemoization(fp) => EntryView::FunctionMemoization(fp@),
            StablePathEntryKey::ChildExistencePrefix => EntryView::ChildExistencePrefix,
            StablePathEntryKey::ChildExistence(child) => EntryView::ChildExistence(child@),
            StablePathEntryKey::ChildComponentTombstonePrefix =>
                EntryView::ChildComponentTombstonePrefix,
            StablePathEntryKey::ChildComponentTombstone(relative) =>
                EntryView::ChildComponentTombstone(relative@),
            StablePathEntryKey::UserStatePrefix => EntryView::UserStatePrefix,
            StablePathEntryKey::UserState(user_key) => EntryView::UserState(user_key@),
        }),
        DbEntryKey::StablePath(path, entry)@ == DbKeyView::StablePath(path@, entry@),
        DbEntryKey::StablePathPrefixPrefix(prefix)@ == DbKeyView::StablePathPrefixPrefix(prefix@),
        DbEntryKey::StablePathPrefix(path)@ == DbKeyView::StablePathPrefix(path@),
        DbEntryKey::TargetState(target)@ == DbKeyView::TargetState(target@),
        DbEntryKey::IdSequencer(key)@ == DbKeyView::IdSequencer(key@),
{
}

} // verus!
