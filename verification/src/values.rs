//! What the rows of the store hold, and the bytes it is kept in.
use crate::db_schema::{decode_path, path_of};
use crate::error::StoreError;
use crate::msgpack::{
    big_endian, big_endian_value, decode_fields, decode_numbers, decode_words, distinct, field_fits,
    field_view, fields_bytes, fields_fit, fields_of, fields_view, find, last_at,
    lemma_big_endian_at, lemma_big_endian_bound, lemma_big_endian_len, lemma_big_endian_of_value,
    lemma_big_endian_value, lemma_named, lemma_named_last, lemma_record_fit, named, number_bytes,
    number_fails, numbers_of, numbers_view, record_fails, record_fit, record_fits, word_bytes,
    word_fails, words_of, words_view, write_fields, write_number, write_word,
};
use crate::stable_path::{lemma_path_round_trip, path_bytes, write_path, KeyView, StablePath};
use vstd::arithmetic::power2::{
    lemma2_to64, lemma_pow2_adds, lemma_pow2_strictly_increases, pow2,
};
use vstd::prelude::*;
use vstd::utf8::*;

verus! {

/// What a node of the path tree is.
#[derive(Debug, Clone, Copy, PartialEq, Eq, Structural)]
pub enum StablePathNodeType {
    /// Leads to components, and is none itself.
    Directory,
    /// A component.
    Component,
}

/// The value of a child-existence row.
#[derive(Debug, Clone, Copy, PartialEq, Eq, Structural)]
pub struct ChildExistenceInfo {
    pub node_type: StablePathNodeType,
}

/// The value of an ID sequencer row: the first ID that is not reserved yet.
#[derive(Debug, Clone, Copy, PartialEq, Eq, Structural)]
pub struct IdSequencerInfo {
    pub next_id: u64,
}

/// The value of a target-state owner row: the component that owns the state.
#[derive(Debug, PartialEq, Eq)]
pub struct TargetStateOwnerInfo {
    pub component_path: StablePath,
}

/// The value of a function-memo row: what the call returned.
#[derive(Debug, PartialEq, Eq)]
pub struct FunctionMemoizationEntry {
    pub value: Vec<u8>,
}

/// The value of a tracking-info row: the token of the process that has staged
/// changes, if one has, and the fields that the engine keeps beside it.
#[derive(Debug, PartialEq, Eq)]
pub struct StablePathEntryTrackingInfo {
    pub pending_process_token: Option<u128>,
    pub fields: Vec<(String, Option<Vec<u8>>)>,
}

/// `StablePathEntryTrackingInfo`, as a value.
#[verifier::ext_equal]
pub struct TrackingView {
    pub pending_process_token: Option<u128>,
    pub fields: Map<Seq<char>, Option<Seq<u8>>>,
}

impl View for StablePathEntryTrackingInfo {
    type V = TrackingView;

    open spec fn view(&self) -> TrackingView {
        TrackingView {
            pending_process_token: self.pending_process_token,
            fields: named(fields_view(self.fields@)),
        }
    }
}

impl StablePathEntryTrackingInfo {
    /// No name occurs twice, and none is that of the token.
    pub open spec fn wf(self) -> bool {
        &&& distinct(fields_view(self.fields@))
        &&& forall|i: int|
            0 <= i < self.fields@.len() ==> (#[trigger] self.fields@[i]).0@
                != "pending_process_token"@
    }
}

/// The word for a node type.
pub open spec fn node_type_word(node_type: StablePathNodeType) -> Seq<char> {
    match node_type {
        StablePathNodeType::Directory => "Directory"@,
        StablePathNodeType::Component => "Component"@,
    }
}

/// The bytes of child-existence info.
pub open spec fn child_existence_bytes(info: ChildExistenceInfo) -> Seq<u8> {
    word_bytes("node_type"@, node_type_word(info.node_type))
}

/// The bytes of a sequencer's state.
pub open spec fn id_sequencer_bytes(info: IdSequencerInfo) -> Seq<u8> {
    number_bytes("next_id"@, info.next_id)
}

/// The bytes of an owner.
pub open spec fn owner_bytes(owner: Seq<KeyView>) -> Seq<u8> {
    fields_bytes(map!["component_path"@ => Some(path_bytes(owner))])
}

/// The bytes of a memo.
pub open spec fn memo_bytes(value: Seq<u8>) -> Seq<u8> {
    fields_bytes(map!["value"@ => Some(value)])
}

/// The child-existence info in a record of words.
pub open spec fn child_existence_in(words: Map<Seq<char>, Seq<char>>) -> Option<
    ChildExistenceInfo,
> {
    if !words.dom().contains("node_type"@) {
        None
    } else if words["node_type"@] == "Directory"@ {
        Some(ChildExistenceInfo { node_type: StablePathNodeType::Directory })
    } else if words["node_type"@] == "Component"@ {
        Some(ChildExistenceInfo { node_type: StablePathNodeType::Component })
    } else {
        None
    }
}

/// The child-existence info that `bytes` hold.
pub open spec fn child_existence_of(bytes: Seq<u8>) -> Option<ChildExistenceInfo> {
    match words_of(bytes) {
        Some(words) => child_existence_in(words),
        None => None,
    }
}

/// The sequencer state in a record of numbers.
pub open spec fn id_sequencer_in(numbers: Map<Seq<char>, u64>) -> Option<IdSequencerInfo> {
    if numbers.dom().contains("next_id"@) {
        Some(IdSequencerInfo { next_id: numbers["next_id"@] })
    } else {
        None
    }
}

/// The sequencer state that `bytes` hold.
pub open spec fn id_sequencer_of(bytes: Seq<u8>) -> Option<IdSequencerInfo> {
    match numbers_of(bytes) {
        Some(numbers) => id_sequencer_in(numbers),
        None => None,
    }
}

/// The byte string under `name` in a record.
pub open spec fn field_in(fields: Map<Seq<char>, Option<Seq<u8>>>, name: Seq<char>) -> Option<
    Seq<u8>,
> {
    if fields.dom().contains(name) {
        fields[name]
    } else {
        None
    }
}

/// The 16 bytes of a token, the highest first.
pub open spec fn token_bytes(token: u128) -> Seq<u8> {
    big_endian(token as nat, 16)
}

/// The token in 16 bytes, the highest first.
pub open spec fn token_in(bytes: Seq<u8>) -> u128 {
    big_endian_value(bytes) as u128
}

/// The owner in a record of byte strings.
pub open spec fn owner_in(fields: Map<Seq<char>, Option<Seq<u8>>>) -> Option<Seq<KeyView>> {
    match field_in(fields, "component_path"@) {
        Some(bytes) => path_of(bytes),
        None => None,
    }
}

/// The owner that `bytes` hold.
pub open spec fn owner_of(bytes: Seq<u8>) -> Option<Seq<KeyView>> {
    match fields_of(bytes) {
        Some(fields) => owner_in(fields),
        None => None,
    }
}

/// The memo in a record of byte strings.
pub open spec fn memo_in(fields: Map<Seq<char>, Option<Seq<u8>>>) -> Option<Seq<u8>> {
    field_in(fields, "value"@)
}

/// The memo that `bytes` hold.
pub open spec fn memo_of(bytes: Seq<u8>) -> Option<Seq<u8>> {
    match fields_of(bytes) {
        Some(fields) => memo_in(fields),
        None => None,
    }
}

/// The tracking info in a record of byte strings. The token stands there in 16
/// bytes, the highest first; where it is missing there is none.
pub open spec fn tracking_in(fields: Map<Seq<char>, Option<Seq<u8>>>) -> Option<TrackingView> {
    let rest = fields.remove("pending_process_token"@);
    match field_in(fields, "pending_process_token"@) {
        Some(bytes) => if bytes.len() == 16 {
            Some(TrackingView { pending_process_token: Some(token_in(bytes)), fields: rest })
        } else {
            None
        },
        None => Some(TrackingView { pending_process_token: None, fields: rest }),
    }
}

/// The tracking info that `bytes` hold.
pub open spec fn tracking_of(bytes: Seq<u8>) -> Option<TrackingView> {
    match fields_of(bytes) {
        Some(fields) => tracking_in(fields),
        None => None,
    }
}

impl TrackingView {
    /// The record that stands for the tracking info.
    pub open spec fn record(self) -> Map<Seq<char>, Option<Seq<u8>>> {
        self.fields.insert(
            "pending_process_token"@,
            match self.pending_process_token {
                Some(token) => Some(token_bytes(token)),
                None => None,
            },
        )
    }
}

/// The words of node types differ.
proof fn lemma_node_type_words()
    ensures
        "Directory"@ != "Component"@,
{
    reveal_strlit("Directory");
    reveal_strlit("Component");
    assert("Directory"@[0] != "Component"@[0]);
}

/// What encoding a value gave, with `ValueEncode` for a failure.
pub fn value_encoded(encoded: Result<Vec<u8>, rmp_serde::encode::Error>) -> (r: Result<
    Vec<u8>,
    StoreError,
>)
    ensures
        match encoded {
            Ok(bytes) => r == Ok::<Vec<u8>, StoreError>(bytes),
            Err(_) => r == Err::<Vec<u8>, StoreError>(StoreError::ValueEncode),
        },
{
    match encoded {
        Ok(bytes) => Ok(bytes),
        Err(_) => Err(StoreError::ValueEncode),
    }
}

impl ChildExistenceInfo {
    /// The bytes of the info, or `ValueEncode` where they cannot be written.
    pub fn encode(&self) -> (r: Result<Vec<u8>, StoreError>)
        ensures
            match r {
                Ok(bytes) => bytes@ == child_existence_bytes(*self) && child_existence_of(bytes@)
                    == Some(*self),
                Err(e) => e == StoreError::ValueEncode && word_fails(
                    "node_type"@,
                    node_type_word(self.node_type),
                ),
            },
    {
        proof {
            reveal_strlit("node_type");
            reveal_strlit("Directory");
            reveal_strlit("Component");
            is_ascii_chars_encode_utf8("node_type"@);
            is_ascii_chars_encode_utf8("Directory"@);
            is_ascii_chars_encode_utf8("Component"@);
            lemma_node_type_words();
        }
        let word = match self.node_type {
            StablePathNodeType::Directory => "Directory",
            StablePathNodeType::Component => "Component",
        };
        value_encoded(write_word("node_type", word))
    }

    /// The info in a record of words.
    pub fn from_words(words: &Vec<(String, String)>) -> (r: Result<ChildExistenceInfo, StoreError>)
        ensures
            match child_existence_in(named(words_view(words@))) {
                Some(info) => r == Ok::<ChildExistenceInfo, StoreError>(info),
                None => r == Err::<ChildExistenceInfo, StoreError>(StoreError::ValueDecode),
            },
    {
        let found = find(words, "node_type");
        proof {
            let at = match found {
                Some(i) => Some(i as int),
                None => None,
            };
            assert(last_at(words_view(words@), "node_type"@, at)) by {
                assert forall|j: int| 0 <= j < words@.len() implies (#[trigger] words_view(
                    words@,
                )[j]).0 == words@[j].0@ by {}
            }
            lemma_named_last(words_view(words@), "node_type"@, at);
            lemma_node_type_words();
        }
        match found {
            Some(i) => {
                let directory: String = "Directory".to_owned();
                let component: String = "Component".to_owned();
                if words[i].1 == directory {
                    Ok(ChildExistenceInfo { node_type: StablePathNodeType::Directory })
                } else if words[i].1 == component {
                    Ok(ChildExistenceInfo { node_type: StablePathNodeType::Component })
                } else {
                    Err(StoreError::ValueDecode)
                }
            },
            None => Err(StoreError::ValueDecode),
        }
    }

    /// Reads the info back from bytes.
    pub fn decode(bytes: &[u8]) -> (r: Result<ChildExistenceInfo, StoreError>)
        ensures
            match child_existence_of(bytes@) {
                Some(info) => r == Ok::<ChildExistenceInfo, StoreError>(info),
                None => r == Err::<ChildExistenceInfo, StoreError>(StoreError::ValueDecode),
            },
    {
        match decode_words(bytes) {
            Ok(words) => ChildExistenceInfo::from_words(&words),
            Err(_) => Err(StoreError::ValueDecode),
        }
    }
}

impl IdSequencerInfo {
    /// The bytes of the info, or `ValueEncode` where they cannot be written.
    pub fn encode(&self) -> (r: Result<Vec<u8>, StoreError>)
        ensures
            match r {
                Ok(bytes) => bytes@ == id_sequencer_bytes(*self) && id_sequencer_of(bytes@) == Some(
                    *self,
                ),
                Err(e) => e == StoreError::ValueEncode && number_fails("next_id"@, self.next_id),
            },
    {
        proof {
            reveal_strlit("next_id");
            is_ascii_chars_encode_utf8("next_id"@);
        }
        value_encoded(write_number("next_id", self.next_id))
    }

    /// The info in a record of numbers.
    pub fn from_numbers(numbers: &Vec<(String, u64)>) -> (r: Result<IdSequencerInfo, StoreError>)
        ensures
            match id_sequencer_in(named(numbers_view(numbers@))) {
                Some(info) => r == Ok::<IdSequencerInfo, StoreError>(info),
                None => r == Err::<IdSequencerInfo, StoreError>(StoreError::ValueDecode),
            },
    {
        let found = find(numbers, "next_id");
        proof {
            let at = match found {
                Some(i) => Some(i as int),
                None => None,
            };
            assert(last_at(numbers_view(numbers@), "next_id"@, at)) by {
                assert forall|j: int| 0 <= j < numbers@.len() implies (#[trigger] numbers_view(
                    numbers@,
                )[j]).0 == numbers@[j].0@ by {}
            }
            lemma_named_last(numbers_view(numbers@), "next_id"@, at);
        }
        match found {
            Some(i) => Ok(IdSequencerInfo { next_id: numbers[i].1 }),
            None => Err(StoreError::ValueDecode),
        }
    }

    /// Reads the info back from bytes.
    pub fn decode(bytes: &[u8]) -> (r: Result<IdSequencerInfo, StoreError>)
        ensures
            match id_sequencer_of(bytes@) {
                Some(info) => r == Ok::<IdSequencerInfo, StoreError>(info),
                None => r == Err::<IdSequencerInfo, StoreError>(StoreError::ValueDecode),
            },
    {
        match decode_numbers(bytes) {
            Ok(numbers) => IdSequencerInfo::from_numbers(&numbers),
            Err(_) => Err(StoreError::ValueDecode),
        }
    }
}

/// The bytes of a record, or `ValueEncode` where they cannot be written; so it is
/// where a length does not fit 32 bits.
fn encode_record(fields: Vec<(String, Option<Vec<u8>>)>) -> (r: Result<Vec<u8>, StoreError>)
    requires
        distinct(fields_view(fields@)),
    ensures
        match r {
            Ok(bytes) => record_fit(named(fields_view(fields@))) && bytes@ == fields_bytes(
                named(fields_view(fields@)),
            ) && fields_of(bytes@) == Some(named(fields_view(fields@))),
            Err(e) => e == StoreError::ValueEncode && (!record_fit(named(fields_view(fields@)))
                || record_fails(named(fields_view(fields@)))),
        },
{
    proof {
        lemma_record_fit(fields_view(fields@));
    }
    if !record_fits(&fields) {
        return Err(StoreError::ValueEncode);
    }
    value_encoded(write_fields(fields))
}

/// The bytes of a record with one field of bytes, or `ValueEncode` where they
/// cannot be written; so it is where a length does not fit 32 bits.
fn encode_field(name: &str, value: Vec<u8>) -> (r: Result<Vec<u8>, StoreError>)
    requires
        encode_utf8(name@).len() <= u32::MAX,
    ensures
        match r {
            Ok(bytes) => value@.len() <= u32::MAX && bytes@ == fields_bytes(
                map![name@ => Some(value@)],
            ) && fields_of(bytes@) == Some(map![name@ => Some(value@)]),
            Err(e) => e == StoreError::ValueEncode && (value@.len() > u32::MAX || record_fails(
                map![name@ => Some(value@)],
            )),
        },
{
    let mut fields: Vec<(String, Option<Vec<u8>>)> = Vec::new();
    fields.push((name.to_owned(), Some(value)));
    proof {
        let view = fields_view(fields@);
        assert(view[0] == (name@, Some(value@)));
        assert(view.drop_last() =~= Seq::<(Seq<char>, Option<Seq<u8>>)>::empty());
        assert(named(view.drop_last()) =~= Map::<Seq<char>, Option<Seq<u8>>>::empty());
        let record = map![name@ => Some(value@)];
        assert(named(view) =~= record);
        assert(record.dom() =~= set![name@]);
        assert(record.dom().contains(name@));
        if value@.len() <= u32::MAX {
            assert(record_fit(record));
        }
    }
    encode_record(fields)
}

/// The field `name` of a record, taken out of it.
fn take_field(fields: Vec<(String, Option<Vec<u8>>)>, name: &str) -> (r: Option<Vec<u8>>)
    ensures
        field_view(r) == field_in(named(fields_view(fields@)), name@),
{
    let mut fields = fields;
    let found = find(&fields, name);
    proof {
        let at = match found {
            Some(i) => Some(i as int),
            None => None,
        };
        assert(last_at(fields_view(fields@), name@, at)) by {
            assert forall|j: int| 0 <= j < fields@.len() implies (#[trigger] fields_view(
                fields@,
            )[j]).0 == fields@[j].0@ by {}
        }
        lemma_named_last(fields_view(fields@), name@, at);
    }
    match found {
        Some(i) => {
            let (_, value) = fields.remove(i);
            value
        },
        None => None,
    }
}

impl TargetStateOwnerInfo {
    /// The bytes of the info, or `ValueEncode` where they cannot be written; so
    /// it is where the bytes of the path are more than 32 bits can count.
    pub fn encode(&self) -> (r: Result<Vec<u8>, StoreError>)
        ensures
            match r {
                Ok(bytes) => path_bytes(self.component_path@).len() <= u32::MAX && bytes@
                    == owner_bytes(self.component_path@) && owner_of(bytes@) == Some(
                    self.component_path@,
                ),
                Err(e) => e == StoreError::ValueEncode && (path_bytes(self.component_path@).len()
                    > u32::MAX || record_fails(
                    map!["component_path"@ => Some(path_bytes(self.component_path@))],
                )),
            },
    {
        proof {
            reveal_strlit("component_path");
            is_ascii_chars_encode_utf8("component_path"@);
            lemma_path_round_trip(self.component_path@, Seq::empty());
            assert(path_bytes(self.component_path@) + Seq::<u8>::empty() =~= path_bytes(
                self.component_path@,
            ));
        }
        let mut path: Vec<u8> = Vec::new();
        match write_path(&mut path, &self.component_path) {
            Ok(()) => {
                assert(path@ =~= path_bytes(self.component_path@));
                encode_field("component_path", path)
            },
            Err(_) => Err(StoreError::ValueEncode),
        }
    }

    /// The info in a record of byte strings.
    pub fn from_fields(fields: Vec<(String, Option<Vec<u8>>)>) -> (r: Result<
        TargetStateOwnerInfo,
        StoreError,
    >)
        ensures
            match owner_in(named(fields_view(fields@))) {
                Some(owner) => r matches Ok(info) && info.component_path@ == owner,
                None => r == Err::<TargetStateOwnerInfo, StoreError>(StoreError::ValueDecode),
            },
    {
        match take_field(fields, "component_path") {
            Some(path) => match decode_path(path.as_slice()) {
                Ok(component_path) => Ok(TargetStateOwnerInfo { component_path }),
                Err(_) => Err(StoreError::ValueDecode),
            },
            None => Err(StoreError::ValueDecode),
        }
    }

    /// Reads the info back from bytes.
    pub fn decode(bytes: &[u8]) -> (r: Result<TargetStateOwnerInfo, StoreError>)
        ensures
            match owner_of(bytes@) {
                Some(owner) => r matches Ok(info) && info.component_path@ == owner,
                None => r == Err::<TargetStateOwnerInfo, StoreError>(StoreError::ValueDecode),
            },
    {
        match decode_fields(bytes) {
            Ok(fields) => TargetStateOwnerInfo::from_fields(fields),
            Err(_) => Err(StoreError::ValueDecode),
        }
    }
}

impl FunctionMemoizationEntry {
    /// The bytes of the memo, or `ValueEncode` where they cannot be written; so
    /// it is where the value is longer than 32 bits can count.
    pub fn encode(&self) -> (r: Result<Vec<u8>, StoreError>)
        ensures
            match r {
                Ok(bytes) => self.value@.len() <= u32::MAX && bytes@ == memo_bytes(self.value@)
                    && memo_of(bytes@) == Some(self.value@),
                Err(e) => e == StoreError::ValueEncode && (self.value@.len() > u32::MAX
                    || record_fails(map!["value"@ => Some(self.value@)])),
            },
    {
        proof {
            reveal_strlit("value");
            is_ascii_chars_encode_utf8("value"@);
        }
        let mut value: Vec<u8> = Vec::new();
        value.extend_from_slice(self.value.as_slice());
        assert(value@ =~= self.value@);
        encode_field("value", value)
    }

    /// The memo in a record of byte strings.
    pub fn from_fields(fields: Vec<(String, Option<Vec<u8>>)>) -> (r: Result<
        FunctionMemoizationEntry,
        StoreError,
    >)
        ensures
            match memo_in(named(fields_view(fields@))) {
                Some(value) => r matches Ok(memo) && memo.value@ == value,
                None => r == Err::<FunctionMemoizationEntry, StoreError>(StoreError::ValueDecode),
            },
    {
        match take_field(fields, "value") {
            Some(value) => Ok(FunctionMemoizationEntry { value }),
            None => Err(StoreError::ValueDecode),
        }
    }

    /// Reads the memo back from bytes.
    pub fn decode(bytes: &[u8]) -> (r: Result<FunctionMemoizationEntry, StoreError>)
        ensures
            match memo_of(bytes@) {
                Some(value) => r matches Ok(memo) && memo.value@ == value,
                None => r == Err::<FunctionMemoizationEntry, StoreError>(StoreError::ValueDecode),
            },
    {
        match decode_fields(bytes) {
            Ok(fields) => FunctionMemoizationEntry::from_fields(fields),
            Err(_) => Err(StoreError::ValueDecode),
        }
    }
}

/// Taking a pair out of a list of distinct names takes its name out of the map.
proof fn lemma_named_without(pairs: Seq<(Seq<char>, Option<Seq<u8>>)>, at: int)
    requires
        distinct(pairs),
        0 <= at < pairs.len(),
    ensures
        distinct(pairs.remove(at)),
        named(pairs.remove(at)) == named(pairs).remove(pairs[at].0),
        forall|i: int|
            0 <= i < pairs.len() - 1 ==> (#[trigger] pairs.remove(at)[i]).0 != pairs[at].0,
{
    let rest = pairs.remove(at);
    assert forall|i: int, j: int| 0 <= i < j < rest.len() implies (#[trigger] rest[i]).0 != (
    #[trigger] rest[j]).0 by {
        let a = if i < at { i } else { i + 1 };
        let b = if j < at { j } else { j + 1 };
        assert(rest[i] == pairs[a] && rest[j] == pairs[b]);
    }
    assert forall|i: int| 0 <= i < rest.len() implies (#[trigger] rest[i]).0 != pairs[at].0 by {
        let a = if i < at { i } else { i + 1 };
        assert(rest[i] == pairs[a]);
        if a < at {
            assert(pairs[a].0 != pairs[at].0);
        } else {
            assert(pairs[at].0 != pairs[a].0);
        }
    }
    lemma_named(pairs);
    lemma_named(rest);
    let whole = named(pairs).remove(pairs[at].0);
    assert forall|name: Seq<char>| #[trigger]
        named(rest).dom().contains(name) == whole.dom().contains(name) by {
        if named(rest).dom().contains(name) {
            let i = choose|i: int| 0 <= i < rest.len() && (#[trigger] rest[i]).0 == name;
            let a = if i < at { i } else { i + 1 };
            assert(rest[i] == pairs[a]);
            assert(named(pairs).dom().contains(pairs[a].0));
        }
        if whole.dom().contains(name) {
            assert(named(pairs).dom().contains(name));
            let a = choose|a: int| 0 <= a < pairs.len() && (#[trigger] pairs[a]).0 == name;
            assert(a != at);
            let i = if a < at { a } else { a - 1 };
            assert(rest[i] == pairs[a]);
        }
    }
    assert forall|name: Seq<char>| #[trigger] named(rest).dom().contains(name) implies named(
        rest,
    )[name] == whole[name] by {
        let i = choose|i: int| 0 <= i < rest.len() && (#[trigger] rest[i]).0 == name;
        let a = if i < at { i } else { i + 1 };
        assert(rest[i] == pairs[a]);
        assert(named(pairs)[pairs[a].0] == pairs[a].1);
        assert(named(rest)[rest[i].0] == rest[i].1);
    }
    assert(named(rest) =~= whole);
}

/// The bytes in the opposite order.
fn reversed(bytes: &[u8]) -> (r: Vec<u8>)
    ensures
        r@ == bytes@.reverse(),
{
    let mut out: Vec<u8> = Vec::new();
    let mut i: usize = bytes.len();
    while i > 0
        invariant
            i <= bytes@.len(),
            out@.len() == bytes@.len() - i,
            forall|j: int| 0 <= j < out@.len() ==> #[trigger] out@[j] == bytes@.reverse()[j],
        decreases i,
    {
        i -= 1;
        out.push(bytes[i]);
    }
    assert(out@ =~= bytes@.reverse());
    out
}

/// 16 bytes count to 2 to the power of 128.
proof fn lemma_token_bound()
    ensures
        pow2(128) == u128::MAX + 1,
{
    lemma2_to64();
    lemma_pow2_adds(64, 64);
}

/// A token read back from its bytes is the token.
proof fn lemma_token_round_trip(token: u128)
    ensures
        token_bytes(token).len() == 16,
        token_in(token_bytes(token)) == token,
{
    lemma_token_bound();
    lemma_big_endian_len(token as nat, 16);
    lemma_big_endian_value(token as nat, 16);
}

/// The bytes of a token.
fn token_to_bytes(token: u128) -> (r: Vec<u8>)
    ensures
        r@ == token_bytes(token),
{
    let mut low_first: Vec<u8> = Vec::new();
    let mut rest: u128 = token;
    let mut i: usize = 0;
    assert(token_bytes(token) =~= big_endian(rest as nat, 16) + low_first@.reverse());
    while i < 16
        invariant
            i <= 16,
            token_bytes(token) == big_endian(rest as nat, (16 - i) as nat) + low_first@.reverse(),
        decreases 16 - i,
    {
        let ghost before = low_first@;
        let byte: u8 = (rest % 256) as u8;
        low_first.push(byte);
        assert(big_endian(rest as nat, (16 - i) as nat) + before.reverse() =~= big_endian(
            (rest / 256) as nat,
            (15 - i) as nat,
        ) + low_first@.reverse()) by {
            assert(low_first@.reverse() =~= seq![byte] + before.reverse());
        }
        rest = rest / 256;
        i += 1;
    }
    let r = reversed(low_first.as_slice());
    assert(r@ =~= token_bytes(token));
    r
}

/// The token in 16 bytes.
fn token_from_bytes(bytes: &[u8]) -> (r: u128)
    requires
        bytes@.len() == 16,
    ensures
        r == token_in(bytes@),
{
    let mut token: u128 = 0;
    let mut i: usize = 0;
    while i < 16
        invariant
            i <= 16,
            bytes@.len() == 16,
            token == big_endian_value(bytes@.take(i as int)),
        decreases 16 - i,
    {
        proof {
            let next = bytes@.take(i + 1);
            assert(next.drop_last() =~= bytes@.take(i as int));
            lemma_big_endian_bound(next);
            lemma_token_bound();
            if i < 15 {
                lemma_pow2_strictly_increases((8 * (i + 1)) as nat, 128);
            }
        }
        token = token * 256 + bytes[i] as u128;
        i += 1;
    }
    assert(bytes@.take(16) =~= bytes@);
    token
}

impl StablePathEntryTrackingInfo {
    /// The bytes of the info, or `ValueEncode` where they cannot be written; so
    /// it is where a length in it does not fit 32 bits. Without a token, the
    /// token is written as missing.
    pub fn encode(self) -> (r: Result<Vec<u8>, StoreError>)
        requires
            self.wf(),
        ensures
            match r {
                Ok(bytes) => fields_fit(fields_view(self.fields@)) && self.fields@.len() < u32::MAX
                    && record_fit(self@.record()) && bytes@ == fields_bytes(self@.record())
                    && tracking_of(bytes@) == Some(self@),
                Err(e) => e == StoreError::ValueEncode && (!record_fit(self@.record())
                    || record_fails(self@.record())),
            },
    {
        let ghost info = self@;
        let ghost old_view = fields_view(self.fields@);
        proof {
            lemma_named(old_view);
            if named(old_view).dom().contains("pending_process_token"@) {
                let i = choose|i: int|
                    0 <= i < old_view.len() && (#[trigger] old_view[i]).0
                        == "pending_process_token"@;
                assert(self.fields@[i].0@ == "pending_process_token"@);
            }
        }
        let value: Option<Vec<u8>> = match self.pending_process_token {
            Some(token) => {
                proof {
                    lemma_token_round_trip(token);
                }
                Some(token_to_bytes(token))
            },
            None => None,
        };
        let mut fields = self.fields;
        fields.push(("pending_process_token".to_owned(), value));
        proof {
            let view = fields_view(fields@);
            assert(view =~= old_view.push(("pending_process_token"@, field_view(value))));
            assert(view.drop_last() =~= old_view);
            assert forall|i: int, j: int| 0 <= i < j < view.len() implies (#[trigger] view[i]).0
                != (#[trigger] view[j]).0 by {
                assert(view[i] == old_view[i]);
                if j < old_view.len() {
                    assert(view[j] == old_view[j]);
                } else {
                    assert(self.fields@[i].0@ != "pending_process_token"@);
                }
            }
            assert(named(view) == info.record());
            assert(info.record().remove("pending_process_token"@) =~= info.fields);
            lemma_record_fit(view);
            if fields_fit(view) {
                assert forall|i: int| 0 <= i < old_view.len() implies field_fits(
                    #[trigger] old_view[i],
                ) by {
                    assert(view[i] == old_view[i]);
                }
            }
        }
        encode_record(fields)
    }

    /// The info in a record of byte strings.
    pub fn from_fields(fields: Vec<(String, Option<Vec<u8>>)>) -> (r: Result<
        StablePathEntryTrackingInfo,
        StoreError,
    >)
        requires
            distinct(fields_view(fields@)),
        ensures
            match tracking_in(named(fields_view(fields@))) {
                Some(info) => r matches Ok(got) && got@ == info && got.wf(),
                None => r == Err::<StablePathEntryTrackingInfo, StoreError>(
                    StoreError::ValueDecode,
                ),
            },
    {
        let mut fields = fields;
        let ghost view = fields_view(fields@);
        let found = find(&fields, "pending_process_token");
        proof {
            let at = match found {
                Some(i) => Some(i as int),
                None => None,
            };
            assert(last_at(view, "pending_process_token"@, at)) by {
                assert forall|j: int| 0 <= j < fields@.len() implies (#[trigger] view[j]).0
                    == fields@[j].0@ by {}
            }
            lemma_named_last(view, "pending_process_token"@, at);
        }
        match found {
            Some(i) => {
                let (_, value) = fields.remove(i);
                proof {
                    lemma_named_without(view, i as int);
                    assert(fields_view(fields@) =~= view.remove(i as int));
                    assert forall|j: int| 0 <= j < fields@.len() implies (
                    #[trigger] fields@[j]).0@ != "pending_process_token"@ by {
                        assert(view.remove(i as int)[j].0 != view[i as int].0);
                    }
                }
                let pending_process_token: Option<u128> = match value {
                    Some(bytes) => {
                        if bytes.len() != 16 {
                            return Err(StoreError::ValueDecode);
                        }
                        Some(token_from_bytes(bytes.as_slice()))
                    },
                    None => None,
                };
                Ok(StablePathEntryTrackingInfo { pending_process_token, fields })
            },
            None => {
                assert(named(view).remove("pending_process_token"@) =~= named(view));
                Ok(StablePathEntryTrackingInfo { pending_process_token: None, fields })
            },
        }
    }

    /// Reads the info back from bytes.
    pub fn decode(bytes: &[u8]) -> (r: Result<StablePathEntryTrackingInfo, StoreError>)
        ensures
            match tracking_of(bytes@) {
                Some(info) => r matches Ok(got) && got@ == info && got.wf(),
                None => r == Err::<StablePathEntryTrackingInfo, StoreError>(
                    StoreError::ValueDecode,
                ),
            },
    {
        match decode_fields(bytes) {
            Ok(fields) => StablePathEntryTrackingInfo::from_fields(fields),
            Err(_) => Err(StoreError::ValueDecode),
        }
    }
}

// --- The forms of values -------------------------------------------------

/// A node type is written as the one word for it, and read where that word stands
/// under its name, whatever else the record holds; any other word is no node type.
pub proof fn law_node_type_form(bytes: Seq<u8>, node_type: StablePathNodeType)
    ensures
        ({
            let word = match node_type {
                StablePathNodeType::Directory => "Directory"@,
                StablePathNodeType::Component => "Component"@,
            };
            let info = ChildExistenceInfo { node_type };
            &&& child_existence_bytes(info) == word_bytes("node_type"@, word)
            &&& child_existence_of(bytes) == Some(info) <==> (words_of(bytes) matches Some(words)
                && words.dom().contains("node_type"@) && words["node_type"@] == word)
        }),
{
    lemma_node_type_words();
}

/// The same of a record of words that has been read already.
pub proof fn law_node_type_in(words: Map<Seq<char>, Seq<char>>, node_type: StablePathNodeType)
    ensures
        child_existence_in(words) == Some(ChildExistenceInfo { node_type })
            <==> words.dom().contains("node_type"@) && words["node_type"@] == (match node_type {
            StablePathNodeType::Directory => "Directory"@,
            StablePathNodeType::Component => "Component"@,
        }),
{
    lemma_node_type_words();
}

/// A next free ID is written as that number, and read where a number stands under
/// its name, whatever else the record holds.
pub proof fn law_id_sequencer_form(bytes: Seq<u8>, numbers: Map<Seq<char>, u64>, next_id: u64)
    ensures
        ({
            let info = IdSequencerInfo { next_id };
            &&& id_sequencer_bytes(info) == number_bytes("next_id"@, next_id)
            &&& id_sequencer_of(bytes) == Some(info) <==> (numbers_of(bytes) matches Some(got)
                && got.dom().contains("next_id"@) && got["next_id"@] == next_id)
            &&& id_sequencer_in(numbers) == Some(info) <==> numbers.dom().contains("next_id"@)
                && numbers["next_id"@] == next_id
        }),
{
}

/// An owner is written as the bytes of its path, and read where the bytes of one
/// path stand under its name, whatever else the record holds.
pub proof fn law_owner_form(
    bytes: Seq<u8>,
    fields: Map<Seq<char>, Option<Seq<u8>>>,
    owner: Seq<KeyView>,
)
    ensures
        owner_bytes(owner) == fields_bytes(map!["component_path"@ => Some(path_bytes(owner))]),
        owner_of(bytes) == Some(owner) <==> (fields_of(bytes) matches Some(got)
            && got.dom().contains("component_path"@) && (got["component_path"@] matches Some(path)
            && path_of(path) == Some(owner))),
        owner_in(fields) == Some(owner) <==> fields.dom().contains("component_path"@) && (
        fields["component_path"@] matches Some(path) && path_of(path) == Some(owner)),
{
}

/// A memo is written as its bytes, and read where bytes stand under its name,
/// whatever else the record holds.
pub proof fn law_memo_form(
    bytes: Seq<u8>,
    fields: Map<Seq<char>, Option<Seq<u8>>>,
    value: Seq<u8>,
)
    ensures
        memo_bytes(value) == fields_bytes(map!["value"@ => Some(value)]),
        memo_of(bytes) == Some(value) <==> (fields_of(bytes) matches Some(got)
            && got.dom().contains("value"@) && got["value"@] == Some(value)),
        memo_in(fields) == Some(value) <==> fields.dom().contains("value"@) && fields["value"@]
            == Some(value),
{
}

/// `bytes` are the 16 bytes of `token`, the highest first.
pub open spec fn is_token(bytes: Seq<u8>, token: u128) -> bool {
    bytes.len() == 16 && forall|i: int|
        0 <= i < 16 ==> #[trigger] bytes[i] == (token as nat / pow2((8 * (15 - i)) as nat)) % 256
}

/// 16 bytes are those of one token.
proof fn lemma_is_token(bytes: Seq<u8>, token: u128)
    ensures
        is_token(bytes, token) <==> bytes == token_bytes(token),
        is_token(bytes, token) <==> bytes.len() == 16 && token_in(bytes) == token,
{
    let form = token_bytes(token);
    lemma_token_round_trip(token);
    assert forall|i: int| 0 <= i < 16 implies #[trigger] form[i] == (token as nat / pow2(
        (8 * (15 - i)) as nat,
    )) % 256 by {
        lemma_big_endian_at(token as nat, 16, i);
    }
    if is_token(bytes, token) {
        assert(bytes =~= form);
    }
    if bytes.len() == 16 && token_in(bytes) == token {
        lemma_token_bound();
        lemma_big_endian_bound(bytes);
        lemma_big_endian_of_value(bytes);
    }
}

/// Tracking info is a record of its fields with the token among them, in 16 bytes,
/// the highest first, or missing. It is read where the token is missing or stands
/// there in such bytes, and the fields are then all the others.
pub proof fn law_tracking_form(
    bytes: Seq<u8>,
    fields: Map<Seq<char>, Option<Seq<u8>>>,
    info: TrackingView,
)
    ensures
        ({
            let name = "pending_process_token"@;
            &&& info.record().remove(name) == info.fields.remove(name)
            &&& info.record().dom().contains(name)
            &&& match info.pending_process_token {
                Some(token) => info.record()[name] matches Some(held) && is_token(held, token),
                None => info.record()[name] is None,
            }
            &&& tracking_of(bytes) == Some(info) <==> (fields_of(bytes) matches Some(got)
                && tracking_in(got) == Some(info))
            &&& tracking_in(fields) == Some(info) <==> info.fields == fields.remove(name) && (
            match info.pending_process_token {
                Some(token) => fields.dom().contains(name) && (fields[name] matches Some(held)
                    && is_token(held, token)),
                None => fields.dom().contains(name) ==> fields[name] is None,
            })
        }),
{
    let name = "pending_process_token"@;
    assert(info.record().remove(name) =~= info.fields.remove(name));
    if let Some(token) = info.pending_process_token {
        lemma_is_token(token_bytes(token), token);
        if fields.dom().contains(name) {
            if let Some(held) = fields[name] {
                lemma_is_token(held, token);
            }
        }
    }
}

/// The value of tracking info is its token, and its fields by name.
pub proof fn law_tracking_value(info: StablePathEntryTrackingInfo)
    ensures
        info@.pending_process_token == info.pending_process_token,
        info@.fields == named(fields_view(info.fields@)),
{
}

} // verus!
