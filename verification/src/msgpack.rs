//! Row values: small records of named fields in MessagePack, written and read
//! by the `rmp_serde` crate.
use vstd::arithmetic::div_mod::lemma_div_denominator;
use vstd::arithmetic::power2::{lemma2_to64, lemma_pow2_adds, lemma_pow2_pos, pow2};
use vstd::prelude::*;
use vstd::utf8::*;

verus! {

/// A list of named values as a map; a later value replaces an earlier one of
/// the same name.
pub open spec fn named<V>(pairs: Seq<(Seq<char>, V)>) -> Map<Seq<char>, V>
    decreases pairs.len(),
{
    if pairs.len() == 0 {
        Map::empty()
    } else {
        named(pairs.drop_last()).insert(pairs.last().0, pairs.last().1)
    }
}

/// No two values have the same name.
pub open spec fn distinct<V>(pairs: Seq<(Seq<char>, V)>) -> bool {
    forall|i: int, j: int|
        0 <= i < j < pairs.len() ==> (#[trigger] pairs[i]).0 != (#[trigger] pairs[j]).0
}

/// A record of numbers, as values.
pub open spec fn numbers_view(pairs: Seq<(String, u64)>) -> Seq<(Seq<char>, u64)> {
    pairs.map_values(|p: (String, u64)| (p.0@, p.1))
}

/// A record of texts, as values.
pub open spec fn words_view(pairs: Seq<(String, String)>) -> Seq<(Seq<char>, Seq<char>)> {
    pairs.map_values(|p: (String, String)| (p.0@, p.1@))
}

/// A byte string that may be missing, as a value.
pub open spec fn field_view(value: Option<Vec<u8>>) -> Option<Seq<u8>> {
    match value {
        Some(bytes) => Some(bytes@),
        None => None,
    }
}

/// A record of byte strings, as values.
pub open spec fn fields_view(pairs: Seq<(String, Option<Vec<u8>>)>) -> Seq<
    (Seq<char>, Option<Seq<u8>>),
> {
    pairs.map_values(|p: (String, Option<Vec<u8>>)| (p.0@, field_view(p.1)))
}

/// The lengths of a field fit the 32 bits that MessagePack has for them.
pub open spec fn field_fits(pair: (Seq<char>, Option<Seq<u8>>)) -> bool {
    &&& encode_utf8(pair.0).len() <= u32::MAX
    &&& pair.1 matches Some(bytes) ==> bytes.len() <= u32::MAX
}

/// The lengths inside a record fit the 32 bits that MessagePack has for them.
pub open spec fn fields_fit(pairs: Seq<(Seq<char>, Option<Seq<u8>>)>) -> bool {
    &&& pairs.len() <= u32::MAX
    &&& forall|i: int| 0 <= i < pairs.len() ==> field_fits(#[trigger] pairs[i])
}

/// The lowest `width` bytes of a number, the highest of them first.
pub open spec fn big_endian(number: nat, width: nat) -> Seq<u8>
    decreases width,
{
    if width == 0 {
        Seq::empty()
    } else {
        big_endian(number / 256, (width - 1) as nat).push((number % 256) as u8)
    }
}

/// The number whose bytes these are, the highest of them first.
pub open spec fn big_endian_value(bytes: Seq<u8>) -> nat
    decreases bytes.len(),
{
    if bytes.len() == 0 {
        0
    } else {
        256 * big_endian_value(bytes.drop_last()) + bytes.last() as nat
    }
}

/// A byte of a number is what is left of it once the bytes behind are cut off, but
/// for the bytes before.
pub proof fn lemma_big_endian_at(number: nat, width: nat, i: int)
    requires
        0 <= i < width,
    ensures
        big_endian(number, width).len() == width,
        big_endian(number, width)[i] == (number / pow2((8 * (width - 1 - i)) as nat)) % 256,
    decreases width,
{
    lemma2_to64();
    let shorter = (width - 1) as nat;
    lemma_big_endian_len(number / 256, shorter);
    if i < width - 1 {
        lemma_big_endian_at(number / 256, shorter, i);
        let below = (8 * (width - 2 - i)) as nat;
        lemma_pow2_pos(below);
        lemma_pow2_adds(8, below);
        lemma_div_denominator(number as int, 256, pow2(below) as int);
        assert((8 * (width - 1 - i)) as nat == 8 + below);
        assert((8 * (shorter - 1 - i)) as nat == below);
        assert(big_endian(number, width)[i] == big_endian(number / 256, shorter)[i]);
    } else {
        assert((8 * (width - 1 - i)) as nat == 0);
        assert(number / 1 == number);
        assert(big_endian(number, width)[i] == number % 256);
    }
}

/// There are as many bytes as were asked for.
pub proof fn lemma_big_endian_len(number: nat, width: nat)
    ensures
        big_endian(number, width).len() == width,
    decreases width,
{
    if width > 0 {
        lemma_big_endian_len(number / 256, (width - 1) as nat);
    }
}

/// A number that fits its bytes is read back from them.
pub proof fn lemma_big_endian_value(number: nat, width: nat)
    requires
        number < pow2(8 * width),
    ensures
        big_endian_value(big_endian(number, width)) == number,
    decreases width,
{
    lemma2_to64();
    if width > 0 {
        let shorter = (width - 1) as nat;
        lemma_pow2_adds(8, 8 * shorter);
        assert(8 + 8 * shorter == 8 * width);
        assert(number / 256 < pow2(8 * shorter));
        lemma_big_endian_value(number / 256, shorter);
        assert(big_endian(number, width).drop_last() =~= big_endian(number / 256, shorter));
    }
}

/// Some bytes are those of the number in them.
pub proof fn lemma_big_endian_of_value(bytes: Seq<u8>)
    ensures
        big_endian(big_endian_value(bytes), bytes.len()) == bytes,
    decreases bytes.len(),
{
    if bytes.len() > 0 {
        lemma_big_endian_of_value(bytes.drop_last());
        assert(big_endian_value(bytes) / 256 == big_endian_value(bytes.drop_last()));
        assert(big_endian_value(bytes) % 256 == bytes.last());
        assert(bytes =~= bytes.drop_last().push(bytes.last()));
    } else {
        assert(bytes =~= Seq::<u8>::empty());
    }
}

/// The number in some bytes is below the power that they can count to.
pub proof fn lemma_big_endian_bound(bytes: Seq<u8>)
    ensures
        big_endian_value(bytes) < pow2(8 * bytes.len()),
    decreases bytes.len(),
{
    lemma2_to64();
    if bytes.len() > 0 {
        let shorter = (bytes.len() - 1) as nat;
        lemma_big_endian_bound(bytes.drop_last());
        lemma_pow2_adds(8, 8 * shorter);
        assert(8 + 8 * shorter == 8 * bytes.len());
    }
}

/// A number in MessagePack: in one byte where it is below 128, and otherwise
/// behind a mark in as many bytes as it needs of 1, 2, 4 and 8.
pub open spec fn uint_bytes(number: u64) -> Seq<u8> {
    if number < 0x80 {
        seq![number as u8]
    } else if number < 0x100 {
        seq![0xccu8] + big_endian(number as nat, 1)
    } else if number < 0x1_0000 {
        seq![0xcdu8] + big_endian(number as nat, 2)
    } else if number < 0x1_0000_0000 {
        seq![0xceu8] + big_endian(number as nat, 4)
    } else {
        seq![0xcfu8] + big_endian(number as nat, 8)
    }
}

/// A text of less than 32 bytes in MessagePack: its length in a mark, then its
/// bytes.
pub open spec fn short_text_bytes(text: Seq<char>) -> Seq<u8> {
    seq![(0xa0 + encode_utf8(text).len()) as u8] + encode_utf8(text)
}

/// A record with one number under a short name in MessagePack.
pub open spec fn number_bytes(name: Seq<char>, number: u64) -> Seq<u8> {
    seq![0x81u8] + short_text_bytes(name) + uint_bytes(number)
}

/// A record with one short text under a short name in MessagePack.
pub open spec fn word_bytes(name: Seq<char>, word: Seq<char>) -> Seq<u8> {
    seq![0x81u8] + short_text_bytes(name) + short_text_bytes(word)
}

#[verifier::external_type_specification]
#[verifier::external_body]
pub struct ExValueEncodeError(rmp_serde::encode::Error);

#[verifier::external_type_specification]
#[verifier::external_body]
pub struct ExValueDecodeError(rmp_serde::decode::Error);

/// What `rmp_serde::from_slice` reads as a record of numbers; `None` when it
/// refuses the bytes.
pub uninterp spec fn numbers_of(bytes: Seq<u8>) -> Option<Map<Seq<char>, u64>>;

/// What `rmp_serde::from_slice` reads as a record of texts; `None` when it
/// refuses the bytes.
pub uninterp spec fn words_of(bytes: Seq<u8>) -> Option<Map<Seq<char>, Seq<char>>>;

/// What `rmp_serde::to_vec_named` writes for a record of byte strings, each of
/// which may be missing.
pub uninterp spec fn fields_bytes(fields: Map<Seq<char>, Option<Seq<u8>>>) -> Seq<u8>;

/// What `rmp_serde::from_slice` reads as a record of byte strings, each of which
/// may be missing; `None` when it refuses the bytes.
pub uninterp spec fn fields_of(bytes: Seq<u8>) -> Option<Map<Seq<char>, Option<Seq<u8>>>>;

/// Calls `rmp_serde::to_vec_named` on a map from one short name to a number. It
/// writes the map in the smallest form that MessagePack has for it, and
/// `rmp_serde::from_slice` reads the record back from that. Nothing is said of
/// when the call fails: it does when memory for the bytes cannot be had.
#[verifier::external_body]
pub(crate) fn encode_number(name: &str, number: u64) -> (r: Result<
    Vec<u8>,
    rmp_serde::encode::Error,
>)
    requires
        encode_utf8(name@).len() < 32,
    ensures
        r matches Ok(bytes) ==> bytes@ == number_bytes(name@, number),
        r matches Ok(bytes) ==> numbers_of(bytes@) == Some(map![name@ => number]),
{
    rmp_serde::to_vec_named(&std::collections::BTreeMap::from([(name, number)]))
}

/// Calls `rmp_serde::from_slice` for a map from names to numbers. Whether it
/// succeeds, and with what, depends on the bytes alone; a map holds each name
/// once.
#[verifier::external_body]
pub(crate) fn decode_numbers(bytes: &[u8]) -> (r: Result<
    Vec<(String, u64)>,
    rmp_serde::decode::Error,
>)
    ensures
        match numbers_of(bytes@) {
            Some(map) => r matches Ok(pairs) && distinct(numbers_view(pairs@)) && named(
                numbers_view(pairs@),
            ) == map,
            None => r is Err,
        },
{
    let map: std::collections::BTreeMap<String, u64> = rmp_serde::from_slice(bytes)?;
    Ok(map.into_iter().collect())
}

/// Calls `rmp_serde::to_vec_named` on a map from one short name to a short text.
/// It writes the map in the smallest form that MessagePack has for it, and
/// `rmp_serde::from_slice` reads the record back from that. Nothing is said of
/// when the call fails: it does when memory for the bytes cannot be had.
#[verifier::external_body]
pub(crate) fn encode_word(name: &str, word: &str) -> (r: Result<Vec<u8>, rmp_serde::encode::Error>)
    requires
        encode_utf8(name@).len() < 32,
        encode_utf8(word@).len() < 32,
    ensures
        r matches Ok(bytes) ==> bytes@ == word_bytes(name@, word@),
        r matches Ok(bytes) ==> words_of(bytes@) == Some(map![name@ => word@]),
{
    rmp_serde::to_vec_named(&std::collections::BTreeMap::from([(name, word)]))
}

/// Calls `rmp_serde::from_slice` for a map from names to texts. Whether it
/// succeeds, and with what, depends on the bytes alone; a map holds each name
/// once.
#[verifier::external_body]
pub(crate) fn decode_words(bytes: &[u8]) -> (r: Result<
    Vec<(String, String)>,
    rmp_serde::decode::Error,
>)
    ensures
        match words_of(bytes@) {
            Some(map) => r matches Ok(pairs) && distinct(words_view(pairs@)) && named(
                words_view(pairs@),
            ) == map,
            None => r is Err,
        },
{
    let map: std::collections::BTreeMap<String, String> = rmp_serde::from_slice(bytes)?;
    Ok(map.into_iter().collect())
}

/// Calls `rmp_serde::to_vec_named` on a map from names to byte strings that may be
/// missing. The bytes depend on the map alone, and `rmp_serde::from_slice` reads
/// it back from them. It counts in 32 bits, so longer lengths are left out.
/// Nothing is said of when the call fails: it does when memory for the bytes
/// cannot be had.
#[verifier::external_body]
pub(crate) fn encode_fields(fields: Vec<(String, Option<Vec<u8>>)>) -> (r: Result<
    Vec<u8>,
    rmp_serde::encode::Error,
>)
    requires
        distinct(fields_view(fields@)),
        fields_fit(fields_view(fields@)),
    ensures
        r matches Ok(bytes) ==> bytes@ == fields_bytes(named(fields_view(fields@))),
        r matches Ok(bytes) ==> fields_of(bytes@) == Some(named(fields_view(fields@))),
{
    let map: std::collections::BTreeMap<String, Option<Vec<u8>>> = fields.into_iter().collect();
    rmp_serde::to_vec_named(&map)
}

/// Calls `rmp_serde::from_slice` for a map from names to byte strings that may be
/// missing. Whether it succeeds, and with what, depends on the bytes alone; a map
/// holds each name once.
#[verifier::external_body]
pub(crate) fn decode_fields(bytes: &[u8]) -> (r: Result<
    Vec<(String, Option<Vec<u8>>)>,
    rmp_serde::decode::Error,
>)
    ensures
        match fields_of(bytes@) {
            Some(map) => r matches Ok(pairs) && distinct(fields_view(pairs@)) && named(
                fields_view(pairs@),
            ) == map,
            None => r is Err,
        },
{
    let map: std::collections::BTreeMap<String, Option<Vec<u8>>> = rmp_serde::from_slice(bytes)?;
    Ok(map.into_iter().collect())
}

/// The lengths of the record fit the 32 bits that MessagePack has for them.
pub open spec fn record_fit(record: Map<Seq<char>, Option<Seq<u8>>>) -> bool {
    &&& record.dom().len() <= u32::MAX
    &&& forall|name: Seq<char>| #[trigger]
        record.dom().contains(name) ==> field_fits((name, record[name]))
}

/// The number cannot always be written under this name: a failure is among the
/// outcomes of the serializer's call for the record of it.
pub closed spec fn number_fails(name: Seq<char>, number: u64) -> bool {
    exists|n: &str, e: rmp_serde::encode::Error|
        n@ == name && #[trigger] call_ensures(
            encode_number,
            (n, number),
            Err::<Vec<u8>, rmp_serde::encode::Error>(e),
        )
}

/// The word cannot always be written under this name: a failure is among the
/// outcomes of the serializer's call for the record of it.
pub closed spec fn word_fails(name: Seq<char>, word: Seq<char>) -> bool {
    exists|n: &str, w: &str, e: rmp_serde::encode::Error|
        n@ == name && w@ == word && #[trigger] call_ensures(
            encode_word,
            (n, w),
            Err::<Vec<u8>, rmp_serde::encode::Error>(e),
        )
}

/// The record cannot always be written: a failure is among the outcomes of the
/// serializer's call for it.
pub closed spec fn record_fails(record: Map<Seq<char>, Option<Seq<u8>>>) -> bool {
    exists|fields: Vec<(String, Option<Vec<u8>>)>, e: rmp_serde::encode::Error|
        named(fields_view(fields@)) == record && #[trigger] call_ensures(
            encode_fields,
            (fields,),
            Err::<Vec<u8>, rmp_serde::encode::Error>(e),
        )
}

/// Nothing but a failure of the serializer's own call makes a number, a word or a
/// record one that cannot always be written.
pub(crate) proof fn law_failures(
    name: Seq<char>,
    number: u64,
    word: Seq<char>,
    record: Map<Seq<char>, Option<Seq<u8>>>,
)
    ensures
        number_fails(name, number) ==> exists|n: &str, e: rmp_serde::encode::Error|
            n@ == name && #[trigger] call_ensures(encode_number, (n, number), Err(e)),
        word_fails(name, word) ==> exists|n: &str, w: &str, e: rmp_serde::encode::Error|
            n@ == name && w@ == word && #[trigger] call_ensures(encode_word, (n, w), Err(e)),
        record_fails(record) ==> exists|
            fields: Vec<(String, Option<Vec<u8>>)>,
            e: rmp_serde::encode::Error,
        |
            named(fields_view(fields@)) == record && #[trigger] call_ensures(
                encode_fields,
                (fields,),
                Err(e),
            ),
{
}

/// Calls `f`: the result is among its outcomes for the argument.
fn outcome<A, R, F: Fn(A) -> R>(f: F, a: A) -> (r: R)
    requires
        call_requires(f, (a,)),
    ensures
        call_ensures(f, (a,), r),
{
    f(a)
}

/// Calls `f`: the result is among its outcomes for the arguments.
fn outcome_of_two<A, B, R, F: Fn(A, B) -> R>(f: F, a: A, b: B) -> (r: R)
    requires
        call_requires(f, (a, b)),
    ensures
        call_ensures(f, (a, b), r),
{
    f(a, b)
}

/// Writes a record with one number under a short name. Fails only where the
/// serializer does.
pub(crate) fn write_number(name: &str, number: u64) -> (r: Result<
    Vec<u8>,
    rmp_serde::encode::Error,
>)
    requires
        encode_utf8(name@).len() < 32,
    ensures
        match r {
            Ok(bytes) => bytes@ == number_bytes(name@, number) && numbers_of(bytes@) == Some(
                map![name@ => number],
            ),
            Err(_) => number_fails(name@, number),
        },
{
    let r = outcome_of_two(encode_number, name, number);
    proof {
        if r is Err {
            assert(r == Err::<Vec<u8>, rmp_serde::encode::Error>(r->Err_0));
        }
    }
    r
}

/// Writes a record with one short word under a short name. Fails only where the
/// serializer does.
pub(crate) fn write_word(name: &str, word: &str) -> (r: Result<Vec<u8>, rmp_serde::encode::Error>)
    requires
        encode_utf8(name@).len() < 32,
        encode_utf8(word@).len() < 32,
    ensures
        match r {
            Ok(bytes) => bytes@ == word_bytes(name@, word@) && words_of(bytes@) == Some(
                map![name@ => word@],
            ),
            Err(_) => word_fails(name@, word@),
        },
{
    let r = outcome_of_two(encode_word, name, word);
    proof {
        if r is Err {
            assert(r == Err::<Vec<u8>, rmp_serde::encode::Error>(r->Err_0));
        }
    }
    r
}

/// Writes a record of byte strings. Fails only where the serializer does.
pub(crate) fn write_fields(fields: Vec<(String, Option<Vec<u8>>)>) -> (r: Result<
    Vec<u8>,
    rmp_serde::encode::Error,
>)
    requires
        distinct(fields_view(fields@)),
        fields_fit(fields_view(fields@)),
    ensures
        match r {
            Ok(bytes) => bytes@ == fields_bytes(named(fields_view(fields@))) && fields_of(bytes@)
                == Some(named(fields_view(fields@))),
            Err(_) => record_fails(named(fields_view(fields@))),
        },
{
    let r = outcome(encode_fields, fields);
    proof {
        if r is Err {
            assert(r == Err::<Vec<u8>, rmp_serde::encode::Error>(r->Err_0));
        }
    }
    r
}

/// A list of distinct names fits if and only if the record that it stands for
/// does.
pub proof fn lemma_record_fit(pairs: Seq<(Seq<char>, Option<Seq<u8>>)>)
    requires
        distinct(pairs),
    ensures
        fields_fit(pairs) <==> record_fit(named(pairs)),
{
    lemma_named(pairs);
    lemma_named_len(pairs);
    let record = named(pairs);
    if fields_fit(pairs) {
        assert forall|name: Seq<char>| #[trigger] record.dom().contains(name) implies field_fits(
            (name, record[name]),
        ) by {
            let i = choose|i: int| 0 <= i < pairs.len() && (#[trigger] pairs[i]).0 == name;
            assert(field_fits(pairs[i]));
            assert(pairs[i] == (name, record[name]));
        }
    }
    if record_fit(record) {
        assert forall|i: int| 0 <= i < pairs.len() implies field_fits(#[trigger] pairs[i]) by {
            assert(record.dom().contains(pairs[i].0));
            assert(pairs[i] == (pairs[i].0, record[pairs[i].0]));
        }
    }
}

/// A list of distinct names has as many of them as the map that it stands for.
proof fn lemma_named_len<V>(pairs: Seq<(Seq<char>, V)>)
    requires
        distinct(pairs),
    ensures
        named(pairs).dom().finite(),
        named(pairs).dom().len() == pairs.len(),
    decreases pairs.len(),
{
    if pairs.len() > 0 {
        let init = pairs.drop_last();
        assert forall|i: int, j: int| 0 <= i < j < init.len() implies (#[trigger] init[i]).0 != (
        #[trigger] init[j]).0 by {
            assert(init[i] == pairs[i] && init[j] == pairs[j]);
        }
        lemma_named_len(init);
        lemma_named(init);
        if named(init).dom().contains(pairs.last().0) {
            let i = choose|i: int|
                0 <= i < init.len() && (#[trigger] init[i]).0 == pairs.last().0;
            assert(init[i] == pairs[i]);
            assert(pairs[i].0 != pairs[pairs.len() - 1].0);
        }
        assert(named(pairs).dom() =~= named(init).dom().insert(pairs.last().0));
    }
}

/// A record whose names and values are counted in 32 bits fits.
pub proof fn law_record_fit(record: Map<Seq<char>, Option<Seq<u8>>>)
    ensures
        record_fit(record) <==> record.dom().len() <= 0xffff_ffff && forall|name: Seq<char>|
            #![trigger record.dom().contains(name)]
            record.dom().contains(name) ==> encode_utf8(name).len() <= 0xffff_ffff && (
            record[name] matches Some(value) ==> value.len() <= 0xffff_ffff),
{
    assert forall|name: Seq<char>| #![trigger record.dom().contains(name)] record.dom().contains(
        name,
    ) implies (field_fits((name, record[name])) <==> encode_utf8(name).len() <= 0xffff_ffff && (
    record[name] matches Some(value) ==> value.len() <= 0xffff_ffff)) by {}
}

/// Whether all lengths inside a record fit 32 bits.
pub(crate) fn record_fits(fields: &Vec<(String, Option<Vec<u8>>)>) -> (r: bool)
    ensures
        r == fields_fit(fields_view(fields@)),
{
    let limit: usize = u32::MAX as usize;
    let ghost view = fields_view(fields@);
    if fields.len() > limit {
        return false;
    }
    let mut i: usize = 0;
    while i < fields.len()
        invariant
            limit == u32::MAX,
            i <= fields.len(),
            view == fields_view(fields@),
            forall|j: int| 0 <= j < i ==> field_fits(#[trigger] view[j]),
        decreases fields.len() - i,
    {
        assert(view[i as int] == (fields@[i as int].0@, field_view(fields@[i as int].1)));
        let name_fits = fields[i].0.as_str().as_bytes().len() <= limit;
        let value_fits = match &fields[i].1 {
            Some(value) => value.len() <= limit,
            None => true,
        };
        if !name_fits || !value_fits {
            return false;
        }
        i += 1;
    }
    true
}

/// `at` is where a list has its last value named `name`, or `None` where it has
/// no such value.
pub open spec fn last_at<V>(pairs: Seq<(Seq<char>, V)>, name: Seq<char>, at: Option<int>) -> bool {
    match at {
        Some(i) => 0 <= i < pairs.len() && pairs[i].0 == name && forall|j: int|
            i < j < pairs.len() ==> (#[trigger] pairs[j]).0 != name,
        None => forall|j: int| 0 <= j < pairs.len() ==> (#[trigger] pairs[j]).0 != name,
    }
}

/// The index of the last value named `name`, if there is one.
pub(crate) fn find<V>(pairs: &Vec<(String, V)>, name: &str) -> (r: Option<usize>)
    ensures
        match r {
            Some(i) => i < pairs.len() && pairs@[i as int].0@ == name@ && forall|j: int|
                i < j < pairs.len() ==> (#[trigger] pairs@[j]).0@ != name@,
            None => forall|j: int| 0 <= j < pairs.len() ==> (#[trigger] pairs@[j]).0@ != name@,
        },
{
    let wanted: String = name.to_owned();
    let mut i: usize = pairs.len();
    while i > 0
        invariant
            wanted@ == name@,
            i <= pairs.len(),
            forall|j: int| i <= j < pairs.len() ==> (#[trigger] pairs@[j]).0@ != name@,
        decreases i,
    {
        i -= 1;
        if pairs[i].0 == wanted {
            return Some(i);
        }
    }
    None
}

/// The map has the last value of each name, and no name that the list has not.
pub proof fn lemma_named_last<V>(pairs: Seq<(Seq<char>, V)>, name: Seq<char>, at: Option<int>)
    requires
        last_at(pairs, name, at),
    ensures
        match at {
            Some(i) => named(pairs).dom().contains(name) && named(pairs)[name] == pairs[i].1,
            None => !named(pairs).dom().contains(name),
        },
    decreases pairs.len(),
{
    if pairs.len() > 0 {
        let init = pairs.drop_last();
        assert(pairs[pairs.len() - 1] == pairs.last());
        if pairs.last().0 != name {
            match at {
                Some(i) => {
                    assert forall|j: int| i < j < init.len() implies (#[trigger] init[j]).0
                        != name by {
                        assert(init[j] == pairs[j]);
                    }
                },
                None => {
                    assert forall|j: int| 0 <= j < init.len() implies (#[trigger] init[j]).0
                        != name by {
                        assert(init[j] == pairs[j]);
                    }
                },
            }
            lemma_named_last(init, name, at);
        }
    }
}

/// Where no name occurs twice, the map has each name of the list with its value,
/// and no other name.
pub proof fn lemma_named<V>(pairs: Seq<(Seq<char>, V)>)
    requires
        distinct(pairs),
    ensures
        forall|i: int|
            0 <= i < pairs.len() ==> named(pairs).dom().contains((#[trigger] pairs[i]).0)
                && named(pairs)[pairs[i].0] == pairs[i].1,
        forall|name: Seq<char>| #[trigger]
            named(pairs).dom().contains(name) ==> exists|i: int|
                0 <= i < pairs.len() && (#[trigger] pairs[i]).0 == name,
    decreases pairs.len(),
{
    if pairs.len() > 0 {
        let init = pairs.drop_last();
        assert(distinct(init)) by {
            assert forall|i: int, j: int| 0 <= i < j < init.len() implies (#[trigger] init[i]).0
                != (#[trigger] init[j]).0 by {
                assert(init[i] == pairs[i] && init[j] == pairs[j]);
            }
        }
        lemma_named(init);
        assert forall|i: int| 0 <= i < pairs.len() implies named(pairs).dom().contains(
            (#[trigger] pairs[i]).0,
        ) && named(pairs)[pairs[i].0] == pairs[i].1 by {
            if i < init.len() {
                assert(init[i] == pairs[i]);
                assert(pairs[i].0 != pairs[pairs.len() - 1].0);
            }
        }
        assert forall|name: Seq<char>| #[trigger]
            named(pairs).dom().contains(name) implies exists|i: int|
            0 <= i < pairs.len() && (#[trigger] pairs[i]).0 == name by {
            if name == pairs.last().0 {
                assert(pairs[pairs.len() - 1].0 == name);
            } else {
                assert(named(init).dom().contains(name));
                let i = choose|i: int| 0 <= i < init.len() && (#[trigger] init[i]).0 == name;
                assert(pairs[i].0 == name);
            }
        }
    }
}

/// The value of a record is all of its names with their values, in order.
pub proof fn law_record_value(
    numbers: Seq<(String, u64)>,
    words: Seq<(String, String)>,
    fields: Seq<(String, Option<Vec<u8>>)>,
    i: int,
)
    ensures
        numbers_view(numbers).len() == numbers.len(),
        0 <= i < numbers.len() ==> numbers_view(numbers)[i] == (numbers[i].0@, numbers[i].1),
        words_view(words).len() == words.len(),
        0 <= i < words.len() ==> words_view(words)[i] == (words[i].0@, words[i].1@),
        fields_view(fields).len() == fields.len(),
        0 <= i < fields.len() ==> fields_view(fields)[i].0 == fields[i].0@ && (
        match fields[i].1 {
            Some(bytes) => fields_view(fields)[i].1 == Some(bytes@),
            None => fields_view(fields)[i].1 is None,
        }),
{
}

} // verus!
