//! Text inside row keys: the terminated, escaped form that keeps the order of
//! the text, written and read by the `storekey` crate.
use crate::order::{
    below, lemma_below_prepend, lemma_lex_asymmetric, lemma_lex_total, lex_lt, parts_at,
};
use vstd::prelude::*;
use vstd::utf8::*;

verus! {

/// The escaped form of a byte string: every byte 0 or 1 is preceded by a 1,
/// and a 0 ends the string.
pub open spec fn escaped(bytes: Seq<u8>) -> Seq<u8>
    decreases bytes.len(),
{
    if bytes.len() == 0 {
        seq![0u8]
    } else if bytes[0] <= 1 {
        seq![1u8, bytes[0]] + escaped(bytes.drop_first())
    } else {
        seq![bytes[0]] + escaped(bytes.drop_first())
    }
}

/// Reads one escaped string off the front: the plain bytes and what follows
/// the terminator, or `None` when no terminator comes.
pub open spec fn unescaped(bytes: Seq<u8>) -> Option<(Seq<u8>, Seq<u8>)>
    decreases bytes.len(),
{
    if bytes.len() == 0 {
        None
    } else if bytes[0] == 0 {
        Some((Seq::empty(), bytes.skip(1)))
    } else if bytes[0] == 1 && bytes.len() < 2 {
        None
    } else {
        let width: int = if bytes[0] == 1 { 2 } else { 1 };
        match unescaped(bytes.skip(width)) {
            Some((plain, rest)) => Some((seq![bytes[width - 1]] + plain, rest)),
            None => None,
        }
    }
}

/// The bytes that stand for `text` inside a row key.
pub open spec fn text_bytes(text: Seq<char>) -> Seq<u8> {
    escaped(encode_utf8(text))
}

/// Reads one text off the front of `bytes`: the text and what follows it.
pub open spec fn text_at(bytes: Seq<u8>) -> Option<(Seq<char>, Seq<u8>)> {
    match unescaped(bytes) {
        Some((plain, rest)) => if valid_utf8(plain) {
            Some((decode_utf8(plain), rest))
        } else {
            None
        },
        None => None,
    }
}

/// The order of strings: that of their UTF-8 bytes.
pub open spec fn text_lt(a: Seq<char>, b: Seq<char>) -> bool {
    lex_lt(encode_utf8(a), encode_utf8(b))
}

#[verifier::external_type_specification]
#[verifier::external_body]
pub struct ExEncodeError(storekey::EncodeError);

#[verifier::external_type_specification]
#[verifier::external_body]
pub struct ExDecodeError(storekey::DecodeError);

/// Calls `storekey::encode` on a `str`: appends the UTF-8 bytes of `text` in
/// escaped form. Appending to a vector does not fail.
#[verifier::external_body]
pub(crate) fn write_text(buf: &mut Vec<u8>, text: &str) -> (r: Result<(), storekey::EncodeError>)
    ensures
        r is Ok,
        final(buf)@ == old(buf)@ + text_bytes(text@),
{
    storekey::encode(buf, text)
}

/// Calls `storekey::Reader::read_string`: reads one escaped string off the
/// front of `bytes` and hands back the bytes behind its terminator. It fails
/// when no terminator comes, or when the string is not UTF-8.
#[verifier::external_body]
pub(crate) fn read_text<'a>(bytes: &'a [u8]) -> (r: Result<
    (String, &'a [u8]),
    storekey::DecodeError,
>)
    ensures
        match text_at(bytes@) {
            Some((text, rest)) => r matches Ok(got) && got.0@ == text && got.1@ == rest,
            None => r is Err,
        },
{
    let mut rest: &'a [u8] = bytes;
    let text = storekey::Reader::new(&mut rest).read_string()?;
    Ok((text, rest))
}

/// Reading back an escaped string gives the string and what follows it.
pub proof fn lemma_unescape_escaped(bytes: Seq<u8>, rest: Seq<u8>)
    ensures
        unescaped(escaped(bytes) + rest) == Some((bytes, rest)),
    decreases bytes.len(),
{
    let all = escaped(bytes) + rest;
    if bytes.len() == 0 {
        assert(all.skip(1) =~= rest);
        assert(bytes =~= Seq::<u8>::empty());
    } else {
        let tail = bytes.drop_first();
        lemma_unescape_escaped(tail, rest);
        let width: int = if bytes[0] <= 1 { 2 } else { 1 };
        assert(all.skip(width) =~= escaped(tail) + rest);
        assert(all[width - 1] == bytes[0]);
        assert(seq![bytes[0]] + tail =~= bytes);
    }
}

/// What is left after a string was read is shorter.
pub proof fn lemma_unescaped_shrinks(bytes: Seq<u8>)
    ensures
        unescaped(bytes) matches Some((plain, rest)) ==> rest.len() < bytes.len(),
    decreases bytes.len(),
{
    if bytes.len() != 0 && bytes[0] != 0 && !(bytes[0] == 1 && bytes.len() < 2) {
        let width: int = if bytes[0] == 1 { 2 } else { 1 };
        lemma_unescaped_shrinks(bytes.skip(width));
    }
}

/// A text read back from its key bytes is the text.
pub proof fn lemma_text_round_trip(text: Seq<char>, rest: Seq<u8>)
    ensures
        text_at(text_bytes(text) + rest) == Some((text, rest)),
{
    lemma_unescape_escaped(encode_utf8(text), rest);
    encode_utf8_valid_utf8(text);
    encode_utf8_decode_utf8(text);
}

/// Escaping keeps the order, and the escaped forms part inside both of them.
pub proof fn lemma_escaped_order(a: Seq<u8>, b: Seq<u8>)
    requires
        lex_lt(a, b),
    ensures
        below(escaped(a), escaped(b)),
    decreases a.len(),
{
    let ea = escaped(a);
    let eb = escaped(b);
    if a.len() == 0 {
        if b.len() == 0 {
            lemma_lex_asymmetric(a, b);
            assert(a =~= b);
        }
        assert(parts_at(ea, eb, 0));
    } else {
        if b.len() == 0 {
            assert(!below(a, b));
        }
        assert(b.len() > 0);
        if a[0] == b[0] {
            let x = a.drop_first();
            let y = b.drop_first();
            assert(lex_lt(x, y)) by {
                if below(a, b) {
                    let n = choose|n: int| parts_at(a, b, n);
                    assert(n > 0);
                    assert(parts_at(x, y, n - 1)) by {
                        assert forall|i: int| 0 <= i < n - 1 implies #[trigger] x[i] == y[i] by {
                            assert(a[i + 1] == b[i + 1]);
                        }
                    }
                } else {
                    assert(x =~= y.subrange(0, x.len() as int)) by {
                        assert forall|i: int| 0 <= i < x.len() implies x[i] == y[i] by {
                            assert(a[i + 1] == b.subrange(0, a.len() as int)[i + 1]);
                        }
                    }
                }
            }
            lemma_escaped_order(x, y);
            let head = if a[0] <= 1 {
                seq![1u8, a[0]]
            } else {
                seq![a[0]]
            };
            lemma_below_prepend(head, escaped(x), escaped(y));
        } else {
            assert(a[0] < b[0]) by {
                if below(a, b) {
                    let n = choose|n: int| parts_at(a, b, n);
                    if n > 0 {
                        assert(a[0] == b[0]);
                    }
                } else {
                    assert(a[0] == b.subrange(0, a.len() as int)[0]);
                }
            }
            if b[0] <= 1 {
                assert(parts_at(ea, eb, 1));
            } else {
                assert(parts_at(ea, eb, 0));
            }
        }
    }
}

/// The key bytes of texts are ordered as the texts are.
pub proof fn lemma_text_order(a: Seq<char>, b: Seq<char>)
    requires
        text_lt(a, b),
    ensures
        below(text_bytes(a), text_bytes(b)),
{
    lemma_escaped_order(encode_utf8(a), encode_utf8(b));
}

/// Two different texts are always ordered.
pub proof fn lemma_text_total(a: Seq<char>, b: Seq<char>)
    ensures
        a == b || text_lt(a, b) || text_lt(b, a),
{
    lemma_lex_total(encode_utf8(a), encode_utf8(b));
    encode_utf8_decode_utf8(a);
    encode_utf8_decode_utf8(b);
}

/// What follows a text does not change how it is read.
pub proof fn lemma_text_extends(bytes: Seq<u8>, more: Seq<u8>)
    ensures
        text_at(bytes) matches Some((text, rest)) ==> text_at(bytes + more) == Some(
            (text, rest + more),
        ),
{
    lemma_unescaped_extends(bytes, more);
}

/// What follows an escaped string does not change how it is read.
proof fn lemma_unescaped_extends(bytes: Seq<u8>, more: Seq<u8>)
    ensures
        unescaped(bytes) matches Some((plain, rest)) ==> unescaped(bytes + more) == Some(
            (plain, rest + more),
        ),
    decreases bytes.len(),
{
    let all = bytes + more;
    if bytes.len() > 0 && bytes[0] == 0 {
        assert(all.skip(1) =~= bytes.skip(1) + more);
    } else if bytes.len() > 0 && !(bytes[0] == 1 && bytes.len() < 2) {
        let width: int = if bytes[0] == 1 { 2 } else { 1 };
        lemma_unescaped_extends(bytes.skip(width), more);
        assert(all.skip(width) =~= bytes.skip(width) + more);
        assert(all[width - 1] == bytes[width - 1]);
    }
}

} // verus!
