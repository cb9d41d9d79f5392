//! Stable keys and stable paths: the names of components, and their bytes
//! inside row keys.
use crate::error::StoreError;
use crate::order::{below, lemma_below_append, lemma_below_prepend, parts_at};
use crate::text::{
    lemma_text_extends, lemma_text_order, lemma_text_round_trip, lemma_text_total,
    lemma_unescaped_shrinks, read_text, text_at, text_bytes, text_lt, write_text,
};
use vstd::prelude::*;

verus! {

/// Marks a string key in key bytes.
pub const STR_TAG: u8 = 2;

/// Marks a symbol key in key bytes.
pub const SYMBOL_TAG: u8 = 3;

/// Ends a path in key bytes; below every key tag, so that a path sorts before
/// the paths it leads to.
pub const PATH_END: u8 = 0;

/// One step of a stable path.
#[derive(Debug, PartialEq, Eq, PartialOrd, Ord, Hash)]
pub enum StableKey {
    /// A user-chosen name.
    Str(String),
    /// A name chosen by the engine.
    Symbol(String),
}

/// What a stable key is: its kind and its text.
pub enum KeyView {
    Str(Seq<char>),
    Symbol(Seq<char>),
}

impl View for StableKey {
    type V = KeyView;

    open spec fn view(&self) -> KeyView {
        match self {
            StableKey::Str(text) => KeyView::Str(text@),
            StableKey::Symbol(text) => KeyView::Symbol(text@),
        }
    }
}

impl Clone for StableKey {
    fn clone(&self) -> (r: Self)
        ensures
            r@ == self@,
    {
        match self {
            StableKey::Str(text) => StableKey::Str(text.clone()),
            StableKey::Symbol(text) => StableKey::Symbol(text.clone()),
        }
    }
}

/// The path of a component: the keys that lead to it from the root.
#[derive(Debug, PartialEq, Eq, PartialOrd, Ord, Hash)]
pub struct StablePath(pub Vec<StableKey>);

/// The keys of a slice, as values.
pub open spec fn keys_view(keys: Seq<StableKey>) -> Seq<KeyView> {
    keys.map_values(|k: StableKey| k@)
}

impl View for StablePath {
    type V = Seq<KeyView>;

    open spec fn view(&self) -> Seq<KeyView> {
        keys_view(self.0@)
    }
}

/// Copies a run of keys.
fn clone_keys(keys: &[StableKey]) -> (r: Vec<StableKey>)
    ensures
        keys_view(r@) == keys_view(keys@),
{
    let mut out: Vec<StableKey> = Vec::new();
    let mut i: usize = 0;
    while i < keys.len()
        invariant
            i <= keys.len(),
            out.len() == i,
            forall|j: int| 0 <= j < i ==> (#[trigger] out@[j])@ == keys@[j]@,
        decreases keys.len() - i,
    {
        out.push(keys[i].clone());
        i += 1;
    }
    assert(keys_view(out@) =~= keys_view(keys@));
    out
}

impl Clone for StablePath {
    fn clone(&self) -> (r: Self)
        ensures
            r@ == self@,
    {
        StablePath(clone_keys(self.0.as_slice()))
    }
}

/// A borrowed stable path.
#[derive(Debug, Clone, Copy)]
pub struct StablePathRef<'a>(pub &'a [StableKey]);

impl<'a> View for StablePathRef<'a> {
    type V = Seq<KeyView>;

    open spec fn view(&self) -> Seq<KeyView> {
        keys_view(self.0@)
    }
}

impl<'a> StablePathRef<'a> {
    /// The path without its last key, and that key; `None` for the root.
    pub fn split_parent(self) -> (r: Option<(StablePathRef<'a>, &'a StableKey)>)
        ensures
            match r {
                Some((parent, key)) => self@.len() > 0 && parent@ == self@.drop_last() && key@
                    == self@.last(),
                None => self@.len() == 0,
            },
    {
        let n: usize = self.0.len();
        if n == 0 {
            return None;
        }
        let parent = StablePathRef(vstd::slice::slice_subrange(self.0, 0, n - 1));
        assert(parent@ =~= self@.drop_last());
        Some((parent, &self.0[n - 1]))
    }

    /// The same path, owned.
    pub fn to_path(self) -> (r: StablePath)
        ensures
            r@ == self@,
    {
        StablePath(clone_keys(self.0))
    }
}

impl StablePath {
    /// The root path.
    pub fn root() -> (r: Self)
        ensures
            r@ == Seq::<KeyView>::empty(),
    {
        let r = StablePath(Vec::new());
        assert(r@ =~= Seq::<KeyView>::empty());
        r
    }

    /// The same path, borrowed.
    pub fn as_ref(&self) -> (r: StablePathRef<'_>)
        ensures
            r@ == self@,
    {
        StablePathRef(self.0.as_slice())
    }
}

/// The bytes of one key.
pub open spec fn key_bytes(key: KeyView) -> Seq<u8> {
    match key {
        KeyView::Str(text) => seq![STR_TAG] + text_bytes(text),
        KeyView::Symbol(text) => seq![SYMBOL_TAG] + text_bytes(text),
    }
}

/// The bytes of the keys one after the other, with no end mark.
pub open spec fn steps_bytes(keys: Seq<KeyView>) -> Seq<u8>
    decreases keys.len(),
{
    if keys.len() == 0 {
        Seq::empty()
    } else {
        steps_bytes(keys.drop_last()) + key_bytes(keys.last())
    }
}

/// The bytes of a path: its keys, then the end mark.
pub open spec fn path_bytes(path: Seq<KeyView>) -> Seq<u8> {
    steps_bytes(path).push(PATH_END)
}

/// Reads one key off the front of `bytes`: the key and what follows it.
pub open spec fn key_at(bytes: Seq<u8>) -> Option<(KeyView, Seq<u8>)> {
    if bytes.len() == 0 {
        None
    } else if bytes[0] == STR_TAG {
        match text_at(bytes.skip(1)) {
            Some((text, rest)) => Some((KeyView::Str(text), rest)),
            None => None,
        }
    } else if bytes[0] == SYMBOL_TAG {
        match text_at(bytes.skip(1)) {
            Some((text, rest)) => Some((KeyView::Symbol(text), rest)),
            None => None,
        }
    } else {
        None
    }
}

/// Reads one path off the front of `bytes`: the path and what follows it.
pub open spec fn path_at(bytes: Seq<u8>) -> Option<(Seq<KeyView>, Seq<u8>)>
    decreases bytes.len(),
{
    if bytes.len() == 0 {
        None
    } else if bytes[0] == PATH_END {
        Some((Seq::empty(), bytes.skip(1)))
    } else {
        match key_at(bytes) {
            Some((key, rest)) => {
                proof {
                    lemma_key_at_shrinks(bytes);
                }
                match path_at(rest) {
                    Some((tail, end)) => Some((seq![key] + tail, end)),
                    None => None,
                }
            },
            None => None,
        }
    }
}

/// What is left after a key was read is shorter.
pub proof fn lemma_key_at_shrinks(bytes: Seq<u8>)
    ensures
        key_at(bytes) matches Some((key, rest)) ==> rest.len() < bytes.len(),
{
    if bytes.len() > 0 {
        lemma_unescaped_shrinks(bytes.skip(1));
    }
}

/// Appends the bytes of `key`.
pub fn write_key(buf: &mut Vec<u8>, key: &StableKey) -> (r: Result<(), StoreError>)
    ensures
        r is Ok,
        final(buf)@ == old(buf)@ + key_bytes(key@),
{
    let (tag, text): (u8, &String) = match key {
        StableKey::Str(text) => (STR_TAG, text),
        StableKey::Symbol(text) => (SYMBOL_TAG, text),
    };
    buf.push(tag);
    let done = write_text(buf, text.as_str());
    assert(buf@ =~= old(buf)@ + key_bytes(key@));
    match done {
        Ok(()) => Ok(()),
        Err(_) => Err(StoreError::KeyEncode),
    }
}

/// Appends the bytes of the keys one after the other, with no end mark.
pub fn write_steps(buf: &mut Vec<u8>, keys: &[StableKey]) -> (r: Result<(), StoreError>)
    ensures
        r is Ok,
        final(buf)@ == old(buf)@ + steps_bytes(keys_view(keys@)),
{
    let ghost start = buf@;
    let ghost all = keys_view(keys@);
    let mut i: usize = 0;
    assert(all.take(0) =~= Seq::<KeyView>::empty());
    assert(buf@ =~= start + steps_bytes(all.take(0)));
    while i < keys.len()
        invariant
            i <= keys.len(),
            all == keys_view(keys@),
            buf@ == start + steps_bytes(all.take(i as int)),
        decreases keys.len() - i,
    {
        let ghost before = buf@;
        let done = write_key(buf, &keys[i]);
        if done.is_err() {
            return Err(StoreError::KeyEncode);
        }
        assert(all.take(i + 1).drop_last() =~= all.take(i as int));
        assert(all.take(i + 1).last() == keys@[i as int]@);
        assert(buf@ =~= start + steps_bytes(all.take(i + 1)));
        i += 1;
    }
    assert(all.take(i as int) =~= all);
    Ok(())
}

/// Appends the bytes of `path`.
pub fn write_path(buf: &mut Vec<u8>, path: &StablePath) -> (r: Result<(), StoreError>)
    ensures
        r is Ok,
        final(buf)@ == old(buf)@ + path_bytes(path@),
{
    let done = write_steps(buf, path.0.as_slice());
    buf.push(PATH_END);
    assert(buf@ =~= old(buf)@ + path_bytes(path@));
    done
}

/// Reads one key off the front of `bytes`.
pub fn read_key<'a>(bytes: &'a [u8]) -> (r: Result<(StableKey, &'a [u8]), StoreError>)
    ensures
        match key_at(bytes@) {
            Some((key, rest)) => r matches Ok(got) && got.0@ == key && got.1@ == rest,
            None => r == Err::<(StableKey, &'a [u8]), StoreError>(StoreError::KeyDecode),
        },
{
    if bytes.len() == 0 {
        return Err(StoreError::KeyDecode);
    }
    let tag: u8 = bytes[0];
    if tag != STR_TAG && tag != SYMBOL_TAG {
        return Err(StoreError::KeyDecode);
    }
    let body = vstd::slice::slice_subrange(bytes, 1, bytes.len());
    assert(body@ =~= bytes@.skip(1));
    match read_text(body) {
        Ok((text, rest)) => {
            let key = if tag == STR_TAG {
                StableKey::Str(text)
            } else {
                StableKey::Symbol(text)
            };
            Ok((key, rest))
        },
        Err(_) => Err(StoreError::KeyDecode),
    }
}

/// Reads one path off the front of `bytes`.
pub fn read_path<'a>(bytes: &'a [u8]) -> (r: Result<(StablePath, &'a [u8]), StoreError>)
    ensures
        match path_at(bytes@) {
            Some((path, rest)) => r matches Ok(got) && got.0@ == path && got.1@ == rest,
            None => r == Err::<(StablePath, &'a [u8]), StoreError>(StoreError::KeyDecode),
        },
{
    let mut keys: Vec<StableKey> = Vec::new();
    let mut rest: &'a [u8] = bytes;
    assert(keys_view(keys@) =~= Seq::<KeyView>::empty());
    proof {
        if let Some((tail, end)) = path_at(bytes@) {
            assert(Seq::<KeyView>::empty() + tail =~= tail);
        }
    }
    while rest.len() > 0 && rest[0] != PATH_END
        invariant
            match path_at(rest@) {
                Some((tail, end)) => path_at(bytes@) == Some((keys_view(keys@) + tail, end)),
                None => path_at(bytes@) is None,
            },
        decreases rest@.len(),
    {
        proof {
            lemma_key_at_shrinks(rest@);
        }
        match read_key(rest) {
            Ok((key, after)) => {
                let ghost before = keys_view(keys@);
                keys.push(key);
                assert(keys_view(keys@) =~= before.push(key@));
                proof {
                    if let Some((tail, end)) = path_at(after@) {
                        assert(before + (seq![key@] + tail) =~= before.push(key@) + tail);
                    }
                }
                rest = after;
            },
            Err(_) => {
                return Err(StoreError::KeyDecode);
            },
        }
    }
    if rest.len() == 0 {
        return Err(StoreError::KeyDecode);
    }
    let end = vstd::slice::slice_subrange(rest, 1, rest.len());
    assert(end@ =~= rest@.skip(1));
    assert(keys_view(keys@) + Seq::<KeyView>::empty() =~= keys_view(keys@));
    Ok((StablePath(keys), end))
}

/// The order of keys: string keys before symbols, then by text.
pub open spec fn key_lt(a: KeyView, b: KeyView) -> bool {
    match (a, b) {
        (KeyView::Str(x), KeyView::Str(y)) => text_lt(x, y),
        (KeyView::Str(_), KeyView::Symbol(_)) => true,
        (KeyView::Symbol(_), KeyView::Str(_)) => false,
        (KeyView::Symbol(x), KeyView::Symbol(y)) => text_lt(x, y),
    }
}

/// `a` and `b` agree on their first `n` keys, and `a` is the smaller from there.
pub open spec fn path_parts_at(a: Seq<KeyView>, b: Seq<KeyView>, n: int) -> bool {
    &&& 0 <= n <= a.len()
    &&& n < b.len()
    &&& a.take(n) == b.take(n)
    &&& n < a.len() ==> key_lt(a[n], b[n])
}

/// The order of paths: key by key, a path before the paths it leads to.
pub open spec fn path_lt(a: Seq<KeyView>, b: Seq<KeyView>) -> bool {
    exists|n: int| path_parts_at(a, b, n)
}

/// A key read back from its bytes is the key.
pub proof fn lemma_key_round_trip(key: KeyView, rest: Seq<u8>)
    ensures
        key_at(key_bytes(key) + rest) == Some((key, rest)),
{
    let text = match key {
        KeyView::Str(text) => text,
        KeyView::Symbol(text) => text,
    };
    lemma_text_round_trip(text, rest);
    assert((key_bytes(key) + rest).skip(1) =~= text_bytes(text) + rest);
}

/// The bytes of a path, from its first key on.
pub proof fn lemma_steps_front(keys: Seq<KeyView>)
    requires
        keys.len() > 0,
    ensures
        steps_bytes(keys) == key_bytes(keys[0]) + steps_bytes(keys.drop_first()),
    decreases keys.len(),
{
    if keys.len() == 1 {
        assert(keys.drop_last() =~= Seq::<KeyView>::empty());
        assert(keys.drop_first() =~= Seq::<KeyView>::empty());
        assert(steps_bytes(keys) =~= key_bytes(keys[0]) + steps_bytes(keys.drop_first()));
    } else {
        let init = keys.drop_last();
        lemma_steps_front(init);
        assert(init.drop_first() =~= keys.drop_first().drop_last());
        assert(steps_bytes(keys) =~= key_bytes(keys[0]) + steps_bytes(keys.drop_first()));
    }
}

/// The bytes of a path made of two runs of keys.
pub proof fn lemma_steps_concat(a: Seq<KeyView>, b: Seq<KeyView>)
    ensures
        steps_bytes(a + b) == steps_bytes(a) + steps_bytes(b),
    decreases b.len(),
{
    if b.len() == 0 {
        assert(a + b =~= a);
        assert(steps_bytes(a) + steps_bytes(b) =~= steps_bytes(a));
    } else {
        lemma_steps_concat(a, b.drop_last());
        assert((a + b).drop_last() =~= a + b.drop_last());
        assert(steps_bytes(a + b) =~= steps_bytes(a) + steps_bytes(b));
    }
}

/// A path read back from its bytes is the path.
pub proof fn lemma_path_round_trip(path: Seq<KeyView>, rest: Seq<u8>)
    ensures
        path_at(path_bytes(path) + rest) == Some((path, rest)),
    decreases path.len(),
{
    let all = path_bytes(path) + rest;
    if path.len() == 0 {
        assert(all.skip(1) =~= rest);
        assert(path =~= Seq::<KeyView>::empty());
    } else {
        let tail = path.drop_first();
        lemma_steps_front(path);
        lemma_path_round_trip(tail, rest);
        lemma_key_round_trip(path[0], path_bytes(tail) + rest);
        assert(all =~= key_bytes(path[0]) + (path_bytes(tail) + rest));
        assert(all[0] != PATH_END);
        assert(seq![path[0]] + tail =~= path);
    }
}

/// The bytes of keys are ordered as the keys are, and part inside both of them.
pub proof fn law_key_order(a: KeyView, b: KeyView)
    requires
        key_lt(a, b),
    ensures
        below(key_bytes(a), key_bytes(b)),
{
    match (a, b) {
        (KeyView::Str(x), KeyView::Str(y)) => {
            lemma_text_order(x, y);
            lemma_below_prepend(seq![STR_TAG], text_bytes(x), text_bytes(y));
        },
        (KeyView::Str(_), KeyView::Symbol(_)) => {
            assert(parts_at(key_bytes(a), key_bytes(b), 0));
        },
        (KeyView::Symbol(_), KeyView::Str(_)) => {},
        (KeyView::Symbol(x), KeyView::Symbol(y)) => {
            lemma_text_order(x, y);
            lemma_below_prepend(seq![SYMBOL_TAG], text_bytes(x), text_bytes(y));
        },
    }
}

/// Two different keys are always ordered.
pub proof fn lemma_key_total(a: KeyView, b: KeyView)
    ensures
        a == b || key_lt(a, b) || key_lt(b, a),
{
    match (a, b) {
        (KeyView::Str(x), KeyView::Str(y)) => lemma_text_total(x, y),
        (KeyView::Symbol(x), KeyView::Symbol(y)) => lemma_text_total(x, y),
        _ => {},
    }
}

/// The bytes of paths are ordered as the paths are, and part inside both of them.
pub proof fn law_path_order(a: Seq<KeyView>, b: Seq<KeyView>)
    requires
        path_lt(a, b),
    ensures
        below(path_bytes(a), path_bytes(b)),
{
    let n = choose|n: int| path_parts_at(a, b, n);
    let common = a.take(n);
    let x = a.skip(n);
    let y = b.skip(n);
    assert(a =~= common + x);
    assert(b =~= common + y);
    lemma_steps_concat(common, x);
    lemma_steps_concat(common, y);
    assert(path_bytes(a) =~= steps_bytes(common) + path_bytes(x));
    assert(path_bytes(b) =~= steps_bytes(common) + path_bytes(y));
    lemma_steps_front(y);
    let ytail = path_bytes(y.drop_first());
    assert(path_bytes(y) =~= key_bytes(y[0]) + ytail);
    if x.len() == 0 {
        assert(parts_at(path_bytes(x), path_bytes(y), 0));
    } else {
        lemma_steps_front(x);
        let xtail = path_bytes(x.drop_first());
        assert(path_bytes(x) =~= key_bytes(x[0]) + xtail);
        law_key_order(x[0], y[0]);
        lemma_below_append(key_bytes(x[0]), key_bytes(y[0]), xtail, ytail);
    }
    lemma_below_prepend(steps_bytes(common), path_bytes(x), path_bytes(y));
}

/// Two different paths are always ordered.
pub proof fn lemma_path_total(a: Seq<KeyView>, b: Seq<KeyView>)
    ensures
        a == b || path_lt(a, b) || path_lt(b, a),
    decreases a.len(),
{
    if a.len() == 0 || b.len() == 0 {
        assert(a.take(0) =~= b.take(0));
        if a.len() == 0 && b.len() == 0 {
            assert(a =~= b);
        } else if a.len() == 0 {
            assert(path_parts_at(a, b, 0));
        } else {
            assert(path_parts_at(b, a, 0));
        }
    } else {
        lemma_key_total(a[0], b[0]);
        if a[0] == b[0] {
            let x = a.drop_first();
            let y = b.drop_first();
            lemma_path_total(x, y);
            if x == y {
                assert(a =~= seq![a[0]] + x);
                assert(b =~= seq![b[0]] + y);
            } else if path_lt(x, y) {
                let n = choose|n: int| path_parts_at(x, y, n);
                lemma_path_parts_shift(a, b, n);
            } else {
                let n = choose|n: int| path_parts_at(y, x, n);
                lemma_path_parts_shift(b, a, n);
            }
        } else {
            assert(a.take(0) =~= b.take(0));
            if key_lt(a[0], b[0]) {
                assert(path_parts_at(a, b, 0));
            } else {
                assert(path_parts_at(b, a, 0));
            }
        }
    }
}

proof fn lemma_path_parts_shift(a: Seq<KeyView>, b: Seq<KeyView>, n: int)
    requires
        a.len() > 0,
        b.len() > 0,
        a[0] == b[0],
        path_parts_at(a.drop_first(), b.drop_first(), n),
    ensures
        path_parts_at(a, b, n + 1),
{
    let x = a.drop_first();
    let y = b.drop_first();
    assert(a.take(n + 1) =~= seq![a[0]] + x.take(n));
    assert(b.take(n + 1) =~= seq![b[0]] + y.take(n));
}

/// A string key is a 2 and its text, a symbol a 3 and its text, and bytes that begin
/// with anything else hold no key.
pub proof fn law_key_form(bytes: Seq<u8>, rest: Seq<u8>, text: Seq<char>)
    ensures
        key_bytes(KeyView::Str(text)) == seq![2u8] + text_bytes(text),
        key_bytes(KeyView::Symbol(text)) == seq![3u8] + text_bytes(text),
        key_at(bytes) == Some((KeyView::Str(text), rest)) <==> bytes.len() > 0 && bytes[0] == 2
            && text_at(bytes.skip(1)) == Some((text, rest)),
        key_at(bytes) == Some((KeyView::Symbol(text), rest)) <==> bytes.len() > 0 && bytes[0] == 3
            && text_at(bytes.skip(1)) == Some((text, rest)),
{
}

/// The bytes of a path are those of its keys, in order, and a 0. A path is read key
/// by key, however many there are, up to a 0.
pub proof fn law_path_form(
    bytes: Seq<u8>,
    rest: Seq<u8>,
    key: KeyView,
    path: Seq<KeyView>,
)
    ensures
        path_bytes(Seq::empty()) == seq![0u8],
        path_bytes(seq![key] + path) == key_bytes(key) + path_bytes(path),
        steps_bytes(path).push(0) == path_bytes(path),
        path_at(bytes) == Some((Seq::<KeyView>::empty(), rest)) <==> bytes.len() > 0 && bytes[0]
            == 0 && rest == bytes.skip(1),
        path_at(bytes) == Some((seq![key] + path, rest)) <==> (key_at(bytes) matches Some(
            (first, mid),
        ) && first == key && path_at(mid) == Some((path, rest))),
{
    let longer = seq![key] + path;
    assert(longer.drop_first() =~= path);
    lemma_steps_front(longer);
    assert(path_bytes(longer) =~= key_bytes(key) + path_bytes(path));
    assert(path_bytes(Seq::empty()) =~= seq![0u8]);
    if bytes.len() > 0 && bytes[0] != PATH_END {
        if let Some((first, mid)) = key_at(bytes) {
            if let Some((tail, end)) = path_at(mid) {
                let whole = seq![first] + tail;
                assert(whole.len() == tail.len() + 1);
                assert(whole[0] == first);
                assert(whole.drop_first() =~= tail);
            }
        }
    }
}

/// What follows a key does not change how it is read.
pub proof fn lemma_key_extends(bytes: Seq<u8>, more: Seq<u8>)
    ensures
        key_at(bytes) matches Some((key, rest)) ==> key_at(bytes + more) == Some(
            (key, rest + more),
        ),
{
    if bytes.len() > 0 {
        lemma_text_extends(bytes.skip(1), more);
        assert((bytes + more).skip(1) =~= bytes.skip(1) + more);
    }
}

/// What follows a path does not change how it is read.
pub proof fn lemma_path_extends(bytes: Seq<u8>, more: Seq<u8>)
    ensures
        path_at(bytes) matches Some((path, rest)) ==> path_at(bytes + more) == Some(
            (path, rest + more),
        ),
    decreases bytes.len(),
{
    let all = bytes + more;
    if bytes.len() > 0 {
        if bytes[0] == PATH_END {
            assert(all.skip(1) =~= bytes.skip(1) + more);
        } else {
            lemma_key_extends(bytes, more);
            lemma_key_at_shrinks(bytes);
            if let Some((_, rest)) = key_at(bytes) {
                lemma_path_extends(rest, more);
            }
        }
    }
}

/// The value of a key is its kind and its text, and that of a path all of its keys
/// in order.
pub proof fn law_path_value(text: String, path: StablePath, part: StablePathRef<'_>, i: int)
    ensures
        StableKey::Str(text)@ == KeyView::Str(text@),
        StableKey::Symbol(text)@ == KeyView::Symbol(text@),
        path@.len() == path.0@.len(),
        part@.len() == part.0@.len(),
        0 <= i < path.0@.len() ==> path@[i] == path.0@[i]@,
        0 <= i < part.0@.len() ==> part@[i] == part.0@[i]@,
{
}

} // verus!
