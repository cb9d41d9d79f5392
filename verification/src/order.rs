//! Byte-string order: how row keys are sorted, and when one string is told
//! apart from another before either of them ends.
use vstd::prelude::*;

verus! {

/// `a` and `b` agree before position `n`, and `a` has the smaller byte there.
pub open spec fn parts_at(a: Seq<u8>, b: Seq<u8>, n: int) -> bool {
    &&& 0 <= n < a.len()
    &&& n < b.len()
    &&& forall|i: int| 0 <= i < n ==> #[trigger] a[i] == b[i]
    &&& a[n] < b[n]
}

/// `a` sorts before `b`, and a byte inside both of them decides it.
pub open spec fn below(a: Seq<u8>, b: Seq<u8>) -> bool {
    exists|n: int| parts_at(a, b, n)
}

/// Lexicographic order of byte strings; a proper prefix sorts first.
pub open spec fn lex_lt(a: Seq<u8>, b: Seq<u8>) -> bool {
    below(a, b) || (a.len() < b.len() && a.is_prefix_of(b))
}

/// What follows the deciding byte does not matter.
pub proof fn lemma_below_append(a: Seq<u8>, b: Seq<u8>, s: Seq<u8>, t: Seq<u8>)
    requires
        below(a, b),
    ensures
        below(a + s, b + t),
{
    let n = choose|n: int| parts_at(a, b, n);
    assert(parts_at(a + s, b + t, n)) by {
        assert forall|i: int| 0 <= i < n implies #[trigger] (a + s)[i] == (b + t)[i] by {
            assert(a[i] == b[i]);
        }
    }
}

/// A common prefix does not matter.
pub proof fn lemma_below_prepend(p: Seq<u8>, a: Seq<u8>, b: Seq<u8>)
    requires
        below(a, b),
    ensures
        below(p + a, p + b),
{
    let n = choose|n: int| parts_at(a, b, n);
    assert(parts_at(p + a, p + b, n + p.len())) by {
        assert forall|i: int| 0 <= i < n + p.len() implies #[trigger] (p + a)[i] == (p + b)[i] by {
            if i >= p.len() {
                assert(a[i - p.len()] == b[i - p.len()]);
            }
        }
    }
}

/// Strings that part inside both of them are not prefixes of one another.
pub proof fn lemma_below_no_prefix(a: Seq<u8>, b: Seq<u8>)
    requires
        below(a, b),
    ensures
        !a.is_prefix_of(b),
        !b.is_prefix_of(a),
        a != b,
{
    let n = choose|n: int| parts_at(a, b, n);
    if a.is_prefix_of(b) {
        assert(b.subrange(0, a.len() as int)[n] == b[n]);
    }
    if b.is_prefix_of(a) {
        assert(a.subrange(0, b.len() as int)[n] == a[n]);
    }
}

/// Two different byte strings are always ordered.
pub proof fn lemma_lex_total(a: Seq<u8>, b: Seq<u8>)
    ensures
        a == b || lex_lt(a, b) || lex_lt(b, a),
    decreases a.len(),
{
    if a.len() == 0 {
        if b.len() != 0 {
            assert(b.subrange(0, 0) =~= a);
        } else {
            assert(a =~= b);
        }
    } else if b.len() == 0 {
        assert(a.subrange(0, 0) =~= b);
    } else if a[0] < b[0] {
        assert(parts_at(a, b, 0));
    } else if b[0] < a[0] {
        assert(parts_at(b, a, 0));
    } else {
        let x = a.drop_first();
        let y = b.drop_first();
        let h = seq![a[0]];
        assert(a =~= h + x);
        assert(b =~= h + y);
        lemma_lex_total(x, y);
        if x != y {
            if lex_lt(x, y) {
                lemma_lex_prepend(h, x, y);
            } else {
                lemma_lex_prepend(h, y, x);
            }
        }
    }
}

/// A common prefix does not change the order.
pub proof fn lemma_lex_prepend(p: Seq<u8>, a: Seq<u8>, b: Seq<u8>)
    requires
        lex_lt(a, b),
    ensures
        lex_lt(p + a, p + b),
{
    if below(a, b) {
        lemma_below_prepend(p, a, b);
    } else {
        assert((p + b).subrange(0, (p + a).len() as int) =~= p + b.subrange(0, a.len() as int));
    }
}

/// The order is irreflexive and asymmetric.
pub proof fn lemma_lex_asymmetric(a: Seq<u8>, b: Seq<u8>)
    requires
        lex_lt(a, b),
    ensures
        a != b,
        !lex_lt(b, a),
{
    if below(a, b) {
        let n = choose|n: int| parts_at(a, b, n);
        lemma_below_no_prefix(a, b);
        if below(b, a) {
            let m = choose|m: int| parts_at(b, a, m);
            if m < n {
                assert(a[m] == b[m]);
            } else if n < m {
                assert(b[n] == a[n]);
            }
        }
    } else {
        if below(b, a) {
            lemma_below_no_prefix(b, a);
        }
    }
}

} // verus!
