//! Listing the recorded paths with what each of them is, in path order.
//!
//! The row that records a path stands among those of its parent, so the rows of
//! a scan are not in the order of the paths that they record.
use crate::app_store::AppStore;
use crate::db_schema::{db_key_of, DbEntryKey, DbKeyView, EntryView, StablePathEntryKey};
use crate::error::StoreError;
use crate::order::{below, lemma_lex_asymmetric, lex_lt, parts_at};
use crate::stable_path::{
    key_lt, law_path_order, lemma_key_total, lemma_path_total, path_bytes, path_lt, path_parts_at,
    write_path, KeyView, StablePath,
};
use crate::table::{rows_view, Row, RowView};
use crate::values::{child_existence_of, ChildExistenceInfo, StablePathNodeType};
use vstd::prelude::*;
use vstd::seq_lib::*;
use vstd::utf8::*;

verus! {

/// A recorded path and what it is.
pub type Node = (Seq<KeyView>, StablePathNodeType);

/// Recorded paths, as values.
pub open spec fn path_nodes_view(nodes: Seq<(StablePath, StablePathNodeType)>) -> Seq<Node> {
    nodes.map_values(|n: (StablePath, StablePathNodeType)| (n.0@, n.1))
}

/// The path that a row with this key records, if it is one that records a path.
pub open spec fn recorded_path(key: Seq<u8>) -> Result<Option<Seq<KeyView>>, StoreError> {
    match db_key_of(key) {
        Some(DbKeyView::StablePath(parent, EntryView::ChildExistence(child))) => Ok(
            Some(parent.push(child)),
        ),
        Some(DbKeyView::StablePath(_, _)) => Ok(None),
        Some(_) => Err(StoreError::ExpectedStablePath),
        None => Err(StoreError::KeyDecode),
    }
}

/// What a row of a stable path records, if it is one that records a path.
pub open spec fn node_in(row: RowView) -> Result<Option<Node>, StoreError> {
    match recorded_path(row.key) {
        Ok(Some(path)) => match child_existence_of(row.value) {
            Some(info) => Ok(Some((path, info.node_type))),
            None => Err(StoreError::ValueDecode),
        },
        Ok(None) => Ok(None),
        Err(e) => Err(e),
    }
}

/// What the rows record, in their order.
pub open spec fn nodes_in(rows: Seq<RowView>) -> Seq<Node>
    decreases rows.len(),
{
    if rows.len() == 0 {
        Seq::empty()
    } else {
        match node_in(rows.last()) {
            Ok(Some(node)) => nodes_in(rows.drop_last()).push(node),
            _ => nodes_in(rows.drop_last()),
        }
    }
}

/// No path stands before one that is smaller.
pub open spec fn in_path_order(nodes: Seq<Node>) -> bool {
    forall|i: int, j: int|
        0 <= i < j < nodes.len() ==> !path_lt((#[trigger] nodes[j]).0, (#[trigger] nodes[i]).0)
}

/// `r` is what listing the paths that the rows record gives: all of them, in
/// path order, or the failure of the first row that cannot be read.
pub open spec fn lists_nodes(rows: Seq<RowView>, r: Result<Seq<Node>, StoreError>) -> bool {
    match r {
        Ok(out) => {
            &&& forall|i: int| 0 <= i < rows.len() ==> node_in(#[trigger] rows[i]) is Ok
            &&& in_path_order(out)
            &&& out.to_multiset() == nodes_in(rows).to_multiset()
        },
        Err(e) => exists|i: int|
            0 <= i < rows.len() && node_in(#[trigger] rows[i]) == Err::<Option<Node>, StoreError>(e)
                && forall|j: int| 0 <= j < i ==> node_in(#[trigger] rows[j]) is Ok,
    }
}

/// The result of listing recorded paths, as a value.
pub open spec fn path_nodes_result(
    r: Result<Vec<(StablePath, StablePathNodeType)>, StoreError>,
) -> Result<Seq<Node>, StoreError> {
    match r {
        Ok(out) => Ok(path_nodes_view(out@)),
        Err(e) => Err(e),
    }
}

/// What decides the order of two strings decides it through a third.
proof fn lemma_below_transitive(a: Seq<u8>, b: Seq<u8>, c: Seq<u8>)
    requires
        below(a, b),
        below(b, c),
    ensures
        below(a, c),
{
    let n = choose|n: int| parts_at(a, b, n);
    let m = choose|m: int| parts_at(b, c, m);
    let k = if n < m { n } else { m };
    assert(parts_at(a, c, k)) by {
        assert(n < m ==> b[n] == c[n]);
        assert(m < n ==> a[m] == b[m]);
        assert forall|i: int| 0 <= i < k implies #[trigger] a[i] == c[i] by {
            assert(a[i] == b[i]);
            assert(b[i] == c[i]);
        }
    }
}

/// The order of paths is that of their bytes.
pub proof fn lemma_path_order_exact(a: Seq<KeyView>, b: Seq<KeyView>)
    ensures
        path_lt(a, b) <==> lex_lt(path_bytes(a), path_bytes(b)),
        path_lt(a, b) <==> below(path_bytes(a), path_bytes(b)),
        path_lt(a, b) ==> !path_lt(b, a),
{
    lemma_path_total(a, b);
    if path_lt(a, b) {
        law_path_order(a, b);
    }
    if path_lt(b, a) {
        law_path_order(b, a);
        lemma_lex_asymmetric(path_bytes(b), path_bytes(a));
    }
    if lex_lt(path_bytes(a), path_bytes(b)) {
        lemma_lex_asymmetric(path_bytes(a), path_bytes(b));
    }
}

/// A path before one that is before another is before that too.
proof fn lemma_path_transitive(a: Seq<KeyView>, b: Seq<KeyView>, c: Seq<KeyView>)
    requires
        path_lt(a, b),
        path_lt(b, c),
    ensures
        path_lt(a, c),
{
    lemma_path_order_exact(a, b);
    lemma_path_order_exact(b, c);
    lemma_path_order_exact(a, c);
    lemma_below_transitive(path_bytes(a), path_bytes(b), path_bytes(c));
}

/// Whether `a` sorts before `b`.
fn bytes_less(a: &Vec<u8>, b: &Vec<u8>) -> (r: bool)
    ensures
        r == lex_lt(a@, b@),
{
    let mut i: usize = 0;
    while i < a.len() && i < b.len() && a[i] == b[i]
        invariant
            i <= a@.len(),
            i <= b@.len(),
            forall|j: int| 0 <= j < i ==> #[trigger] a@[j] == b@[j],
        decreases a.len() - i,
    {
        i += 1;
    }
    if i < a.len() && i < b.len() {
        let less = a[i] < b[i];
        proof {
            if less {
                assert(parts_at(a@, b@, i as int));
            } else {
                assert(parts_at(b@, a@, i as int));
                lemma_lex_asymmetric(b@, a@);
            }
        }
        less
    } else {
        let less = a.len() < b.len();
        proof {
            if less {
                assert(b@.subrange(0, a@.len() as int) =~= a@);
            } else {
                if below(a@, b@) {
                    let n = choose|n: int| parts_at(a@, b@, n);
                    assert(a@[n] == b@[n]);
                }
            }
        }
        less
    }
}

/// Whether `a` stands before `b` in path order.
pub fn path_less(a: &StablePath, b: &StablePath) -> (r: bool)
    ensures
        r == path_lt(a@, b@),
{
    let mut x: Vec<u8> = Vec::new();
    let mut y: Vec<u8> = Vec::new();
    let _ = write_path(&mut x, a);
    let _ = write_path(&mut y, b);
    proof {
        assert(x@ =~= path_bytes(a@));
        assert(y@ =~= path_bytes(b@));
        lemma_path_order_exact(a@, b@);
    }
    bytes_less(&x, &y)
}

/// Adds a recorded path where it belongs.
pub fn insert_in_order(
    nodes: &mut Vec<(StablePath, StablePathNodeType)>,
    path: StablePath,
    node_type: StablePathNodeType,
)
    requires
        in_path_order(path_nodes_view(old(nodes)@)),
    ensures
        in_path_order(path_nodes_view(final(nodes)@)),
        path_nodes_view(final(nodes)@).to_multiset() == path_nodes_view(
            old(nodes)@,
        ).to_multiset().insert((path@, node_type)),
{
    let ghost before = path_nodes_view(nodes@);
    let ghost new = path@;
    let mut lo: usize = 0;
    let mut hi: usize = nodes.len();
    while lo < hi
        invariant
            lo <= hi <= nodes@.len(),
            new == path@,
            before == path_nodes_view(nodes@),
            in_path_order(before),
            forall|i: int| 0 <= i < lo ==> !path_lt(new, (#[trigger] before[i]).0),
            forall|j: int| hi <= j < before.len() ==> !path_lt((#[trigger] before[j]).0, new),
        decreases hi - lo,
    {
        let mid: usize = lo + (hi - lo) / 2;
        let ghost there = before[mid as int].0;
        assert(there == nodes@[mid as int].0@);
        if path_less(&path, &nodes[mid].0) {
            proof {
                lemma_path_order_exact(new, there);
                assert forall|j: int| mid <= j < before.len() implies !path_lt(
                    (#[trigger] before[j]).0,
                    new,
                ) by {
                    if path_lt(before[j].0, new) {
                        lemma_path_transitive(before[j].0, new, there);
                        lemma_path_order_exact(there, there);
                        assert(j > mid ==> !path_lt(before[j].0, before[mid as int].0));
                    }
                }
            }
            hi = mid;
        } else {
            proof {
                assert forall|i: int| 0 <= i <= mid implies !path_lt(
                    new,
                    (#[trigger] before[i]).0,
                ) by {
                    if i < mid && path_lt(new, before[i].0) {
                        assert(!path_lt(before[mid as int].0, before[i].0));
                        lemma_path_total(before[i].0, there);
                        if before[i].0 != there {
                            lemma_path_transitive(new, before[i].0, there);
                        }
                    }
                }
            }
            lo = mid + 1;
        }
    }
    nodes.insert(lo, (path, node_type));
    proof {
        let after = path_nodes_view(nodes@);
        let at = lo as int;
        assert(after =~= before.insert(at, (new, node_type)));
        to_multiset_insert(before, at, (new, node_type));
        assert forall|i: int, j: int| 0 <= i < j < after.len() implies !path_lt(
            (#[trigger] after[j]).0,
            (#[trigger] after[i]).0,
        ) by {
            if i < at {
                assert(after[i] == before[i]);
            } else if i > at {
                assert(after[i] == before[i - 1]);
            }
            if j < at {
                assert(after[j] == before[j]);
            } else if j > at {
                assert(after[j] == before[j - 1]);
            }
        }
    }
}

/// The path that a row with this key records, if it is one that records a path.
pub fn path_recorded_by(key: &[u8]) -> (r: Result<Option<StablePath>, StoreError>)
    ensures
        match recorded_path(key@) {
            Ok(Some(path)) => r matches Ok(Some(got)) && got@ == path,
            Ok(None) => r == Ok::<Option<StablePath>, StoreError>(None),
            Err(e) => r == Err::<Option<StablePath>, StoreError>(e),
        },
{
    match DbEntryKey::decode(key) {
        Ok(DbEntryKey::StablePath(parent, StablePathEntryKey::ChildExistence(child))) => {
            let ghost keys = parent@;
            let mut path = parent;
            path.0.push(child);
            assert(path@ =~= keys.push(child@));
            Ok(Some(path))
        },
        Ok(DbEntryKey::StablePath(_, _)) => Ok(None),
        Ok(_) => Err(StoreError::ExpectedStablePath),
        Err(e) => Err(e),
    }
}

impl AppStore {
    /// The recorded paths, each with what it is, in path order, from the rows of
    /// a scan of all stable paths. Fails at the first row that is not one of a
    /// stable path, or that records a path and cannot be read.
    pub fn collect_path_nodes(&self, rows: &Vec<Row>) -> (r: Result<
        Vec<(StablePath, StablePathNodeType)>,
        StoreError,
    >)
        ensures
            lists_nodes(rows_view(rows@), path_nodes_result(r)),
    {
        let ghost all = rows_view(rows@);
        let mut out: Vec<(StablePath, StablePathNodeType)> = Vec::new();
        let mut i: usize = 0;
        proof {
            assert(path_nodes_view(out@) =~= Seq::<Node>::empty());
            assert(all.take(0) =~= Seq::<RowView>::empty());
        }
        while i < rows.len()
            invariant
                i <= rows.len(),
                all == rows_view(rows@),
                in_path_order(path_nodes_view(out@)),
                path_nodes_view(out@).to_multiset() == nodes_in(all.take(i as int)).to_multiset(),
                forall|j: int| 0 <= j < i ==> node_in(#[trigger] all[j]) is Ok,
            decreases rows.len() - i,
        {
            let ghost done = nodes_in(all.take(i as int));
            proof {
                assert(all.take(i + 1).drop_last() =~= all.take(i as int));
                assert(all.take(i + 1).last() == all[i as int]);
                assert(all[i as int] == rows@[i as int]@);
            }
            match path_recorded_by(rows[i].key.as_slice()) {
                Ok(Some(path)) => match ChildExistenceInfo::decode(rows[i].value.as_slice()) {
                    Ok(info) => {
                        proof {
                            to_multiset_build(done, (path@, info.node_type));
                        }
                        insert_in_order(&mut out, path, info.node_type);
                    },
                    Err(e) => {
                        assert(node_in(all[i as int]) == Err::<Option<Node>, StoreError>(e));
                        return Err(e);
                    },
                },
                Ok(None) => {},
                Err(e) => {
                    assert(node_in(all[i as int]) == Err::<Option<Node>, StoreError>(e));
                    return Err(e);
                },
            }
            i += 1;
        }
        assert(all.take(i as int) =~= all);
        Ok(out)
    }
}

/// What is in the list is recorded by some row, and what a row records is in the
/// list; where no two rows record the same, nothing is in it twice.
pub proof fn lemma_nodes_in(rows: Seq<RowView>)
    ensures
        forall|node: Node| #[trigger]
            nodes_in(rows).contains(node) ==> exists|i: int|
                0 <= i < rows.len() && node_in(#[trigger] rows[i]) == Ok::<
                    Option<Node>,
                    StoreError,
                >(Some(node)),
        forall|i: int|
            0 <= i < rows.len() ==> (node_in(#[trigger] rows[i]) matches Ok(Some(node))
                ==> nodes_in(rows).contains(node)),
        (forall|i: int, j: int|
            0 <= i < j < rows.len() ==> node_in(#[trigger] rows[i]) != node_in(#[trigger] rows[j])
                || node_in(rows[i]) == Ok::<Option<Node>, StoreError>(None) || node_in(
                rows[i],
            ) is Err) ==> nodes_in(rows).no_duplicates(),
    decreases rows.len(),
{
    if rows.len() > 0 {
        let init = rows.drop_last();
        let last = rows.last();
        lemma_nodes_in(init);
        let prev = nodes_in(init);
        let all = nodes_in(rows);
        assert(rows[rows.len() - 1] == last);
        assert forall|node: Node| #[trigger] all.contains(node) implies exists|i: int|
            0 <= i < rows.len() && node_in(#[trigger] rows[i]) == Ok::<Option<Node>, StoreError>(
                Some(node),
            ) by {
            let at = choose|at: int| 0 <= at < all.len() && all[at] == node;
            if at < prev.len() {
                assert(prev[at] == node);
                assert(prev.contains(node));
                let i = choose|i: int|
                    0 <= i < init.len() && node_in(#[trigger] init[i]) == Ok::<
                        Option<Node>,
                        StoreError,
                    >(Some(node));
                assert(rows[i] == init[i]);
            } else {
                assert(node_in(rows[rows.len() - 1]) == Ok::<Option<Node>, StoreError>(Some(node)));
            }
        }
        assert forall|i: int| 0 <= i < rows.len() implies (node_in(#[trigger] rows[i]) matches Ok(
            Some(node),
        ) ==> all.contains(node)) by {
            if let Ok(Some(node)) = node_in(rows[i]) {
                if i < init.len() {
                    assert(init[i] == rows[i]);
                    assert(prev.contains(node));
                    let at = choose|at: int| 0 <= at < prev.len() && prev[at] == node;
                    assert(all[at] == node);
                } else {
                    assert(all[all.len() - 1] == node);
                }
            }
        }
        if forall|i: int, j: int|
            0 <= i < j < rows.len() ==> node_in(#[trigger] rows[i]) != node_in(#[trigger] rows[j])
                || node_in(rows[i]) == Ok::<Option<Node>, StoreError>(None) || node_in(
                rows[i],
            ) is Err {
            assert forall|i: int, j: int| 0 <= i < j < init.len() implies node_in(
                #[trigger] init[i],
            ) != node_in(#[trigger] init[j]) || node_in(init[i]) == Ok::<Option<Node>, StoreError>(
                None,
            ) || node_in(init[i]) is Err by {
                assert(init[i] == rows[i] && init[j] == rows[j]);
            }
            if let Ok(Some(node)) = node_in(last) {
                if prev.contains(node) {
                    let i = choose|i: int|
                        0 <= i < init.len() && node_in(#[trigger] init[i]) == Ok::<
                            Option<Node>,
                            StoreError,
                        >(Some(node));
                    assert(rows[i] == init[i]);
                    assert(node_in(rows[i]) != node_in(rows[rows.len() - 1]));
                }
                assert forall|i: int, j: int|
                    0 <= i < all.len() && 0 <= j < all.len() && i != j implies all[i]
                    != all[j] by {
                    if i < prev.len() && j < prev.len() {
                        assert(all[i] == prev[i] && all[j] == prev[j]);
                    } else if i < prev.len() {
                        assert(all[i] == prev[i]);
                        assert(prev.contains(prev[i]));
                    } else {
                        assert(all[j] == prev[j]);
                        assert(prev.contains(prev[j]));
                    }
                }
            }
        }
    }
}

/// A row records a path where its key is that of a child-existence row: the path of
/// the row and the child's key. Other rows of stable paths record none, rows of
/// other kinds are refused, and a key that cannot be read is an error; so is a value
/// that cannot be, where the row records a path.
pub proof fn law_recording_rows(row: RowView, parent: Seq<KeyView>, child: KeyView, node: Node)
    ensures
        recorded_path(row.key) == Ok::<Option<Seq<KeyView>>, StoreError>(Some(parent.push(child)))
            <==> db_key_of(row.key) == Some(
            DbKeyView::StablePath(parent, EntryView::ChildExistence(child)),
        ),
        recorded_path(row.key) == Ok::<Option<Seq<KeyView>>, StoreError>(None) <==> (db_key_of(
            row.key,
        ) matches Some(DbKeyView::StablePath(_, entry)) && !(entry is ChildExistence)),
        recorded_path(row.key) == Err::<Option<Seq<KeyView>>, StoreError>(
            StoreError::ExpectedStablePath,
        ) <==> (db_key_of(row.key) matches Some(key) && !(key is StablePath)),
        recorded_path(row.key) == Err::<Option<Seq<KeyView>>, StoreError>(StoreError::KeyDecode)
            <==> db_key_of(row.key) is None,
        node_in(row) == Ok::<Option<Node>, StoreError>(Some(node)) <==> recorded_path(row.key)
            == Ok::<Option<Seq<KeyView>>, StoreError>(Some(node.0)) && child_existence_of(row.value)
            == Some(ChildExistenceInfo { node_type: node.1 }),
        node_in(row) == Err::<Option<Node>, StoreError>(StoreError::ValueDecode) <==> (
        recorded_path(row.key) matches Ok(Some(_)) && child_existence_of(row.value) is None),
        node_in(row) == Ok::<Option<Node>, StoreError>(None) <==> recorded_path(row.key) == Ok::<
            Option<Seq<KeyView>>,
            StoreError,
        >(None),
{
    if let Some(DbKeyView::StablePath(p, EntryView::ChildExistence(c))) = db_key_of(row.key) {
        assert(p.push(c).drop_last() =~= p);
        assert(p.push(c).last() == c);
        assert(parent.push(child).drop_last() =~= parent);
        assert(parent.push(child).last() == child);
    }
}

/// Paths are ordered key by key: a path stands before those that it leads to, and
/// where two paths part, the keys there decide. String keys stand before symbols, and
/// texts are ordered as their UTF-8 bytes are.
pub proof fn law_path_order_rules(
    path: Seq<KeyView>,
    a: KeyView,
    s: Seq<KeyView>,
    b: KeyView,
    t: Seq<KeyView>,
)
    ensures
        path_lt(path, path + seq![a] + s),
        !path_lt(path + seq![a] + s, path),
        a != b ==> (path_lt(path + seq![a] + s, path + seq![b] + t) <==> (match (a, b) {
            (KeyView::Str(x), KeyView::Str(y)) => lex_lt(encode_utf8(x), encode_utf8(y)),
            (KeyView::Str(_), KeyView::Symbol(_)) => true,
            (KeyView::Symbol(_), KeyView::Str(_)) => false,
            (KeyView::Symbol(x), KeyView::Symbol(y)) => lex_lt(encode_utf8(x), encode_utf8(y)),
        })),
{
    let left = path + seq![a] + s;
    let right = path + seq![b] + t;
    let n = path.len() as int;
    assert(path.take(n) =~= left.take(n));
    assert(left.take(n) =~= right.take(n));
    assert(path_parts_at(path, left, n));
    lemma_path_order_exact(path, left);
    if a != b {
        lemma_key_total(a, b);
        if key_lt(a, b) {
            assert(path_parts_at(left, right, n));
        } else {
            assert(path_parts_at(right, left, n));
            lemma_path_order_exact(right, left);
        }
        if key_lt(a, b) && key_lt(b, a) {
            assert(path_parts_at(right, left, n));
            lemma_path_order_exact(right, left);
        }
    }
}

/// The value of a list of recorded paths is all of it, in order, or the failure.
pub proof fn law_path_nodes_value(
    nodes: Vec<(StablePath, StablePathNodeType)>,
    e: StoreError,
    i: int,
)
    ensures
        path_nodes_view(nodes@).len() == nodes@.len(),
        0 <= i < nodes@.len() ==> path_nodes_view(nodes@)[i] == (nodes@[i].0@, nodes@[i].1),
        path_nodes_result(Ok(nodes)) == Ok::<Seq<Node>, StoreError>(path_nodes_view(nodes@)),
        path_nodes_result(Err(e)) == Err::<Seq<Node>, StoreError>(e),
{
}

} // verus!
