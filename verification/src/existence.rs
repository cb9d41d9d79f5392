//! The path tree: which paths there are, and what each of them is.
//!
//! A path other than the root is recorded in a child-existence row of its
//! parent. Recording a path records the directories that lead to it, from the
//! path upwards, until one is met that is there already.
use crate::app_store::AppStore;
use crate::db_schema::{DbKeyView, EntryView};
use crate::error::StoreError;
use crate::keys::key_child_existence;
use crate::msgpack::word_fails;
use crate::stable_path::{KeyView, StableKey, StablePath, StablePathRef};
use crate::table::{
    canonical, found, law_put, reply_view, rows_of, write_view, written, Lookup, Rows, Table, Write,
    WriteView,
};
use crate::values::{
    child_existence_bytes, child_existence_of, node_type_word, ChildExistenceInfo,
    StablePathNodeType,
};
use vstd::prelude::*;

verus! {

/// Work that is left of recording a path: the next row to look at, and what it
/// should say.
#[derive(Debug, PartialEq, Eq)]
pub struct EnsurePathNodeType {
    pub parent: StablePath,
    pub key: StableKey,
    pub target: StablePathNodeType,
}

/// `EnsurePathNodeType`, as a value.
pub struct EnsureView {
    pub parent: Seq<KeyView>,
    pub key: KeyView,
    pub target: StablePathNodeType,
}

impl View for EnsurePathNodeType {
    type V = EnsureView;

    open spec fn view(&self) -> EnsureView {
        EnsureView { parent: self.parent@, key: self.key@, target: self.target }
    }
}

/// What is to be done about the row that was looked at.
#[derive(Debug, PartialEq, Eq)]
pub struct EnsureDecision {
    /// The row is to be given the target type.
    pub write: bool,
    /// The work that is left after that.
    pub next: Option<EnsurePathNodeType>,
}

/// One step of recording a path.
#[derive(Debug, PartialEq, Eq)]
pub struct EnsureStep {
    /// What to write.
    pub write: Option<Write>,
    /// The work that is left after that.
    pub next: Option<EnsurePathNodeType>,
}

/// The remaining work, as a value.
pub open spec fn ensure_view(work: Option<EnsurePathNodeType>) -> Option<EnsureView> {
    match work {
        Some(op) => Some(op@),
        None => None,
    }
}

/// The child-existence row that records `path`.
pub open spec fn node_row(path: Seq<KeyView>) -> DbKeyView {
    DbKeyView::StablePath(path.drop_last(), EntryView::ChildExistence(path.last()))
}

/// The node type in a looked-up child-existence row, if the row is there.
pub open spec fn node_type_found(reply: Option<Seq<u8>>) -> Result<
    Option<StablePathNodeType>,
    StoreError,
> {
    match reply {
        Some(bytes) => match child_existence_of(bytes) {
            Some(info) => Ok(Some(info.node_type)),
            None => Err(StoreError::ValueDecode),
        },
        None => Ok(None),
    }
}

/// When a row is given the target type: when it is missing, and when it is a
/// directory that is to be a component.
pub open spec fn promotes(
    existing: Option<StablePathNodeType>,
    target: StablePathNodeType,
) -> bool {
    existing is None || (existing == Some(StablePathNodeType::Directory) && target
        == StablePathNodeType::Component)
}

impl EnsureView {
    /// The path that is recorded.
    pub open spec fn path(self) -> Seq<KeyView> {
        self.parent.push(self.key)
    }

    /// What is left once the row was seen to be `existing`: the parent, as a
    /// directory, where the row was missing and the parent is not the root.
    pub open spec fn next(self, existing: Option<StablePathNodeType>) -> Option<EnsureView> {
        if existing is None && self.parent.len() > 0 {
            Some(
                EnsureView {
                    parent: self.parent.drop_last(),
                    key: self.parent.last(),
                    target: StablePathNodeType::Directory,
                },
            )
        } else {
            None
        }
    }

    /// `write` and `next` are a step of this work on a row seen to be
    /// `existing`.
    pub open spec fn step(
        self,
        existing: Option<StablePathNodeType>,
        write: Option<WriteView>,
        next: Option<EnsureView>,
    ) -> bool {
        &&& next == self.next(existing)
        &&& if promotes(existing, self.target) {
            let info = ChildExistenceInfo { node_type: self.target };
            write matches Some(WriteView::Put { key, value }) && key == node_row(
                self.path(),
            ).bytes() && value == child_existence_bytes(info) && child_existence_of(value) == Some(
                info,
            )
        } else {
            write is None
        }
    }
}

/// What resuming gives, as a value.
pub open spec fn step_view(r: Result<EnsureStep, StoreError>) -> Result<
    (Option<WriteView>, Option<EnsureView>),
    StoreError,
> {
    match r {
        Ok(step) => Ok((write_view(step.write), ensure_view(step.next))),
        Err(e) => Err(e),
    }
}

impl EnsureView {
    /// `r` is what resuming gives when the lookup found `reply`. It fails where
    /// the row cannot be read, and where one is to be written and the serializer
    /// fails on it.
    pub open spec fn resumed(
        self,
        reply: Option<Seq<u8>>,
        r: Result<(Option<WriteView>, Option<EnsureView>), StoreError>,
    ) -> bool {
        match node_type_found(reply) {
            Ok(existing) => match r {
                Ok((write, next)) => self.step(existing, write, next),
                Err(e) => e == StoreError::ValueEncode && promotes(existing, self.target)
                    && word_fails("node_type"@, node_type_word(self.target)),
            },
            Err(e) => r == Err::<(Option<WriteView>, Option<EnsureView>), StoreError>(e),
        }
    }
}

/// The row key of a node is that of its parent's child-existence row.
proof fn lemma_node_row(op: EnsureView)
    ensures
        node_row(op.path()) == DbKeyView::StablePath(op.parent, EntryView::ChildExistence(op.key)),
{
    assert(op.path().drop_last() =~= op.parent);
}

impl AppStore {
    /// The node type in a looked-up child-existence row, if it is there.
    pub fn path_node_type(&self, reply: Option<&[u8]>) -> (r: Result<
        Option<StablePathNodeType>,
        StoreError,
    >)
        ensures
            r == node_type_found(reply_view(reply)),
    {
        match self.child_existence(reply) {
            Ok(Some(info)) => Ok(Some(info.node_type)),
            Ok(None) => Ok(None),
            Err(e) => Err(e),
        }
    }
}

impl EnsurePathNodeType {
    /// Starts recording `parent_path/key` as `target`.
    pub fn new(
        parent_path: StablePathRef<'_>,
        key: &StableKey,
        target: StablePathNodeType,
    ) -> (r: Self)
        ensures
            r@ == (EnsureView { parent: parent_path@, key: key@, target }),
    {
        EnsurePathNodeType { parent: parent_path.to_path(), key: key.clone(), target }
    }

    /// The row to look up next.
    pub fn lookup(&self) -> (r: Result<Lookup, StoreError>)
        ensures
            r matches Ok(lookup) && lookup@ == node_row(self@.path()).bytes(),
    {
        proof {
            lemma_node_row(self@);
        }
        match key_child_existence(&self.parent, &self.key) {
            Ok(key) => Ok(Lookup { key }),
            Err(e) => Err(e),
        }
    }

    /// What is to be done about a row of type `existing`, or about a missing
    /// one.
    pub fn decide(&self, existing: Option<StablePathNodeType>) -> (r: EnsureDecision)
        ensures
            r.write == promotes(existing, self.target),
            ensure_view(r.next) == self@.next(existing),
    {
        let write = match (existing, self.target) {
            (None, _) => true,
            (Some(StablePathNodeType::Directory), StablePathNodeType::Component) => true,
            _ => false,
        };
        let next = if existing.is_none() {
            match self.parent.as_ref().split_parent() {
                Some((parent, key)) => Some(
                    EnsurePathNodeType::new(parent, key, StablePathNodeType::Directory),
                ),
                None => None,
            }
        } else {
            None
        };
        EnsureDecision { write, next }
    }

    /// Goes on with what the lookup found. Fails where the row cannot be read,
    /// and where one is to be written and its value cannot be encoded.
    pub fn resume(&self, reply: Option<&[u8]>) -> (r: Result<EnsureStep, StoreError>)
        ensures
            self@.resumed(reply_view(reply), step_view(r)),
            reply is None ==> match r {
                Ok(step) => step.write is Some && (step.next is Some <==> self.parent.0@.len() > 0),
                Err(e) => e == StoreError::ValueEncode && word_fails(
                    "node_type"@,
                    match self.target {
                        StablePathNodeType::Directory => "Directory"@,
                        StablePathNodeType::Component => "Component"@,
                    },
                ),
            },
    {
        let store = AppStore;
        let existing = match store.path_node_type(reply) {
            Ok(existing) => existing,
            Err(e) => {
                return Err(e);
            },
        };
        let decision = self.decide(existing);
        if !decision.write {
            return Ok(EnsureStep { write: None, next: decision.next });
        }
        proof {
            lemma_node_row(self@);
        }
        match store.write_child_existence(
            &self.parent,
            &self.key,
            &ChildExistenceInfo { node_type: self.target },
        ) {
            Ok(write) => Ok(EnsureStep { write: Some(write), next: decision.next }),
            Err(e) => Err(e),
        }
    }
}

// --- The path tree -------------------------------------------------------

/// The recorded paths, and what each of them is.
pub type Nodes = Map<Seq<KeyView>, StablePathNodeType>;

/// The path tree that the rows hold.
pub open spec fn nodes_of(rows: Rows) -> Nodes {
    Map::new(
        |path: Seq<KeyView>|
            path.len() > 0 && rows.dom().contains(node_row(path)) && child_existence_of(
                rows[node_row(path)],
            ) is Some,
        |path: Seq<KeyView>| child_existence_of(rows[node_row(path)])->0.node_type,
    )
}

/// What a node becomes.
pub open spec fn promoted(
    existing: Option<StablePathNodeType>,
    target: StablePathNodeType,
) -> StablePathNodeType {
    if promotes(existing, target) {
        target
    } else {
        existing->0
    }
}

/// What is recorded of `path`.
pub open spec fn node_at(nodes: Nodes, path: Seq<KeyView>) -> Option<StablePathNodeType> {
    if nodes.dom().contains(path) {
        Some(nodes[path])
    } else {
        None
    }
}

/// The path tree once `path` is recorded as `target`.
pub open spec fn ensured(nodes: Nodes, path: Seq<KeyView>, target: StablePathNodeType) -> Nodes
    decreases path.len(),
{
    if path.len() == 0 {
        nodes
    } else {
        let existing = node_at(nodes, path);
        let after = if promotes(existing, target) {
            nodes.insert(path, target)
        } else {
            nodes
        };
        if existing is None {
            ensured(after, path.drop_last(), StablePathNodeType::Directory)
        } else {
            after
        }
    }
}

/// Every recorded path has its parent recorded, down from the root.
pub open spec fn chained(nodes: Nodes) -> bool {
    forall|path: Seq<KeyView>| #[trigger]
        nodes.dom().contains(path) ==> path.len() > 0 && (path.len() > 1 ==> nodes.dom().contains(
            path.drop_last(),
        ))
}

/// Looking at a row goes as the rule of promotion has it. A missing row, whatever
/// its depth, is written as the target, and so is a directory that is to be a
/// component; any other row stays. A missing row leads on to its parent, as a
/// directory, up to the root. What is to be written is written unless the
/// serializer fails on a record of that one word, and a row that cannot be read is
/// an error.
pub proof fn law_recording_step(
    op: EnsureView,
    reply: Option<Seq<u8>>,
    r: Result<(Option<WriteView>, Option<EnsureView>), StoreError>,
)
    ensures
        op.resumed(reply, r) ==> {
            let word = match op.target {
                StablePathNodeType::Directory => "Directory"@,
                StablePathNodeType::Component => "Component"@,
            };
            let row = DbKeyView::StablePath(op.parent, EntryView::ChildExistence(op.key)).bytes();
            let missing = reply is None;
            let readable = reply matches Some(bytes) ==> child_existence_of(bytes) is Some;
            let directory = ChildExistenceInfo { node_type: StablePathNodeType::Directory };
            let due = missing || (op.target == StablePathNodeType::Component && child_existence_of(
                reply->0,
            ) == Some(directory));
            &&& !readable ==> r == Err::<(Option<WriteView>, Option<EnsureView>), StoreError>(
                StoreError::ValueDecode,
            )
            &&& readable && !due ==> r == Ok::<
                (Option<WriteView>, Option<EnsureView>),
                StoreError,
            >((None, None))
            &&& due && !word_fails("node_type"@, word) ==> r is Ok
            &&& due && r is Err ==> r->Err_0 == StoreError::ValueEncode
            &&& due && r is Ok ==> {
                &&& r->Ok_0.0 matches Some(WriteView::Put { key, value }) && key == row
                    && child_existence_of(value) == Some(
                    ChildExistenceInfo { node_type: op.target },
                )
                &&& missing && op.parent.len() > 0 ==> r->Ok_0.1 == Some(
                    EnsureView {
                        parent: op.parent.drop_last(),
                        key: op.parent.last(),
                        target: StablePathNodeType::Directory,
                    },
                )
                &&& !(missing && op.parent.len() > 0) ==> r->Ok_0.1 is None
            }
        },
{
    lemma_node_row(op);
}

/// The row that records a path is the child-existence row of its last key under the
/// path before it.
pub proof fn law_node_row(parent: Seq<KeyView>, key: KeyView)
    ensures
        node_row(parent.push(key)) == DbKeyView::StablePath(parent, EntryView::ChildExistence(key)),
{
    assert(parent.push(key).drop_last() =~= parent);
}

/// The value of work that is left, and of a step, is all of it, or the failure.
pub proof fn law_step_value(op: EnsurePathNodeType, step: EnsureStep, e: StoreError)
    ensures
        op@.parent == op.parent@ && op@.key == op.key@ && op@.target == op.target,
        ensure_view(Some(op)) == Some(op@) && ensure_view(None) is None,
        step_view(Ok(step)) == Ok::<(Option<WriteView>, Option<EnsureView>), StoreError>(
            (write_view(step.write), ensure_view(step.next)),
        ),
        step_view(Err(e)) == Err::<(Option<WriteView>, Option<EnsureView>), StoreError>(e),
{
}

/// A step does its part of recording the path: what is left to do after it
/// brings the tree to where the whole work brings it, and no other row changes.
pub proof fn law_ensure_step(
    table: Table,
    op: EnsureView,
    existing: Option<StablePathNodeType>,
    write: Option<WriteView>,
    next: Option<EnsureView>,
)
    ensures
        node_type_found(found(table, node_row(op.path()).bytes())) == Ok::<
            Option<StablePathNodeType>,
            StoreError,
        >(existing) && op.step(existing, write, next) ==> {
            let after = written(table, write);
            &&& match next {
                Some(rest) => ensured(nodes_of(rows_of(after)), rest.path(), rest.target)
                    == ensured(nodes_of(rows_of(table)), op.path(), op.target),
                None => nodes_of(rows_of(after)) == ensured(
                    nodes_of(rows_of(table)),
                    op.path(),
                    op.target,
                ),
            }
            &&& rows_of(after).remove(node_row(op.path())) == rows_of(table).remove(
                node_row(op.path()),
            )
        },
{
    let row = node_row(op.path());
    if node_type_found(found(table, row.bytes())) == Ok::<Option<StablePathNodeType>, StoreError>(
        existing,
    ) && op.step(existing, write, next) {
        let after = written(table, write);
        let before_nodes = nodes_of(rows_of(table));
        let after_nodes = nodes_of(rows_of(after));
        assert(node_at(before_nodes, op.path()) == existing);
        assert(op.path().drop_last() =~= op.parent);
        if promotes(existing, op.target) {
            let value = write->0->Put_value;
            law_put(table, row, value);
            assert forall|path: Seq<KeyView>| path.len() > 0 && path != op.path() implies node_row(
                path,
            ) != row by {
                if node_row(path) == row {
                    assert(path =~= path.drop_last().push(path.last()));
                    assert(op.path() =~= op.path().drop_last().push(op.path().last()));
                }
            }
            assert(after_nodes =~= before_nodes.insert(op.path(), op.target));
            assert(rows_of(after).remove(row) =~= rows_of(table).remove(row));
        }
        if existing is None {
            if op.parent.len() > 0 {
                assert(op.parent.drop_last().push(op.parent.last()) =~= op.parent);
            } else {
                assert(ensured(after_nodes, op.parent, StablePathNodeType::Directory)
                    == after_nodes);
            }
        }
    }
}

/// Carrying out the steps of `op` one after the other, each on what the one
/// before left, can take the table from `before` to `after`.
pub open spec fn runs(op: EnsureView, before: Table, after: Table) -> bool
    decreases op.parent.len(),
{
    match node_type_found(found(before, node_row(op.path()).bytes())) {
        Ok(existing) => exists|write: Option<WriteView>| #[trigger]
            op.step(existing, write, op.next(existing)) && (if existing is None && op.parent.len()
                > 0 {
                runs(
                    EnsureView {
                        parent: op.parent.drop_last(),
                        key: op.parent.last(),
                        target: StablePathNodeType::Directory,
                    },
                    written(before, write),
                    after,
                )
            } else {
                after == written(before, write)
            }),
        Err(_) => false,
    }
}

/// The value of the row `k`, if it is there.
pub open spec fn row_at(table: Table, k: DbKeyView) -> Option<Seq<u8>> {
    if rows_of(table).dom().contains(k) {
        Some(rows_of(table)[k])
    } else {
        None
    }
}

/// A row may go from `before` to `after` while paths are recorded: it stays, or it
/// is written where it was missing, or where a directory becomes a component.
pub open spec fn carried(before: Option<Seq<u8>>, after: Option<Seq<u8>>) -> bool {
    after == before || (after matches Some(value) && child_existence_of(value) matches Some(info)
        && value == child_existence_bytes(info) && (before matches Some(old)
        ==> child_existence_of(old) == Some(
        ChildExistenceInfo { node_type: StablePathNodeType::Directory },
    ) && info.node_type == StablePathNodeType::Component))
}

/// Carried out to its end, the work records the path in the tree, writes
/// child-existence rows of the path and its ancestors alone, leaves every row
/// that was there as it was, but for that of the path where it is promoted, writes
/// the bytes of what it records, and leaves the table canonical.
pub proof fn law_ensure_run(op: EnsureView, before: Table, after: Table)
    ensures
        runs(op, before, after) ==> {
            &&& nodes_of(rows_of(after)) == ensured(nodes_of(rows_of(before)), op.path(), op.target)
            &&& forall|k: DbKeyView|
                !recording_row(op.path(), k) ==> #[trigger] rows_of(after).dom().contains(k)
                    == rows_of(before).dom().contains(k) && (rows_of(before).dom().contains(k)
                    ==> rows_of(after)[k] == rows_of(before)[k])
            &&& forall|k: DbKeyView| #[trigger]
                rows_of(before).dom().contains(k) && (k != node_row(op.path()) || op.target
                    == StablePathNodeType::Directory) ==> rows_of(after).dom().contains(k)
                    && rows_of(after)[k] == rows_of(before)[k]
            &&& forall|k: DbKeyView| carried(#[trigger] row_at(before, k), row_at(after, k))
            &&& canonical(before) ==> canonical(after)
        },
    decreases op.parent.len(),
{
    if runs(op, before, after) {
        let row = node_row(op.path());
        let reply = node_type_found(found(before, row.bytes()));
        let existing = reply->Ok_0;
        let write = choose|write: Option<WriteView>| #[trigger]
            op.step(existing, write, op.next(existing)) && (if existing is None && op.parent.len()
                > 0 {
                runs(
                    EnsureView {
                        parent: op.parent.drop_last(),
                        key: op.parent.last(),
                        target: StablePathNodeType::Directory,
                    },
                    written(before, write),
                    after,
                )
            } else {
                after == written(before, write)
            });
        let mid = written(before, write);
        law_ensure_step(before, op, existing, write, op.next(existing));
        if write is Some {
            law_put(before, row, write->0->Put_value);
        }
        assert forall|k: DbKeyView| #[trigger]
            rows_of(before).dom().contains(k) && (k != row || op.target
                == StablePathNodeType::Directory) implies rows_of(mid).dom().contains(k) && rows_of(
            mid,
        )[k] == rows_of(before)[k] by {
            if k == row {
                assert(existing is Some);
            }
        }
        assert forall|k: DbKeyView| carried(#[trigger] row_at(before, k), row_at(mid, k)) by {
            if k == row {
                if rows_of(before).dom().contains(k) {
                    assert(existing is Some);
                }
            } else {
                assert(rows_of(mid).dom().contains(k) == rows_of(before).dom().contains(k));
            }
        }
        assert(op.path().subrange(0, op.path().len() as int) =~= op.path());
        assert(op.path().is_prefix_of(op.path()));
        assert(recording_row(op.path(), row));
        if existing is None && op.parent.len() > 0 {
            let rest = op.next(existing)->0;
            law_ensure_run(rest, mid, after);
            assert forall|k: DbKeyView| #[trigger]
                rows_of(before).dom().contains(k) && (k != row || op.target
                    == StablePathNodeType::Directory) implies rows_of(after).dom().contains(k)
                && rows_of(after)[k] == rows_of(before)[k] by {
                assert(rows_of(mid).dom().contains(k));
            }
            assert forall|k: DbKeyView| carried(#[trigger] row_at(before, k), row_at(after, k)) by {
                assert(carried(row_at(mid, k), row_at(after, k)));
            }
            assert(rest.path() =~= op.parent);
            assert forall|k: DbKeyView| !recording_row(op.path(), k) implies !recording_row(
                op.parent,
                k,
            ) by {
                if recording_row(op.parent, k) {
                    let p = choose|p: Seq<KeyView>| #[trigger]
                        p.is_prefix_of(op.parent) && p.len() > 0 && k == node_row(p);
                    assert(op.path().subrange(0, p.len() as int) =~= op.parent.subrange(
                        0,
                        p.len() as int,
                    ));
                    assert(p.is_prefix_of(op.path()));
                }
            }
        }
    }
}

/// `k` is the row that records `path` or one of its ancestors.
pub open spec fn recording_row(path: Seq<KeyView>, k: DbKeyView) -> bool {
    exists|p: Seq<KeyView>| #[trigger] p.is_prefix_of(path) && p.len() > 0 && k == node_row(p)
}

/// The path is recorded, as the target where it was missing or is promoted,
/// and as what it was otherwise.
pub proof fn law_ensure_records(nodes: Nodes, path: Seq<KeyView>, target: StablePathNodeType)
    requires
        path.len() > 0,
    ensures
        node_at(ensured(nodes, path, target), path) == Some(
            promoted(node_at(nodes, path), target),
        ),
{
    let after = nodes.insert(path, target);
    if node_at(nodes, path) is None {
        law_ensure_keeps(after, path.drop_last(), StablePathNodeType::Directory);
        assert(after.dom().contains(path));
        assert(path.drop_last().len() < path.len());
    }
}

/// No recorded path is lost, none but the path itself changes what it is, and
/// no component becomes a directory.
pub proof fn law_ensure_keeps(nodes: Nodes, path: Seq<KeyView>, target: StablePathNodeType)
    ensures
        forall|p: Seq<KeyView>| #[trigger]
            nodes.dom().contains(p) ==> ensured(nodes, path, target).dom().contains(p) && (ensured(
                nodes,
                path,
                target,
            )[p] == nodes[p] || (p == path && nodes[p] == StablePathNodeType::Directory && ensured(
                nodes,
                path,
                target,
            )[p] == StablePathNodeType::Component)),
    decreases path.len(),
{
    if path.len() > 0 {
        let existing = node_at(nodes, path);
        let after = if promotes(existing, target) {
            nodes.insert(path, target)
        } else {
            nodes
        };
        if existing is None {
            law_ensure_keeps(after, path.drop_last(), StablePathNodeType::Directory);
            assert forall|p: Seq<KeyView>| #[trigger] nodes.dom().contains(p) implies ensured(
                nodes,
                path,
                target,
            ).dom().contains(p) && ensured(nodes, path, target)[p] == nodes[p] by {
                assert(after.dom().contains(p));
                assert(after[p] == nodes[p]);
                if p == path.drop_last() {
                    lemma_directory_keeps(after, p);
                }
            }
        }
    }
}

/// Ensuring a directory leaves a recorded path as it is.
proof fn lemma_directory_keeps(nodes: Nodes, path: Seq<KeyView>)
    requires
        nodes.dom().contains(path),
    ensures
        ensured(nodes, path, StablePathNodeType::Directory) == nodes,
{
}

/// Only the path and its ancestors are newly recorded, the ancestors as
/// directories.
pub proof fn law_ensure_adds(nodes: Nodes, path: Seq<KeyView>, target: StablePathNodeType)
    ensures
        forall|p: Seq<KeyView>|
            #![trigger ensured(nodes, path, target).dom().contains(p)]
            ensured(nodes, path, target).dom().contains(p) && !nodes.dom().contains(p)
                ==> p.len() > 0 && p.is_prefix_of(path) && (p != path ==> ensured(
                nodes,
                path,
                target,
            )[p] == StablePathNodeType::Directory),
    decreases path.len(),
{
    if path.len() > 0 {
        let existing = node_at(nodes, path);
        if existing is None {
            let after = nodes.insert(path, target);
            let up = path.drop_last();
            let result = ensured(nodes, path, target);
            law_ensure_adds(after, up, StablePathNodeType::Directory);
            assert forall|p: Seq<KeyView>|
                #![trigger result.dom().contains(p)]
                result.dom().contains(p) && !nodes.dom().contains(p) implies p.len() > 0
                && p.is_prefix_of(path) && (p != path ==> result[p]
                == StablePathNodeType::Directory) by {
                if p != path {
                    assert(!after.dom().contains(p));
                    assert(ensured(after, up, StablePathNodeType::Directory).dom().contains(p));
                    assert(p.is_prefix_of(up));
                    assert(path.subrange(0, p.len() as int) =~= up.subrange(0, p.len() as int));
                    if p == up {
                        law_ensure_records(after, up, StablePathNodeType::Directory);
                    }
                } else {
                    assert(path.subrange(0, path.len() as int) =~= path);
                }
            }
        }
    }
}

/// Where every recorded path has its ancestors recorded, it still has them
/// afterwards.
pub proof fn law_ensure_chained(nodes: Nodes, path: Seq<KeyView>, target: StablePathNodeType)
    requires
        chained(nodes),
    ensures
        chained(ensured(nodes, path, target)),
{
    lemma_ensure_chained(nodes, path, target, Seq::empty());
}

/// The tree may lack the parent of `path` alone, below which `open` hangs.
proof fn lemma_ensure_chained(
    nodes: Nodes,
    path: Seq<KeyView>,
    target: StablePathNodeType,
    open: Seq<KeyView>,
)
    requires
        forall|p: Seq<KeyView>| #[trigger]
            nodes.dom().contains(p) ==> p.len() > 0 && (p.len() > 1 && !(p == open && p.drop_last()
                == path) ==> nodes.dom().contains(p.drop_last())),
    ensures
        chained(ensured(nodes, path, target)),
    decreases path.len(),
{
    let result = ensured(nodes, path, target);
    if path.len() == 0 {
        assert forall|p: Seq<KeyView>| #[trigger] result.dom().contains(p) implies p.len() > 0 && (
        p.len() > 1 ==> result.dom().contains(p.drop_last())) by {
            if p.len() > 1 {
                assert(p.drop_last().len() == p.len() - 1);
            }
        }
    } else {
        let existing = node_at(nodes, path);
        let after = if promotes(existing, target) {
            nodes.insert(path, target)
        } else {
            nodes
        };
        if existing is None {
            lemma_ensure_chained(after, path.drop_last(), StablePathNodeType::Directory, path);
        } else {
            assert(after.dom() =~= nodes.dom());
        }
    }
}

/// Where the tree has its ancestors recorded, every ancestor of the path is
/// recorded afterwards, and the path itself.
pub proof fn law_ensure_ancestors(
    nodes: Nodes,
    path: Seq<KeyView>,
    target: StablePathNodeType,
    ancestor: Seq<KeyView>,
)
    requires
        chained(nodes),
        ancestor.is_prefix_of(path),
        ancestor.len() > 0,
    ensures
        ensured(nodes, path, target).dom().contains(ancestor),
{
    law_ensure_chained(nodes, path, target);
    law_ensure_records(nodes, path, target);
    lemma_chained_prefix(ensured(nodes, path, target), path, ancestor);
}

/// In a chained tree the ancestors of a recorded path are recorded.
proof fn lemma_chained_prefix(nodes: Nodes, path: Seq<KeyView>, ancestor: Seq<KeyView>)
    requires
        chained(nodes),
        nodes.dom().contains(path),
        ancestor.is_prefix_of(path),
        ancestor.len() > 0,
    ensures
        nodes.dom().contains(ancestor),
    decreases path.len(),
{
    if ancestor.len() == path.len() {
        assert(path.subrange(0, ancestor.len() as int) =~= path);
    } else {
        let up = path.drop_last();
        assert(up.subrange(0, ancestor.len() as int) =~= path.subrange(0, ancestor.len() as int));
        lemma_chained_prefix(nodes, up, ancestor);
    }
}

/// Recording a path again changes nothing.
pub proof fn law_ensure_idempotent(nodes: Nodes, path: Seq<KeyView>, target: StablePathNodeType)
    ensures
        ensured(ensured(nodes, path, target), path, target) == ensured(nodes, path, target),
{
    if path.len() > 0 {
        law_ensure_records(nodes, path, target);
    }
}

/// In a tree that has its ancestors recorded, exactly the path and its ancestors are
/// added; the path is a component where it is asked for as one, what was a
/// component stays one, and all else is a directory.
pub proof fn law_ensure_exact(
    nodes: Nodes,
    path: Seq<KeyView>,
    target: StablePathNodeType,
    at: Seq<KeyView>,
)
    requires
        chained(nodes),
    ensures
        node_at(ensured(nodes, path, target), at) == (if nodes.dom().contains(at) || (at.len() > 0
            && at.is_prefix_of(path)) {
            if node_at(nodes, at) == Some(StablePathNodeType::Component) || (at == path && target
                == StablePathNodeType::Component) {
                Some(StablePathNodeType::Component)
            } else {
                Some(StablePathNodeType::Directory)
            }
        } else {
            None
        }),
{
    let result = ensured(nodes, path, target);
    law_ensure_keeps(nodes, path, target);
    law_ensure_adds(nodes, path, target);
    if path.len() > 0 {
        law_ensure_records(nodes, path, target);
    }
    if at.len() > 0 && at.is_prefix_of(path) {
        law_ensure_ancestors(nodes, path, target, at);
        assert(result.dom().contains(at));
    }
    if nodes.dom().contains(at) {
        assert(result.dom().contains(at));
    }
}

/// Two paths may be recorded in either order: in a tree that has its ancestors
/// recorded, both lead to the same tree.
pub proof fn law_ensure_commutes(
    nodes: Nodes,
    p: Seq<KeyView>,
    s: StablePathNodeType,
    q: Seq<KeyView>,
    t: StablePathNodeType,
)
    requires
        chained(nodes),
    ensures
        ensured(ensured(nodes, p, s), q, t) == ensured(ensured(nodes, q, t), p, s),
{
    let one = ensured(ensured(nodes, p, s), q, t);
    let other = ensured(ensured(nodes, q, t), p, s);
    law_ensure_chained(nodes, p, s);
    law_ensure_chained(nodes, q, t);
    assert forall|at: Seq<KeyView>| node_at(one, at) == #[trigger] node_at(other, at) by {
        law_ensure_exact(nodes, p, s, at);
        law_ensure_exact(nodes, q, t, at);
        law_ensure_exact(ensured(nodes, p, s), q, t, at);
        law_ensure_exact(ensured(nodes, q, t), p, s, at);
    }
    assert forall|at: Seq<KeyView>| #[trigger]
        one.dom().contains(at) == other.dom().contains(at) by {
        assert(node_at(one, at) == node_at(other, at));
    }
    assert forall|at: Seq<KeyView>| #[trigger] one.dom().contains(at) implies one[at]
        == other[at] by {
        assert(node_at(one, at) == node_at(other, at));
    }
    assert(one =~= other);
}

/// Carried out in either order, the recordings of two paths leave the same rows,
/// where the tree that they start from has its ancestors recorded.
pub proof fn law_ensure_runs_commute(
    a: EnsureView,
    b: EnsureView,
    start: Table,
    after_a: Table,
    after_a_b: Table,
    after_b: Table,
    after_b_a: Table,
)
    ensures
        chained(nodes_of(rows_of(start))) && runs(a, start, after_a) && runs(b, after_a, after_a_b)
            && runs(b, start, after_b) && runs(a, after_b, after_b_a) ==> rows_of(after_a_b)
            == rows_of(after_b_a),
{
    if chained(nodes_of(rows_of(start))) && runs(a, start, after_a) && runs(b, after_a, after_a_b)
        && runs(b, start, after_b) && runs(a, after_b, after_b_a) {
        law_ensure_run(a, start, after_a);
        law_ensure_run(b, after_a, after_a_b);
        law_ensure_run(b, start, after_b);
        law_ensure_run(a, after_b, after_b_a);
        let nodes = nodes_of(rows_of(start));
        law_ensure_commutes(nodes, a.path(), a.target, b.path(), b.target);
        assert(nodes_of(rows_of(after_a_b)) == nodes_of(rows_of(after_b_a)));
        assert forall|k: DbKeyView| #[trigger]
            row_at(after_a_b, k) == row_at(after_b_a, k) by {
            assert(carried(row_at(start, k), row_at(after_a, k)));
            assert(carried(row_at(after_a, k), row_at(after_a_b, k)));
            assert(carried(row_at(start, k), row_at(after_b, k)));
            assert(carried(row_at(after_b, k), row_at(after_b_a, k)));
            assert(carried(row_at(start, k), row_at(after_a_b, k)));
            assert(carried(row_at(start, k), row_at(after_b_a, k)));
            if recording_row(a.path(), k) || recording_row(b.path(), k) {
                let path = if recording_row(a.path(), k) {
                    choose|p: Seq<KeyView>| #[trigger]
                        p.is_prefix_of(a.path()) && p.len() > 0 && k == node_row(p)
                } else {
                    choose|p: Seq<KeyView>| #[trigger]
                        p.is_prefix_of(b.path()) && p.len() > 0 && k == node_row(p)
                };
                assert(node_at(nodes_of(rows_of(after_a_b)), path) == node_at(
                    nodes_of(rows_of(after_b_a)),
                    path,
                ));
            } else {
                assert(rows_of(after_a).dom().contains(k) == rows_of(start).dom().contains(k));
                assert(rows_of(after_a_b).dom().contains(k) == rows_of(after_a).dom().contains(k));
                assert(rows_of(after_b).dom().contains(k) == rows_of(start).dom().contains(k));
                assert(rows_of(after_b_a).dom().contains(k) == rows_of(after_b).dom().contains(k));
            }
        }
        assert forall|k: DbKeyView| #[trigger]
            rows_of(after_a_b).dom().contains(k) == rows_of(after_b_a).dom().contains(k) by {
            assert(row_at(after_a_b, k) == row_at(after_b_a, k));
        }
        assert forall|k: DbKeyView| #[trigger]
            rows_of(after_a_b).dom().contains(k) implies rows_of(after_a_b)[k] == rows_of(
            after_b_a,
        )[k] by {
            assert(row_at(after_a_b, k) == row_at(after_b_a, k));
        }
        assert(rows_of(after_a_b) =~= rows_of(after_b_a));
    }
}

/// Recording a component makes it one whatever it was before.
pub proof fn law_ensure_component(nodes: Nodes, path: Seq<KeyView>)
    requires
        path.len() > 0,
    ensures
        node_at(ensured(nodes, path, StablePathNodeType::Component), path) == Some(
            StablePathNodeType::Component,
        ),
{
    law_ensure_records(nodes, path, StablePathNodeType::Component);
}

} // verus!
