//! ID sequencers: each hands out ranges of IDs, from 1 up, no ID twice.
use crate::app_store::AppStore;
use crate::db_schema::DbKeyView;
use crate::error::StoreError;
use crate::keys::key_id_sequencer;
use crate::msgpack::number_fails;
use crate::stable_path::{KeyView, StableKey};
use crate::table::{
    apply, canonical, found, law_put, put_encoded, reply_view, rows_of, write_result, Lookup, Rows,
    Table, Write, WriteView,
};
use crate::values::{id_sequencer_bytes, id_sequencer_of, IdSequencerInfo};
use vstd::prelude::*;

verus! {

/// The first ID of a sequencer that has handed out none; 0 is kept free.
pub const FIRST_ID: u64 = 1;

/// A reservation of `count` IDs from the sequencer `key`.
#[derive(Debug, PartialEq, Eq)]
pub struct ReserveIdRange {
    pub key: StableKey,
    pub count: u64,
}

/// A reserved range: its first ID, and what to write so that none of its IDs is
/// handed out again.
#[derive(Debug, PartialEq, Eq)]
pub struct ReservedIdRange {
    pub first_id: u64,
    pub write: Write,
}

/// The next free ID in a looked-up sequencer row, if the row is there.
pub open spec fn next_id_found(reply: Option<Seq<u8>>) -> Result<Option<u64>, StoreError> {
    match reply {
        Some(bytes) => match id_sequencer_of(bytes) {
            Some(info) => Ok(Some(info.next_id)),
            None => Err(StoreError::ValueDecode),
        },
        None => Ok(None),
    }
}

/// The first ID of the next range.
pub open spec fn first_free(next_id: Option<u64>) -> u64 {
    match next_id {
        Some(id) => id,
        None => FIRST_ID,
    }
}

/// `r` is what giving the sequencer `key` the next free ID `next_id` gives: it fails
/// where the serializer does.
pub open spec fn next_id_write(
    key: KeyView,
    next_id: u64,
    r: Result<WriteView, StoreError>,
) -> bool {
    match r {
        Ok(write) => write matches WriteView::Put { key: row, value } && row
            == DbKeyView::IdSequencer(key).bytes() && value == id_sequencer_bytes(
            IdSequencerInfo { next_id },
        ) && id_sequencer_of(value) == Some(IdSequencerInfo { next_id }),
        Err(e) => e == StoreError::ValueEncode && number_fails("next_id"@, next_id),
    }
}

impl AppStore {
    /// The next free ID in a looked-up sequencer row, if it is there.
    pub fn id_sequence(&self, reply: Option<&[u8]>) -> (r: Result<Option<u64>, StoreError>)
        ensures
            r == next_id_found(reply_view(reply)),
    {
        match reply {
            Some(bytes) => match IdSequencerInfo::decode(bytes) {
                Ok(info) => Ok(Some(info.next_id)),
                Err(e) => Err(e),
            },
            None => Ok(None),
        }
    }

    /// Gives the sequencer `key` the next free ID `next_id`. Fails only where
    /// that cannot be encoded.
    pub fn write_id_sequence(&self, key: &StableKey, next_id: u64) -> (r: Result<
        Write,
        StoreError,
    >)
        ensures
            next_id_write(key@, next_id, write_result(r)),
    {
        match key_id_sequencer(key) {
            Ok(row) => put_encoded(row, (IdSequencerInfo { next_id }).encode()),
            Err(e) => Err(e),
        }
    }
}

/// Cuts the next `count` IDs off: the first of them, and the next free ID after
/// them.
pub fn cut_range(next_id: Option<u64>, count: u64) -> (r: (u64, u64))
    requires
        first_free(next_id) + count <= u64::MAX,
    ensures
        r.0 == first_free(next_id),
        r.1 == first_free(next_id) + count,
{
    let first: u64 = match next_id {
        Some(id) => id,
        None => FIRST_ID,
    };
    (first, first + count)
}

/// `write` makes `next_id` the next free ID of the sequencer `key`.
pub open spec fn moves_past(key: KeyView, next_id: int, write: WriteView) -> bool {
    let left = IdSequencerInfo { next_id: next_id as u64 };
    write matches WriteView::Put { key: row, value } && row == DbKeyView::IdSequencer(key).bytes()
        && value == id_sequencer_bytes(left) && id_sequencer_of(value) == Some(left)
}

impl ReserveIdRange {
    /// The row to look up.
    pub fn lookup(&self) -> (r: Result<Lookup, StoreError>)
        ensures
            r matches Ok(lookup) && lookup@ == DbKeyView::IdSequencer(self.key@).bytes(),
    {
        match key_id_sequencer(&self.key) {
            Ok(key) => Ok(Lookup { key }),
            Err(e) => Err(e),
        }
    }

    /// The first ID of the range, and the next free ID after it, where the next
    /// free ID is `next_id`. Fails where not that many IDs are left.
    pub fn range(&self, next_id: Option<u64>) -> (r: Result<(u64, u64), StoreError>)
        ensures
            r == (if first_free(next_id) + self.count > u64::MAX {
                Err::<(u64, u64), StoreError>(StoreError::IdRangeExhausted)
            } else {
                Ok((first_free(next_id), (first_free(next_id) + self.count) as u64))
            }),
    {
        let current: u64 = match next_id {
            Some(id) => id,
            None => FIRST_ID,
        };
        if self.count > u64::MAX - current {
            return Err(StoreError::IdRangeExhausted);
        }
        Ok(cut_range(next_id, self.count))
    }

    /// `range` is a reservation of this many IDs from a sequencer whose next
    /// free ID is `next_id`.
    pub open spec fn reserves(self, next_id: Option<u64>, range: ReservedIdRange) -> bool {
        range.first_id == first_free(next_id) && moves_past(
            self.key@,
            first_free(next_id) + self.count,
            range.write@,
        )
    }

    /// `r` is what resuming gives when the lookup found `reply`. It fails where
    /// the row cannot be read, where not that many IDs are left, and where the
    /// serializer fails on the new state.
    pub open spec fn resumed(
        self,
        reply: Option<Seq<u8>>,
        r: Result<ReservedIdRange, StoreError>,
    ) -> bool {
        match next_id_found(reply) {
            Ok(next_id) => if first_free(next_id) + self.count > u64::MAX {
                r == Err::<ReservedIdRange, StoreError>(StoreError::IdRangeExhausted)
            } else {
                match r {
                    Ok(range) => self.reserves(next_id, range),
                    Err(e) => e == StoreError::ValueEncode && number_fails(
                        "next_id"@,
                        (first_free(next_id) + self.count) as u64,
                    ),
                }
            },
            Err(e) => r == Err::<ReservedIdRange, StoreError>(e),
        }
    }

    /// Reserves the range, given what the lookup found. Fails where the row
    /// cannot be read, where not that many IDs are left, and where the new
    /// value cannot be encoded.
    pub fn resume(&self, reply: Option<&[u8]>) -> (r: Result<ReservedIdRange, StoreError>)
        ensures
            self.resumed(reply_view(reply), r),
            reply is None && self.count < u64::MAX ==> match r {
                Ok(range) => range.first_id == 1,
                Err(e) => e == StoreError::ValueEncode && number_fails(
                    "next_id"@,
                    (1 + self.count) as u64,
                ),
            },
            reply is None && self.count == u64::MAX ==> r == Err::<ReservedIdRange, StoreError>(
                StoreError::IdRangeExhausted,
            ),
    {
        let store = AppStore;
        let next_id = match store.id_sequence(reply) {
            Ok(next_id) => next_id,
            Err(e) => {
                return Err(e);
            },
        };
        let (first_id, next): (u64, u64) = match self.range(next_id) {
            Ok(range) => range,
            Err(e) => {
                return Err(e);
            },
        };
        match store.write_id_sequence(&self.key, next) {
            Ok(write) => Ok(ReservedIdRange { first_id, write }),
            Err(e) => Err(e),
        }
    }
}

/// The next free ID of the sequencer `key`, as the rows have it.
pub open spec fn next_id_of(rows: Rows, key: KeyView) -> Option<u64> {
    if rows.dom().contains(DbKeyView::IdSequencer(key)) {
        match id_sequencer_of(rows[DbKeyView::IdSequencer(key)]) {
            Some(info) => Some(info.next_id),
            None => None,
        }
    } else {
        None
    }
}

/// A sequencer that has handed out none starts at 1, and one that has where its row
/// says; any count is reserved that leaves the next free ID within 64 bits, unless
/// the serializer fails on a record of that one number. The row then holds the ID
/// behind the range. Where the count is too large, or the row cannot be read, it
/// is an error.
pub proof fn law_reservation(
    op: ReserveIdRange,
    reply: Option<Seq<u8>>,
    r: Result<ReservedIdRange, StoreError>,
)
    ensures
        op.resumed(reply, r) ==> {
            let readable = reply matches Some(bytes) ==> id_sequencer_of(bytes) is Some;
            let start: int = match reply {
                Some(bytes) => id_sequencer_of(bytes)->0.next_id as int,
                None => 1,
            };
            let end = start + op.count;
            &&& !readable ==> r == Err::<ReservedIdRange, StoreError>(StoreError::ValueDecode)
            &&& readable && end > 0xffff_ffff_ffff_ffff ==> r == Err::<
                ReservedIdRange,
                StoreError,
            >(StoreError::IdRangeExhausted)
            &&& readable && end <= 0xffff_ffff_ffff_ffff ==> {
                &&& !number_fails("next_id"@, end as u64) ==> r is Ok
                &&& r is Err ==> r->Err_0 == StoreError::ValueEncode
                &&& r matches Ok(range) ==> range.first_id == start && (
                range.write@ matches WriteView::Put { key, value } && key
                    == DbKeyView::IdSequencer(op.key@).bytes() && (id_sequencer_of(
                    value,
                ) matches Some(info) && info.next_id == end))
            }
        },
{
}

/// A reservation starts at the next free ID, or at 1 where none was handed out,
/// moves the next free ID behind the range, and touches no other row.
pub proof fn law_reserve(
    table: Table,
    op: ReserveIdRange,
    next_id: Option<u64>,
    range: ReservedIdRange,
)
    ensures
        next_id_found(found(table, DbKeyView::IdSequencer(op.key@).bytes())) == Ok::<
            Option<u64>,
            StoreError,
        >(next_id) && first_free(next_id) + op.count <= u64::MAX && op.reserves(next_id, range)
            ==> {
            let after = apply(table, range.write@);
            &&& next_id_of(rows_of(table), op.key@) == next_id
            &&& next_id_of(rows_of(after), op.key@) == Some(
                (range.first_id + op.count) as u64,
            )
            &&& rows_of(after).remove(DbKeyView::IdSequencer(op.key@)) == rows_of(table).remove(
                DbKeyView::IdSequencer(op.key@),
            )
            &&& canonical(table) ==> canonical(after)
        },
{
    if op.reserves(next_id, range) {
        let row = DbKeyView::IdSequencer(op.key@);
        law_put(table, row, range.write@->Put_value);
        assert(rows_of(apply(table, range.write@)).remove(row) =~= rows_of(table).remove(row));
    }
}

/// `states` are the next free IDs of a sequencer before each of a run of
/// reservations of the sizes `counts`.
pub open spec fn reservations(states: Seq<Option<u64>>, counts: Seq<u64>) -> bool {
    &&& states.len() == counts.len()
    &&& forall|k: int|
        0 <= k < states.len() ==> first_free(#[trigger] states[k]) + counts[k] <= u64::MAX
    &&& forall|k: int|
        0 < k < states.len() ==> #[trigger] states[k] == Some(
            (first_free(states[k - 1]) + counts[k - 1]) as u64,
        )
}

/// Of reservations made one after the other, each starts right behind the one
/// before, and so at or behind the end of every earlier one: no ID is reserved
/// twice.
pub proof fn law_ranges_disjoint(states: Seq<Option<u64>>, counts: Seq<u64>, i: int, j: int)
    requires
        reservations(states, counts),
        0 <= i < j < states.len(),
    ensures
        first_free(states[j]) == first_free(states[j - 1]) + counts[j - 1],
        first_free(states[i]) + counts[i] <= first_free(states[j]),
    decreases j - i,
{
    assert(first_free(states[j - 1]) + counts[j - 1] <= u64::MAX);
    if i + 1 < j {
        law_ranges_disjoint(states, counts, i, j - 1);
    }
}

/// IDs start at 1: a sequencer that has handed out none starts there, and no
/// later range of its holds 0.
pub proof fn law_ids_start_at_one(states: Seq<Option<u64>>, counts: Seq<u64>, i: int)
    requires
        reservations(states, counts),
        0 <= i < states.len(),
        states[0] is None,
    ensures
        first_free(states[0]) == 1,
        first_free(states[i]) >= 1,
{
    if i > 0 {
        law_ranges_disjoint(states, counts, 0, i);
    }
}

/// A table between reservations from one sequencer: what comes next is either a
/// reservation, of `count` IDs from `first_id` on, or anything else.
pub struct Moment {
    pub table: Table,
    pub reservation: Option<(u64, u64)>,
}

/// In `moments` the sequencer `key` is changed by reservations alone. Between them
/// the table may change in any way that leaves the row of the sequencer as it is.
pub open spec fn reserving(key: KeyView, moments: Seq<Moment>) -> bool {
    forall|k: int|
        #![trigger moments[k]]
        0 <= k < moments.len() - 1 ==> reserving_step(key, moments[k], moments[k + 1].table)
}

/// What `now` says comes next leads from its table to `then`.
pub open spec fn reserving_step(key: KeyView, now: Moment, then: Table) -> bool {
    let row = DbKeyView::IdSequencer(key).bytes();
    match now.reservation {
        Some((first_id, count)) => {
            &&& next_id_found(found(now.table, row)) matches Ok(next_id) && first_id == first_free(
                next_id,
            )
            &&& first_id + count <= u64::MAX
            &&& exists|write: WriteView| #[trigger]
                moves_past(key, first_id + count, write) && then == apply(now.table, write)
        },
        None => found(then, row) == found(now.table, row),
    }
}

/// After a reservation the next free ID is behind its range, and stays there.
proof fn lemma_stays_behind(key: KeyView, moments: Seq<Moment>, i: int, j: int)
    requires
        0 <= i < j < moments.len(),
    ensures
        reserving(key, moments) ==> (moments[i].reservation matches Some((first_id, count)) ==> (
        next_id_found(found(moments[j].table, DbKeyView::IdSequencer(key).bytes())) matches Ok(
            Some(next_id),
        ) && first_id + count <= next_id)),
    decreases j - i,
{
    if reserving(key, moments) && moments[i].reservation is Some {
        let now = moments[j - 1];
        let then = moments[(j - 1) + 1].table;
        assert(reserving_step(key, now, then));
        if i + 1 < j {
            lemma_stays_behind(key, moments, i, j - 1);
        }
    }
}

/// Of all reservations from a sequencer, with any other work between them, a later
/// one starts at or behind the end of every earlier one: no ID is reserved twice.
pub proof fn law_no_id_twice(key: KeyView, moments: Seq<Moment>, i: int, j: int)
    requires
        0 <= i < j < moments.len(),
    ensures
        reserving(key, moments) && j < moments.len() - 1 ==> (moments[i].reservation matches Some(
            (first, count),
        ) ==> (moments[j].reservation matches Some((later, _)) ==> first + count <= later)),
{
    if reserving(key, moments) && j < moments.len() - 1 {
        lemma_stays_behind(key, moments, i, j);
        assert(reserving_step(key, moments[j], moments[j + 1].table));
    }
}

/// No reservation from a sequencer that had handed out none holds 0, whatever
/// other work there is between them.
pub proof fn law_zero_stays_free(key: KeyView, moments: Seq<Moment>, i: int)
    requires
        0 <= i < moments.len(),
    ensures
        reserving(key, moments) && i < moments.len() - 1 && found(
            moments[0].table,
            DbKeyView::IdSequencer(key).bytes(),
        ) is None ==> (moments[i].reservation matches Some((first, _)) ==> first >= 1),
{
    let row = DbKeyView::IdSequencer(key).bytes();
    if reserving(key, moments) && i < moments.len() - 1 && found(moments[0].table, row) is None {
        lemma_next_id_positive(key, moments, i);
        assert(reserving_step(key, moments[i], moments[i + 1].table));
    }
}

/// The next free ID stays above 0.
proof fn lemma_next_id_positive(key: KeyView, moments: Seq<Moment>, i: int)
    requires
        0 <= i < moments.len(),
    ensures
        reserving(key, moments) && found(
            moments[0].table,
            DbKeyView::IdSequencer(key).bytes(),
        ) is None ==> (next_id_found(
            found(moments[i].table, DbKeyView::IdSequencer(key).bytes()),
        ) matches Ok(next_id) && first_free(next_id) >= 1),
    decreases i,
{
    if i > 0 && reserving(key, moments) {
        lemma_next_id_positive(key, moments, i - 1);
        assert(reserving_step(key, moments[i - 1], moments[(i - 1) + 1].table));
    }
}

} // verus!
