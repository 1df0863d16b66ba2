//! Rows as an edit finds and leaves them, and the writes that follow.

use std::collections::BTreeMap;

use vstd::prelude::*;
use vstd::std_specs::cmp::OrdSpec;
use vstd::std_specs::iter::IteratorSpec;

use crate::piece_text::PieceCoord;
use crate::piece_text_planner::{
    BufferInsertView, OutputView, PieceRow, PieceRowInsert, PieceRowUpdate, TraceView,
};
use crate::piece_text_resolution::Doc;

verus! {

/// A row, and what it was before the edit if it was there.
#[derive(Clone, Copy, Debug, PartialEq, Eq)]
pub struct StagedRow {
    pub current: PieceRow,
    pub original: Option<PieceRow>,
}

/// Ids with a property that are at least 1 and less than `n`, in order.
pub open spec fn ids_below(wanted: spec_fn(i64) -> bool, n: int) -> Seq<i64>
    decreases n,
{
    if n <= 1 {
        Seq::empty()
    } else if wanted((n - 1) as i64) {
        ids_below(wanted, n - 1).push((n - 1) as i64)
    } else {
        ids_below(wanted, n - 1)
    }
}

/// The positive ids with a property, in order.
pub open spec fn ids_where(wanted: spec_fn(i64) -> bool) -> Seq<i64> {
    ids_below(wanted, i64::MAX + 1)
}

pub open spec fn row_insert(row: PieceRow) -> PieceRowInsert {
    PieceRowInsert {
        new_id: row.id,
        list_number: row.list_number,
        prev_id: row.prev_id,
        next_id: row.next_id,
        coord: row.coord,
    }
}

/// The change that takes a row from one value to another, if they differ.
pub open spec fn row_change(before: PieceRow, after: PieceRow) -> Option<PieceRowUpdate> {
    if before.prev_id == after.prev_id && before.next_id == after.next_id && before.coord
        == after.coord {
        None
    } else {
        Some(
            PieceRowUpdate {
                id: after.id,
                prev_id: if before.prev_id != after.prev_id {
                    Some(after.prev_id)
                } else {
                    None
                },
                next_id: if before.next_id != after.next_id {
                    Some(after.next_id)
                } else {
                    None
                },
                coord: if before.coord != after.coord {
                    Some(after.coord)
                } else {
                    None
                },
            },
        )
    }
}

/// The changes among rows, in their order.
pub open spec fn row_changes(rows: Seq<(PieceRow, PieceRow)>) -> Seq<PieceRowUpdate>
    decreases rows.len(),
{
    if rows.len() == 0 {
        Seq::empty()
    } else {
        match row_change(rows.last().0, rows.last().1) {
            Some(u) => row_changes(rows.drop_last()).push(u),
            None => row_changes(rows.drop_last()),
        }
    }
}

impl<E> Doc<E> {
    /// The rows read that were there before the edit, in order.
    pub open spec fn existing_ids(self) -> Seq<i64> {
        ids_where(|id: i64| self.loaded.contains(id) && !self.new_ids.contains(id))
    }

    pub open spec fn piece_inserts(self) -> Seq<PieceRowInsert> {
        self.new_ids.map_values(|id: i64| row_insert(self.at(id)->Ok_0))
    }

    pub open spec fn piece_updates(self) -> Seq<PieceRowUpdate> {
        row_changes(
            self.existing_ids().map_values(
                |id: i64| ((self.base)(id)->Ok_0, self.at(id)->Ok_0),
            ),
        )
    }

    /// The ranges that the rows read had before the edit.
    pub open spec fn found_coords(self) -> Seq<(i64, PieceCoord)> {
        self.existing_ids().map_values(|id: i64| (id, (self.base)(id)->Ok_0.coord))
    }
}

/// The value, if it differs from another.
pub open spec fn if_moved(before: i64, after: i64) -> Option<i64> {
    if before != after {
        Some(after)
    } else {
        None
    }
}

/// The writes of an edit that took a document from the endpoints given to
/// `doc`, and added buffers.
pub open spec fn edit_output<E>(
    doc: Doc<E>,
    pre_head_id: i64,
    pre_tail_id: i64,
    buffers: Seq<BufferInsertView>,
    next_buffer_id: i64,
    found: Seq<(i64, PieceCoord)>,
) -> OutputView {
    OutputView {
        piece_inserts: doc.piece_inserts(),
        piece_updates: doc.piece_updates(),
        buffer_inserts: buffers,
        head_update: if_moved(pre_head_id, doc.head_id()),
        tail_update: if_moved(pre_tail_id, doc.tail_id()),
        piece_next_id_post: if doc.new_ids.len() > 0 {
            Some(doc.next_piece_id)
        } else {
            None
        },
        buffers_next_id_post: if buffers.len() > 0 {
            Some(next_buffer_id)
        } else {
            None
        },
        trace: TraceView { rows: found, lookups: doc.lookups, clamps: doc.clamps },
    }
}

// ---------- over a map of rows ----------

pub open spec fn found(rows: Map<i64, StagedRow>, id: i64) -> bool {
    rows.contains_key(id) && rows[id].original is Some
}

proof fn lemma_ids_below_skip(wanted: spec_fn(i64) -> bool, a: int, b: int)
    requires
        a <= b <= i64::MAX + 1,
        forall|i: i64| a <= i < b && i >= 1 ==> !(#[trigger] wanted(i)),
    ensures
        ids_below(wanted, b) == ids_below(wanted, a),
    decreases b - a,
{
    if a < b && b > 1 {
        assert(!wanted((b - 1) as i64));
        lemma_ids_below_skip(wanted, a, b - 1);
    }
}

/// The keys of a map in the order in which it hands them out.
spec fn keys_in_order(rows: Map<i64, StagedRow>, keys: Seq<i64>) -> bool {
    &&& forall|i: int, j: int| 0 <= i < j < keys.len() ==> keys[i] < keys[j]
    &&& forall|i: int| 0 <= i < keys.len() ==> rows.contains_key(#[trigger] keys[i])
    &&& forall|k: i64| #[trigger] rows.contains_key(k) ==> keys.contains(k)
}

/// One past the last of the first `n` keys.
spec fn past_keys(keys: Seq<i64>, n: int) -> int {
    if n <= 0 {
        1
    } else {
        keys[n - 1] + 1
    }
}

proof fn lemma_next_key(rows: Map<i64, StagedRow>, keys: Seq<i64>, n: int)
    requires
        keys_in_order(rows, keys),
        forall|id: i64| #[trigger] rows.contains_key(id) ==> id > 0,
        0 <= n <= keys.len(),
    ensures
        ({
            let wanted = |id: i64| found(rows, id);
            let seen = ids_below(wanted, past_keys(keys, n));
            if n < keys.len() {
                ids_below(wanted, past_keys(keys, n + 1)) == if wanted(keys[n]) {
                    seen.push(keys[n])
                } else {
                    seen
                }
            } else {
                ids_where(wanted) == seen
            }
        }),
{
    let wanted = |id: i64| found(rows, id);
    let upper: int = if n < keys.len() {
        assert(rows.contains_key(keys[n]));
        keys[n] as int
    } else {
        i64::MAX + 1
    };
    let lower = past_keys(keys, n);
    if n > 0 {
        assert(rows.contains_key(keys[n - 1]));
    }
    assert(lower <= upper);
    assert forall|i: i64| lower <= i < upper && i >= 1 implies !(#[trigger] wanted(i)) by {
        if rows.contains_key(i) {
            let j = choose|j: int| 0 <= j < keys.len() && keys[j] == i;
            if j < n - 1 {
                assert(keys[j] < keys[n - 1]);
            }
            if n < keys.len() && n < j {
                assert(keys[n] < keys[j]);
            }
        }
    }
    lemma_ids_below_skip(wanted, lower, upper);
}

/// The rows that were there before the edit, in order.
pub fn found_ids(rows: &BTreeMap<i64, StagedRow>) -> (ids: Vec<i64>)
    requires
        forall|id: i64| #[trigger] rows@.contains_key(id) ==> id > 0,
    ensures
        ids@ == ids_where(|id: i64| found(rows@, id)),
{
    broadcast use {vstd::std_specs::btree::group_btree_axioms, vstd::laws_cmp::group_laws_cmp};

    let ghost wanted = |id: i64| found(rows@, id);
    let mut ids: Vec<i64> = Vec::new();
    let mut n: Ghost<int> = Ghost(0);
    let entries = rows.iter();
    let ghost keys = entries.remaining().map_values(|kv: (&i64, &StagedRow)| *kv.0);
    proof {
        let v = entries.remaining();
        assert(keys_in_order(rows@, keys)) by {
            assert(vstd::std_specs::btree::increasing_seq(keys));
            assert forall|i: int, j: int| 0 <= i < j < keys.len() implies keys[i] < keys[j] by {
                assert(keys[i].cmp_spec(&keys[j]) is Less);
            }
            assert forall|k: i64| #[trigger] rows@.contains_key(k) implies keys.contains(k) by {
                let i = v.index_of((&k, &rows@[k]));
                assert(keys[i] == k);
            }
            assert forall|i: int| 0 <= i < keys.len() implies rows@.contains_key(#[trigger] keys[i]) by {
                assert(rows@.contains_key(*v[i].0));
            }
        }
    }
    for (id, row) in it: entries
        invariant
            it.seq().map_values(|kv: (&i64, &StagedRow)| *kv.0) == keys,
            forall|i: int| 0 <= i < it.seq().len() ==> rows@[*(#[trigger] it.seq()[i]).0] == *it.seq()[i].1,
            n@ == it.index(),
            keys_in_order(rows@, keys),
            forall|id: i64| #[trigger] rows@.contains_key(id) ==> id > 0,
            wanted == (|id: i64| found(rows@, id)),
            ids@ == ids_below(wanted, past_keys(keys, n@)),
    {
        proof {
            lemma_next_key(rows@, keys, n@);
            assert(keys[n@] == *id);
            assert(rows@.contains_key(keys[n@]));
            n@ = n@ + 1;
        }
        if row.original.is_some() {
            ids.push(*id);
        }
    }
    proof {
        lemma_next_key(rows@, keys, n@);
    }
    ids
}

/// The rows that were there before the edit, then and now.
pub open spec fn staged_pairs(rows: Map<i64, StagedRow>) -> Seq<(PieceRow, PieceRow)> {
    ids_where(|id: i64| found(rows, id)).map_values(
        |id: i64| (rows[id].original->Some_0, rows[id].current),
    )
}

pub proof fn lemma_ids_below(wanted: spec_fn(i64) -> bool, n: int)
    requires
        n <= i64::MAX + 1,
    ensures
        forall|i: int| 0 <= i < ids_below(wanted, n).len() ==> wanted(#[trigger] ids_below(wanted, n)[i])
            && 0 < ids_below(wanted, n)[i] < n,
        forall|i: int, j: int|
            0 <= i < j < ids_below(wanted, n).len() ==> ids_below(wanted, n)[i] < ids_below(wanted, n)[j],
        forall|id: i64| 0 < id < n && wanted(id) ==> #[trigger] ids_below(wanted, n).contains(id),
    decreases n,
{
    if n > 1 {
        lemma_ids_below(wanted, n - 1);
        let before = ids_below(wanted, n - 1);
        let ids = ids_below(wanted, n);
        assert forall|id: i64| 0 < id < n && wanted(id) implies #[trigger] ids.contains(id) by {
            if id == n - 1 {
                assert(ids.last() == id);
            } else {
                assert(before.contains(id));
                let i = choose|i: int| 0 <= i < before.len() && before[i] == id;
                assert(ids[i] == id);
            }
        }
    }
}

/// The rows that an edit adds, in the order in which it added them.
pub fn staged_inserts(rows: &BTreeMap<i64, StagedRow>, new_ids: &Vec<i64>) -> (v: Vec<PieceRowInsert>)
    requires
        forall|i: int| 0 <= i < new_ids.len() ==> rows@.contains_key(#[trigger] new_ids@[i]),
    ensures
        v@ == new_ids@.map_values(|id: i64| row_insert(rows@[id].current)),
{
    broadcast use vstd::std_specs::btree::group_btree_axioms;

    let mut inserts: Vec<PieceRowInsert> = Vec::new();
    let mut i: usize = 0;
    while i < new_ids.len()
        invariant
            i <= new_ids.len(),
            forall|i: int| 0 <= i < new_ids.len() ==> rows@.contains_key(#[trigger] new_ids@[i]),
            inserts@ == new_ids@.take(i as int).map_values(|id: i64| row_insert(rows@[id].current)),
        decreases new_ids.len() - i,
    {
        if let Some(row) = rows.get(&new_ids[i]) {
            inserts.push(
                PieceRowInsert {
                    new_id: row.current.id,
                    list_number: row.current.list_number,
                    prev_id: row.current.prev_id,
                    next_id: row.current.next_id,
                    coord: row.current.coord,
                },
            );
        }
        assert(new_ids@.take(i + 1) =~= new_ids@.take(i as int).push(new_ids@[i as int]));
        i = i + 1;
    }
    assert(new_ids@.take(i as int) =~= new_ids@);
    inserts
}

fn change_of(before: &PieceRow, after: &PieceRow) -> (u: Option<PieceRowUpdate>)
    ensures
        u == row_change(*before, *after),
{
    let prev_changed = before.prev_id != after.prev_id;
    let next_changed = before.next_id != after.next_id;
    let coord_changed = before.coord != after.coord;
    if !prev_changed && !next_changed && !coord_changed {
        return None;
    }
    Some(
        PieceRowUpdate {
            id: after.id,
            prev_id: if prev_changed {
                Some(after.prev_id)
            } else {
                None
            },
            next_id: if next_changed {
                Some(after.next_id)
            } else {
                None
            },
            coord: if coord_changed {
                Some(after.coord)
            } else {
                None
            },
        },
    )
}

/// The changes to the rows that were there before the edit.
pub fn staged_updates(rows: &BTreeMap<i64, StagedRow>) -> (v: Vec<PieceRowUpdate>)
    requires
        forall|id: i64| #[trigger] rows@.contains_key(id) ==> id > 0,
    ensures
        v@ == row_changes(staged_pairs(rows@)),
{
    broadcast use vstd::std_specs::btree::group_btree_axioms;

    let ids = found_ids(rows);
    let ghost pairs = staged_pairs(rows@);
    proof {
        lemma_ids_below(|id: i64| found(rows@, id), i64::MAX + 1);
    }
    let mut updates: Vec<PieceRowUpdate> = Vec::new();
    let mut i: usize = 0;
    while i < ids.len()
        invariant
            i <= ids.len(),
            ids.len() == pairs.len(),
            forall|i: int|
                0 <= i < ids.len() ==> found(rows@, #[trigger] ids@[i]) && pairs[i] == (
                    rows@[ids@[i]].original->Some_0,
                    rows@[ids@[i]].current,
                ),
            updates@ == row_changes(pairs.take(i as int)),
        decreases ids.len() - i,
    {
        assert(found(rows@, ids@[i as int]));
        if let Some(row) = rows.get(&ids[i]) {
            if let Some(original) = &row.original {
                if let Some(update) = change_of(original, &row.current) {
                    updates.push(update);
                }
            }
        }
        assert(pairs.take(i + 1).drop_last() =~= pairs.take(i as int));
        i = i + 1;
    }
    assert(pairs.take(i as int) =~= pairs);
    updates
}

/// The ranges that the rows that were there before the edit had.
pub fn staged_coords(rows: &BTreeMap<i64, StagedRow>) -> (v: Vec<(i64, PieceCoord)>)
    requires
        forall|id: i64| #[trigger] rows@.contains_key(id) ==> id > 0,
    ensures
        v@ == ids_where(|id: i64| found(rows@, id)).map_values(
            |id: i64| (id, rows@[id].original->Some_0.coord),
        ),
{
    broadcast use vstd::std_specs::btree::group_btree_axioms;

    let ids = found_ids(rows);
    proof {
        lemma_ids_below(|id: i64| found(rows@, id), i64::MAX + 1);
    }
    let mut coords: Vec<(i64, PieceCoord)> = Vec::new();
    let mut i: usize = 0;
    while i < ids.len()
        invariant
            i <= ids.len(),
            forall|i: int| 0 <= i < ids.len() ==> found(rows@, #[trigger] ids@[i]),
            coords@ == ids@.take(i as int).map_values(
                |id: i64| (id, rows@[id].original->Some_0.coord),
            ),
        decreases ids.len() - i,
    {
        assert(found(rows@, ids@[i as int]));
        if let Some(row) = rows.get(&ids[i]) {
            if let Some(original) = &row.original {
                coords.push((ids[i], original.coord));
            }
        }
        assert(ids@.take(i + 1) =~= ids@.take(i as int).push(ids@[i as int]));
        i = i + 1;
    }
    assert(ids@.take(i as int) =~= ids@);
    coords
}

} // verus!
