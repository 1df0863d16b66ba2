//! What edits and cleanups read.

use vstd::prelude::*;

use crate::changelog::ChangelogEntry;
use crate::ops::piece_text_acceptance_laws::{cell_at, keeps_document, law_edit_permitted};
use crate::ops::piece_text_buffer_laws::buffer_cell_key;
use crate::ops::piece_text_cleanup_pieces_op::{cleanup_reads, rows_reads};
use crate::ops::piece_text_edit_acceptance_laws::rows_met;
use crate::ops::piece_text_edit_op::{
    buffer_reads, buffers_of, buffers_reads, edit_reads, edit_target, edited, law_buffers_read_once, EditChecks,
};
use crate::ops::piece_text_index_laws::{is_removed, piece_cell_key};
use crate::ops::piece_text_tree::{reads_tree, Tree};
use crate::piece_text::{decode_message, AddressView};
use crate::piece_text_cleanup::{cleanup_pieces_in_message, removed_rows};
use crate::piece_text_envelope_laws::lemma_removed_in;
use crate::piece_text_resolver::{piece_columns, piece_key, whole_row_reads};
use crate::storage::{Answers, KeyView, ReadOpView};

verus! {

/// The reads begin with the way to a document: the cell, the parent of the list, and
/// its two ends.
pub open spec fn finds_document(reads: Seq<ReadOpView>, address: AddressView, list_number: i64) -> bool {
    &&& reads.len() >= 4
    &&& reads[0] == ReadOpView::Key(cell_at(address))
    &&& reads[1] == ReadOpView::Key(KeyView::PieceParent { list_number })
    &&& reads[2] == ReadOpView::Key(KeyView::PieceHead { list_number })
    &&& reads[3] == ReadOpView::Key(KeyView::PieceTail { list_number })
}

// ---------- cleanups ----------

/// The read is of a cell of the row of a piece.
pub open spec fn reads_row(read: ReadOpView, id: i64) -> bool {
    ||| read == ReadOpView::Key(piece_cell_key(id, "list_number"@))
    ||| read == ReadOpView::Key(piece_cell_key(id, "prev_id"@))
    ||| read == ReadOpView::Key(piece_cell_key(id, "next_id"@))
    ||| read == ReadOpView::Key(piece_cell_key(id, "buffer_id"@))
    ||| read == ReadOpView::Key(piece_cell_key(id, "start_byte"@))
    ||| read == ReadOpView::Key(piece_cell_key(id, "len_bytes"@))
    ||| read == ReadOpView::Key(piece_cell_key(id, "tombstone"@))
}

/// The read is of a cell of a row of the runs.
pub open spec fn reads_removed(runs: Seq<Seq<i64>>, read: ReadOpView) -> bool {
    exists|id: i64| is_removed(runs, id) && #[trigger] reads_row(read, id)
}

/// The reads are also of all cells of the row of a piece.
pub open spec fn read_whole(reads: Seq<ReadOpView>, id: i64) -> bool {
    forall|read: ReadOpView| #[trigger] reads_row(read, id) ==> reads.contains(read)
}

proof fn lemma_whole_row(id: i64, read: ReadOpView)
    ensures
        whole_row_reads(id).contains(read) <==> reads_row(read, id),
        whole_row_reads(id).len() == 7,
{
    let all = whole_row_reads(id);
    assert(piece_columns().len() == 7);
    assert forall|k: int| 0 <= k < 7 implies #[trigger] all[k] == ReadOpView::Key(
        piece_key(id, piece_columns()[k]),
    ) by {}
    assert(all[0] == ReadOpView::Key(piece_cell_key(id, "list_number"@)));
    assert(all[1] == ReadOpView::Key(piece_cell_key(id, "prev_id"@)));
    assert(all[2] == ReadOpView::Key(piece_cell_key(id, "next_id"@)));
    assert(all[3] == ReadOpView::Key(piece_cell_key(id, "buffer_id"@)));
    assert(all[4] == ReadOpView::Key(piece_cell_key(id, "start_byte"@)));
    assert(all[5] == ReadOpView::Key(piece_cell_key(id, "len_bytes"@)));
    assert(all[6] == ReadOpView::Key(piece_cell_key(id, "tombstone"@)));
    if all.contains(read) {
        let k = all.index_of(read);
        assert(k == 0 || k == 1 || k == 2 || k == 3 || k == 4 || k == 5 || k == 6);
    }
}

proof fn lemma_rows_reads(ids: Seq<i64>)
    ensures
        rows_reads(ids).len() == 7 * ids.len(),
        forall|i: int, k: int|
            #![trigger ids[i], rows_reads(ids)[k]]
            0 <= i < ids.len() && 7 * i <= k < 7 * i + 7 ==> rows_reads(ids)[k] == whole_row_reads(ids[i])[k - 7 * i],
    decreases ids.len(),
{
    if ids.len() > 0 {
        let rest = ids.drop_last();
        lemma_rows_reads(rest);
        lemma_whole_row(ids.last(), rows_reads(ids)[0]);
        assert forall|i: int, k: int|
            #![trigger ids[i], rows_reads(ids)[k]]
            0 <= i < ids.len() && 7 * i <= k < 7 * i + 7 implies rows_reads(ids)[k] == whole_row_reads(ids[i])[k - 7
            * i] by {
            if i < rest.len() {
                assert(rest[i] == ids[i]);
                assert(rows_reads(rest)[k] == rows_reads(ids)[k]);
            }
        }
    }
}

/// A cleanup reads the way to its document, and then all cells of the rows that it
/// removes, each once, and nothing else: neither the rows beside them nor the rest of
/// the document.
pub proof fn law_cleanup_reads(entry: ChangelogEntry)
    requires
        cleanup_pieces_in_message(entry.message@) is Ok,
    ensures
        ({
            let envelope = cleanup_pieces_in_message(entry.message@)->Ok_0;
            let reads = cleanup_reads(entry);
            &&& finds_document(reads, envelope.address, envelope.list_number)
            &&& forall|i: int| 4 <= i < reads.len() ==> reads_removed(envelope.runs, #[trigger] reads[i])
            &&& forall|id: i64| is_removed(envelope.runs, id) ==> #[trigger] read_whole(reads, id)
            &&& reads.len() == 4 + 7 * removed_rows(envelope.runs).len()
        }),
{
    let envelope = cleanup_pieces_in_message(entry.message@)->Ok_0;
    let reads = cleanup_reads(entry);
    let ids = removed_rows(envelope.runs);
    lemma_rows_reads(ids);
    assert forall|i: int| 4 <= i < reads.len() implies reads_removed(envelope.runs, #[trigger] reads[i]) by {
        let k = i - 4;
        let n = k / 7;
        let id = ids[n];
        assert(rows_reads(ids)[k] == whole_row_reads(id)[k - 7 * n]);
        lemma_whole_row(id, reads[i]);
        assert(whole_row_reads(id).contains(reads[i]));
        assert(ids.contains(id));
        lemma_removed_in(envelope.runs, id);
        assert(is_removed(envelope.runs, id));
        assert(reads_row(reads[i], id));
    }
    assert forall|id: i64| is_removed(envelope.runs, id) implies #[trigger] read_whole(reads, id) by {
        lemma_removed_in(envelope.runs, id);
        let n = ids.index_of(id);
        assert forall|read: ReadOpView| #[trigger] reads_row(read, id) implies reads.contains(read) by {
            lemma_whole_row(id, read);
            let c = whole_row_reads(id).index_of(read);
            assert(ids[n] == id);
            assert(rows_reads(ids)[7 * n + c] == whole_row_reads(id)[c]);
            assert(reads[4 + 7 * n + c] == read);
        }
    }
    assert(reads.len() == 4 + 7 * ids.len());
    assert(finds_document(reads, envelope.address, envelope.list_number));
}

// ---------- edits ----------

/// The read is of what the tree says of a buffer: whose it is, and how long.
pub open spec fn reads_buffer(read: ReadOpView, id: i64) -> bool {
    ||| read == ReadOpView::Key(buffer_cell_key(id, "owner_table"@))
    ||| read == ReadOpView::Key(buffer_cell_key(id, "owner_row_id"@))
    ||| read == ReadOpView::Key(buffer_cell_key(id, "owner_column"@))
    ||| read == ReadOpView::Key(buffer_cell_key(id, "author_id"@))
    ||| read == ReadOpView::Key(buffer_cell_key(id, "len_bytes"@))
}

/// Each of the reads is of a buffer that one of the ids names, and each of these
/// buffers is read, once.
pub open spec fn reads_buffers(reads: Seq<ReadOpView>, ids: Set<i64>) -> bool {
    &&& reads.no_duplicates()
    &&& forall|read: ReadOpView| #[trigger]
        reads.contains(read) <==> exists|id: i64| ids.contains(id) && #[trigger] reads_buffer(read, id)
}

proof fn lemma_buffer_read(id: i64, read: ReadOpView)
    ensures
        buffer_reads(id).contains(read) <==> reads_buffer(read, id),
        buffer_reads(id).no_duplicates(),
{
    let all = buffer_reads(id);
    assert(all[0] == ReadOpView::Key(buffer_cell_key(id, "owner_table"@)));
    assert(all[1] == ReadOpView::Key(buffer_cell_key(id, "owner_row_id"@)));
    assert(all[2] == ReadOpView::Key(buffer_cell_key(id, "owner_column"@)));
    assert(all[3] == ReadOpView::Key(buffer_cell_key(id, "author_id"@)));
    assert(all[4] == ReadOpView::Key(buffer_cell_key(id, "len_bytes"@)));
    if all.contains(read) {
        let k = all.index_of(read);
        assert(k == 0 || k == 1 || k == 2 || k == 3 || k == 4);
    }
    reveal_strlit("owner_table");
    reveal_strlit("owner_row_id");
    reveal_strlit("owner_column");
    reveal_strlit("author_id");
    reveal_strlit("len_bytes");
    assert("owner_table"@.len() == 11);
    assert("owner_row_id"@.len() == 12 && "owner_row_id"@[6] == 'r');
    assert("owner_column"@.len() == 12 && "owner_column"@[6] == 'c');
    assert("author_id"@.len() == 9 && "author_id"@[0] == 'a');
    assert("len_bytes"@.len() == 9 && "len_bytes"@[0] == 'l');
}

proof fn lemma_buffers_reads(ids: Seq<i64>)
    requires
        forall|i: int, j: int| 0 <= i < j < ids.len() ==> #[trigger] ids[i] < #[trigger] ids[j],
    ensures
        reads_buffers(buffers_reads(ids), ids.to_set()),
    decreases ids.len(),
{
    let all = buffers_reads(ids);
    if ids.len() > 0 {
        let rest = ids.drop_last();
        let last = ids.last();
        let before = buffers_reads(rest);
        let added = buffer_reads(last);
        assert forall|i: int, j: int| 0 <= i < j < rest.len() implies #[trigger] rest[i] < #[trigger] rest[j] by {
            assert(ids[i] < ids[j]);
        }
        lemma_buffers_reads(rest);
        lemma_buffer_read(last, added[0]);
        assert(ids[ids.len() - 1] == last);
        assert(!rest.contains(last)) by {
            if rest.contains(last) {
                let i = rest.index_of(last);
                assert(ids[i] < ids[ids.len() - 1]);
            }
        }
        assert forall|read: ReadOpView| #[trigger] all.contains(read) <==> exists|id: i64|
            ids.to_set().contains(id) && #[trigger] reads_buffer(read, id) by {
            lemma_buffer_read(last, read);
            if before.contains(read) {
                let id = choose|id: i64| rest.to_set().contains(id) && #[trigger] reads_buffer(read, id);
                assert(ids[rest.index_of(id)] == id);
                assert(ids.contains(id));
                assert(all[before.index_of(read)] == read);
            }
            if added.contains(read) {
                assert(ids.contains(last));
                assert(all[before.len() + added.index_of(read)] == read);
            }
            if all.contains(read) {
                let k = all.index_of(read);
                if k < before.len() {
                    assert(before[k] == read);
                } else {
                    assert(added[k - before.len()] == read);
                }
            }
            if exists|id: i64| ids.to_set().contains(id) && #[trigger] reads_buffer(read, id) {
                let id = choose|id: i64| ids.to_set().contains(id) && #[trigger] reads_buffer(read, id);
                if id != last {
                    let i = ids.index_of(id);
                    assert(rest[i] == id);
                    assert(rest.to_set().contains(id));
                }
            }
        }
        assert(all.no_duplicates()) by {
            assert forall|i: int, j: int| 0 <= i < all.len() && 0 <= j < all.len() && i < j implies all[i]
                != all[j] by {
                if j < before.len() {
                    assert(before[i] != before[j]);
                } else if i >= before.len() {
                    assert(added[i - before.len()] != added[j - before.len()]);
                } else {
                    let read = before[i];
                    assert(before.contains(read));
                    let id = choose|id: i64| rest.to_set().contains(id) && #[trigger] reads_buffer(read, id);
                    assert(id != last);
                    let other = added[j - before.len()];
                    assert(added.contains(other));
                    lemma_buffer_read(last, other);
                }
            }
        }
    } else {
        assert forall|id: i64| !(#[trigger] ids.to_set().contains(id)) by {}
    }
}

/// The buffers that rows lie in.
pub open spec fn buffers_met(met: Seq<(i64, crate::piece_text::PieceCoord)>) -> Set<i64> {
    Set::new(|id: i64| exists|k: int| 0 <= k < met.len() && (#[trigger] met[k]).1.buffer_id == id)
}

/// An edit that the document takes reads the way to the document first, and last what
/// the tree says of the buffers that the rows lie in to which it came: of each of
/// these, and of no other.
pub proof fn law_edit_reads(answers: Answers, checks: EditChecks, entry: ChangelogEntry, tree: Tree)
    requires
        reads_tree(answers, tree),
        decode_message(entry.message@) is Ok,
        edit_target(answers, checks, decode_message(entry.message@)->Ok_0) is Ok,
    ensures
        ({
            let envelope = decode_message(entry.message@)->Ok_0;
            let target = edit_target(answers, checks, envelope)->Ok_0;
            let reads = edit_reads(answers, checks, entry);
            &&& keeps_document(tree, envelope.address, target.list_number, target.head_id, target.tail_id)
            &&& finds_document(reads, envelope.address, target.list_number)
            &&& edited(answers, target, envelope, entry.uid as i64) is Ok ==> exists|k: int|
                4 <= k <= reads.len() && reads_buffers(
                    #[trigger] reads.skip(k),
                    buffers_met(rows_met(answers, checks, entry)),
                )
        }),
{
    let envelope = decode_message(entry.message@)->Ok_0;
    let target = edit_target(answers, checks, envelope)->Ok_0;
    let reads = edit_reads(answers, checks, entry);
    law_edit_permitted(answers, checks, envelope, tree);
    if edited(answers, target, envelope, entry.uid as i64) is Ok {
        let met = rows_met(answers, checks, entry);
        let ids = buffers_of(met);
        law_buffers_read_once(met);
        lemma_buffers_reads(ids);
        assert forall|id: i64| #[trigger] ids.to_set().contains(id) <==> buffers_met(met).contains(id) by {
            assert(ids.to_set().contains(id) == ids.contains(id));
        }
        assert(ids.to_set() =~= buffers_met(met));
        let k = reads.len() - buffers_reads(ids).len();
        assert(reads.skip(k) =~= buffers_reads(ids));
    }
}

} // verus!
