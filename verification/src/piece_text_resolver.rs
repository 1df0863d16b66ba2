//! Rows and coordinates of a document, read from the tree.

use vstd::prelude::*;

use crate::changelog::ChangelogError;
use crate::faults::{Cell, CellKind, StorageFault};
use crate::piece_text::{BufferCoord, PieceCoord};
use crate::piece_text_planner::{ClampDirection, PieceRow, ResolvePurpose};
use crate::piece_text_resolution::{
    lemma_lookup_comes_first, resolve_coord_core, resolve_core, Doc, EditError, ReadCosts,
    ResolveCoreOutput, ResolveCoreResult, ResolveEndpoint, ResolveSource,
};
use crate::storage::{
    batch_view, be_i64, buffer_table, buffer_table_name, clone_key, i64_from_be, piece_table,
    piece_table_name, same_key, Answers, BatchOp, BatchOpView, IndexValue, IndexValueView, KeyView,
    OpReader, ReadOp, ReadOpView, StorageKey, StoredValue, ValueView,
};

verus! {

// ---------- columns ----------

/// A column of the table of pieces.
#[derive(Clone, Copy, Debug, PartialEq, Eq, Structural)]
pub enum PieceColumn {
    ListNumber,
    PrevId,
    NextId,
    BufferId,
    StartByte,
    LenBytes,
    Tombstone,
}

impl PieceColumn {
    pub open spec fn name_spec(self) -> &'static str {
        match self {
            PieceColumn::ListNumber => "list_number",
            PieceColumn::PrevId => "prev_id",
            PieceColumn::NextId => "next_id",
            PieceColumn::BufferId => "buffer_id",
            PieceColumn::StartByte => "start_byte",
            PieceColumn::LenBytes => "len_bytes",
            PieceColumn::Tombstone => "tombstone",
        }
    }

    #[verifier::when_used_as_spec(name_spec)]
    pub fn name(self) -> (s: &'static str)
        ensures
            s == self.name_spec(),
    {
        match self {
            PieceColumn::ListNumber => "list_number",
            PieceColumn::PrevId => "prev_id",
            PieceColumn::NextId => "next_id",
            PieceColumn::BufferId => "buffer_id",
            PieceColumn::StartByte => "start_byte",
            PieceColumn::LenBytes => "len_bytes",
            PieceColumn::Tombstone => "tombstone",
        }
    }

    pub open spec fn cell_kind_spec(self) -> CellKind {
        match self {
            PieceColumn::ListNumber => CellKind::ListNumber,
            PieceColumn::PrevId => CellKind::PrevId,
            PieceColumn::NextId => CellKind::NextId,
            PieceColumn::BufferId => CellKind::BufferId,
            PieceColumn::StartByte => CellKind::StartByte,
            PieceColumn::LenBytes => CellKind::LenBytes,
            PieceColumn::Tombstone => CellKind::Tombstone,
        }
    }

    #[verifier::when_used_as_spec(cell_kind_spec)]
    pub fn cell_kind(self) -> (k: CellKind)
        ensures
            k == self.cell_kind_spec(),
    {
        match self {
            PieceColumn::ListNumber => CellKind::ListNumber,
            PieceColumn::PrevId => CellKind::PrevId,
            PieceColumn::NextId => CellKind::NextId,
            PieceColumn::BufferId => CellKind::BufferId,
            PieceColumn::StartByte => CellKind::StartByte,
            PieceColumn::LenBytes => CellKind::LenBytes,
            PieceColumn::Tombstone => CellKind::Tombstone,
        }
    }
}

/// The key of a cell of the table of pieces.
pub open spec fn piece_key(row_id: i64, column: PieceColumn) -> KeyView {
    KeyView::Column { table: piece_table(), row_id, column: column.name()@ }
}

pub fn piece_column_key(row_id: i64, column: PieceColumn) -> (k: StorageKey)
    ensures
        k@ == piece_key(row_id, column),
{
    StorageKey::Column { table: piece_table_name(), row_id, column: column.name().to_owned() }
}

// ---------- reads ----------

/// The one value that a read of a key must return.
pub open spec fn single_value(answers: Answers, key: KeyView, cell: Cell) -> Result<
    ValueView,
    ChangelogError,
> {
    match answers(ReadOpView::Key(key)) {
        Err(e) => Err(e),
        Ok(results) => if results.len() != 1 {
            Err(
                ChangelogError::Storage(
                    StorageFault::ResultCount { cell, found: results.len() as usize },
                ),
            )
        } else if results[0].0 != key {
            Err(ChangelogError::Storage(StorageFault::WrongKey { cell }))
        } else {
            Ok(results[0].1)
        },
    }
}

/// Reads the one value under a key.
pub fn read_single_key<R: OpReader>(reader: &mut R, key: StorageKey, cell: Cell) -> (r: Result<
    StoredValue,
    ChangelogError,
>)
    ensures
        final(reader).answers() == old(reader).answers(),
        final(reader).log() == old(reader).log().push(ReadOpView::Key(key@)),
        match single_value(old(reader).answers(), key@, cell) {
            Ok(v) => r matches Ok(value) && value@ == v,
            Err(e) => r == Err::<StoredValue, ChangelogError>(e),
        },
{
    let ghost wanted = key@;
    let expected = clone_key(&key);
    let mut read = reader.read(ReadOp::Key(key))?;
    let ghost seen = read@;
    assert(seen.len() == read.results.len());
    if read.results.len() != 1 {
        return Err(
            ChangelogError::Storage(StorageFault::ResultCount { cell, found: read.results.len() }),
        );
    }
    assert(seen[0] == (read.results@[0].0@, read.results@[0].1@));
    let (actual_key, value) = read.results.swap_remove(0);
    if !same_key(&actual_key, &expected) {
        return Err(ChangelogError::Storage(StorageFault::WrongKey { cell }));
    }
    Ok(value)
}

/// The integer that a stored value is.
pub open spec fn int_value(value: ValueView, cell: Cell) -> Result<i64, ChangelogError> {
    match value {
        ValueView::Int(i) => Ok(i),
        ValueView::Text(_) => Err(ChangelogError::Storage(StorageFault::NotInteger { cell })),
        ValueView::Other(_) => Err(ChangelogError::Storage(StorageFault::NotInteger { cell })),
        _ => Err(ChangelogError::Storage(StorageFault::Undecodable { cell })),
    }
}

pub fn decode_i64_value(value: &StoredValue, cell: Cell) -> (r: Result<i64, ChangelogError>)
    ensures
        r == int_value(value@, cell),
{
    match value {
        StoredValue::Int(i) => Ok(*i),
        StoredValue::Text(_) | StoredValue::Other(_) => Err(
            ChangelogError::Storage(StorageFault::NotInteger { cell }),
        ),
        _ => Err(ChangelogError::Storage(StorageFault::Undecodable { cell })),
    }
}

pub open spec fn piece_cell(row_id: i64, column: PieceColumn) -> Cell {
    Cell { kind: column.cell_kind(), id: row_id }
}

/// The integer in a cell of the table of pieces.
pub open spec fn int_column(answers: Answers, row_id: i64, column: PieceColumn) -> Result<
    i64,
    ChangelogError,
> {
    match single_value(answers, piece_key(row_id, column), piece_cell(row_id, column)) {
        Err(e) => Err(e),
        Ok(v) => int_value(v, piece_cell(row_id, column)),
    }
}

/// The unsigned 32-bit integer in a cell of the table of pieces.
pub open spec fn u32_column(answers: Answers, row_id: i64, column: PieceColumn) -> Result<
    u32,
    ChangelogError,
> {
    match int_column(answers, row_id, column) {
        Err(e) => Err(e),
        Ok(v) => if 0 <= v <= u32::MAX {
            Ok(v as u32)
        } else {
            Err(
                ChangelogError::Storage(
                    StorageFault::OutsideU32 { cell: piece_cell(row_id, column), value: v },
                ),
            )
        },
    }
}

fn read_i64_column<R: OpReader>(reader: &mut R, row_id: i64, column: PieceColumn) -> (r: Result<
    i64,
    ChangelogError,
>)
    ensures
        final(reader).answers() == old(reader).answers(),
        final(reader).log() == old(reader).log().push(piece_read(row_id, column)),
        r == int_column(old(reader).answers(), row_id, column),
{
    let cell = Cell { kind: column.cell_kind(), id: row_id };
    let value = read_single_key(reader, piece_column_key(row_id, column), cell)?;
    decode_i64_value(&value, cell)
}

fn read_u32_column<R: OpReader>(reader: &mut R, row_id: i64, column: PieceColumn) -> (r: Result<
    u32,
    ChangelogError,
>)
    ensures
        final(reader).answers() == old(reader).answers(),
        final(reader).log() == old(reader).log().push(piece_read(row_id, column)),
        r == u32_column(old(reader).answers(), row_id, column),
{
    let value: i64 = read_i64_column(reader, row_id, column)?;
    if value < 0 || value > 0xffff_ffff {
        return Err(
            ChangelogError::Storage(
                StorageFault::OutsideU32 {
                    cell: Cell { kind: column.cell_kind(), id: row_id },
                    value,
                },
            ),
        );
    }
    Ok(value as u32)
}

/// The range that a row covers.
pub open spec fn piece_coord(answers: Answers, row_id: i64) -> Result<PieceCoord, ChangelogError> {
    match int_column(answers, row_id, PieceColumn::BufferId) {
        Err(e) => Err(e),
        Ok(buffer_id) => match u32_column(answers, row_id, PieceColumn::StartByte) {
            Err(e) => Err(e),
            Ok(start_byte) => match u32_column(answers, row_id, PieceColumn::LenBytes) {
                Err(e) => Err(e),
                Ok(len_bytes) => if len_bytes == 0 {
                    Err(ChangelogError::Storage(StorageFault::ZeroLength { row_id }))
                } else {
                    match int_column(answers, row_id, PieceColumn::Tombstone) {
                        Err(e) => Err(e),
                        Ok(t) => if t != 0 && t != 1 {
                            Err(
                                ChangelogError::Storage(
                                    StorageFault::BadTombstone { row_id, value: t },
                                ),
                            )
                        } else if start_byte + len_bytes > u32::MAX {
                            Err(ChangelogError::Storage(StorageFault::RangeOverflow { row_id }))
                        } else {
                            Ok(PieceCoord { buffer_id, start_byte, len_bytes, tombstone: t == 1 })
                        },
                    }
                },
            },
        },
    }
}

/// The columns of a row, in the order in which they are read.
pub open spec fn piece_columns() -> Seq<PieceColumn> {
    seq![
        PieceColumn::ListNumber,
        PieceColumn::PrevId,
        PieceColumn::NextId,
        PieceColumn::BufferId,
        PieceColumn::StartByte,
        PieceColumn::LenBytes,
        PieceColumn::Tombstone,
    ]
}

pub open spec fn piece_read(row_id: i64, column: PieceColumn) -> ReadOpView {
    ReadOpView::Key(piece_key(row_id, column))
}

/// The seven reads of a row's cells.
pub open spec fn whole_row_reads(row_id: i64) -> Seq<ReadOpView> {
    piece_columns().map_values(|column: PieceColumn| piece_read(row_id, column))
}

/// How many cells of a row are read: up to the first that is of no use.
pub open spec fn cells_read(answers: Answers, row_id: i64) -> int {
    if int_column(answers, row_id, PieceColumn::ListNumber) is Err {
        1
    } else if int_column(answers, row_id, PieceColumn::PrevId) is Err {
        2
    } else if int_column(answers, row_id, PieceColumn::NextId) is Err {
        3
    } else if int_column(answers, row_id, PieceColumn::BufferId) is Err {
        4
    } else if u32_column(answers, row_id, PieceColumn::StartByte) is Err {
        5
    } else if !(u32_column(answers, row_id, PieceColumn::LenBytes) matches Ok(n) && n > 0) {
        6
    } else {
        7
    }
}

/// The reads that it takes to read a row: none for an id that no row can have.
pub open spec fn row_reads(answers: Answers, row_id: i64) -> Seq<ReadOpView> {
    if row_id <= 0 {
        Seq::empty()
    } else {
        whole_row_reads(row_id).take(cells_read(answers, row_id))
    }
}

/// The reads that rows and buffers of the tree take.
pub open spec fn tree_costs(answers: Answers) -> ReadCosts {
    ReadCosts {
        row: |id: i64| row_reads(answers, id),
        buffer: |b: i64| seq![buffer_index_read(b)],
        endpoint: |e: ResolveEndpoint| Seq::empty(),
        once: true,
    }
}

/// A row of the table of pieces.
pub open spec fn piece_row(answers: Answers, row_id: i64) -> Result<PieceRow, ChangelogError> {
    if row_id <= 0 {
        Err(ChangelogError::Storage(StorageFault::RowIdNotPositive { row_id }))
    } else {
        match int_column(answers, row_id, PieceColumn::ListNumber) {
            Err(e) => Err(e),
            Ok(list_number) => match int_column(answers, row_id, PieceColumn::PrevId) {
                Err(e) => Err(e),
                Ok(prev_id) => match int_column(answers, row_id, PieceColumn::NextId) {
                    Err(e) => Err(e),
                    Ok(next_id) => match piece_coord(answers, row_id) {
                        Err(e) => Err(e),
                        Ok(coord) => Ok(PieceRow { id: row_id, list_number, prev_id, next_id, coord }),
                    },
                },
            },
        }
    }
}

/// A row of the table of pieces that covers whole scalars.
pub open spec fn aligned_row(answers: Answers, row_id: i64) -> Result<PieceRow, ChangelogError> {
    match piece_row(answers, row_id) {
        Err(e) => Err(e),
        Ok(row) => if row.coord.aligned() {
            Ok(row)
        } else {
            Err(
                ChangelogError::Storage(
                    StorageFault::Unaligned {
                        row_id,
                        start_byte: row.coord.start_byte,
                        len_bytes: row.coord.len_bytes,
                    },
                ),
            )
        },
    }
}

/// Reads a row of the table of pieces, cell by cell.
pub fn read_piece_coords_row<R: OpReader>(reader: &mut R, row_id: i64) -> (r: Result<
    PieceRow,
    ChangelogError,
>)
    ensures
        final(reader).answers() == old(reader).answers(),
        final(reader).log() == old(reader).log() + row_reads(old(reader).answers(), row_id),
        r == piece_row(old(reader).answers(), row_id),
        r is Ok ==> row_reads(old(reader).answers(), row_id) == whole_row_reads(row_id),
        r is Ok ==> final(reader).log().len() == old(reader).log().len() + 7,
        row_id <= 0 ==> final(reader).log() == old(reader).log(),
{
    let ghost log = reader.log();
    let ghost all = whole_row_reads(row_id);
    assert(log + all.take(0) =~= log);
    assert(log + all.take(1) =~= log.push(all[0]));
    assert(log + all.take(2) =~= log.push(all[0]).push(all[1]));
    assert(log + all.take(3) =~= log.push(all[0]).push(all[1]).push(all[2]));
    assert(log + all.take(4) =~= log.push(all[0]).push(all[1]).push(all[2]).push(all[3]));
    assert(log + all.take(5) =~= log.push(all[0]).push(all[1]).push(all[2]).push(all[3]).push(all[4]));
    assert(log + all.take(6) =~= (log + all.take(5)).push(all[5]));
    assert(log + all.take(7) =~= (log + all.take(6)).push(all[6]));
    assert(all.take(7) =~= all);
    if row_id <= 0 {
        return Err(ChangelogError::Storage(StorageFault::RowIdNotPositive { row_id }));
    }
    let list_number: i64 = read_i64_column(reader, row_id, PieceColumn::ListNumber)?;
    let prev_id: i64 = read_i64_column(reader, row_id, PieceColumn::PrevId)?;
    let next_id: i64 = read_i64_column(reader, row_id, PieceColumn::NextId)?;
    let buffer_id: i64 = read_i64_column(reader, row_id, PieceColumn::BufferId)?;
    let start_byte: u32 = read_u32_column(reader, row_id, PieceColumn::StartByte)?;
    let len_bytes: u32 = read_u32_column(reader, row_id, PieceColumn::LenBytes)?;
    if len_bytes == 0 {
        return Err(ChangelogError::Storage(StorageFault::ZeroLength { row_id }));
    }
    let tombstone_value: i64 = read_i64_column(reader, row_id, PieceColumn::Tombstone)?;
    let tombstone = match tombstone_value {
        0 => false,
        1 => true,
        _ => {
            return Err(
                ChangelogError::Storage(
                    StorageFault::BadTombstone { row_id, value: tombstone_value },
                ),
            );
        },
    };
    if start_byte.checked_add(len_bytes).is_none() {
        return Err(ChangelogError::Storage(StorageFault::RangeOverflow { row_id }));
    }
    Ok(
        PieceRow {
            id: row_id,
            list_number,
            prev_id,
            next_id,
            coord: PieceCoord { buffer_id, start_byte, len_bytes, tombstone },
        },
    )
}

/// Reads a row whose range splits no scalar.
pub fn read_aligned_piece_coords_row<R: OpReader>(reader: &mut R, row_id: i64) -> (r: Result<
    PieceRow,
    ChangelogError,
>)
    ensures
        final(reader).answers() == old(reader).answers(),
        final(reader).log() == old(reader).log() + row_reads(old(reader).answers(), row_id),
        r == aligned_row(old(reader).answers(), row_id),
{
    let row = read_piece_coords_row(reader, row_id)?;
    if row.coord.validate_utf32_alignment().is_err() {
        return Err(
            ChangelogError::Storage(
                StorageFault::Unaligned {
                    row_id,
                    start_byte: row.coord.start_byte,
                    len_bytes: row.coord.len_bytes,
                },
            ),
        );
    }
    Ok(row)
}

// ---------- the index by buffer ----------

/// The row that an entry of the index by buffer points to.
pub open spec fn index_entry_row(key: KeyView, value: ValueView, buffer_id: i64) -> Result<
    i64,
    ChangelogError,
> {
    match key {
        KeyView::Index { table, column, value: index_value, row_id } => if table != piece_table() {
            Err(ChangelogError::Storage(StorageFault::IndexTable))
        } else if column != PieceColumn::BufferId.name()@ {
            Err(ChangelogError::Storage(StorageFault::IndexColumn))
        } else if index_value != IndexValueView::Int(buffer_id) {
            Err(ChangelogError::Storage(StorageFault::IndexValue { expected: buffer_id }))
        } else if value != ValueView::RowId(row_id) {
            Err(ChangelogError::Storage(StorageFault::IndexRowValue { row_id }))
        } else if row_id <= 0 {
            Err(ChangelogError::Storage(StorageFault::IndexRowNotPositive { row_id }))
        } else {
            Ok(row_id)
        },
        KeyView::Malformed { .. } => Err(ChangelogError::Storage(StorageFault::MalformedIndexKey)),
        _ => Err(ChangelogError::Storage(StorageFault::NotIndexKey)),
    }
}

/// The rows that entries of the index point to, up to the first bad entry.
pub open spec fn index_rows(entries: Seq<(KeyView, ValueView)>, buffer_id: i64) -> Result<
    Seq<i64>,
    ChangelogError,
>
    decreases entries.len(),
{
    if entries.len() == 0 {
        Ok(Seq::empty())
    } else {
        match index_rows(entries.drop_last(), buffer_id) {
            Err(e) => Err(e),
            Ok(rows) => match index_entry_row(entries.last().0, entries.last().1, buffer_id) {
                Err(e) => Err(e),
                Ok(row_id) => Ok(rows.push(row_id)),
            },
        }
    }
}

pub open spec fn buffer_index_read(buffer_id: i64) -> ReadOpView {
    ReadOpView::IndexValue {
        table: piece_table(),
        column: PieceColumn::BufferId.name()@,
        value: IndexValueView::Int(buffer_id),
    }
}

/// The rows of a buffer, in the order in which the index has them.
pub open spec fn buffer_rows(answers: Answers, buffer_id: i64) -> Result<Seq<i64>, ChangelogError> {
    match answers(buffer_index_read(buffer_id)) {
        Err(e) => Err(e),
        Ok(entries) => index_rows(entries, buffer_id),
    }
}

fn decode_piece_coords_buffer_index_entry(key: &StorageKey, value: &StoredValue, buffer_id: i64) -> (r: Result<
    i64,
    ChangelogError,
>)
    ensures
        r == index_entry_row(key@, value@, buffer_id),
{
    match key {
        StorageKey::Index { table, column, value: index_value, row_id } => {
            if *table != piece_table_name() {
                return Err(ChangelogError::Storage(StorageFault::IndexTable));
            }
            if *column != PieceColumn::BufferId.name().to_owned() {
                return Err(ChangelogError::Storage(StorageFault::IndexColumn));
            }
            let index_matches = match index_value {
                IndexValue::Int(i) => *i == buffer_id,
                _ => false,
            };
            if !index_matches {
                return Err(ChangelogError::Storage(StorageFault::IndexValue { expected: buffer_id }));
            }
            let value_matches = match value {
                StoredValue::RowId(i) => *i == *row_id,
                _ => false,
            };
            if !value_matches {
                return Err(ChangelogError::Storage(StorageFault::IndexRowValue { row_id: *row_id }));
            }
            if *row_id <= 0 {
                return Err(
                    ChangelogError::Storage(StorageFault::IndexRowNotPositive { row_id: *row_id }),
                );
            }
            Ok(*row_id)
        },
        StorageKey::Malformed { .. } => Err(ChangelogError::Storage(StorageFault::MalformedIndexKey)),
        _ => Err(ChangelogError::Storage(StorageFault::NotIndexKey)),
    }
}

proof fn lemma_index_rows_stop(entries: Seq<(KeyView, ValueView)>, buffer_id: i64, n: int)
    requires
        0 <= n <= entries.len(),
        index_rows(entries.take(n), buffer_id) is Err,
    ensures
        index_rows(entries, buffer_id) == index_rows(entries.take(n), buffer_id),
    decreases entries.len(),
{
    if n == entries.len() {
        assert(entries.take(n) =~= entries);
    } else {
        assert(entries.drop_last().take(n) =~= entries.take(n));
        lemma_index_rows_stop(entries.drop_last(), buffer_id, n);
    }
}

/// Reads the rows of a buffer from the index.
pub fn read_candidate_row_ids<R: OpReader>(reader: &mut R, buffer_id: i64) -> (r: Result<
    Vec<i64>,
    ChangelogError,
>)
    ensures
        final(reader).answers() == old(reader).answers(),
        final(reader).log() == old(reader).log().push(buffer_index_read(buffer_id)),
        match buffer_rows(old(reader).answers(), buffer_id) {
            Ok(rows) => r matches Ok(v) && v@ == rows,
            Err(e) => r == Err::<Vec<i64>, ChangelogError>(e),
        },
{
    let read = reader.read(
        ReadOp::IndexValue {
            table: piece_table_name(),
            column: PieceColumn::BufferId.name().to_owned(),
            value: IndexValue::Int(buffer_id),
        },
    )?;
    let ghost entries = read@;
    let mut row_ids: Vec<i64> = Vec::new();
    let mut i: usize = 0;
    while i < read.results.len()
        invariant
            i <= read.results.len(),
            entries == read@,
            index_rows(entries.take(i as int), buffer_id) == Ok::<Seq<i64>, ChangelogError>(row_ids@),
            reader.answers() == old(reader).answers(),
            reader.log() == old(reader).log().push(buffer_index_read(buffer_id)),
            buffer_rows(old(reader).answers(), buffer_id) == index_rows(entries, buffer_id),
        decreases read.results.len() - i,
    {
        proof {
            assert(entries.take(i + 1).drop_last() =~= entries.take(i as int));
            assert(entries[i as int] == (read.results@[i as int].0@, read.results@[i as int].1@));
        }
        match decode_piece_coords_buffer_index_entry(&read.results[i].0, &read.results[i].1, buffer_id) {
            Ok(row_id) => {
                row_ids.push(row_id);
            },
            Err(e) => {
                proof {
                    lemma_index_rows_stop(entries, buffer_id, i + 1);
                }
                return Err(e);
            },
        }
        i = i + 1;
    }
    proof {
        assert(entries.take(entries.len() as int) =~= entries);
    }
    Ok(row_ids)
}

// ---------- endpoints ----------

/// The integer that eight raw bytes stand for.
pub open spec fn raw_i64(value: ValueView, cell: Cell) -> Result<i64, ChangelogError> {
    match value {
        ValueView::Raw(bytes) => if bytes.len() != 8 {
            Err(
                ChangelogError::Storage(
                    StorageFault::BadLength { cell, found: bytes.len() as usize },
                ),
            )
        } else {
            Ok(be_i64(bytes))
        },
        _ => Err(ChangelogError::Storage(StorageFault::Undecodable { cell })),
    }
}

pub fn decode_raw_i64(value: &StoredValue, cell: Cell) -> (r: Result<i64, ChangelogError>)
    ensures
        r == raw_i64(value@, cell),
{
    match value {
        StoredValue::Raw(bytes) => {
            if bytes.len() != 8 {
                return Err(
                    ChangelogError::Storage(StorageFault::BadLength { cell, found: bytes.len() }),
                );
            }
            Ok(i64_from_be(bytes))
        },
        _ => Err(ChangelogError::Storage(StorageFault::Undecodable { cell })),
    }
}

pub open spec fn endpoint_key(list_number: i64, endpoint: ResolveEndpoint) -> KeyView {
    match endpoint {
        ResolveEndpoint::Head => KeyView::PieceHead { list_number },
        ResolveEndpoint::Tail => KeyView::PieceTail { list_number },
    }
}

pub open spec fn endpoint_cell(list_number: i64, endpoint: ResolveEndpoint) -> Cell {
    match endpoint {
        ResolveEndpoint::Head => Cell { kind: CellKind::Head, id: list_number },
        ResolveEndpoint::Tail => Cell { kind: CellKind::Tail, id: list_number },
    }
}

/// The first or last row of a document.
pub open spec fn endpoint_row(answers: Answers, list_number: i64, endpoint: ResolveEndpoint) -> Result<
    i64,
    ChangelogError,
> {
    let cell = endpoint_cell(list_number, endpoint);
    match single_value(answers, endpoint_key(list_number, endpoint), cell) {
        Err(e) => Err(e),
        Ok(v) => raw_i64(v, cell),
    }
}

pub fn read_piece_coords_endpoint<R: OpReader>(
    reader: &mut R,
    list_number: i64,
    endpoint: ResolveEndpoint,
) -> (r: Result<i64, ChangelogError>)
    ensures
        final(reader).answers() == old(reader).answers(),
        final(reader).log() == old(reader).log().push(ReadOpView::Key(endpoint_key(list_number, endpoint))),
        r == endpoint_row(old(reader).answers(), list_number, endpoint),
{
    let (key, cell) = match endpoint {
        ResolveEndpoint::Head => (
            StorageKey::PieceHead { list_number },
            Cell { kind: CellKind::Head, id: list_number },
        ),
        ResolveEndpoint::Tail => (
            StorageKey::PieceTail { list_number },
            Cell { kind: CellKind::Tail, id: list_number },
        ),
    };
    let value = read_single_key(reader, key, cell)?;
    decode_raw_i64(&value, cell)
}

// ---------- resolution over the tree ----------

/// Where a coordinate lies, as read from the tree.
#[derive(Clone, Copy, Debug, PartialEq, Eq, Structural)]
pub enum IndexedResolveResult {
    /// The start of the document.
    DocumentStart { head_id: i64 },
    /// In a live row, `offset` bytes from its start.
    InRow { row: PieceRow, offset: u32 },
    /// In a deleted row; the live row is the nearest in the given direction.
    ClampedToRow { row: PieceRow, direction: ClampDirection, hops: u32 },
    /// In a deleted row with no live row before it.
    ClampedBeforeHead { head_id: i64, start_row_id: i64, hops: u32 },
    /// In a deleted row with no live row after it.
    ClampedAfterTail { tail_id: i64, start_row_id: i64, hops: u32 },
}

/// How much a resolution looked at.
#[derive(Clone, Copy, Debug, PartialEq, Eq, Structural)]
pub struct ResolveCoordMetrics {
    /// Index entries of the coordinate's buffer; the document's start has none.
    pub k_per_buffer: usize,
    /// Deleted rows skipped.
    pub tombstone_clamp_hops: u32,
}

impl Default for ResolveCoordMetrics {
    fn default() -> (m: Self)
        ensures
            m == (ResolveCoordMetrics { k_per_buffer: 0, tombstone_clamp_hops: 0 }),
    {
        ResolveCoordMetrics { k_per_buffer: 0, tombstone_clamp_hops: 0 }
    }
}

pub open spec fn indexed_result(result: ResolveCoreResult) -> IndexedResolveResult {
    match result {
        ResolveCoreResult::DocumentStart { head_id } => IndexedResolveResult::DocumentStart { head_id },
        ResolveCoreResult::InRow { row, offset } => IndexedResolveResult::InRow { row, offset },
        ResolveCoreResult::ClampedToRow { row, start_row_id, direction, hops } => {
            IndexedResolveResult::ClampedToRow { row, direction, hops }
        },
        ResolveCoreResult::ClampedBeforeHead { head_id, start_row_id, direction, hops } => {
            IndexedResolveResult::ClampedBeforeHead { head_id, start_row_id, hops }
        },
        ResolveCoreResult::ClampedAfterTail { tail_id, start_row_id, direction, hops } => {
            IndexedResolveResult::ClampedAfterTail { tail_id, start_row_id, hops }
        },
    }
}

pub open spec fn clamp_hops(result: IndexedResolveResult) -> u32 {
    match result {
        IndexedResolveResult::ClampedToRow { hops, .. } => hops,
        IndexedResolveResult::ClampedBeforeHead { hops, .. } => hops,
        IndexedResolveResult::ClampedAfterTail { hops, .. } => hops,
        IndexedResolveResult::DocumentStart { .. } => 0,
        IndexedResolveResult::InRow { .. } => 0,
    }
}

fn indexed_result_from_core(result: ResolveCoreResult) -> (r: IndexedResolveResult)
    ensures
        r == indexed_result(result),
{
    match result {
        ResolveCoreResult::DocumentStart { head_id } => IndexedResolveResult::DocumentStart { head_id },
        ResolveCoreResult::InRow { row, offset } => IndexedResolveResult::InRow { row, offset },
        ResolveCoreResult::ClampedToRow { row, direction, hops, .. } => {
            IndexedResolveResult::ClampedToRow { row, direction, hops }
        },
        ResolveCoreResult::ClampedBeforeHead { head_id, start_row_id, hops, .. } => {
            IndexedResolveResult::ClampedBeforeHead { head_id, start_row_id, hops }
        },
        ResolveCoreResult::ClampedAfterTail { tail_id, start_row_id, hops, .. } => {
            IndexedResolveResult::ClampedAfterTail { tail_id, start_row_id, hops }
        },
    }
}

fn tombstone_clamp_hops(result: &IndexedResolveResult) -> (h: u32)
    ensures
        h == clamp_hops(*result),
{
    match *result {
        IndexedResolveResult::ClampedToRow { hops, .. } => hops,
        IndexedResolveResult::ClampedBeforeHead { hops, .. } => hops,
        IndexedResolveResult::ClampedAfterTail { hops, .. } => hops,
        IndexedResolveResult::DocumentStart { .. } | IndexedResolveResult::InRow { .. } => 0,
    }
}

/// A document as the tree holds it, with nothing read yet.
pub open spec fn tree_doc(answers: Answers, list_number: i64) -> Doc<ChangelogError> {
    Doc {
        list_number,
        row: |id: i64| aligned_row(answers, id),
        base: |id: i64| aligned_row(answers, id),
        candidates: |b: i64| buffer_rows(answers, b),
        head: endpoint_row(answers, list_number, ResolveEndpoint::Head),
        tail: endpoint_row(answers, list_number, ResolveEndpoint::Tail),
        next_piece_id: 0,
        new_ids: Seq::empty(),
        loaded: Set::empty(),
        lookups: Seq::empty(),
        clamps: Seq::empty(),
        costs: ReadCosts {
            endpoint: |e: ResolveEndpoint| seq![ReadOpView::Key(endpoint_key(list_number, e))],
            once: false,
            ..tree_costs(answers)
        },
        log: Seq::empty(),
    }
}

/// A document read straight from the tree.
struct IndexedResolveSource<'a, R: OpReader> {
    reader: &'a mut R,
    list_number: i64,
    loaded: Ghost<Set<i64>>,
    lookups: Ghost<Seq<(i64, Seq<i64>)>>,
    /// The reads that were made before.
    before: Ghost<Seq<ReadOpView>>,
}

impl<'a, R: OpReader> ResolveSource for IndexedResolveSource<'a, R> {
    type Error = ChangelogError;

    type Rest = (Answers, i64, Seq<ReadOpView>);

    closed spec fn rest(&self) -> (Answers, i64, Seq<ReadOpView>) {
        (self.reader.answers(), self.list_number, self.before@)
    }

    type Tree = R;

    closed spec fn tree(&self) -> &mut R {
        self.reader
    }

    closed spec fn doc(&self) -> Doc<ChangelogError> {
        Doc {
            loaded: self.loaded@,
            lookups: self.lookups@,
            log: self.reader.log().skip(self.before@.len() as int),
            ..tree_doc(self.reader.answers(), self.list_number)
        }
    }

    closed spec fn wf(&self) -> bool {
        self.before@.is_prefix_of(self.reader.log())
    }

    proof fn lemma_ids_match(&self) {
    }

    fn list_number(&self) -> (n: i64) {
        self.list_number
    }

    fn candidate_row_ids(&mut self, buffer_id: i64) -> (r: Result<Vec<i64>, ChangelogError>) {
        let read = read_candidate_row_ids(self.reader, buffer_id);
        assert(self.reader.log().skip(self.before@.len() as int) =~= old(self).doc().log + seq![
            buffer_index_read(buffer_id),
        ]);
        let ids = read?;
        proof {
            self.lookups@ = self.lookups@.push((buffer_id, ids@));
        }
        Ok(ids)
    }

    fn read_row(&mut self, row_id: i64) -> (r: Result<PieceRow, ChangelogError>) {
        let ghost cost = row_reads(self.reader.answers(), row_id);
        let read = read_aligned_piece_coords_row(self.reader, row_id);
        assert(self.reader.log().skip(self.before@.len() as int) =~= old(self).doc().log + cost);
        let row = read?;
        proof {
            self.loaded@ = self.loaded@.insert(row_id);
        }
        Ok(row)
    }

    fn read_endpoint(&mut self, endpoint: ResolveEndpoint) -> (r: Result<i64, ChangelogError>) {
        let ghost cost = seq![ReadOpView::Key(endpoint_key(self.list_number, endpoint))];
        let r = read_piece_coords_endpoint(self.reader, self.list_number, endpoint);
        assert(self.reader.log().skip(self.before@.len() as int) =~= old(self).doc().log + cost);
        r
    }
}

/// What an error met during a resolution over the tree becomes.
pub open spec fn resolve_error(e: EditError<ChangelogError>) -> ChangelogError {
    match e {
        EditError::Store(e) => e,
        EditError::Fault(f) => ChangelogError::Resolve(f),
    }
}

/// The resolution of a coordinate over the tree.
pub open spec fn tree_resolution(
    answers: Answers,
    list_number: i64,
    coord: BufferCoord,
    purpose: ResolvePurpose,
) -> Result<(IndexedResolveResult, ResolveCoordMetrics), ChangelogError> {
    match coord.shape_fault() {
        Some(f) => Err(ChangelogError::PieceText(f)),
        None => match resolve_core(tree_doc(answers, list_number), coord, purpose).1 {
            Err(e) => Err(resolve_error(e)),
            Ok(out) => {
                let result = indexed_result(out.result);
                Ok(
                    (
                        result,
                        ResolveCoordMetrics {
                            k_per_buffer: out.candidate_count,
                            tombstone_clamp_hops: clamp_hops(result),
                        },
                    ),
                )
            },
        },
    }
}

/// The reads that a resolution over the tree makes: none for a malformed
/// coordinate, else the index of its buffer first, or the document's head.
pub open spec fn resolution_reads(
    answers: Answers,
    list_number: i64,
    coord: BufferCoord,
    purpose: ResolvePurpose,
) -> Seq<ReadOpView> {
    match coord.shape_fault() {
        Some(_) => Seq::empty(),
        None => resolve_core(tree_doc(answers, list_number), coord, purpose).0.log,
    }
}

/// The first of those reads: the index of the coordinate's buffer, or the
/// document's head for the start of the document.
pub open spec fn first_read(list_number: i64, coord: BufferCoord) -> ReadOpView {
    if coord.buffer_id == 0 {
        ReadOpView::Key(endpoint_key(list_number, ResolveEndpoint::Head))
    } else {
        buffer_index_read(coord.buffer_id)
    }
}

proof fn lemma_first_read(answers: Answers, list_number: i64, coord: BufferCoord, purpose: ResolvePurpose)
    requires
        coord.shape_fault() is None,
    ensures
        resolution_reads(answers, list_number, coord, purpose).len() > 0,
        resolution_reads(answers, list_number, coord, purpose)[0] == first_read(list_number, coord),
{
    if coord.buffer_id > 0 {
        let doc = tree_doc(answers, list_number);
        lemma_lookup_comes_first(doc, coord, purpose);
        assert(doc.after_lookup(coord.buffer_id).log[0] == buffer_index_read(coord.buffer_id));
    }
}

/// Resolves a coordinate over the tree, and says how much was looked at.
pub fn resolve_coord_with_metrics<R: OpReader>(
    reader: &mut R,
    list_number: i64,
    coord: BufferCoord,
    purpose: ResolvePurpose,
) -> (r: Result<(IndexedResolveResult, ResolveCoordMetrics), ChangelogError>)
    ensures
        final(reader).answers() == old(reader).answers(),
        final(reader).log() == old(reader).log() + resolution_reads(
            old(reader).answers(),
            list_number,
            coord,
            purpose,
        ),
        match coord.shape_fault() {
            Some(_) => final(reader).log() == old(reader).log(),
            None => final(reader).log().len() > old(reader).log().len()
                && final(reader).log()[old(reader).log().len() as int] == first_read(
                list_number,
                coord,
            ),
        },
        r == tree_resolution(old(reader).answers(), list_number, coord, purpose),
{
    proof {
        assert(reader.log() + Seq::<ReadOpView>::empty() =~= reader.log());
    }
    coord.validate_shape()?;
    proof {
        lemma_first_read(reader.answers(), list_number, coord, purpose);
    }
    let outcome = resolve_over_tree(reader, list_number, coord, purpose);
    let output = match outcome {
        Err(EditError::Store(e)) => {
            return Err(e);
        },
        Err(EditError::Fault(f)) => {
            return Err(ChangelogError::Resolve(f));
        },
        Ok(output) => output,
    };
    let result = indexed_result_from_core(output.result);
    let metrics = ResolveCoordMetrics {
        k_per_buffer: output.candidate_count,
        tombstone_clamp_hops: tombstone_clamp_hops(&result),
    };
    Ok((result, metrics))
}

fn resolve_over_tree<R: OpReader>(
    reader: &mut R,
    list_number: i64,
    coord: BufferCoord,
    purpose: ResolvePurpose,
) -> (r: Result<ResolveCoreOutput, EditError<ChangelogError>>)
    ensures
        final(reader).answers() == old(reader).answers(),
        final(reader).log() == old(reader).log() + resolve_core(
            tree_doc(old(reader).answers(), list_number),
            coord,
            purpose,
        ).0.log,
        r == resolve_core(tree_doc(old(reader).answers(), list_number), coord, purpose).1,
{
    let ghost answers = reader.answers();
    let ghost before = reader.log();
    let mut source = IndexedResolveSource {
        reader,
        list_number,
        loaded: Ghost(Set::empty()),
        lookups: Ghost(Seq::empty()),
        before: Ghost(before),
    };
    assert(source.doc() == tree_doc(answers, list_number)) by {
        assert(source.doc().log =~= Seq::empty());
    }
    let r = resolve_coord_core(&mut source, coord, purpose);
    proof {
        assert(source.reader.log() =~= before + source.doc().log);
    }
    r
}

/// Resolves a coordinate over the tree.
pub fn resolve_coord<R: OpReader>(
    reader: &mut R,
    list_number: i64,
    coord: BufferCoord,
    purpose: ResolvePurpose,
) -> (r: Result<IndexedResolveResult, ChangelogError>)
    ensures
        final(reader).answers() == old(reader).answers(),
        final(reader).log() == old(reader).log() + resolution_reads(
            old(reader).answers(),
            list_number,
            coord,
            purpose,
        ),
        match coord.shape_fault() {
            Some(_) => final(reader).log() == old(reader).log(),
            None => final(reader).log().len() > old(reader).log().len()
                && final(reader).log()[old(reader).log().len() as int] == first_read(
                list_number,
                coord,
            ),
        },
        match tree_resolution(old(reader).answers(), list_number, coord, purpose) {
            Ok((result, _)) => r == Ok::<IndexedResolveResult, ChangelogError>(result),
            Err(e) => r == Err::<IndexedResolveResult, ChangelogError>(e),
        },
{
    let (result, _metrics) = resolve_coord_with_metrics(reader, list_number, coord, purpose)?;
    Ok(result)
}

// ---------- index writes ----------

pub open spec fn piece_index_key(column: PieceColumn, value: i64, row_id: i64) -> KeyView {
    KeyView::Index {
        table: piece_table(),
        column: column.name()@,
        value: IndexValueView::Int(value),
        row_id,
    }
}

pub open spec fn buffer_index_key(column: BufferColumn, value: IndexValueView, row_id: i64) -> KeyView {
    KeyView::Index { table: buffer_table(), column: column.name()@, value, row_id }
}

/// A column of the table of buffers.
#[derive(Clone, Copy, Debug, PartialEq, Eq, Structural)]
pub enum BufferColumn {
    OwnerTable,
    OwnerRowId,
    OwnerColumn,
    AuthorId,
    LenBytes,
    Contents,
}

impl BufferColumn {
    pub open spec fn name_spec(self) -> &'static str {
        match self {
            BufferColumn::OwnerTable => "owner_table",
            BufferColumn::OwnerRowId => "owner_row_id",
            BufferColumn::OwnerColumn => "owner_column",
            BufferColumn::AuthorId => "author_id",
            BufferColumn::LenBytes => "len_bytes",
            BufferColumn::Contents => "contents",
        }
    }

    #[verifier::when_used_as_spec(name_spec)]
    pub fn name(self) -> (s: &'static str)
        ensures
            s == self.name_spec(),
    {
        match self {
            BufferColumn::OwnerTable => "owner_table",
            BufferColumn::OwnerRowId => "owner_row_id",
            BufferColumn::OwnerColumn => "owner_column",
            BufferColumn::AuthorId => "author_id",
            BufferColumn::LenBytes => "len_bytes",
            BufferColumn::Contents => "contents",
        }
    }
}

/// The key of a cell of the table of buffers.
pub open spec fn buffer_key(row_id: i64, column: BufferColumn) -> KeyView {
    KeyView::Column { table: buffer_table(), row_id, column: column.name()@ }
}

pub fn buffer_column_key(row_id: i64, column: BufferColumn) -> (k: StorageKey)
    ensures
        k@ == buffer_key(row_id, column),
{
    StorageKey::Column { table: buffer_table_name(), row_id, column: column.name().to_owned() }
}

/// The index entries that a new piece row has.
pub open spec fn piece_index_puts(row_id: i64, list_number: i64, buffer_id: i64) -> Seq<BatchOpView> {
    seq![
        BatchOpView::Put {
            key: piece_index_key(PieceColumn::BufferId, buffer_id, row_id),
            value: ValueView::RowId(row_id),
        },
        BatchOpView::Put {
            key: piece_index_key(PieceColumn::ListNumber, list_number, row_id),
            value: ValueView::RowId(row_id),
        },
    ]
}

pub open spec fn piece_index_deletes(row_id: i64, list_number: i64, buffer_id: i64) -> Seq<BatchOpView> {
    seq![
        BatchOpView::Delete { key: piece_index_key(PieceColumn::BufferId, buffer_id, row_id) },
        BatchOpView::Delete { key: piece_index_key(PieceColumn::ListNumber, list_number, row_id) },
    ]
}

/// The index entries that a new buffer row has.
pub open spec fn buffer_index_puts(
    row_id: i64,
    owner_table: Seq<char>,
    owner_row_id: i64,
    owner_column: Seq<char>,
) -> Seq<BatchOpView> {
    seq![
        BatchOpView::Put {
            key: buffer_index_key(BufferColumn::OwnerColumn, IndexValueView::Text(owner_column), row_id),
            value: ValueView::RowId(row_id),
        },
        BatchOpView::Put {
            key: buffer_index_key(BufferColumn::OwnerRowId, IndexValueView::Int(owner_row_id), row_id),
            value: ValueView::RowId(row_id),
        },
        BatchOpView::Put {
            key: buffer_index_key(BufferColumn::OwnerTable, IndexValueView::Text(owner_table), row_id),
            value: ValueView::RowId(row_id),
        },
    ]
}

pub open spec fn buffer_index_deletes(
    row_id: i64,
    owner_table: Seq<char>,
    owner_row_id: i64,
    owner_column: Seq<char>,
) -> Seq<BatchOpView> {
    seq![
        BatchOpView::Delete {
            key: buffer_index_key(BufferColumn::OwnerColumn, IndexValueView::Text(owner_column), row_id),
        },
        BatchOpView::Delete {
            key: buffer_index_key(BufferColumn::OwnerRowId, IndexValueView::Int(owner_row_id), row_id),
        },
        BatchOpView::Delete {
            key: buffer_index_key(BufferColumn::OwnerTable, IndexValueView::Text(owner_table), row_id),
        },
    ]
}

fn piece_index_storage_key(column: PieceColumn, value: i64, row_id: i64) -> (k: StorageKey)
    ensures
        k@ == piece_index_key(column, value, row_id),
{
    StorageKey::Index {
        table: piece_table_name(),
        column: column.name().to_owned(),
        value: IndexValue::Int(value),
        row_id,
    }
}

fn buffer_index_storage_key(column: BufferColumn, value: IndexValue, row_id: i64) -> (k: StorageKey)
    ensures
        k@ == buffer_index_key(column, value@, row_id),
{
    StorageKey::Index {
        table: buffer_table_name(),
        column: column.name().to_owned(),
        value,
        row_id,
    }
}

/// The index entries to put for a new piece row.
pub fn piece_coords_insert_index_puts(row_id: i64, list_number: i64, buffer_id: i64) -> (r: Result<
    Vec<BatchOp>,
    ChangelogError,
>)
    ensures
        row_id > 0 && list_number > 0 && buffer_id > 0 ==> (r matches Ok(ops) && batch_view(ops@)
            == piece_index_puts(row_id, list_number, buffer_id)),
        !(row_id > 0 && list_number > 0 && buffer_id > 0) ==> r == Err::<Vec<BatchOp>, ChangelogError>(
            ChangelogError::Storage(
                StorageFault::PieceIndexNotPositive { row_id, list_number, buffer_id },
            ),
        ),
{
    if row_id <= 0 || list_number <= 0 || buffer_id <= 0 {
        return Err(
            ChangelogError::Storage(
                StorageFault::PieceIndexNotPositive { row_id, list_number, buffer_id },
            ),
        );
    }
    let ops = vec![
        BatchOp::Put {
            key: piece_index_storage_key(PieceColumn::BufferId, buffer_id, row_id),
            value: StoredValue::RowId(row_id),
        },
        BatchOp::Put {
            key: piece_index_storage_key(PieceColumn::ListNumber, list_number, row_id),
            value: StoredValue::RowId(row_id),
        },
    ];
    assert(batch_view(ops@) =~= piece_index_puts(row_id, list_number, buffer_id));
    Ok(ops)
}

/// The index entries to delete with a piece row.
pub fn piece_coords_delete_index_deletes(row_id: i64, list_number: i64, buffer_id: i64) -> (r: Result<
    Vec<BatchOp>,
    ChangelogError,
>)
    ensures
        row_id > 0 && list_number > 0 && buffer_id > 0 ==> (r matches Ok(ops) && batch_view(ops@)
            == piece_index_deletes(row_id, list_number, buffer_id)),
        !(row_id > 0 && list_number > 0 && buffer_id > 0) ==> r == Err::<Vec<BatchOp>, ChangelogError>(
            ChangelogError::Storage(
                StorageFault::PieceIndexDeleteNotPositive { row_id, list_number, buffer_id },
            ),
        ),
{
    if row_id <= 0 || list_number <= 0 || buffer_id <= 0 {
        return Err(
            ChangelogError::Storage(
                StorageFault::PieceIndexDeleteNotPositive { row_id, list_number, buffer_id },
            ),
        );
    }
    let ops = vec![
        BatchOp::Delete { key: piece_index_storage_key(PieceColumn::BufferId, buffer_id, row_id) },
        BatchOp::Delete { key: piece_index_storage_key(PieceColumn::ListNumber, list_number, row_id) },
    ];
    assert(batch_view(ops@) =~= piece_index_deletes(row_id, list_number, buffer_id));
    Ok(ops)
}

/// The index entries to put for a new buffer row.
pub fn buffers_insert_index_puts(row_id: i64, owner_table: &str, owner_row_id: i64, owner_column: &str) -> (r:
    Result<Vec<BatchOp>, ChangelogError>)
    ensures
        row_id > 0 && owner_row_id > 0 ==> (r matches Ok(ops) && batch_view(ops@) == buffer_index_puts(
            row_id,
            owner_table@,
            owner_row_id,
            owner_column@,
        )),
        !(row_id > 0 && owner_row_id > 0) ==> r == Err::<Vec<BatchOp>, ChangelogError>(
            ChangelogError::Storage(StorageFault::BufferIndexNotPositive { row_id, owner_row_id }),
        ),
{
    if row_id <= 0 || owner_row_id <= 0 {
        return Err(
            ChangelogError::Storage(StorageFault::BufferIndexNotPositive { row_id, owner_row_id }),
        );
    }
    let ops = vec![
        BatchOp::Put {
            key: buffer_index_storage_key(
                BufferColumn::OwnerColumn,
                IndexValue::Text(owner_column.to_owned()),
                row_id,
            ),
            value: StoredValue::RowId(row_id),
        },
        BatchOp::Put {
            key: buffer_index_storage_key(
                BufferColumn::OwnerRowId,
                IndexValue::Int(owner_row_id),
                row_id,
            ),
            value: StoredValue::RowId(row_id),
        },
        BatchOp::Put {
            key: buffer_index_storage_key(
                BufferColumn::OwnerTable,
                IndexValue::Text(owner_table.to_owned()),
                row_id,
            ),
            value: StoredValue::RowId(row_id),
        },
    ];
    assert(batch_view(ops@) =~= buffer_index_puts(row_id, owner_table@, owner_row_id, owner_column@));
    Ok(ops)
}

/// The index entries to delete with a buffer row.
pub fn buffers_delete_index_deletes(row_id: i64, owner_table: &str, owner_row_id: i64, owner_column: &str) -> (r:
    Result<Vec<BatchOp>, ChangelogError>)
    ensures
        row_id > 0 && owner_row_id > 0 ==> (r matches Ok(ops) && batch_view(ops@)
            == buffer_index_deletes(row_id, owner_table@, owner_row_id, owner_column@)),
        !(row_id > 0 && owner_row_id > 0) ==> r == Err::<Vec<BatchOp>, ChangelogError>(
            ChangelogError::Storage(StorageFault::BufferIndexDeleteNotPositive { row_id, owner_row_id }),
        ),
{
    if row_id <= 0 || owner_row_id <= 0 {
        return Err(
            ChangelogError::Storage(StorageFault::BufferIndexDeleteNotPositive { row_id, owner_row_id }),
        );
    }
    let ops = vec![
        BatchOp::Delete {
            key: buffer_index_storage_key(
                BufferColumn::OwnerColumn,
                IndexValue::Text(owner_column.to_owned()),
                row_id,
            ),
        },
        BatchOp::Delete {
            key: buffer_index_storage_key(
                BufferColumn::OwnerRowId,
                IndexValue::Int(owner_row_id),
                row_id,
            ),
        },
        BatchOp::Delete {
            key: buffer_index_storage_key(
                BufferColumn::OwnerTable,
                IndexValue::Text(owner_table.to_owned()),
                row_id,
            ),
        },
    ];
    assert(batch_view(ops@) =~= buffer_index_deletes(
        row_id,
        owner_table@,
        owner_row_id,
        owner_column@,
    ));
    Ok(ops)
}

} // verus!
