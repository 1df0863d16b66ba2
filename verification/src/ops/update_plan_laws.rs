//! What an update of rows is for.

use vstd::prelude::*;

use crate::changelog::{ChangelogError, ErrorView, KvView};
use crate::faults::{OpFaultView, OpName};
use crate::ops::names::{before_from, comes_before, law_name_order};
use crate::ops::names_include;
use crate::ops::piece_text_edit_op::{lemma_insert_id_ascends, lemma_insert_id_contains};
use crate::ops::update_op::{
    absent_row, acl_cells, cell_before, cell_key, cell_value, cells_to_read, checks_of_entries, existing_values,
    first_column, first_failure, has_cell_of, index_writes, last_value, misplaced, old_values,
    parsed_entries, planned, planned_reads, read_error, row_exists, touched_rows, touches,
    update_writes, updated_rows, value_read, with_acl_cells, with_indexed_cells,
    with_presence_cells, CellView, IndexOutcome, ParsedView, UpdateChecks, UpdateOutcomes,
};
use crate::ops::update_op_laws::{
    ascend, lemma_before_irreflexive, lemma_before_transitive, law_cells_read_once, law_update_writes_entries, lemma_ascend_distinct, own_writes,
    lemma_acl_cells, lemma_cells_of_entries, lemma_indexed_cells, lemma_insert_contains,
};
use crate::storage::{Answers, BatchOpView, KeyView, ReadOpView, ValueView};

verus! {

// ---------- what entries and rules name ----------

/// One of the names is the one given.
pub open spec fn is_named(names: Seq<String>, name: Seq<char>) -> bool {
    exists|j: int| 0 <= j < names.len() && (#[trigger] names[j])@ == name
}

/// The key is that of a cell of the row.
pub open spec fn is_of_row(key: KeyView, row: i64) -> bool {
    key matches KeyView::Column { row_id, .. } && row_id == row
}

/// The key is that of the row's cell in the column.
pub open spec fn is_cell(key: KeyView, row: i64, name: Seq<char>) -> bool {
    key matches KeyView::Column { row_id, column, .. } && row_id == row && column == name
}

/// An entry is for the row.
pub open spec fn updates_row(entries: Seq<KvView>, row: i64) -> bool {
    exists|i: int| 0 <= i < entries.len() && is_of_row((#[trigger] entries[i]).key, row)
}

/// An entry is for the row's cell in the column.
pub open spec fn updates_cell(entries: Seq<KvView>, row: i64, column: Seq<char>) -> bool {
    exists|i: int| 0 <= i < entries.len() && is_cell((#[trigger] entries[i]).key, row, column)
}

/// The first entry for the row is for its cell in the column.
pub open spec fn updates_first(entries: Seq<KvView>, row: i64, column: Seq<char>) -> bool {
    exists|i: int|
        0 <= i < entries.len() && is_cell((#[trigger] entries[i]).key, row, column) && forall|j: int|
            0 <= j < i ==> !is_of_row((#[trigger] entries[j]).key, row)
}

/// The access rule looks at the column. A row's id is no cell.
pub open spec fn rule_looks_at(rule: Option<Vec<String>>, column: Seq<char>) -> bool {
    rule matches Some(columns) && column != "id"@ && is_named(columns@, column)
}

/// The cell is updated, and its column has an index.
pub open spec fn changes_index(entries: Seq<KvView>, indexed: Seq<String>, row: i64, column: Seq<char>) -> bool {
    is_named(indexed, column) && updates_cell(entries, row, column)
}

/// Neither the rule nor an index needs the old value of a cell of the row.
pub open spec fn otherwise_unneeded(
    entries: Seq<KvView>,
    rule: Option<Vec<String>>,
    indexed: Seq<String>,
    row: i64,
) -> bool {
    forall|column: Seq<char>|
        !rule_looks_at(rule, column) && !#[trigger] changes_index(entries, indexed, row, column)
}

/// The old value of a cell is needed: the rule looks at it, its index entry
/// changes, or it is the first one updated of a row none of whose cells are needed
/// otherwise.
pub open spec fn is_needed(
    entries: Seq<KvView>,
    rule: Option<Vec<String>>,
    indexed: Seq<String>,
    row: i64,
    column: Seq<char>,
) -> bool {
    &&& updates_row(entries, row)
    &&& {
        ||| rule_looks_at(rule, column)
        ||| changes_index(entries, indexed, row, column)
        ||| updates_first(entries, row, column) && otherwise_unneeded(entries, rule, indexed, row)
    }
}

// ---------- entries as cells ----------

spec fn all_cells(entries: Seq<KvView>) -> bool {
    forall|i: int| 0 <= i < entries.len() ==> (#[trigger] entries[i]).key is Column
}

proof fn lemma_parsed(entries: Seq<KvView>)
    requires
        all_cells(entries),
    ensures
        parsed_entries(entries).len() == entries.len(),
        forall|i: int|
            0 <= i < entries.len() ==> is_cell(
                entries[i].key,
                (#[trigger] parsed_entries(entries)[i]).row_id,
                parsed_entries(entries)[i].column,
            ) && parsed_entries(entries)[i].value == entries[i].value,
        forall|i: int|
            0 <= i < entries.len() ==> is_cell(
                (#[trigger] entries[i]).key,
                parsed_entries(entries)[i].row_id,
                parsed_entries(entries)[i].column,
            ) && parsed_entries(entries)[i].value == entries[i].value,
{
    lemma_cells_of_entries(entries);
    assert forall|i: int| 0 <= i < entries.len() implies is_cell(
        (#[trigger] entries[i]).key,
        parsed_entries(entries)[i].row_id,
        parsed_entries(entries)[i].column,
    ) && parsed_entries(entries)[i].value == entries[i].value by {
        let cell = parsed_entries(entries)[i];
    }
}

// ---------- the cells to read ----------

proof fn lemma_acl_row_only(cells: Seq<CellView>, row_id: i64, columns: Seq<String>, x: CellView)
    ensures
        with_acl_cells(cells, row_id, columns).contains(x) ==> cells.contains(x) || (x.0 == row_id && x.1
            != "id"@ && is_named(columns, x.1)),
    decreases columns.len(),
{
    if columns.len() > 0 {
        let rest = columns.drop_last();
        lemma_acl_row_only(cells, row_id, rest, x);
        lemma_insert_contains(with_acl_cells(cells, row_id, rest), (row_id, columns.last()@), x);
        if is_named(rest, x.1) {
            let j = choose|j: int| 0 <= j < rest.len() && (#[trigger] rest[j])@ == x.1;
            assert(columns[j]@ == x.1);
        }
        assert(columns[columns.len() - 1]@ == columns.last()@);
    }
}

proof fn lemma_acl_only(rows: Seq<i64>, columns: Seq<String>, x: CellView)
    ensures
        acl_cells(rows, columns).contains(x) ==> rows.contains(x.0) && x.1 != "id"@ && is_named(columns, x.1),
    decreases rows.len(),
{
    if rows.len() > 0 {
        let rest = rows.drop_last();
        lemma_acl_only(rest, columns, x);
        lemma_acl_row_only(acl_cells(rest, columns), rows.last(), columns, x);
        if rest.contains(x.0) {
            assert(rows[rest.index_of(x.0)] == x.0);
        }
        assert(rows[rows.len() - 1] == rows.last());
    }
}

proof fn lemma_indexed_only(cells: Seq<CellView>, parsed: Seq<ParsedView>, indexed: Seq<String>, x: CellView)
    ensures
        with_indexed_cells(cells, parsed, indexed).contains(x) ==> cells.contains(x) || (is_named(indexed, x.1)
            && exists|i: int|
            0 <= i < parsed.len() && (#[trigger] parsed[i]).row_id == x.0 && parsed[i].column == x.1),
    decreases parsed.len(),
{
    if parsed.len() > 0 {
        let rest = parsed.drop_last();
        lemma_indexed_only(cells, rest, indexed, x);
        let last = parsed.last();
        lemma_insert_contains(with_indexed_cells(cells, rest, indexed), (last.row_id, last.column), x);
        assert(parsed[parsed.len() - 1] == last);
        if exists|i: int|
            0 <= i < rest.len() && (#[trigger] rest[i]).row_id == x.0 && rest[i].column == x.1 {
            let i = choose|i: int|
                0 <= i < rest.len() && (#[trigger] rest[i]).row_id == x.0 && rest[i].column == x.1;
            assert(parsed[i] == rest[i]);
        }
    }
}

proof fn lemma_presence_only(cells: Seq<CellView>, rows: Seq<i64>, parsed: Seq<ParsedView>, x: CellView)
    ensures
        with_presence_cells(cells, rows, parsed).contains(x) <==> cells.contains(x) || (rows.contains(x.0)
            && !has_cell_of(cells, x.0) && x.1 == first_column(parsed, x.0)),
    decreases rows.len(),
{
    if rows.len() > 0 {
        let rest = rows.drop_last();
        let row = rows.last();
        let before = with_presence_cells(cells, rest, parsed);
        let cell = (row, first_column(parsed, row));
        lemma_presence_only(cells, rest, parsed, x);
        lemma_insert_contains(before, cell, x);
        assert(rows.contains(x.0) <==> rest.contains(x.0) || x.0 == row) by {
            assert(rows[rows.len() - 1] == row);
            if rest.contains(x.0) {
                assert(rows[rest.index_of(x.0)] == x.0);
            }
            if rows.contains(x.0) && x.0 != row {
                let k = rows.index_of(x.0);
                assert(rest[k] == x.0);
            }
        }
        assert(has_cell_of(before, row) <==> has_cell_of(cells, row) || rest.contains(row)) by {
            if has_cell_of(before, row) {
                let k = choose|k: int| 0 <= k < before.len() && (#[trigger] before[k]).0 == row;
                assert(before.contains(before[k]));
                lemma_presence_only(cells, rest, parsed, before[k]);
                if cells.contains(before[k]) {
                    let c = cells.index_of(before[k]);
                    assert(cells[c].0 == row);
                }
            }
            if has_cell_of(cells, row) {
                let k = choose|k: int| 0 <= k < cells.len() && (#[trigger] cells[k]).0 == row;
                assert(cells.contains(cells[k]));
                lemma_presence_only(cells, rest, parsed, cells[k]);
                let c = before.index_of(cells[k]);
                assert(before[c].0 == row);
            } else if rest.contains(row) {
                lemma_presence_only(cells, rest, parsed, cell);
                let c = before.index_of(cell);
                assert(before[c].0 == row);
            }
        }
    }
}

proof fn lemma_first_column(parsed: Seq<ParsedView>, row: i64)
    requires
        exists|i: int| 0 <= i < parsed.len() && (#[trigger] parsed[i]).row_id == row,
    ensures
        exists|i: int|
            0 <= i < parsed.len() && (#[trigger] parsed[i]).row_id == row && parsed[i].column == first_column(
                parsed,
                row,
            ) && forall|j: int| 0 <= j < i ==> (#[trigger] parsed[j]).row_id != row,
    decreases parsed.len(),
{
    let rest = parsed.drop_last();
    if exists|i: int| 0 <= i < parsed.len() - 1 && (#[trigger] parsed[i]).row_id == row {
        let k = choose|i: int| 0 <= i < parsed.len() - 1 && (#[trigger] parsed[i]).row_id == row;
        assert(rest[k].row_id == row);
        lemma_first_column(rest, row);
        let i = choose|i: int|
            0 <= i < rest.len() && (#[trigger] rest[i]).row_id == row && rest[i].column == first_column(rest, row)
                && forall|j: int| 0 <= j < i ==> (#[trigger] rest[j]).row_id != row;
        assert(parsed[i] == rest[i]);
        assert forall|j: int| 0 <= j < i implies (#[trigger] parsed[j]).row_id != row by {
            assert(rest[j] == parsed[j]);
        }
    } else {
        let i = parsed.len() - 1;
        assert(parsed[i].row_id == row);
    }
}

proof fn lemma_updated_rows_only(parsed: Seq<ParsedView>, row: i64)
    ensures
        updated_rows(parsed).contains(row) <==> exists|i: int|
            0 <= i < parsed.len() && (#[trigger] parsed[i]).row_id == row,
        forall|i: int, j: int|
            0 <= i < j < updated_rows(parsed).len() ==> #[trigger] updated_rows(parsed)[i]
                < #[trigger] updated_rows(parsed)[j],
    decreases parsed.len(),
{
    if parsed.len() > 0 {
        let rest = parsed.drop_last();
        lemma_updated_rows_only(rest, row);
        lemma_insert_id_contains(updated_rows(rest), parsed.last().row_id, row);
        lemma_insert_id_ascends(updated_rows(rest), parsed.last().row_id);
        assert(parsed[parsed.len() - 1] == parsed.last());
        if exists|i: int| 0 <= i < rest.len() && (#[trigger] rest[i]).row_id == row {
            let i = choose|i: int| 0 <= i < rest.len() && (#[trigger] rest[i]).row_id == row;
            assert(parsed[i] == rest[i]);
        }
        if exists|i: int| 0 <= i < parsed.len() && (#[trigger] parsed[i]).row_id == row {
            let i = choose|i: int| 0 <= i < parsed.len() && (#[trigger] parsed[i]).row_id == row;
            if i < rest.len() {
                assert(rest[i] == parsed[i]);
            }
        }
    }
}

/// The rows of the entries are the rows named, in order.
proof fn lemma_rows(entries: Seq<KvView>, row: i64)
    requires
        all_cells(entries),
    ensures
        updated_rows(parsed_entries(entries)).contains(row) <==> updates_row(entries, row),
{
    let parsed = parsed_entries(entries);
    lemma_parsed(entries);
    lemma_updated_rows_only(parsed, row);
    if updates_row(entries, row) {
        let i = choose|i: int| 0 <= i < entries.len() && is_of_row((#[trigger] entries[i]).key, row);
        assert(parsed[i].row_id == row);
    }
    if exists|i: int| 0 <= i < parsed.len() && (#[trigger] parsed[i]).row_id == row {
        let i = choose|i: int| 0 <= i < parsed.len() && (#[trigger] parsed[i]).row_id == row;
        assert(is_of_row(entries[i].key, row));
    }
}

proof fn lemma_updates_cell(entries: Seq<KvView>, row: i64, column: Seq<char>)
    requires
        all_cells(entries),
    ensures
        updates_cell(entries, row, column) <==> exists|i: int|
            0 <= i < parsed_entries(entries).len() && (#[trigger] parsed_entries(entries)[i]).row_id == row
                && parsed_entries(entries)[i].column == column,
{
    let parsed = parsed_entries(entries);
    lemma_parsed(entries);
    if updates_cell(entries, row, column) {
        let i = choose|i: int| 0 <= i < entries.len() && is_cell((#[trigger] entries[i]).key, row, column);
        assert(parsed[i].row_id == row && parsed[i].column == column);
    }
    if exists|i: int| 0 <= i < parsed.len() && (#[trigger] parsed[i]).row_id == row && parsed[i].column == column {
        let i = choose|i: int|
            0 <= i < parsed.len() && (#[trigger] parsed[i]).row_id == row && parsed[i].column == column;
        assert(is_cell(entries[i].key, row, column));
    }
}

proof fn lemma_needed(
    entries: Seq<KvView>,
    rule: Option<Vec<String>>,
    indexed: Seq<String>,
    row: i64,
    column: Seq<char>,
)
    requires
        all_cells(entries),
    ensures
        cells_to_read(parsed_entries(entries), rule, indexed).contains((row, column)) <==> is_needed(
            entries,
            rule,
            indexed,
            row,
            column,
        ),
{
    let parsed = parsed_entries(entries);
    let rows = updated_rows(parsed);
    let first = match rule {
        Some(columns) => acl_cells(rows, columns@),
        None => Seq::empty(),
    };
    let second = with_indexed_cells(first, parsed, indexed);
    lemma_parsed(entries);
    lemma_rows(entries, row);
    if let Some(columns) = rule {
        lemma_acl_cells(rows, columns@);
    }
    assert(ascend(first));
    lemma_indexed_cells(first, parsed, indexed);
    // The second group holds what the rule or an index needs.
    assert forall|c: Seq<char>| #[trigger] second.contains((row, c)) <==> updates_row(entries, row) && (
    rule_looks_at(rule, c) || changes_index(entries, indexed, row, c)) by {
        let x = (row, c);
        lemma_indexed_only(first, parsed, indexed, x);
        lemma_updates_cell(entries, row, c);
        if let Some(columns) = rule {
            lemma_acl_only(rows, columns@, x);
            if rows.contains(row) && rule_looks_at(rule, c) {
                let k = rows.index_of(row);
                let j = choose|j: int| 0 <= j < columns@.len() && (#[trigger] columns@[j])@ == c;
                assert(first.contains((rows[k], columns@[j]@)));
                assert(second.contains(x));
            }
        }
        if first.contains(x) {
            assert(rule is Some);
        }
        if changes_index(entries, indexed, row, c) {
            let i = choose|i: int|
                0 <= i < parsed.len() && (#[trigger] parsed[i]).row_id == row && parsed[i].column == c;
            assert(names_include(indexed, parsed[i].column));
            assert(second.contains((parsed[i].row_id, parsed[i].column)));
        }
        if second.contains(x) && !first.contains(x) {
            let i = choose|i: int|
                0 <= i < parsed.len() && (#[trigger] parsed[i]).row_id == row && parsed[i].column == c;
            assert(is_of_row(entries[i].key, row));
        }
    }
    lemma_presence_only(second, rows, parsed, (row, column));
    assert(cells_to_read(parsed, rule, indexed) == with_presence_cells(second, rows, parsed));
    assert(second.contains((row, column)) <==> updates_row(entries, row) && (rule_looks_at(rule, column)
        || changes_index(entries, indexed, row, column)));
    if updates_row(entries, row) {
        assert(has_cell_of(second, row) <==> exists|c: Seq<char>| #[trigger] second.contains((row, c))) by {
            if has_cell_of(second, row) {
                let k = choose|k: int| 0 <= k < second.len() && (#[trigger] second[k]).0 == row;
                assert(second[k] == (row, second[k].1));
                assert(second.contains((row, second[k].1)));
            }
            if exists|c: Seq<char>| #[trigger] second.contains((row, c)) {
                let c = choose|c: Seq<char>| #[trigger] second.contains((row, c));
                let k = second.index_of((row, c));
                assert(second[k].0 == row);
            }
        }
        let none = otherwise_unneeded(entries, rule, indexed, row);
        assert(none <==> !has_cell_of(second, row)) by {
            if none {
                assert forall|c: Seq<char>| !#[trigger] second.contains((row, c)) by {
                    assert(!changes_index(entries, indexed, row, c));
                }
            }
            if !has_cell_of(second, row) {
                assert forall|other: Seq<char>| !rule_looks_at(rule, other) && !#[trigger] changes_index(
                    entries,
                    indexed,
                    row,
                    other,
                ) by {
                    assert(!second.contains((row, other)));
                }
            }
        }
        let k = choose|i: int| 0 <= i < entries.len() && is_of_row((#[trigger] entries[i]).key, row);
        assert(parsed[k].row_id == row);
        lemma_first_column(parsed, row);
        let f = choose|i: int|
            0 <= i < parsed.len() && (#[trigger] parsed[i]).row_id == row && parsed[i].column == first_column(
                parsed,
                row,
            ) && forall|j: int| 0 <= j < i ==> (#[trigger] parsed[j]).row_id != row;
        assert(updates_first(entries, row, column) <==> column == first_column(parsed, row)) by {
            assert forall|j: int| 0 <= j < f implies !is_of_row((#[trigger] entries[j]).key, row) by {
                assert(parsed[j].row_id != row);
            }
            assert(is_cell(entries[f].key, row, parsed[f].column));
            if updates_first(entries, row, column) {
                let i = choose|i: int|
                    0 <= i < entries.len() && is_cell((#[trigger] entries[i]).key, row, column) && forall|j: int|
                        0 <= j < i ==> !is_of_row((#[trigger] entries[j]).key, row);
                if i < f {
                    assert(is_of_row(entries[i].key, row));
                } else if f < i {
                    assert(is_of_row(entries[f].key, row));
                }
            }
        }
    }
}

// ---------- what the tree answers ----------

/// The value that the tree answers for a cell.
pub open spec fn held(answers: Answers, table: Seq<char>, row: i64, column: Seq<char>) -> Option<ValueView> {
    match answers(ReadOpView::Bytes(KeyView::Column { table, row_id: row, column })) {
        Ok(results) => if results.len() > 0 {
            Some(results[0].1)
        } else {
            None
        },
        Err(_) => None,
    }
}

proof fn lemma_value_read(
    answers: Answers,
    table: Seq<char>,
    cells: Seq<CellView>,
    values: Seq<Option<ValueView>>,
    row: i64,
    column: Seq<char>,
)
    requires
        cells.contains((row, column)),
        cells.len() <= values.len(),
        forall|i: int|
            0 <= i < cells.len() ==> #[trigger] values[i] == cell_value(answers, table, cells[i]),
    ensures
        value_read(cells, values, (row, column)) == held(answers, table, row, column),
    decreases cells.len(),
{
    let cell = (row, column);
    if cells.last() == cell {
        assert(values[cells.len() - 1] == cell_value(answers, table, cells[cells.len() - 1]));
    } else {
        let rest = cells.drop_last();
        let k = cells.index_of(cell);
        assert(rest[k] == cell);
        lemma_value_read(answers, table, rest, values, row, column);
    }
}

proof fn lemma_read_error(answers: Answers, table: Seq<char>, cells: Seq<CellView>)
    ensures
        read_error(answers, table, cells) is None <==> forall|i: int|
            0 <= i < cells.len() ==> answers(
                ReadOpView::Bytes(cell_key(table, #[trigger] cells[i])),
            ) is Ok,
    decreases cells.len(),
{
    if cells.len() > 0 {
        let rest = cells.drop_last();
        lemma_read_error(answers, table, rest);
        assert(cells[cells.len() - 1] == cells.last());
        if read_error(answers, table, cells) is None {
            assert forall|i: int| 0 <= i < cells.len() implies answers(
                ReadOpView::Bytes(cell_key(table, #[trigger] cells[i])),
            ) is Ok by {
                if i < rest.len() {
                    assert(rest[i] == cells[i]);
                }
            }
        } else if read_error(answers, table, rest) is Some {
            let i = choose|i: int|
                0 <= i < rest.len() && answers(ReadOpView::Bytes(cell_key(table, #[trigger] rest[i]))) is Err;
            assert(cells[i] == rest[i]);
        }
    }
}

proof fn lemma_absent_rows(
    cells: Seq<CellView>,
    values: Seq<Option<ValueView>>,
    table: Seq<char>,
    rows: Seq<i64>,
)
    ensures
        absent_row(cells, values, table, rows) is None <==> forall|i: int|
            0 <= i < rows.len() ==> row_exists(cells, values, #[trigger] rows[i]),
    decreases rows.len(),
{
    if rows.len() > 0 {
        let rest = rows.drop_last();
        lemma_absent_rows(cells, values, table, rest);
        assert(rows[rows.len() - 1] == rows.last());
        if absent_row(cells, values, table, rows) is None {
            assert forall|i: int| 0 <= i < rows.len() implies row_exists(cells, values, #[trigger] rows[i]) by {
                if i < rest.len() {
                    assert(rest[i] == rows[i]);
                }
            }
        } else if absent_row(cells, values, table, rest) is Some {
            let i = choose|i: int| 0 <= i < rest.len() && !row_exists(cells, values, #[trigger] rest[i]);
            assert(rows[i] == rest[i]);
        }
    }
}

proof fn lemma_misplaced(parsed: Seq<ParsedView>, columns: Seq<String>, wanted: bool)
    ensures
        misplaced(parsed, columns, wanted) is None <==> forall|i: int|
            0 <= i < parsed.len() ==> is_named(columns, (#[trigger] parsed[i]).column) == wanted,
    decreases parsed.len(),
{
    if parsed.len() > 0 {
        let rest = parsed.drop_last();
        lemma_misplaced(rest, columns, wanted);
        assert(parsed[parsed.len() - 1] == parsed.last());
        assert(names_include(columns, parsed.last().column) == is_named(columns, parsed.last().column));
        if misplaced(parsed, columns, wanted) is None {
            assert forall|i: int| 0 <= i < parsed.len() implies is_named(columns, (#[trigger] parsed[i]).column)
                == wanted by {
                if i < rest.len() {
                    assert(rest[i] == parsed[i]);
                }
            }
        } else if misplaced(rest, columns, wanted) is Some {
            let i = choose|i: int|
                0 <= i < rest.len() && is_named(columns, (#[trigger] rest[i]).column) != wanted;
            assert(parsed[i] == rest[i]);
        }
    }
}

/// Every entry is for a column that is named or not, as wanted.
pub open spec fn all_named(entries: Seq<KvView>, columns: Seq<String>, wanted: bool) -> bool {
    forall|i: int|
        0 <= i < entries.len() ==> ((#[trigger] entries[i]).key matches KeyView::Column { column, .. } && is_named(
            columns,
            column,
        ) == wanted)
}

proof fn lemma_all_named(entries: Seq<KvView>, columns: Seq<String>, wanted: bool)
    requires
        all_cells(entries),
    ensures
        misplaced(parsed_entries(entries), columns, wanted) is None <==> all_named(entries, columns, wanted),
{
    let parsed = parsed_entries(entries);
    lemma_parsed(entries);
    lemma_misplaced(parsed, columns, wanted);
    if all_named(entries, columns, wanted) {
        assert forall|i: int| 0 <= i < parsed.len() implies is_named(columns, (#[trigger] parsed[i]).column)
            == wanted by {
            let key = entries[i].key;
        }
    }
    if misplaced(parsed, columns, wanted) is None {
        assert forall|i: int| 0 <= i < entries.len() implies ((#[trigger] entries[i]).key matches
            KeyView::Column { column, .. } && is_named(columns, column) == wanted) by {
            let cell = parsed[i];
        }
    }
}

// ---------- laws ----------

/// A read of a cell comes before another: by row, and within a row by column.
pub open spec fn reads_before(a: ReadOpView, b: ReadOpView) -> bool {
    &&& a matches ReadOpView::Bytes(KeyView::Column { row_id: row_a, column: column_a, .. })
    &&& b matches ReadOpView::Bytes(KeyView::Column { row_id: row_b, column: column_b, .. })
    &&& row_a < row_b || (row_a == row_b && comes_before(column_a, column_b))
}

/// An update reads what it needs and nothing else, each cell once and in order: the
/// cells that the access rule looks at, the updated ones whose index entry changes,
/// and of a row that has none of these the first one updated.
pub proof fn law_update_reads(checks: UpdateChecks, entries: Seq<KvView>)
    requires
        checks_of_entries(checks, entries),
        checks.column_entries is Ok,
        checks.table is Ok,
        checks.acl_columns is Ok,
        checks.indexed_columns is Ok,
    ensures
        ({
            let table = checks.table->Ok_0@;
            let rule = checks.acl_columns->Ok_0;
            let indexed = checks.indexed_columns->Ok_0@;
            let reads = planned_reads(checks, entries);
            &&& reads.no_duplicates()
            &&& forall|i: int, j: int| 0 <= i < j < reads.len() ==> reads_before(#[trigger] reads[i], #[trigger] reads[j])
            &&& forall|i: int|
                0 <= i < reads.len() ==> (#[trigger] reads[i] matches ReadOpView::Bytes(
                    KeyView::Column { table: read, row_id, column },
                ) && read == table && is_needed(entries, rule, indexed, row_id, column))
            &&& forall|row: i64, column: Seq<char>| #[trigger]
                is_needed(entries, rule, indexed, row, column) ==> reads.contains(
                    ReadOpView::Bytes(KeyView::Column { table, row_id: row, column }),
                )
        }),
{
    let table = checks.table->Ok_0@;
    let rule = checks.acl_columns->Ok_0;
    let indexed = checks.indexed_columns->Ok_0@;
    let reads = planned_reads(checks, entries);
    let cells = cells_to_read(parsed_entries(entries), rule, indexed);
    assert(all_cells(entries));
    law_cells_read_once(parsed_entries(entries), rule, indexed);
    assert forall|i: int| 0 <= i < reads.len() implies (#[trigger] reads[i] matches ReadOpView::Bytes(
        KeyView::Column { table: read, row_id, column },
    ) && read == table && is_needed(entries, rule, indexed, row_id, column)) by {
        assert(cells[i] == (cells[i].0, cells[i].1));
        assert(cells.contains((cells[i].0, cells[i].1)));
        lemma_needed(entries, rule, indexed, cells[i].0, cells[i].1);
    }
    assert forall|row: i64, column: Seq<char>| #[trigger]
        is_needed(entries, rule, indexed, row, column) implies reads.contains(
        ReadOpView::Bytes(KeyView::Column { table, row_id: row, column }),
    ) by {
        lemma_needed(entries, rule, indexed, row, column);
        let k = cells.index_of((row, column));
        assert(reads[k] == ReadOpView::Bytes(KeyView::Column { table, row_id: row, column }));
    }
    assert forall|i: int, j: int| 0 <= i < j < reads.len() implies reads_before(
        #[trigger] reads[i],
        #[trigger] reads[j],
    ) by {
        assert(cell_before(cells[i], cells[j]));
        law_name_order(cells[i].1, cells[j].1);
    }
    assert forall|i: int, j: int| 0 <= i < reads.len() && 0 <= j < reads.len() && i != j implies reads[i]
        != reads[j] by {
        assert(cells[i] != cells[j]);
    }
}

/// The cell's row is there: the tree answers a value for one of the cells of it
/// that are needed.
pub open spec fn row_answered(
    answers: Answers,
    table: Seq<char>,
    entries: Seq<KvView>,
    rule: Option<Vec<String>>,
    indexed: Seq<String>,
    row: i64,
) -> bool {
    exists|column: Seq<char>| #[trigger]
        is_needed(entries, rule, indexed, row, column) && held(answers, table, row, column) is Some
}

/// The tree answers for every cell that is needed, and holds every row updated.
pub open spec fn rows_answered(
    answers: Answers,
    table: Seq<char>,
    entries: Seq<KvView>,
    rule: Option<Vec<String>>,
    indexed: Seq<String>,
) -> bool {
    &&& forall|row: i64, column: Seq<char>| #[trigger]
        is_needed(entries, rule, indexed, row, column) ==> answers(
            ReadOpView::Bytes(KeyView::Column { table, row_id: row, column }),
        ) is Ok
    &&& forall|row: i64| #[trigger]
        updates_row(entries, row) ==> row_answered(answers, table, entries, rule, indexed, row)
}

proof fn lemma_row_answered(
    answers: Answers,
    table: Seq<char>,
    entries: Seq<KvView>,
    rule: Option<Vec<String>>,
    indexed: Seq<String>,
    row: i64,
)
    requires
        all_cells(entries),
    ensures
        ({
            let cells = cells_to_read(parsed_entries(entries), rule, indexed);
            row_exists(cells, old_values(answers, table, cells), row) <==> row_answered(
                answers,
                table,
                entries,
                rule,
                indexed,
                row,
            )
        }),
{
    let cells = cells_to_read(parsed_entries(entries), rule, indexed);
    let values = old_values(answers, table, cells);
    if row_exists(cells, values, row) {
        let i = choose|i: int| 0 <= i < cells.len() && (#[trigger] cells[i]).0 == row && values[i] is Some;
        let column = cells[i].1;
        assert(cells[i] == (row, column));
        assert(cells.contains((row, column)));
        lemma_needed(entries, rule, indexed, row, column);
        assert(values[i] == held(answers, table, row, column));
    }
    if row_answered(answers, table, entries, rule, indexed, row) {
        let column = choose|column: Seq<char>| #[trigger]
            is_needed(entries, rule, indexed, row, column) && held(answers, table, row, column) is Some;
        lemma_needed(entries, rule, indexed, row, column);
        let i = cells.index_of((row, column));
        assert(cells[i].0 == row);
        assert(values[i] == held(answers, table, row, column));
    }
}

proof fn lemma_rows_answered(
    answers: Answers,
    table: Seq<char>,
    entries: Seq<KvView>,
    rule: Option<Vec<String>>,
    indexed: Seq<String>,
)
    requires
        all_cells(entries),
    ensures
        ({
            let parsed = parsed_entries(entries);
            let cells = cells_to_read(parsed, rule, indexed);
            let values = old_values(answers, table, cells);
            read_error(answers, table, cells) is None && absent_row(
                cells,
                values,
                table,
                updated_rows(parsed),
            ) is None <==> rows_answered(answers, table, entries, rule, indexed)
        }),
{
    let parsed = parsed_entries(entries);
    let rows = updated_rows(parsed);
    let cells = cells_to_read(parsed, rule, indexed);
    let values = old_values(answers, table, cells);
    lemma_read_error(answers, table, cells);
    lemma_absent_rows(cells, values, table, rows);
    assert forall|row: i64| #[trigger] row_exists(cells, values, row) <==> row_answered(
        answers,
        table,
        entries,
        rule,
        indexed,
        row,
    ) by {
        lemma_row_answered(answers, table, entries, rule, indexed, row);
    }
    if read_error(answers, table, cells) is None {
        assert forall|row: i64, column: Seq<char>| #[trigger]
            is_needed(entries, rule, indexed, row, column) implies answers(
            ReadOpView::Bytes(KeyView::Column { table, row_id: row, column }),
        ) is Ok by {
            lemma_needed(entries, rule, indexed, row, column);
            let i = cells.index_of((row, column));
            assert(cells[i] == (row, column));
        }
        if absent_row(cells, values, table, rows) is None {
            assert forall|row: i64| #[trigger] updates_row(entries, row) implies row_answered(
                answers,
                table,
                entries,
                rule,
                indexed,
                row,
            ) by {
                lemma_rows(entries, row);
                let i = rows.index_of(row);
                assert(row_exists(cells, values, rows[i]));
            }
        }
    }
    if rows_answered(answers, table, entries, rule, indexed) {
        assert forall|i: int| 0 <= i < cells.len() implies answers(
            ReadOpView::Bytes(cell_key(table, #[trigger] cells[i])),
        ) is Ok by {
            assert(cells[i] == (cells[i].0, cells[i].1));
            assert(cells.contains((cells[i].0, cells[i].1)));
            lemma_needed(entries, rule, indexed, cells[i].0, cells[i].1);
        }
        assert forall|i: int| 0 <= i < rows.len() implies row_exists(cells, values, #[trigger] rows[i]) by {
            assert(rows.contains(rows[i]));
            lemma_rows(entries, rows[i]);
        }
    }
}

/// An update is planned if and only if every check passed, every entry is for a
/// column of the table that holds neither lists nor documents, the tree answers
/// for every cell that is needed, and every row updated is there.
pub proof fn law_update_accepted(answers: Answers, checks: UpdateChecks, entries: Seq<KvView>)
    requires
        checks_of_entries(checks, entries),
    ensures
        planned(answers, checks, entries) is Ok <==> {
            &&& checks.max_entries is Ok
            &&& checks.sorted is Ok
            &&& checks.user_access is Ok
            &&& checks.column_entries is Ok
            &&& checks.not_internal is Ok
            &&& checks.table matches Ok(table)
            &&& checks.columns matches Ok(columns) && all_named(entries, columns@, true)
            &&& checks.list_columns matches Ok(lists) && all_named(entries, lists@, false)
            &&& checks.piece_text_columns matches Ok(documents) && all_named(entries, documents@, false)
            &&& checks.acl_columns matches Ok(rule)
            &&& checks.indexed_columns matches Ok(indexed) && rows_answered(
                answers,
                table@,
                entries,
                rule,
                indexed@,
            )
        },
{
    let parsed = parsed_entries(entries);
    let first = seq![checks.max_entries, checks.sorted, checks.user_access, checks.column_entries];
    assert(first_failure(first) is None <==> checks.max_entries is Ok && checks.sorted is Ok
        && checks.user_access is Ok && checks.column_entries is Ok) by {
        reveal_with_fuel(first_failure, 5);
        let second = first.drop_first();
        let third = second.drop_first();
        assert(second =~= seq![checks.sorted, checks.user_access, checks.column_entries]);
        assert(third =~= seq![checks.user_access, checks.column_entries]);
        assert(third.drop_first() =~= seq![checks.column_entries]);
    }
    if checks.column_entries is Ok {
        assert(all_cells(entries));
        if let Ok(columns) = checks.columns {
            lemma_all_named(entries, columns@, true);
        }
        if let Ok(lists) = checks.list_columns {
            lemma_all_named(entries, lists@, false);
        }
        if let Ok(documents) = checks.piece_text_columns {
            lemma_all_named(entries, documents@, false);
        }
        if let (Ok(table), Ok(rule), Ok(indexed)) = (
            checks.table,
            checks.acl_columns,
            checks.indexed_columns,
        ) {
            lemma_rows_answered(answers, table@, entries, rule, indexed@);
        }
    }
}

/// The last entry for the row's cell in the column is the one given.
pub open spec fn updates_last(entries: Seq<KvView>, row: i64, column: Seq<char>, i: int) -> bool {
    &&& 0 <= i < entries.len()
    &&& is_cell(entries[i].key, row, column)
    &&& forall|j: int| i < j < entries.len() ==> !is_cell((#[trigger] entries[j]).key, row, column)
}

proof fn lemma_last_value(entries: Seq<KvView>, row: i64, column: Seq<char>)
    requires
        all_cells(entries),
        updates_cell(entries, row, column),
    ensures
        exists|i: int| #[trigger]
            updates_last(entries, row, column, i) && last_value(parsed_entries(entries), (row, column))
                == entries[i].value,
    decreases entries.len(),
{
    let rest = entries.drop_last();
    let last = entries.len() - 1;
    lemma_parsed(entries);
    assert(all_cells(rest)) by {
        assert forall|i: int| 0 <= i < rest.len() implies (#[trigger] rest[i]).key is Column by {
            assert(rest[i] == entries[i]);
        }
    }
    assert(parsed_entries(entries).drop_last() =~= parsed_entries(rest));
    if is_cell(entries[last].key, row, column) {
        assert(updates_last(entries, row, column, last));
    } else {
        let k = choose|i: int| 0 <= i < entries.len() && is_cell((#[trigger] entries[i]).key, row, column);
        assert(is_cell(rest[k].key, row, column));
        lemma_last_value(rest, row, column);
        let i = choose|i: int| #[trigger]
            updates_last(rest, row, column, i) && last_value(parsed_entries(rest), (row, column)) == rest[i].value;
        assert(entries[i] == rest[i]);
        assert forall|j: int| i < j < entries.len() implies !is_cell(
            (#[trigger] entries[j]).key,
            row,
            column,
        ) by {
            if j < last {
                assert(rest[j] == entries[j]);
            }
        }
        assert(updates_last(entries, row, column, i));
    }
}

/// What an update does to the indexes: each cell that an entry updates in an
/// indexed column has one change, from the value that the tree answers for that
/// very cell to the value of the last entry for it, which is the value that the
/// cell is left with; nothing else has one. The changes are in the order of the
/// rows.
pub proof fn law_update_index_changes(answers: Answers, checks: UpdateChecks, entries: Seq<KvView>)
    requires
        checks_of_entries(checks, entries),
    ensures
        planned(answers, checks, entries) matches Ok(plan) ==> {
            let table = checks.table->Ok_0@;
            let indexed = checks.indexed_columns->Ok_0@;
            let changes = plan.index_changes;
            &&& forall|k: int|
                0 <= k < changes.len() ==> is_named(indexed, (#[trigger] changes[k]).column) && changes[k].old_value
                    == held(answers, table, changes[k].row_id, changes[k].column) && exists|i: int| #[trigger]
                    updates_last(entries, changes[k].row_id, changes[k].column, i) && changes[k].new_value
                        == entries[i].value
            &&& forall|row: i64, column: Seq<char>| #[trigger]
                changes_index(entries, indexed, row, column) ==> exists|k: int|
                    0 <= k < changes.len() && (#[trigger] changes[k]).row_id == row && changes[k].column == column
            &&& forall|k: int, m: int|
                0 <= k < m < changes.len() ==> (#[trigger] changes[k]).row_id <= (#[trigger] changes[m]).row_id && (
                changes[k].row_id != changes[m].row_id || changes[k].column != changes[m].column)
        },
{
    if let Ok(plan) = planned(answers, checks, entries) {
        law_update_accepted(answers, checks, entries);
        assert(all_cells(entries));
        let table = checks.table->Ok_0@;
        let rule = checks.acl_columns->Ok_0;
        let indexed = checks.indexed_columns->Ok_0@;
        let parsed = parsed_entries(entries);
        let cells = cells_to_read(parsed, rule, indexed);
        let values = old_values(answers, table, cells);
        let changed = with_indexed_cells(Seq::empty(), parsed, indexed);
        let changes = plan.index_changes;
        lemma_parsed(entries);
        lemma_indexed_cells(Seq::empty(), parsed, indexed);
        assert forall|k: int| 0 <= k < changes.len() implies is_named(indexed, (#[trigger] changes[k]).column)
            && changes[k].old_value == held(answers, table, changes[k].row_id, changes[k].column)
            && exists|i: int| #[trigger]
            updates_last(entries, changes[k].row_id, changes[k].column, i) && changes[k].new_value
                == entries[i].value by {
            let x = changed[k];
            assert(changed.contains(x));
            lemma_indexed_only(Seq::empty(), parsed, indexed, x);
            assert(!Seq::<CellView>::empty().contains(x));
            lemma_updates_cell(entries, x.0, x.1);
            let n = choose|i: int| 0 <= i < entries.len() && is_cell((#[trigger] entries[i]).key, x.0, x.1);
            assert(is_of_row(entries[n].key, x.0));
            assert(changes_index(entries, indexed, x.0, x.1));
            lemma_needed(entries, rule, indexed, x.0, x.1);
            lemma_value_read(answers, table, cells, values, x.0, x.1);
            lemma_last_value(entries, x.0, x.1);
            assert(x == (x.0, x.1));
        }
        assert forall|row: i64, column: Seq<char>| #[trigger]
            changes_index(entries, indexed, row, column) implies exists|k: int|
            0 <= k < changes.len() && (#[trigger] changes[k]).row_id == row && changes[k].column == column by {
            lemma_updates_cell(entries, row, column);
            let i = choose|i: int|
                0 <= i < parsed.len() && (#[trigger] parsed[i]).row_id == row && parsed[i].column == column;
            assert(names_include(indexed, parsed[i].column));
            assert(changed.contains((parsed[i].row_id, parsed[i].column)));
            let k = changed.index_of((row, column));
            assert(changes[k].row_id == row);
        }
        assert forall|k: int, m: int| 0 <= k < m < changes.len() implies (#[trigger] changes[k]).row_id
            <= (#[trigger] changes[m]).row_id && (changes[k].row_id != changes[m].row_id || changes[k].column
            != changes[m].column) by {
            lemma_ascend_distinct(changed);
            let a = changed[k];
            let b = changed[m];
        }
    }
}

// ---------- the access rule ----------

proof fn lemma_existing_values(
    answers: Answers,
    table: Seq<char>,
    cells: Seq<CellView>,
    row: i64,
    columns: Seq<String>,
)
    requires
        forall|j: int|
            0 <= j < columns.len() && (#[trigger] columns[j])@ != "id"@ ==> cells.contains((row, columns[j]@)),
    ensures
        ({
            let values = existing_values(cells, old_values(answers, table, cells), row, columns);
            shows_row(answers, table, row, columns, values)
        }),
    decreases columns.len(),
{
    let old = old_values(answers, table, cells);
    let values = existing_values(cells, old, row, columns);
    if columns.len() > 0 {
        let rest = columns.drop_last();
        let before = existing_values(cells, old, row, rest);
        let column = columns.last()@;
        assert(columns[columns.len() - 1]@ == column);
        assert forall|j: int| 0 <= j < rest.len() && (#[trigger] rest[j])@ != "id"@ implies cells.contains(
            (row, rest[j]@),
        ) by {
            assert(columns[j] == rest[j]);
        }
        lemma_existing_values(answers, table, cells, row, rest);
        if column != "id"@ {
            lemma_value_read(answers, table, cells, old, row, column);
        }
        assert forall|k: int| 0 <= k < values.len() implies shows_cell(
            answers,
            table,
            row,
            columns,
            #[trigger] values[k],
        ) by {
            if k < before.len() {
                assert(values[k] == before[k]);
                let j = choose|j: int| 0 <= j < rest.len() && (#[trigger] rest[j])@ == before[k].0;
                assert(columns[j] == rest[j]);
            }
        }
        assert forall|j: int|
            0 <= j < columns.len() && seen(answers, table, row, (#[trigger] columns[j])@) is Some implies values.contains(
            (columns[j]@, seen(answers, table, row, columns[j]@)->Some_0),
        ) by {
            let pair = (columns[j]@, seen(answers, table, row, columns[j]@)->Some_0);
            if j < rest.len() {
                assert(rest[j] == columns[j]);
                let k = before.index_of(pair);
                assert(values[k] == pair);
            } else {
                assert(values[values.len() - 1] == pair);
            }
        }
    }
}

/// What the rule sees in a column of a row: the row's id under `id`, else the value
/// that the tree answers.
pub open spec fn seen(answers: Answers, table: Seq<char>, row: i64, column: Seq<char>) -> Option<ValueView> {
    if column == "id"@ {
        Some(ValueView::Int(row))
    } else {
        held(answers, table, row, column)
    }
}

/// The pair is of a column that is named and what the rule sees there.
pub open spec fn shows_cell(
    answers: Answers,
    table: Seq<char>,
    row: i64,
    columns: Seq<String>,
    shown: (Seq<char>, ValueView),
) -> bool {
    is_named(columns, shown.0) && seen(answers, table, row, shown.0) == Some(shown.1)
}

/// The values are all that the rule sees in the columns, and nothing else.
pub open spec fn shows_row(
    answers: Answers,
    table: Seq<char>,
    row: i64,
    columns: Seq<String>,
    values: Seq<(Seq<char>, ValueView)>,
) -> bool {
    &&& values.len() <= columns.len()
    &&& forall|k: int| 0 <= k < values.len() ==> shows_cell(answers, table, row, columns, #[trigger] values[k])
    &&& forall|j: int|
        0 <= j < columns.len() && seen(answers, table, row, (#[trigger] columns[j])@) is Some ==> values.contains(
            (columns[j]@, seen(answers, table, row, columns[j]@)->Some_0),
        )
}

/// An entry changes a cell of the row that the rule looks at.
pub open spec fn changes_seen(entries: Seq<KvView>, rule: Option<Vec<String>>, row: i64) -> bool {
    exists|column: Seq<char>| #[trigger] updates_cell(entries, row, column) && rule_looks_at(rule, column)
}

proof fn lemma_touched_rows(rows: Seq<i64>, parsed: Seq<ParsedView>, columns: Seq<String>)
    requires
        forall|i: int, j: int| 0 <= i < j < rows.len() ==> #[trigger] rows[i] < #[trigger] rows[j],
    ensures
        ({
            let touched = touched_rows(rows, parsed, columns);
            &&& forall|row: i64| #[trigger]
                touched.contains(row) <==> rows.contains(row) && touches(parsed, row, columns)
            &&& forall|i: int, j: int| 0 <= i < j < touched.len() ==> #[trigger] touched[i] < #[trigger] touched[j]
        }),
    decreases rows.len(),
{
    let touched = touched_rows(rows, parsed, columns);
    if rows.len() > 0 {
        let rest = rows.drop_last();
        let before = touched_rows(rest, parsed, columns);
        assert forall|i: int, j: int| 0 <= i < j < rest.len() implies #[trigger] rest[i] < #[trigger] rest[j] by {
            assert(rows[i] < rows[j]);
        }
        lemma_touched_rows(rest, parsed, columns);
        let last = rows.last();
        assert(rows[rows.len() - 1] == last);
        assert forall|row: i64| #[trigger] touched.contains(row) <==> rows.contains(row) && touches(
            parsed,
            row,
            columns,
        ) by {
            if touched.contains(row) {
                let k = touched.index_of(row);
                if k < before.len() {
                    assert(before[k] == row);
                    assert(before.contains(row));
                    let n = rest.index_of(row);
                    assert(rows[n] == row);
                } else {
                    assert(row == last);
                }
            }
            if rows.contains(row) && touches(parsed, row, columns) {
                if row == last {
                    assert(touched[touched.len() - 1] == row);
                } else {
                    let n = rows.index_of(row);
                    assert(rest[n] == row);
                    assert(before.contains(row));
                    let k = before.index_of(row);
                    assert(touched[k] == row);
                }
            }
        }
        assert forall|i: int, j: int| 0 <= i < j < touched.len() implies #[trigger] touched[i]
            < #[trigger] touched[j] by {
            if j < before.len() {
                assert(before[i] < before[j]);
            } else {
                assert(before.contains(before[i]));
                let n = rest.index_of(before[i]);
                assert(rows[n] < rows[rows.len() - 1]);
            }
        }
    }
}

/// What an update puts to the access rule. With no rule, nothing. Else every row
/// updated, once and in order, with all that the rule sees in it; and of these the
/// rows in which an entry changes something that the rule looks at, in order.
pub proof fn law_update_rule(answers: Answers, checks: UpdateChecks, entries: Seq<KvView>)
    requires
        checks_of_entries(checks, entries),
    ensures
        planned(answers, checks, entries) matches Ok(plan) ==> {
            let table = checks.table->Ok_0@;
            match checks.acl_columns->Ok_0 {
                None => plan.existing.len() == 0 && plan.touched.len() == 0,
                Some(columns) => {
                    &&& forall|row: i64| #[trigger]
                        updates_row(entries, row) ==> exists|i: int|
                            0 <= i < plan.existing.len() && (#[trigger] plan.existing[i]).row_id == row
                    &&& forall|i: int|
                        0 <= i < plan.existing.len() ==> updates_row(
                            entries,
                            (#[trigger] plan.existing[i]).row_id,
                        ) && shows_row(
                            answers,
                            table,
                            plan.existing[i].row_id,
                            columns@,
                            plan.existing[i].values,
                        )
                    &&& forall|i: int, j: int|
                        0 <= i < j < plan.existing.len() ==> (#[trigger] plan.existing[i]).row_id < (
                        #[trigger] plan.existing[j]).row_id
                    &&& forall|row: i64| #[trigger]
                        plan.touched.contains(row) <==> changes_seen(entries, checks.acl_columns->Ok_0, row)
                    &&& forall|i: int, j: int|
                        0 <= i < j < plan.touched.len() ==> #[trigger] plan.touched[i]
                            < #[trigger] plan.touched[j]
                },
            }
        },
{
    if let Ok(plan) = planned(answers, checks, entries) {
        law_update_accepted(answers, checks, entries);
        assert(all_cells(entries));
        let table = checks.table->Ok_0@;
        let rule = checks.acl_columns->Ok_0;
        let indexed = checks.indexed_columns->Ok_0@;
        let parsed = parsed_entries(entries);
        let rows = updated_rows(parsed);
        let cells = cells_to_read(parsed, rule, indexed);
        let values = old_values(answers, table, cells);
        lemma_parsed(entries);
        lemma_updated_rows_only(parsed, 0);
        if let Some(columns) = rule {
            assert forall|row: i64| #[trigger] updates_row(entries, row) implies exists|i: int|
                0 <= i < plan.existing.len() && (#[trigger] plan.existing[i]).row_id == row by {
                lemma_rows(entries, row);
                let i = rows.index_of(row);
                assert(plan.existing[i].row_id == row);
            }
            assert forall|i: int| 0 <= i < plan.existing.len() implies updates_row(
                entries,
                (#[trigger] plan.existing[i]).row_id,
            ) && shows_row(answers, table, plan.existing[i].row_id, columns@, plan.existing[i].values) by {
                let row = rows[i];
                assert(rows.contains(row));
                lemma_rows(entries, row);
                assert forall|j: int|
                    0 <= j < columns@.len() && (#[trigger] columns@[j])@ != "id"@ implies cells.contains(
                    (row, columns@[j]@),
                ) by {
                    assert(is_named(columns@, columns@[j]@));
                    lemma_needed(entries, rule, indexed, row, columns@[j]@);
                }
                lemma_existing_values(answers, table, cells, row, columns@);
            }
            assert forall|i: int, j: int| 0 <= i < j < plan.existing.len() implies (
            #[trigger] plan.existing[i]).row_id < (#[trigger] plan.existing[j]).row_id by {
                assert(rows[i] < rows[j]);
            }
            lemma_touched_rows(rows, parsed, columns@);
            assert forall|row: i64| #[trigger] plan.touched.contains(row) <==> changes_seen(
                entries,
                rule,
                row,
            ) by {
                lemma_rows(entries, row);
                if plan.touched.contains(row) {
                    let i = choose|i: int|
                        0 <= i < parsed.len() && (#[trigger] parsed[i]).row_id == row && parsed[i].column
                            != "id"@ && names_include(columns@, parsed[i].column);
                    lemma_updates_cell(entries, row, parsed[i].column);
                    assert(updates_cell(entries, row, parsed[i].column));
                    assert(rule_looks_at(rule, parsed[i].column));
                }
                if changes_seen(entries, rule, row) {
                    let column = choose|column: Seq<char>| #[trigger]
                        updates_cell(entries, row, column) && rule_looks_at(rule, column);
                    lemma_updates_cell(entries, row, column);
                    let i = choose|i: int|
                        0 <= i < parsed.len() && (#[trigger] parsed[i]).row_id == row && parsed[i].column == column;
                    assert(names_include(columns@, parsed[i].column));
                    assert(touches(parsed, row, columns@));
                    assert(is_of_row(entries[i].key, row));
                }
            }
        }
    }
}

// ---------- the outcomes ----------

/// How many writes stand for the first changes of the indexes: one for each, and
/// one more where the old entry goes.
pub open spec fn index_place(index: Seq<IndexOutcome>, n: int) -> int
    decreases n,
{
    if n <= 0 {
        0
    } else {
        index_place(index, n - 1) + (if index[n - 1].delete is Some {
            2int
        } else {
            1
        })
    }
}

proof fn lemma_index_place(a: Seq<IndexOutcome>, b: Seq<IndexOutcome>, n: int)
    requires
        n <= a.len(),
        n <= b.len(),
        forall|i: int| 0 <= i < n ==> #[trigger] a[i] == b[i],
    ensures
        index_place(a, n) == index_place(b, n),
        n >= 0 ==> index_place(a, n) >= n,
    decreases n,
{
    if n > 0 {
        lemma_index_place(a, b, n - 1);
        assert(a[n - 1] == b[n - 1]);
    }
}

/// The writes of a change succeeded.
pub open spec fn index_made(outcome: IndexOutcome) -> bool {
    outcome.put is Ok && (outcome.delete matches Some(delete) ==> delete is Ok)
}

/// The writes of the changes stand one behind the other: of each the removal, where
/// there is one, then the new entry.
pub open spec fn index_in_place(index: Seq<IndexOutcome>, writes: Seq<BatchOpView>) -> bool {
    &&& writes.len() == index_place(index, index.len() as int)
    &&& forall|i: int|
        0 <= i < index.len() ==> ((#[trigger] index[i]).put matches Ok(put) && writes[index_place(index, i + 1) - 1]
            == put@)
    &&& forall|i: int|
        0 <= i < index.len() ==> ((#[trigger] index[i]).delete matches Some(Ok(delete))
            ==> writes[index_place(index, i)] == delete@)
}

proof fn lemma_index_writes(index: Seq<IndexOutcome>)
    ensures
        index_writes(index) is Ok <==> forall|i: int| 0 <= i < index.len() ==> index_made(#[trigger] index[i]),
        index_writes(index) matches Ok(writes) ==> index_in_place(index, writes),
    decreases index.len(),
{
    if index.len() > 0 {
        let rest = index.drop_last();
        let n = index.len() - 1;
        lemma_index_writes(rest);
        assert(index[n] == index.last());
        if index_writes(rest) is Err {
            let i = choose|i: int| 0 <= i < rest.len() && !index_made(#[trigger] rest[i]);
            assert(index[i] == rest[i]);
        } else {
            assert forall|i: int| 0 <= i < rest.len() implies index_made(#[trigger] index[i]) by {
                assert(rest[i] == index[i]);
            }
        }
        if let Ok(writes) = index_writes(index) {
            let before = index_writes(rest)->Ok_0;
            lemma_index_place(rest, index, n);
            assert forall|i: int| 0 <= i < index.len() implies ((#[trigger] index[i]).put matches Ok(put)
                && writes[index_place(index, i + 1) - 1] == put@) && (index[i].delete matches Some(Ok(delete))
                ==> writes[index_place(index, i)] == delete@) by {
                if i < n {
                    assert(rest[i] == index[i]);
                    lemma_index_place(rest, index, i);
                    lemma_index_place(rest, index, i + 1);
                    lemma_index_below(rest, i + 1);
                    assert(before[index_place(rest, i + 1) - 1] == writes[index_place(rest, i + 1) - 1]);
                }
            }
        }
    }
}

proof fn lemma_index_below(index: Seq<IndexOutcome>, n: int)
    requires
        0 <= n <= index.len(),
    ensures
        n <= index_place(index, n) <= index_place(index, index.len() as int),
        n > 0 ==> index_place(index, n - 1) < index_place(index, n),
    decreases index.len() - n,
{
    lemma_index_place(index, index, n);
    if n < index.len() {
        lemma_index_below(index, n + 1);
    }
}

proof fn lemma_no_failure(checks: Seq<Result<(), ChangelogError>>)
    ensures
        first_failure(checks) is None <==> forall|i: int| 0 <= i < checks.len() ==> #[trigger] checks[i] is Ok,
    decreases checks.len(),
{
    if checks.len() > 0 {
        let rest = checks.drop_first();
        lemma_no_failure(rest);
        if first_failure(checks) is None {
            assert forall|i: int| 0 <= i < checks.len() implies #[trigger] checks[i] is Ok by {
                if i > 0 {
                    assert(rest[i - 1] == checks[i]);
                }
            }
        } else if checks[0] is Ok {
            let i = choose|i: int| 0 <= i < rest.len() && #[trigger] rest[i] is Err;
            assert(checks[i + 1] == rest[i]);
        }
    }
}

/// A planned update is written if and only if the author may write every row as it
/// is and as it becomes, and every index write could be made. Its writes are then
/// each entry's value under the entry's own key, and behind them the index writes,
/// change by change.
pub proof fn law_update_written(
    answers: Answers,
    checks: UpdateChecks,
    entries: Seq<KvView>,
    outcomes: UpdateOutcomes,
)
    requires
        checks_of_entries(checks, entries),
    ensures
        planned(answers, checks, entries) matches Ok(plan) ==> {
            &&& update_writes(plan, outcomes) is Ok <==> {
                &&& forall|i: int| 0 <= i < outcomes.existing@.len() ==> #[trigger] outcomes.existing@[i] is Ok
                &&& forall|i: int| 0 <= i < outcomes.touched@.len() ==> #[trigger] outcomes.touched@[i] is Ok
                &&& forall|i: int| 0 <= i < outcomes.index@.len() ==> index_made(#[trigger] outcomes.index@[i])
            }
            &&& update_writes(plan, outcomes) matches Ok(writes) ==> {
                &&& entries.len() <= writes.len()
                &&& forall|i: int|
                    0 <= i < entries.len() ==> #[trigger] writes[i] == (BatchOpView::Put {
                        key: entries[i].key,
                        value: ValueView::Raw(entries[i].value),
                    })
                &&& index_in_place(outcomes.index@, writes.skip(entries.len() as int))
            }
        },
{
    law_update_writes_entries(answers, checks, entries, outcomes);
    if let Ok(plan) = planned(answers, checks, entries) {
        lemma_no_failure(outcomes.existing@);
        lemma_no_failure(outcomes.touched@);
        lemma_index_writes(outcomes.index@);
        if let Ok(writes) = update_writes(plan, outcomes) {
            let own = own_writes(entries);
            assert(writes.take(entries.len() as int).len() == entries.len());
            assert forall|i: int| 0 <= i < entries.len() implies #[trigger] writes[i] == (BatchOpView::Put {
                key: entries[i].key,
                value: ValueView::Raw(entries[i].value),
            }) by {
                assert(own[i] == writes.take(entries.len() as int)[i]);
            }
        }
    }
}

// ---------- refusals ----------

/// The column is one that an entry is for, it is named or not, as is not wanted, and
/// no other such column comes before it.
pub open spec fn first_misplaced(
    entries: Seq<KvView>,
    columns: Seq<String>,
    wanted: bool,
    name: Seq<char>,
) -> bool {
    &&& is_misplaced(entries, columns, wanted, name)
    &&& forall|other: Seq<char>| #[trigger]
        is_misplaced(entries, columns, wanted, other) ==> !comes_before(other, name)
}

/// An entry is for the column, which is named or not, as is not wanted.
pub open spec fn is_misplaced(entries: Seq<KvView>, columns: Seq<String>, wanted: bool, name: Seq<char>) -> bool {
    is_named(columns, name) != wanted && exists|row: i64| #[trigger] updates_cell(entries, row, name)
}

proof fn lemma_misplaced_found(parsed: Seq<ParsedView>, columns: Seq<String>, wanted: bool)
    ensures
        misplaced(parsed, columns, wanted) matches Some(name) ==> {
            &&& is_named(columns, name) != wanted
            &&& exists|i: int| 0 <= i < parsed.len() && (#[trigger] parsed[i]).column == name
            &&& forall|i: int|
                0 <= i < parsed.len() && is_named(columns, (#[trigger] parsed[i]).column) != wanted ==> !before_from(
                    parsed[i].column,
                    name,
                    0,
                )
        },
    decreases parsed.len(),
{
    if parsed.len() > 0 {
        let rest = parsed.drop_last();
        let last = parsed.last();
        lemma_misplaced_found(rest, columns, wanted);
        lemma_misplaced(rest, columns, wanted);
        assert(parsed[parsed.len() - 1] == last);
        assert(names_include(columns, last.column) == is_named(columns, last.column));
        if let Some(name) = misplaced(parsed, columns, wanted) {
            if let Some(found) = misplaced(rest, columns, wanted) {
                let i = choose|i: int| 0 <= i < rest.len() && (#[trigger] rest[i]).column == found;
                assert(parsed[i].column == found);
            }
            assert forall|i: int|
                0 <= i < parsed.len() && is_named(columns, (#[trigger] parsed[i]).column) != wanted implies !before_from(
                parsed[i].column,
                name,
                0,
            ) by {
                if i < rest.len() {
                    assert(rest[i] == parsed[i]);
                    if let Some(found) = misplaced(rest, columns, wanted) {
                        if name != found && before_from(parsed[i].column, name, 0) {
                            lemma_before_transitive(parsed[i].column, name, found, 0);
                        }
                    } else {
                        assert(is_named(columns, rest[i].column) == wanted);
                    }
                } else {
                    lemma_before_irreflexive(last.column, 0);
                }
            }
        }
    }
}

proof fn lemma_first_misplaced(entries: Seq<KvView>, columns: Seq<String>, wanted: bool)
    requires
        all_cells(entries),
    ensures
        misplaced(parsed_entries(entries), columns, wanted) matches Some(name) ==> first_misplaced(
            entries,
            columns,
            wanted,
            name,
        ),
{
    let parsed = parsed_entries(entries);
    lemma_parsed(entries);
    lemma_misplaced_found(parsed, columns, wanted);
    if let Some(name) = misplaced(parsed, columns, wanted) {
        let i = choose|i: int| 0 <= i < parsed.len() && (#[trigger] parsed[i]).column == name;
        assert(is_cell(entries[i].key, parsed[i].row_id, name));
        assert(updates_cell(entries, parsed[i].row_id, name));
        assert forall|other: Seq<char>| #[trigger]
            is_misplaced(entries, columns, wanted, other) implies !comes_before(other, name) by {
            let row = choose|row: i64| #[trigger] updates_cell(entries, row, other);
            lemma_updates_cell(entries, row, other);
            let k = choose|k: int|
                0 <= k < parsed.len() && (#[trigger] parsed[k]).row_id == row && parsed[k].column == other;
            assert(is_named(columns, parsed[k].column) != wanted);
            law_name_order(other, name);
        }
    }
}

proof fn lemma_first_absent(
    cells: Seq<CellView>,
    values: Seq<Option<ValueView>>,
    table: Seq<char>,
    rows: Seq<i64>,
)
    requires
        forall|i: int, j: int| 0 <= i < j < rows.len() ==> #[trigger] rows[i] < #[trigger] rows[j],
    ensures
        absent_row(cells, values, table, rows) matches Some(e) ==> exists|k: int|
            0 <= k < rows.len() && e == ErrorView::Refused(
                OpName::Update,
                OpFaultView::RowAbsent { table, row_id: #[trigger] rows[k] },
            ) && !row_exists(cells, values, rows[k]) && forall|i: int|
                0 <= i < k ==> row_exists(cells, values, #[trigger] rows[i]),
    decreases rows.len(),
{
    if rows.len() > 0 {
        let rest = rows.drop_last();
        let n = rows.len() - 1;
        assert(rows[n] == rows.last());
        assert forall|i: int, j: int| 0 <= i < j < rest.len() implies #[trigger] rest[i] < #[trigger] rest[j] by {
            assert(rows[i] < rows[j]);
        }
        lemma_first_absent(cells, values, table, rest);
        lemma_absent_rows(cells, values, table, rest);
        if let Some(e) = absent_row(cells, values, table, rest) {
            let k = choose|k: int|
                0 <= k < rest.len() && e == ErrorView::Refused(
                    OpName::Update,
                    OpFaultView::RowAbsent { table, row_id: #[trigger] rest[k] },
                ) && !row_exists(cells, values, rest[k]) && forall|i: int|
                    0 <= i < k ==> row_exists(cells, values, #[trigger] rest[i]);
            assert(rows[k] == rest[k]);
            assert forall|i: int| 0 <= i < k implies row_exists(cells, values, #[trigger] rows[i]) by {
                assert(rest[i] == rows[i]);
            }
        } else {
            assert forall|i: int| 0 <= i < n implies row_exists(cells, values, #[trigger] rows[i]) by {
                assert(rest[i] == rows[i]);
            }
        }
    }
}

/// Of what is said of an update that is refused: a check that failed says what it
/// says itself, and of several the first, in the order of the checks. A column that
/// the table does not have, or that holds lists or documents, is named, and of several
/// the first by name; and so is the first row that is not there.
pub proof fn law_update_refused(answers: Answers, checks: UpdateChecks, entries: Seq<KvView>)
    requires
        checks_of_entries(checks, entries),
    ensures
        planned(answers, checks, entries) matches Err(e) ==> {
            if let Err(x) = checks.max_entries {
                e == x@
            } else if let Err(x) = checks.sorted {
                e == x@
            } else if let Err(x) = checks.user_access {
                e == x@
            } else if let Err(x) = checks.column_entries {
                e == x@
            } else if let Err(x) = checks.table {
                e == x@
            } else if let Err(x) = checks.not_internal {
                e == x@
            } else if let Err(x) = checks.columns {
                e == x@
            } else if !all_named(entries, checks.columns->Ok_0@, true) {
                e matches ErrorView::Refused(op, OpFaultView::UnknownColumn { column }) && op == OpName::Update
                    && first_misplaced(entries, checks.columns->Ok_0@, true, column)
            } else if let Err(x) = checks.list_columns {
                e == x@
            } else if !all_named(entries, checks.list_columns->Ok_0@, false) {
                e matches ErrorView::Refused(op, OpFaultView::ListColumn { column }) && op == OpName::Update
                    && first_misplaced(entries, checks.list_columns->Ok_0@, false, column)
            } else if let Err(x) = checks.piece_text_columns {
                e == x@
            } else if !all_named(entries, checks.piece_text_columns->Ok_0@, false) {
                e matches ErrorView::Refused(op, OpFaultView::PieceTextColumn { column }) && op == OpName::Update
                    && first_misplaced(entries, checks.piece_text_columns->Ok_0@, false, column)
            } else if let Err(x) = checks.acl_columns {
                e == x@
            } else if let Err(x) = checks.indexed_columns {
                e == x@
            } else {
                let table = checks.table->Ok_0@;
                let rule = checks.acl_columns->Ok_0;
                let indexed = checks.indexed_columns->Ok_0@;
                if reads_fail(answers, table, entries, rule, indexed) {
                    exists|row: i64, column: Seq<char>| #[trigger]
                        is_needed(entries, rule, indexed, row, column) && (answers(
                            ReadOpView::Bytes(KeyView::Column { table, row_id: row, column }),
                        ) matches Err(x) && e == x@)
                } else {
                    exists|row: i64| #[trigger]
                        is_first_absent(answers, table, entries, rule, indexed, row) && e == ErrorView::Refused(
                            OpName::Update,
                            OpFaultView::RowAbsent { table, row_id: row },
                        )
                }
            }
        },
{
    let parsed = parsed_entries(entries);
    let first = seq![checks.max_entries, checks.sorted, checks.user_access, checks.column_entries];
    assert(first_failure(first) == (if let Err(x) = checks.max_entries {
        Some(x@)
    } else if let Err(x) = checks.sorted {
        Some(x@)
    } else if let Err(x) = checks.user_access {
        Some(x@)
    } else if let Err(x) = checks.column_entries {
        Some(x@)
    } else {
        None
    })) by {
        reveal_with_fuel(first_failure, 5);
        let second = first.drop_first();
        let third = second.drop_first();
        assert(second =~= seq![checks.sorted, checks.user_access, checks.column_entries]);
        assert(third =~= seq![checks.user_access, checks.column_entries]);
        assert(third.drop_first() =~= seq![checks.column_entries]);
    }
    if checks.column_entries is Ok {
        assert(all_cells(entries));
        if let Ok(columns) = checks.columns {
            lemma_all_named(entries, columns@, true);
            lemma_first_misplaced(entries, columns@, true);
        }
        if let Ok(lists) = checks.list_columns {
            lemma_all_named(entries, lists@, false);
            lemma_first_misplaced(entries, lists@, false);
        }
        if let Ok(documents) = checks.piece_text_columns {
            lemma_all_named(entries, documents@, false);
            lemma_first_misplaced(entries, documents@, false);
        }
        if let (Ok(table), Ok(rule), Ok(indexed)) = (
            checks.table,
            checks.acl_columns,
            checks.indexed_columns,
        ) {
            lemma_plan_refused(answers, table@, entries, rule, indexed@);
        }
    }
}

/// The tree has no answer for a cell that is needed.
pub open spec fn reads_fail(
    answers: Answers,
    table: Seq<char>,
    entries: Seq<KvView>,
    rule: Option<Vec<String>>,
    indexed: Seq<String>,
) -> bool {
    exists|row: i64, column: Seq<char>| #[trigger]
        is_needed(entries, rule, indexed, row, column) && answers(
            ReadOpView::Bytes(KeyView::Column { table, row_id: row, column }),
        ) is Err
}

/// The row is updated and not there, and all updated rows below it are.
pub open spec fn is_first_absent(
    answers: Answers,
    table: Seq<char>,
    entries: Seq<KvView>,
    rule: Option<Vec<String>>,
    indexed: Seq<String>,
    row: i64,
) -> bool {
    &&& updates_row(entries, row)
    &&& !row_answered(answers, table, entries, rule, indexed, row)
    &&& forall|other: i64|
        other < row && #[trigger] updates_row(entries, other) ==> row_answered(
            answers,
            table,
            entries,
            rule,
            indexed,
            other,
        )
}

proof fn lemma_read_error_found(answers: Answers, table: Seq<char>, cells: Seq<CellView>)
    ensures
        read_error(answers, table, cells) matches Some(e) ==> exists|i: int|
            0 <= i < cells.len() && (answers(ReadOpView::Bytes(cell_key(table, #[trigger] cells[i]))) matches Err(x)
                && e == x@),
    decreases cells.len(),
{
    if cells.len() > 0 {
        let rest = cells.drop_last();
        lemma_read_error_found(answers, table, rest);
        assert(cells[cells.len() - 1] == cells.last());
        if let Some(e) = read_error(answers, table, rest) {
            let i = choose|i: int|
                0 <= i < rest.len() && (answers(ReadOpView::Bytes(cell_key(table, #[trigger] rest[i]))) matches Err(
                    x,
                ) && e == x@);
            assert(cells[i] == rest[i]);
        }
    }
}

proof fn lemma_plan_refused(
    answers: Answers,
    table: Seq<char>,
    entries: Seq<KvView>,
    rule: Option<Vec<String>>,
    indexed: Seq<String>,
)
    requires
        all_cells(entries),
    ensures
        ({
            let parsed = parsed_entries(entries);
            let cells = cells_to_read(parsed, rule, indexed);
            let values = old_values(answers, table, cells);
            let rows = updated_rows(parsed);
            &&& read_error(answers, table, cells) is Some <==> reads_fail(answers, table, entries, rule, indexed)
            &&& read_error(answers, table, cells) matches Some(e) ==> exists|row: i64, column: Seq<char>| #[trigger]
                is_needed(entries, rule, indexed, row, column) && (answers(
                    ReadOpView::Bytes(KeyView::Column { table, row_id: row, column }),
                ) matches Err(x) && e == x@)
            &&& absent_row(cells, values, table, rows) matches Some(e) ==> exists|row: i64| #[trigger]
                is_first_absent(answers, table, entries, rule, indexed, row) && e == ErrorView::Refused(
                    OpName::Update,
                    OpFaultView::RowAbsent { table, row_id: row },
                )
        }),
{
    let parsed = parsed_entries(entries);
    let cells = cells_to_read(parsed, rule, indexed);
    let values = old_values(answers, table, cells);
    let rows = updated_rows(parsed);
    lemma_read_error(answers, table, cells);
    lemma_read_error_found(answers, table, cells);
    lemma_updated_rows_only(parsed, 0);
    lemma_first_absent(cells, values, table, rows);
    if let Some(e) = read_error(answers, table, cells) {
        let i = choose|i: int|
            0 <= i < cells.len() && (answers(ReadOpView::Bytes(cell_key(table, #[trigger] cells[i]))) matches Err(x)
                && e == x@);
        assert(cells[i] == (cells[i].0, cells[i].1));
        assert(cells.contains((cells[i].0, cells[i].1)));
        lemma_needed(entries, rule, indexed, cells[i].0, cells[i].1);
        assert(is_needed(entries, rule, indexed, cells[i].0, cells[i].1));
    }
    if reads_fail(answers, table, entries, rule, indexed) {
        let (row, column) = choose|row: i64, column: Seq<char>| #[trigger]
            is_needed(entries, rule, indexed, row, column) && answers(
                ReadOpView::Bytes(KeyView::Column { table, row_id: row, column }),
            ) is Err;
        lemma_needed(entries, rule, indexed, row, column);
        let i = cells.index_of((row, column));
        assert(cells[i] == (row, column));
    }
    if let Some(e) = absent_row(cells, values, table, rows) {
        let k = choose|k: int|
            0 <= k < rows.len() && e == ErrorView::Refused(
                OpName::Update,
                OpFaultView::RowAbsent { table, row_id: #[trigger] rows[k] },
            ) && !row_exists(cells, values, rows[k]) && forall|i: int|
                0 <= i < k ==> row_exists(cells, values, #[trigger] rows[i]);
        let row = rows[k];
        assert(rows.contains(row));
        lemma_rows(entries, row);
        lemma_row_answered(answers, table, entries, rule, indexed, row);
        assert forall|other: i64| other < row && #[trigger] updates_row(entries, other) implies row_answered(
            answers,
            table,
            entries,
            rule,
            indexed,
            other,
        ) by {
            lemma_rows(entries, other);
            let i = rows.index_of(other);
            if k <= i {
                assert(k == i || rows[k] < rows[i]);
            }
            assert(row_exists(cells, values, rows[i]));
            lemma_row_answered(answers, table, entries, rule, indexed, other);
        }
        assert(is_first_absent(answers, table, entries, rule, indexed, row));
    }
}

} // verus!
