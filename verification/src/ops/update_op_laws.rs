//! What an update reads of the rows that it changes, and what it writes to them.

use vstd::prelude::*;

use crate::changelog::{ErrorView, KvView};
use crate::ops::names::before_from;
use crate::ops::names_include;
use crate::ops::piece_text_edit_op::lemma_insert_id_contains;
use crate::ops::update_op::{
    acl_cells, cell_before, cell_puts, cells_to_read, checks_of_entries, first_column, first_failure,
    has_cell_of, index_writes, insert_cell, parsed_entries, planned, update_writes, updated_rows,
    with_acl_cells, with_indexed_cells, with_presence_cells, CellView, ParsedView, UpdateChecks,
    UpdateOutcomes,
};
use crate::storage::{Answers, BatchOpView, KeyView, ValueView};

verus! {

// ---------- the order of names and cells ----------

pub proof fn lemma_before_transitive(a: Seq<char>, b: Seq<char>, c: Seq<char>, i: int)
    requires
        before_from(a, b, i),
        before_from(b, c, i),
    ensures
        before_from(a, c, i),
    decreases a.len() - i,
{
    if i < a.len() && i < b.len() && i < c.len() && a[i] == b[i] && b[i] == c[i] {
        lemma_before_transitive(a, b, c, i + 1);
    }
}

pub proof fn lemma_before_irreflexive(a: Seq<char>, i: int)
    ensures
        !before_from(a, a, i),
    decreases a.len() - i,
{
    if i < a.len() {
        lemma_before_irreflexive(a, i + 1);
    }
}

pub proof fn lemma_before_total(a: Seq<char>, b: Seq<char>, i: int)
    requires
        0 <= i <= a.len(),
        i <= b.len(),
        forall|j: int| 0 <= j < i ==> a[j] == b[j],
        a != b,
    ensures
        before_from(a, b, i) || before_from(b, a, i),
    decreases a.len() - i,
{
    if i == a.len() && i == b.len() {
        assert(a =~= b);
    } else if i < a.len() && i < b.len() && a[i] == b[i] {
        lemma_before_total(a, b, i + 1);
    }
}

proof fn lemma_cells_transitive(a: CellView, b: CellView, c: CellView)
    requires
        cell_before(a, b),
        cell_before(b, c),
    ensures
        cell_before(a, c),
{
    if a.0 == b.0 && b.0 == c.0 {
        lemma_before_transitive(a.1, b.1, c.1, 0);
    }
}

/// The cells are in order, and none occurs twice.
pub open spec fn ascend(cells: Seq<CellView>) -> bool {
    forall|i: int, j: int| 0 <= i < j < cells.len() ==> cell_before(#[trigger] cells[i], #[trigger] cells[j])
}

pub proof fn lemma_ascend_distinct(cells: Seq<CellView>)
    requires
        ascend(cells),
    ensures
        cells.no_duplicates(),
{
    assert forall|i: int, j: int| 0 <= i < cells.len() && 0 <= j < cells.len() && i != j implies cells[i]
        != cells[j] by {
        let (a, b) = if i < j { (i, j) } else { (j, i) };
        assert(cell_before(cells[a], cells[b]));
        lemma_before_irreflexive(cells[a].1, 0);
    }
}

proof fn lemma_push_contains(cells: Seq<CellView>, x: CellView, y: CellView)
    ensures
        cells.push(x).contains(y) == (cells.contains(y) || x == y),
{
    if cells.contains(y) {
        assert(cells.push(x)[cells.index_of(y)] == y);
    }
    assert(cells.push(x)[cells.len() as int] == x);
    if cells.push(x).contains(y) {
        let k = cells.push(x).index_of(y);
        if k < cells.len() {
            assert(cells[k] == y);
        }
    }
}

pub proof fn lemma_insert_contains(cells: Seq<CellView>, cell: CellView, x: CellView)
    ensures
        insert_cell(cells, cell).contains(x) == (cells.contains(x) || x == cell),
    decreases cells.len(),
{
    if cells.len() == 0 || cell_before(cells.last(), cell) {
        lemma_push_contains(cells, cell, x);
    } else if cells.last() == cell {
        assert(cells[cells.len() - 1] == cell);
    } else {
        let rest = cells.drop_last();
        lemma_insert_contains(rest, cell, x);
        lemma_push_contains(insert_cell(rest, cell), cells.last(), x);
        lemma_push_contains(rest, cells.last(), x);
        assert(rest.push(cells.last()) =~= cells);
    }
}

pub proof fn lemma_insert_ascends(cells: Seq<CellView>, cell: CellView)
    requires
        ascend(cells),
    ensures
        ascend(insert_cell(cells, cell)),
    decreases cells.len(),
{
    let out = insert_cell(cells, cell);
    if cells.len() == 0 {
    } else if cell_before(cells.last(), cell) {
        assert forall|i: int, j: int| 0 <= i < j < out.len() implies cell_before(
            #[trigger] out[i],
            #[trigger] out[j],
        ) by {
            if j == cells.len() {
                if i < cells.len() - 1 {
                    lemma_cells_transitive(cells[i], cells.last(), cell);
                }
            } else {
                assert(cell_before(cells[i], cells[j]));
            }
        }
    } else if cells.last() != cell {
        let rest = cells.drop_last();
        let last = cells.last();
        assert(ascend(rest)) by {
            assert forall|i: int, j: int| 0 <= i < j < rest.len() implies cell_before(
                #[trigger] rest[i],
                #[trigger] rest[j],
            ) by {
                assert(cell_before(cells[i], cells[j]));
            }
        }
        lemma_insert_ascends(rest, cell);
        let inserted = insert_cell(rest, cell);
        assert(cell_before(cell, last)) by {
            if cell.0 == last.0 {
                lemma_before_total(cell.1, last.1, 0);
            }
        }
        assert forall|i: int| 0 <= i < inserted.len() implies cell_before(#[trigger] inserted[i], last) by {
            lemma_insert_contains(rest, cell, inserted[i]);
            if inserted[i] != cell {
                let k = rest.index_of(inserted[i]);
                assert(cell_before(cells[k], cells[cells.len() - 1]));
            }
        }
        assert forall|i: int, j: int| 0 <= i < j < out.len() implies cell_before(
            #[trigger] out[i],
            #[trigger] out[j],
        ) by {
            assert(out[i] == inserted[i]);
            if j < inserted.len() {
                assert(out[j] == inserted[j]);
            }
        }
    }
}

// ---------- the cells to read ----------

proof fn lemma_acl_row(cells: Seq<CellView>, row_id: i64, columns: Seq<String>)
    requires
        ascend(cells),
    ensures
        ascend(with_acl_cells(cells, row_id, columns)),
        forall|x: CellView| #[trigger]
            cells.contains(x) ==> with_acl_cells(cells, row_id, columns).contains(x),
        forall|k: int|
            0 <= k < columns.len() && (#[trigger] columns[k])@ != "id"@ ==> with_acl_cells(
                cells,
                row_id,
                columns,
            ).contains((row_id, columns[k]@)),
    decreases columns.len(),
{
    if columns.len() > 0 {
        let rest = columns.drop_last();
        lemma_acl_row(cells, row_id, rest);
        let before = with_acl_cells(cells, row_id, rest);
        let cell = (row_id, columns.last()@);
        let all = with_acl_cells(cells, row_id, columns);
        lemma_insert_ascends(before, cell);
        assert forall|x: CellView| before.contains(x) implies #[trigger] all.contains(x) by {
            lemma_insert_contains(before, cell, x);
        }
        assert forall|k: int| 0 <= k < columns.len() && (#[trigger] columns[k])@ != "id"@ implies all.contains(
            (row_id, columns[k]@),
        ) by {
            lemma_insert_contains(before, cell, (row_id, columns[k]@));
            if k < rest.len() {
                assert(rest[k] == columns[k]);
                assert(before.contains((row_id, columns[k]@)));
            }
        }
    }
}

pub proof fn lemma_acl_cells(rows: Seq<i64>, columns: Seq<String>)
    ensures
        ascend(acl_cells(rows, columns)),
        forall|i: int, k: int|
            #![trigger rows[i], columns[k]]
            0 <= i < rows.len() && 0 <= k < columns.len() && columns[k]@ != "id"@ ==> acl_cells(
                rows,
                columns,
            ).contains((rows[i], columns[k]@)),
    decreases rows.len(),
{
    if rows.len() > 0 {
        let rest = rows.drop_last();
        lemma_acl_cells(rest, columns);
        let before = acl_cells(rest, columns);
        lemma_acl_row(before, rows.last(), columns);
        assert forall|i: int, k: int|
            #![trigger rows[i], columns[k]]
            0 <= i < rows.len() && 0 <= k < columns.len() && columns[k]@ != "id"@ implies acl_cells(
            rows,
            columns,
        ).contains((rows[i], columns[k]@)) by {
            if i < rest.len() {
                assert(rest[i] == rows[i]);
                assert(before.contains((rows[i], columns[k]@)));
            }
        }
    }
}

pub proof fn lemma_indexed_cells(cells: Seq<CellView>, parsed: Seq<ParsedView>, indexed: Seq<String>)
    requires
        ascend(cells),
    ensures
        ascend(with_indexed_cells(cells, parsed, indexed)),
        forall|x: CellView| #[trigger]
            cells.contains(x) ==> with_indexed_cells(cells, parsed, indexed).contains(x),
        forall|i: int|
            0 <= i < parsed.len() && names_include(indexed, (#[trigger] parsed[i]).column)
                ==> with_indexed_cells(cells, parsed, indexed).contains(
                (parsed[i].row_id, parsed[i].column),
            ),
    decreases parsed.len(),
{
    if parsed.len() > 0 {
        let rest = parsed.drop_last();
        lemma_indexed_cells(cells, rest, indexed);
        let before = with_indexed_cells(cells, rest, indexed);
        let all = with_indexed_cells(cells, parsed, indexed);
        let cell = (parsed.last().row_id, parsed.last().column);
        lemma_insert_ascends(before, cell);
        assert forall|x: CellView| before.contains(x) implies #[trigger] all.contains(x) by {
            lemma_insert_contains(before, cell, x);
        }
        assert forall|i: int|
            0 <= i < parsed.len() && names_include(indexed, (#[trigger] parsed[i]).column) implies all.contains(
            (parsed[i].row_id, parsed[i].column),
        ) by {
            lemma_insert_contains(before, cell, (parsed[i].row_id, parsed[i].column));
            if i < rest.len() {
                assert(rest[i] == parsed[i]);
                assert(before.contains((parsed[i].row_id, parsed[i].column)));
            }
        }
    }
}

proof fn lemma_presence_cells(cells: Seq<CellView>, rows: Seq<i64>, parsed: Seq<ParsedView>)
    requires
        ascend(cells),
    ensures
        ascend(with_presence_cells(cells, rows, parsed)),
        forall|x: CellView| #[trigger]
            cells.contains(x) ==> with_presence_cells(cells, rows, parsed).contains(x),
        forall|i: int|
            0 <= i < rows.len() ==> has_cell_of(
                with_presence_cells(cells, rows, parsed),
                #[trigger] rows[i],
            ),
    decreases rows.len(),
{
    if rows.len() > 0 {
        let rest = rows.drop_last();
        lemma_presence_cells(cells, rest, parsed);
        let before = with_presence_cells(cells, rest, parsed);
        let all = with_presence_cells(cells, rows, parsed);
        let cell = (rows.last(), first_column(parsed, rows.last()));
        lemma_insert_ascends(before, cell);
        assert forall|x: CellView| before.contains(x) implies #[trigger] all.contains(x) by {
            lemma_insert_contains(before, cell, x);
        }
        assert forall|i: int| 0 <= i < rows.len() implies has_cell_of(all, #[trigger] rows[i]) by {
            if i < rest.len() {
                assert(has_cell_of(before, rest[i]));
                let k = choose|k: int| 0 <= k < before.len() && (#[trigger] before[k]).0 == rows[i];
                assert(all.contains(before[k]));
                assert(all[all.index_of(before[k])].0 == rows[i]);
            } else if !has_cell_of(before, rows.last()) {
                lemma_insert_contains(before, cell, cell);
                assert(all[all.index_of(cell)].0 == rows[i]);
            }
        }
    }
}

proof fn lemma_updated_rows(parsed: Seq<ParsedView>, i: int)
    requires
        0 <= i < parsed.len(),
    ensures
        updated_rows(parsed).contains(parsed[i].row_id),
    decreases parsed.len(),
{
    let rest = parsed.drop_last();
    lemma_insert_id_contains(updated_rows(rest), parsed.last().row_id, parsed[i].row_id);
    if i < rest.len() {
        lemma_updated_rows(rest, i);
    }
}

/// An update reads every cell once, in order: every cell that the access rule
/// looks at, every updated cell whose index entry changes, and at least one cell
/// of every row that it changes.
pub proof fn law_cells_read_once(
    parsed: Seq<ParsedView>,
    acl_columns: Option<Vec<String>>,
    indexed: Seq<String>,
)
    ensures
        ({
            let cells = cells_to_read(parsed, acl_columns, indexed);
            &&& ascend(cells)
            &&& cells.no_duplicates()
            &&& forall|i: int|
                0 <= i < parsed.len() ==> has_cell_of(cells, (#[trigger] parsed[i]).row_id)
            &&& forall|i: int|
                0 <= i < parsed.len() && names_include(indexed, (#[trigger] parsed[i]).column)
                    ==> cells.contains((parsed[i].row_id, parsed[i].column))
            &&& acl_columns matches Some(columns) ==> forall|i: int, k: int|
                #![trigger parsed[i], columns@[k]]
                0 <= i < parsed.len() && 0 <= k < columns.len() && columns@[k]@ != "id"@
                    ==> cells.contains((parsed[i].row_id, columns@[k]@))
        }),
{
    let rows = updated_rows(parsed);
    let first = match acl_columns {
        Some(columns) => acl_cells(rows, columns@),
        None => Seq::empty(),
    };
    if let Some(columns) = acl_columns {
        lemma_acl_cells(rows, columns@);
    }
    assert(ascend(first));
    lemma_indexed_cells(first, parsed, indexed);
    let second = with_indexed_cells(first, parsed, indexed);
    lemma_presence_cells(second, rows, parsed);
    let cells = cells_to_read(parsed, acl_columns, indexed);
    lemma_ascend_distinct(cells);
    assert forall|i: int| 0 <= i < parsed.len() implies has_cell_of(cells, (#[trigger] parsed[i]).row_id) by {
        lemma_updated_rows(parsed, i);
        assert(rows[rows.index_of(parsed[i].row_id)] == parsed[i].row_id);
    }
    assert forall|i: int|
        0 <= i < parsed.len() && names_include(indexed, (#[trigger] parsed[i]).column) implies cells.contains(
        (parsed[i].row_id, parsed[i].column),
    ) by {
        assert(second.contains((parsed[i].row_id, parsed[i].column)));
    }
    if let Some(columns) = acl_columns {
        assert forall|i: int, k: int|
            #![trigger parsed[i], columns@[k]]
            0 <= i < parsed.len() && 0 <= k < columns.len() && columns@[k]@ != "id"@ implies cells.contains(
            (parsed[i].row_id, columns@[k]@),
        ) by {
            lemma_updated_rows(parsed, i);
            let r = rows.index_of(parsed[i].row_id);
            assert(rows[r] == parsed[i].row_id);
            assert(first.contains((rows[r], columns@[k]@)));
            assert(second.contains((rows[r], columns@[k]@)));
        }
    }
}

// ---------- the writes ----------

/// The entries' values under their own keys, in order.
pub open spec fn own_writes(entries: Seq<KvView>) -> Seq<BatchOpView> {
    Seq::new(
        entries.len(),
        |i: int| BatchOpView::Put { key: entries[i].key, value: ValueView::Raw(entries[i].value) },
    )
}

pub proof fn lemma_cells_of_entries(entries: Seq<KvView>)
    requires
        forall|i: int| 0 <= i < entries.len() ==> (#[trigger] entries[i]).key is Column,
    ensures
        parsed_entries(entries).len() == entries.len(),
        forall|i: int|
            0 <= i < entries.len() ==> ({
                let cell = #[trigger] parsed_entries(entries)[i];
                &&& entries[i].key matches KeyView::Column { row_id, column, .. }
                &&& cell == (ParsedView { row_id, column, value: entries[i].value })
            }),
    decreases entries.len(),
{
    if entries.len() > 0 {
        let rest = entries.drop_last();
        assert forall|i: int| 0 <= i < rest.len() implies (#[trigger] rest[i]).key is Column by {
            assert(entries[i].key is Column);
        }
        lemma_cells_of_entries(rest);
        assert(entries[entries.len() - 1].key is Column);
        assert forall|i: int| 0 <= i < entries.len() implies ({
            let cell = #[trigger] parsed_entries(entries)[i];
            &&& entries[i].key matches KeyView::Column { row_id, column, .. }
            &&& cell == (ParsedView { row_id, column, value: entries[i].value })
        }) by {
            if i < rest.len() {
                assert(rest[i] == entries[i]);
                assert(parsed_entries(entries)[i] == parsed_entries(rest)[i]);
            }
        }
    }
}

/// Where the outcomes of the checks are those of the entries, an update puts the
/// value of every entry under the entry's own key, in the order of the entries,
/// and only then come the writes to indexes.
pub proof fn law_update_writes_entries(
    answers: Answers,
    checks: UpdateChecks,
    entries: Seq<KvView>,
    outcomes: UpdateOutcomes,
)
    requires
        checks_of_entries(checks, entries),
    ensures
        planned(answers, checks, entries) matches Ok(plan) ==> {
            &&& plan.puts == own_writes(entries)
            &&& update_writes(plan, outcomes) matches Ok(writes) ==> index_writes(outcomes.index@)
                == Ok::<Seq<BatchOpView>, ErrorView>(writes.skip(entries.len() as int))
            &&& update_writes(plan, outcomes) matches Ok(writes) ==> writes.take(entries.len() as int)
                == own_writes(entries)
        },
{
    if let Ok(plan) = planned(answers, checks, entries) {
        let first = seq![checks.max_entries, checks.sorted, checks.user_access, checks.column_entries];
        assert(checks.column_entries is Ok) by {
            reveal_with_fuel(first_failure, 5);
            let second = first.drop_first();
            let third = second.drop_first();
            assert(second =~= seq![checks.sorted, checks.user_access, checks.column_entries]);
            assert(third =~= seq![checks.user_access, checks.column_entries]);
            assert(third.drop_first() =~= seq![checks.column_entries]);
        }
        lemma_cells_of_entries(entries);
        let table = checks.table->Ok_0@;
        let parsed = parsed_entries(entries);
        assert(plan.puts == cell_puts(table, parsed));
        assert forall|i: int| 0 <= i < entries.len() implies #[trigger] plan.puts[i] == own_writes(
            entries,
        )[i] by {
            let cell = parsed[i];
            assert(entries[i].key is Column);
        }
        assert(plan.puts =~= own_writes(entries));
        if let Ok(writes) = update_writes(plan, outcomes) {
            let rest = index_writes(outcomes.index@)->Ok_0;
            assert(writes =~= plan.puts + rest);
            assert(writes.skip(entries.len() as int) =~= rest);
            assert(writes.take(entries.len() as int) =~= plan.puts);
        }
    }
}

} // verus!
