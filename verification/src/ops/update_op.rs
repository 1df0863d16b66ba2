//! The update of rows of a table.
//!
//! An update is verified in two steps. The first plans it: it checks the columns,
//! reads the old values that are needed and makes sure that the rows exist. What
//! it hands out is put to the table's access rule and made into index entries
//! outside the library. The second step takes the outcomes.

use vstd::prelude::*;

use crate::changelog::{entries_view, ChangelogEntry, ChangelogError, ErrorView, KvData, KvView};
use crate::faults::{OpFault, OpFaultView, OpName};
use crate::ops::names::{before_from, name_before};
use crate::ops::piece_text_edit_op::{add_id, insert_id};
use crate::ops::{includes_name, names_include, refusal, OpVerifyResult};
use crate::storage::{
    batch_view, clone_bytes, clone_value, lemma_made_none, made, Answers, BatchOp, BatchOpView, KeyView, OpReader, ReadOp, ReadOpView,
    StorageKey, StoredValue, ValueView,
};

verus! {

/// One cell that an entry gives a new value for.
#[derive(Clone, Debug, PartialEq, Eq)]
pub struct ParsedColumn {
    pub row_id: i64,
    pub column: String,
    pub value: Vec<u8>,
}

pub struct ParsedView {
    pub row_id: i64,
    pub column: Seq<char>,
    pub value: Seq<u8>,
}

impl View for ParsedColumn {
    type V = ParsedView;

    open spec fn view(&self) -> ParsedView {
        ParsedView { row_id: self.row_id, column: self.column@, value: self.value@ }
    }
}

pub open spec fn parsed_view(parsed: Seq<ParsedColumn>) -> Seq<ParsedView> {
    Seq::new(parsed.len(), |i: int| parsed[i]@)
}

/// The cells that the entries give new values for, in order.
pub open spec fn parsed_entries(entries: Seq<KvView>) -> Seq<ParsedView>
    decreases entries.len(),
{
    if entries.len() == 0 {
        Seq::empty()
    } else {
        let before = parsed_entries(entries.drop_last());
        match entries.last().key {
            KeyView::Column { row_id, column, .. } => before.push(
                ParsedView { row_id, column, value: entries.last().value },
            ),
            _ => before,
        }
    }
}

fn parse_entries(entries: &Vec<KvData>) -> (parsed: Vec<ParsedColumn>)
    ensures
        parsed_view(parsed@) == parsed_entries(entries_view(entries@)),
{
    let ghost all = entries_view(entries@);
    let mut parsed: Vec<ParsedColumn> = Vec::new();
    let mut i: usize = 0;
    assert(parsed_view(parsed@) =~= Seq::empty());
    while i < entries.len()
        invariant
            i <= entries.len(),
            all == entries_view(entries@),
            parsed_view(parsed@) == parsed_entries(all.take(i as int)),
        decreases entries.len() - i,
    {
        proof {
            assert(all.take(i + 1).drop_last() =~= all.take(i as int));
            assert(all.take(i + 1).last() == entries@[i as int]@);
        }
        if let StorageKey::Column { row_id, column, .. } = &entries[i].key {
            let ghost before = parsed@;
            let cell = ParsedColumn {
                row_id: *row_id,
                column: column.clone(),
                value: clone_bytes(&entries[i].value),
            };
            parsed.push(cell);
            assert(parsed_view(parsed@) =~= parsed_view(before).push(cell@));
        }
        i = i + 1;
    }
    assert(all.take(i as int) =~= all);
    parsed
}

/// What is found out outside the library about an entry that asks for an update.
#[derive(Debug)]
pub struct UpdateChecks {
    /// Whether the entries are not too many, in order, and the author may make
    /// changes.
    pub max_entries: Result<(), ChangelogError>,
    pub sorted: Result<(), ChangelogError>,
    pub user_access: Result<(), ChangelogError>,
    /// Whether the keys of the entries are all those of cells.
    pub column_entries: Result<(), ChangelogError>,
    /// The one table that the entries are for, and whether it may be updated.
    pub table: Result<String, ChangelogError>,
    pub not_internal: Result<(), ChangelogError>,
    /// The table's columns; those that hold lists, and those that hold documents.
    pub columns: Result<Vec<String>, ChangelogError>,
    pub list_columns: Result<Vec<String>, ChangelogError>,
    pub piece_text_columns: Result<Vec<String>, ChangelogError>,
    /// The columns that the table's access rule looks at, if there is a rule.
    pub acl_columns: Result<Option<Vec<String>>, ChangelogError>,
    pub indexed_columns: Result<Vec<String>, ChangelogError>,
}

pub open spec fn refused(fault: OpFaultView) -> ErrorView {
    refusal(OpName::Update, fault)
}

fn refuse(fault: OpFault) -> (e: ChangelogError)
    ensures
        e@ == refused(fault@),
{
    ChangelogError::Refused(OpName::Update, fault)
}

// ---------- the order of cells ----------

pub type CellView = (i64, Seq<char>);

/// Cells are ordered by row, then by column.
pub open spec fn cell_before(a: CellView, b: CellView) -> bool {
    a.0 < b.0 || (a.0 == b.0 && before_from(a.1, b.1, 0))
}

pub open spec fn cells_view(cells: Seq<(i64, String)>) -> Seq<CellView> {
    Seq::new(cells.len(), |i: int| (cells[i].0, cells[i].1@))
}

fn is_cell_before(row_a: i64, column_a: &String, row_b: i64, column_b: &String) -> (r: bool)
    ensures
        r == cell_before((row_a, column_a@), (row_b, column_b@)),
{
    row_a < row_b || (row_a == row_b && name_before(column_a, column_b))
}

/// Puts a cell in its place among ordered cells, unless it is there.
pub open spec fn insert_cell(cells: Seq<CellView>, cell: CellView) -> Seq<CellView>
    decreases cells.len(),
{
    if cells.len() == 0 || cell_before(cells.last(), cell) {
        cells.push(cell)
    } else if cells.last() == cell {
        cells
    } else {
        insert_cell(cells.drop_last(), cell).push(cells.last())
    }
}

proof fn lemma_insert_cell_place(cells: Seq<CellView>, cell: CellView, n: int)
    requires
        0 <= n <= cells.len(),
        forall|j: int|
            n <= j < cells.len() ==> !cell_before(#[trigger] cells[j], cell) && cells[j] != cell,
        n == 0 || cell_before(cells[n - 1], cell),
    ensures
        insert_cell(cells, cell) == cells.insert(n, cell),
    decreases cells.len(),
{
    if n < cells.len() {
        assert(!cell_before(cells[cells.len() - 1], cell));
        lemma_insert_cell_place(cells.drop_last(), cell, n);
        assert(cells.insert(n, cell) =~= cells.drop_last().insert(n, cell).push(cells.last()));
    } else {
        assert(cells.insert(n, cell) =~= cells.push(cell));
    }
}

proof fn lemma_insert_cell_there(cells: Seq<CellView>, cell: CellView, n: int)
    requires
        0 <= n < cells.len(),
        forall|j: int|
            n < j < cells.len() ==> !cell_before(#[trigger] cells[j], cell) && cells[j] != cell,
        !cell_before(cells[n], cell),
        cells[n] == cell,
    ensures
        insert_cell(cells, cell) == cells,
    decreases cells.len(),
{
    if n < cells.len() - 1 {
        assert(!cell_before(cells[cells.len() - 1], cell));
        lemma_insert_cell_there(cells.drop_last(), cell, n);
        assert(cells.drop_last().push(cells.last()) =~= cells);
    }
}

fn add_cell(cells: &mut Vec<(i64, String)>, row_id: i64, column: &String)
    ensures
        cells_view(final(cells)@) == insert_cell(cells_view(old(cells)@), (row_id, column@)),
{
    let ghost cell = (row_id, column@);
    let ghost view = cells_view(cells@);
    let mut n: usize = cells.len();
    while n > 0
        invariant
            n <= cells.len(),
            cells@ == old(cells)@,
            view == cells_view(cells@),
            cell == (row_id, column@),
            forall|j: int|
                n <= j < view.len() ==> !cell_before(#[trigger] view[j], cell) && view[j] != cell,
        ensures
            n == 0 || cell_before(view[n - 1], cell),
        decreases n,
    {
        assert(view[n - 1] == (cells@[n - 1].0, cells@[n - 1].1@));
        if is_cell_before(cells[n - 1].0, &cells[n - 1].1, row_id, column) {
            break;
        }
        if cells[n - 1].0 == row_id && cells[n - 1].1 == *column {
            proof {
                lemma_insert_cell_there(view, cell, n - 1);
            }
            return;
        }
        n = n - 1;
    }
    proof {
        lemma_insert_cell_place(view, cell, n as int);
    }
    cells.insert(n, (row_id, column.clone()));
    assert(cells_view(cells@) =~= view.insert(n as int, cell));
}

// ---------- the columns ----------

/// The first, in the order of names, of the updated columns whose being in the
/// list is not what is wanted.
pub open spec fn misplaced(parsed: Seq<ParsedView>, columns: Seq<String>, wanted: bool) -> Option<Seq<char>>
    decreases parsed.len(),
{
    if parsed.len() == 0 {
        None
    } else {
        let name = parsed.last().column;
        match misplaced(parsed.drop_last(), columns, wanted) {
            None => if names_include(columns, name) == wanted {
                None
            } else {
                Some(name)
            },
            Some(found) => if names_include(columns, name) != wanted && before_from(name, found, 0) {
                Some(name)
            } else {
                Some(found)
            },
        }
    }
}

/// An updated column that the table does not have.
pub open spec fn unknown_column(parsed: Seq<ParsedView>, columns: Seq<String>) -> Option<ErrorView> {
    match misplaced(parsed, columns, true) {
        Some(column) => Some(refused(OpFaultView::UnknownColumn { column })),
        None => None,
    }
}

/// An updated column that holds lists.
pub open spec fn list_column(parsed: Seq<ParsedView>, columns: Seq<String>) -> Option<ErrorView> {
    match misplaced(parsed, columns, false) {
        Some(column) => Some(refused(OpFaultView::ListColumn { column })),
        None => None,
    }
}

/// An updated column that holds documents.
pub open spec fn piece_text_column(parsed: Seq<ParsedView>, columns: Seq<String>) -> Option<ErrorView> {
    match misplaced(parsed, columns, false) {
        Some(column) => Some(refused(OpFaultView::PieceTextColumn { column })),
        None => None,
    }
}

fn find_misplaced(parsed: &Vec<ParsedColumn>, columns: &Vec<String>, wanted: bool) -> (r: Option<usize>)
    ensures
        match r {
            Some(n) => n < parsed.len() && misplaced(parsed_view(parsed@), columns@, wanted) == Some(
                parsed@[n as int].column@,
            ),
            None => misplaced(parsed_view(parsed@), columns@, wanted) is None,
        },
{
    let ghost all = parsed_view(parsed@);
    let mut found: Option<usize> = None;
    let mut i: usize = 0;
    while i < parsed.len()
        invariant
            i <= parsed.len(),
            all == parsed_view(parsed@),
            match found {
                Some(n) => n < i && misplaced(all.take(i as int), columns@, wanted) == Some(
                    parsed@[n as int].column@,
                ),
                None => misplaced(all.take(i as int), columns@, wanted) is None,
            },
        decreases parsed.len() - i,
    {
        assert(all.take(i + 1).drop_last() =~= all.take(i as int));
        assert(all.take(i + 1).last().column == parsed@[i as int].column@);
        if includes_name(columns, &parsed[i].column) != wanted {
            found = match found {
                Some(n) => if name_before(&parsed[i].column, &parsed[n].column) {
                    Some(i)
                } else {
                    Some(n)
                },
                None => Some(i),
            };
        }
        i = i + 1;
    }
    assert(all.take(i as int) =~= all);
    found
}

fn check_known(parsed: &Vec<ParsedColumn>, columns: &Vec<String>) -> (r: Result<(), ChangelogError>)
    ensures
        match unknown_column(parsed_view(parsed@), columns@) {
            Some(e) => r matches Err(x) && x@ == e,
            None => r is Ok,
        },
{
    match find_misplaced(parsed, columns, true) {
        Some(n) => Err(refuse(OpFault::UnknownColumn { column: parsed[n].column.clone() })),
        None => Ok(()),
    }
}

fn check_no_lists(parsed: &Vec<ParsedColumn>, columns: &Vec<String>) -> (r: Result<(), ChangelogError>)
    ensures
        match list_column(parsed_view(parsed@), columns@) {
            Some(e) => r matches Err(x) && x@ == e,
            None => r is Ok,
        },
{
    match find_misplaced(parsed, columns, false) {
        Some(n) => Err(refuse(OpFault::ListColumn { column: parsed[n].column.clone() })),
        None => Ok(()),
    }
}

fn check_no_piece_text(parsed: &Vec<ParsedColumn>, columns: &Vec<String>) -> (r: Result<(), ChangelogError>)
    ensures
        match piece_text_column(parsed_view(parsed@), columns@) {
            Some(e) => r matches Err(x) && x@ == e,
            None => r is Ok,
        },
{
    match find_misplaced(parsed, columns, false) {
        Some(n) => Err(refuse(OpFault::PieceTextColumn { column: parsed[n].column.clone() })),
        None => Ok(()),
    }
}

// ---------- the old values to read ----------

/// The rows that are updated, in order.
pub open spec fn updated_rows(parsed: Seq<ParsedView>) -> Seq<i64>
    decreases parsed.len(),
{
    if parsed.len() == 0 {
        Seq::empty()
    } else {
        insert_id(updated_rows(parsed.drop_last()), parsed.last().row_id)
    }
}

/// A row's cells that the access rule looks at. The row's id is no cell.
pub open spec fn with_acl_cells(cells: Seq<CellView>, row_id: i64, columns: Seq<String>) -> Seq<CellView>
    decreases columns.len(),
{
    if columns.len() == 0 {
        cells
    } else {
        let before = with_acl_cells(cells, row_id, columns.drop_last());
        if columns.last()@ == "id"@ {
            before
        } else {
            insert_cell(before, (row_id, columns.last()@))
        }
    }
}

/// All cells that the access rule looks at.
pub open spec fn acl_cells(rows: Seq<i64>, columns: Seq<String>) -> Seq<CellView>
    decreases rows.len(),
{
    if rows.len() == 0 {
        Seq::empty()
    } else {
        with_acl_cells(acl_cells(rows.drop_last(), columns), rows.last(), columns)
    }
}

/// The updated cells of indexed columns, with others.
pub open spec fn with_indexed_cells(
    cells: Seq<CellView>,
    parsed: Seq<ParsedView>,
    indexed: Seq<String>,
) -> Seq<CellView>
    decreases parsed.len(),
{
    if parsed.len() == 0 {
        cells
    } else {
        let before = with_indexed_cells(cells, parsed.drop_last(), indexed);
        if names_include(indexed, parsed.last().column) {
            insert_cell(before, (parsed.last().row_id, parsed.last().column))
        } else {
            before
        }
    }
}

pub open spec fn has_cell_of(cells: Seq<CellView>, row_id: i64) -> bool {
    exists|i: int| 0 <= i < cells.len() && (#[trigger] cells[i]).0 == row_id
}

/// The first updated column of a row.
pub open spec fn first_column(parsed: Seq<ParsedView>, row_id: i64) -> Seq<char>
    decreases parsed.len(),
{
    if parsed.len() == 0 {
        Seq::empty()
    } else if exists|i: int|
        0 <= i < parsed.len() - 1 && (#[trigger] parsed[i]).row_id == row_id {
        first_column(parsed.drop_last(), row_id)
    } else {
        parsed.last().column
    }
}

/// At least one cell of each row: rows without any get their first updated one.
pub open spec fn with_presence_cells(
    cells: Seq<CellView>,
    rows: Seq<i64>,
    parsed: Seq<ParsedView>,
) -> Seq<CellView>
    decreases rows.len(),
{
    if rows.len() == 0 {
        cells
    } else {
        let before = with_presence_cells(cells, rows.drop_last(), parsed);
        if has_cell_of(before, rows.last()) {
            before
        } else {
            insert_cell(before, (rows.last(), first_column(parsed, rows.last())))
        }
    }
}

/// The cells whose old values are read, each once: those that the access rule
/// looks at, those whose index entries change, and one for every other row.
pub open spec fn cells_to_read(
    parsed: Seq<ParsedView>,
    acl_columns: Option<Vec<String>>,
    indexed: Seq<String>,
) -> Seq<CellView> {
    let rows = updated_rows(parsed);
    let first = match acl_columns {
        Some(columns) => acl_cells(rows, columns@),
        None => Seq::empty(),
    };
    with_presence_cells(with_indexed_cells(first, parsed, indexed), rows, parsed)
}

fn collect_rows(parsed: &Vec<ParsedColumn>) -> (rows: Vec<i64>)
    ensures
        rows@ == updated_rows(parsed_view(parsed@)),
{
    let ghost all = parsed_view(parsed@);
    let mut rows: Vec<i64> = Vec::new();
    let mut i: usize = 0;
    while i < parsed.len()
        invariant
            i <= parsed.len(),
            all == parsed_view(parsed@),
            rows@ == updated_rows(all.take(i as int)),
        decreases parsed.len() - i,
    {
        assert(all.take(i + 1).drop_last() =~= all.take(i as int));
        add_id(&mut rows, parsed[i].row_id);
        i = i + 1;
    }
    assert(all.take(i as int) =~= all);
    rows
}

fn add_acl_cells(cells: &mut Vec<(i64, String)>, row_id: i64, columns: &Vec<String>)
    ensures
        cells_view(final(cells)@) == with_acl_cells(cells_view(old(cells)@), row_id, columns@),
{
    let ghost start = cells_view(cells@);
    let mut i: usize = 0;
    while i < columns.len()
        invariant
            i <= columns.len(),
            cells_view(cells@) == with_acl_cells(start, row_id, columns@.take(i as int)),
        decreases columns.len() - i,
    {
        assert(columns@.take(i + 1).drop_last() =~= columns@.take(i as int));
        if columns[i] != "id".to_owned() {
            add_cell(cells, row_id, &columns[i]);
        }
        i = i + 1;
    }
    assert(columns@.take(i as int) =~= columns@);
}

fn collect_acl_cells(rows: &Vec<i64>, columns: &Vec<String>) -> (cells: Vec<(i64, String)>)
    ensures
        cells_view(cells@) == acl_cells(rows@, columns@),
{
    let mut cells: Vec<(i64, String)> = Vec::new();
    let mut i: usize = 0;
    assert(cells_view(cells@) =~= Seq::empty());
    while i < rows.len()
        invariant
            i <= rows.len(),
            cells_view(cells@) == acl_cells(rows@.take(i as int), columns@),
        decreases rows.len() - i,
    {
        assert(rows@.take(i + 1).drop_last() =~= rows@.take(i as int));
        add_acl_cells(&mut cells, rows[i], columns);
        i = i + 1;
    }
    assert(rows@.take(i as int) =~= rows@);
    cells
}

fn add_indexed_cells(cells: &mut Vec<(i64, String)>, parsed: &Vec<ParsedColumn>, indexed: &Vec<String>)
    ensures
        cells_view(final(cells)@) == with_indexed_cells(
            cells_view(old(cells)@),
            parsed_view(parsed@),
            indexed@,
        ),
{
    let ghost start = cells_view(cells@);
    let ghost all = parsed_view(parsed@);
    let mut i: usize = 0;
    while i < parsed.len()
        invariant
            i <= parsed.len(),
            all == parsed_view(parsed@),
            cells_view(cells@) == with_indexed_cells(start, all.take(i as int), indexed@),
        decreases parsed.len() - i,
    {
        proof {
            assert(all.take(i + 1).drop_last() =~= all.take(i as int));
            assert(all.take(i + 1).last() == parsed@[i as int]@);
        }
        if includes_name(indexed, &parsed[i].column) {
            add_cell(cells, parsed[i].row_id, &parsed[i].column);
        }
        i = i + 1;
    }
    assert(all.take(i as int) =~= all);
}

fn row_has_cell(cells: &Vec<(i64, String)>, row_id: i64) -> (r: bool)
    ensures
        r == has_cell_of(cells_view(cells@), row_id),
{
    let mut i: usize = 0;
    while i < cells.len()
        invariant
            i <= cells.len(),
            forall|j: int| 0 <= j < i ==> (#[trigger] cells_view(cells@)[j]).0 != row_id,
        decreases cells.len() - i,
    {
        if cells[i].0 == row_id {
            assert(cells_view(cells@)[i as int].0 == row_id);
            return true;
        }
        i = i + 1;
    }
    false
}

proof fn lemma_first_column(parsed: Seq<ParsedView>, row_id: i64, n: int)
    requires
        0 <= n < parsed.len(),
        parsed[n].row_id == row_id,
        forall|j: int| 0 <= j < n ==> (#[trigger] parsed[j]).row_id != row_id,
    ensures
        first_column(parsed, row_id) == parsed[n].column,
    decreases parsed.len(),
{
    if n < parsed.len() - 1 {
        assert(parsed.drop_last()[n] == parsed[n]);
        lemma_first_column(parsed.drop_last(), row_id, n);
    }
}

/// The position of a row's first updated cell.
fn find_first(parsed: &Vec<ParsedColumn>, row_id: i64) -> (r: Option<usize>)
    ensures
        match r {
            Some(n) => n < parsed.len() && first_column(parsed_view(parsed@), row_id)
                == parsed@[n as int].column@,
            None => forall|j: int|
                0 <= j < parsed.len() ==> (#[trigger] parsed_view(parsed@)[j]).row_id != row_id,
        },
{
    let mut i: usize = 0;
    while i < parsed.len()
        invariant
            i <= parsed.len(),
            forall|j: int| 0 <= j < i ==> (#[trigger] parsed_view(parsed@)[j]).row_id != row_id,
        decreases parsed.len() - i,
    {
        if parsed[i].row_id == row_id {
            proof {
                assert(parsed_view(parsed@)[i as int].row_id == row_id);
                lemma_first_column(parsed_view(parsed@), row_id, i as int);
            }
            return Some(i);
        }
        i = i + 1;
    }
    None
}

proof fn lemma_updated_rows_found(parsed: Seq<ParsedView>, i: int)
    requires
        0 <= i < updated_rows(parsed).len(),
    ensures
        exists|j: int| 0 <= j < parsed.len() && (#[trigger] parsed[j]).row_id == updated_rows(parsed)[i],
    decreases parsed.len(),
{
    let rest = parsed.drop_last();
    let x = updated_rows(parsed)[i];
    assert(updated_rows(parsed).contains(x));
    crate::ops::piece_text_edit_op::lemma_insert_id_contains(
        updated_rows(rest),
        parsed.last().row_id,
        x,
    );
    if x == parsed.last().row_id {
        assert(parsed[parsed.len() - 1].row_id == x);
    } else {
        let k = updated_rows(rest).index_of(x);
        lemma_updated_rows_found(rest, k);
        let j = choose|j: int|
            0 <= j < rest.len() && (#[trigger] rest[j]).row_id == updated_rows(rest)[k];
        assert(parsed[j] == rest[j]);
    }
}

fn add_presence_cells(cells: &mut Vec<(i64, String)>, rows: &Vec<i64>, parsed: &Vec<ParsedColumn>)
    requires
        rows@ == updated_rows(parsed_view(parsed@)),
    ensures
        cells_view(final(cells)@) == with_presence_cells(
            cells_view(old(cells)@),
            rows@,
            parsed_view(parsed@),
        ),
{
    let ghost start = cells_view(cells@);
    let ghost all = parsed_view(parsed@);
    let mut i: usize = 0;
    while i < rows.len()
        invariant
            i <= rows.len(),
            all == parsed_view(parsed@),
            rows@ == updated_rows(all),
            cells_view(cells@) == with_presence_cells(start, rows@.take(i as int), all),
        decreases rows.len() - i,
    {
        let row_id: i64 = rows[i];
        proof {
            assert(rows@.take(i + 1).drop_last() =~= rows@.take(i as int));
            lemma_updated_rows_found(all, i as int);
        }
        if !row_has_cell(cells, row_id) {
            if let Some(n) = find_first(parsed, row_id) {
                add_cell(cells, row_id, &parsed[n].column);
            }
        }
        i = i + 1;
    }
    assert(rows@.take(i as int) =~= rows@);
}

fn plan_reads(rows: &Vec<i64>, parsed: &Vec<ParsedColumn>, acl_columns: &Option<Vec<String>>, indexed: &Vec<
    String,
>) -> (cells: Vec<(i64, String)>)
    requires
        rows@ == updated_rows(parsed_view(parsed@)),
    ensures
        cells_view(cells@) == cells_to_read(parsed_view(parsed@), *acl_columns, indexed@),
{
    let mut cells: Vec<(i64, String)> = match acl_columns {
        Some(columns) => collect_acl_cells(rows, columns),
        None => Vec::new(),
    };
    proof {
        if acl_columns is None {
            assert(cells_view(cells@) =~= Seq::empty());
        }
    }
    add_indexed_cells(&mut cells, parsed, indexed);
    add_presence_cells(&mut cells, rows, parsed);
    cells
}

// ---------- reading them ----------

pub open spec fn cell_key(table: Seq<char>, cell: CellView) -> KeyView {
    KeyView::Column { table, row_id: cell.0, column: cell.1 }
}

/// The value that a cell has, if it has one.
pub open spec fn cell_value(answers: Answers, table: Seq<char>, cell: CellView) -> Option<ValueView> {
    match answers(ReadOpView::Bytes(cell_key(table, cell))) {
        Ok(results) if results.len() > 0 => Some(results[0].1),
        _ => None,
    }
}

/// The first error that reading the cells gives.
pub open spec fn read_error(answers: Answers, table: Seq<char>, cells: Seq<CellView>) -> Option<ErrorView>
    decreases cells.len(),
{
    if cells.len() == 0 {
        None
    } else {
        match read_error(answers, table, cells.drop_last()) {
            Some(e) => Some(e),
            None => match answers(ReadOpView::Bytes(cell_key(table, cells.last()))) {
                Ok(_) => None,
                Err(e) => Some(e@),
            },
        }
    }
}

/// The old values of cells, in their order.
pub open spec fn old_values(answers: Answers, table: Seq<char>, cells: Seq<CellView>) -> Seq<
    Option<ValueView>,
> {
    Seq::new(cells.len(), |i: int| cell_value(answers, table, cells[i]))
}

pub open spec fn opt_value(value: Option<StoredValue>) -> Option<ValueView> {
    match value {
        Some(v) => Some(v@),
        None => None,
    }
}

pub open spec fn values_view(values: Seq<Option<StoredValue>>) -> Seq<Option<ValueView>> {
    Seq::new(values.len(), |i: int| opt_value(values[i]))
}

fn clone_opt(value: &Option<StoredValue>) -> (v: Option<StoredValue>)
    ensures
        opt_value(v) == opt_value(*value),
{
    match value {
        Some(x) => Some(clone_value(x)),
        None => None,
    }
}

/// The reads of cells, in their order.
pub open spec fn cell_reads(table: Seq<char>, cells: Seq<CellView>) -> Seq<ReadOpView> {
    cells.map_values(|cell: CellView| ReadOpView::Bytes(cell_key(table, cell)))
}

fn read_cells<R: OpReader>(reader: &mut R, table: &String, cells: &Vec<(i64, String)>) -> (r: Result<
    Vec<Option<StoredValue>>,
    ChangelogError,
>)
    ensures
        final(reader).answers() == old(reader).answers(),
        made(
            old(reader).log(),
            final(reader).log(),
            cell_reads(table@, cells_view(cells@)),
            r is Ok,
        ),
        match read_error(old(reader).answers(), table@, cells_view(cells@)) {
            Some(e) => r matches Err(x) && x@ == e,
            None => r matches Ok(values) && values_view(values@) == old_values(
                old(reader).answers(),
                table@,
                cells_view(cells@),
            ),
        },
{
    let ghost answers = reader.answers();
    let ghost all = cells_view(cells@);
    let ghost wanted = cell_reads(table@, all);
    let ghost before_all = reader.log();
    let mut values: Vec<Option<StoredValue>> = Vec::new();
    assert(before_all + wanted.take(0) =~= before_all);
    let mut i: usize = 0;
    while i < cells.len()
        invariant
            i <= cells.len(),
            i == values.len(),
            answers == reader.answers(),
            answers == old(reader).answers(),
            all == cells_view(cells@),
            wanted == cell_reads(table@, all),
            before_all == old(reader).log(),
            reader.log() == before_all + wanted.take(i as int),
            read_error(answers, table@, all.take(i as int)) is None,
            values_view(values@) == old_values(answers, table@, all.take(i as int)),
        decreases cells.len() - i,
    {
        let ghost before = values@;
        let (row_id, column) = (cells[i].0, cells[i].1.clone());
        let ghost cell = all[i as int];
        proof {
            assert(all.take(i + 1).drop_last() =~= all.take(i as int));
            assert(all.take(i + 1).last() == cell);
        }
        let read = reader.read(
            ReadOp::Bytes(StorageKey::Column { table: table.clone(), row_id, column }),
        );
        proof {
            assert(wanted.take(i + 1) =~= wanted.take(i as int).push(wanted[i as int]));
            assert(reader.log() =~= before_all + wanted.take(i + 1));
            assert((before_all + wanted).subrange(0, reader.log().len() as int) =~= reader.log());
            assert(reader.log().subrange(0, before_all.len() as int) =~= before_all);
        }
        match read {
            Ok(mut found) => {
                let ghost seen = found@;
                assert(seen.len() == found.results.len());
                if found.results.len() > 0 {
                    assert(seen[0] == (found.results@[0].0@, found.results@[0].1@));
                    let (_, value) = found.results.swap_remove(0);
                    assert(cell_value(answers, table@, cell) == Some(value@));
                    values.push(Some(value));
                } else {
                    values.push(None);
                }
            },
            Err(e) => {
                proof {
                    lemma_read_error(answers, table@, all, i + 1);
                }
                return Err(e);
            },
        }
        proof {
            assert(opt_value(values@.last()) == cell_value(answers, table@, cell));
            assert(values_view(values@) =~= values_view(before).push(opt_value(values@.last())));
            assert(old_values(answers, table@, all.take(i + 1)) =~= old_values(
                answers,
                table@,
                all.take(i as int),
            ).push(cell_value(answers, table@, cell)));
        }
        i = i + 1;
    }
    assert(all.take(i as int) =~= all);
    assert(wanted.take(i as int) =~= wanted);
    assert((before_all + wanted).subrange(0, reader.log().len() as int) =~= reader.log());
    assert(reader.log().subrange(0, before_all.len() as int) =~= before_all);
    Ok(values)
}

proof fn lemma_read_error(answers: Answers, table: Seq<char>, cells: Seq<CellView>, n: int)
    requires
        0 <= n <= cells.len(),
        read_error(answers, table, cells.take(n)) is Some,
    ensures
        read_error(answers, table, cells) == read_error(answers, table, cells.take(n)),
    decreases cells.len(),
{
    if n < cells.len() {
        assert(cells.drop_last().take(n) =~= cells.take(n));
        lemma_read_error(answers, table, cells.drop_last(), n);
    } else {
        assert(cells.take(n) =~= cells);
    }
}

/// The old value of a cell that was read.
pub open spec fn value_read(
    cells: Seq<CellView>,
    values: Seq<Option<ValueView>>,
    cell: CellView,
) -> Option<ValueView>
    decreases cells.len(),
{
    if cells.len() == 0 {
        None
    } else if cells.last() == cell {
        values[cells.len() - 1]
    } else {
        value_read(cells.drop_last(), values, cell)
    }
}

fn find_value(
    cells: &Vec<(i64, String)>,
    values: &Vec<Option<StoredValue>>,
    row_id: i64,
    column: &String,
) -> (v: Option<StoredValue>)
    requires
        cells.len() == values.len(),
    ensures
        opt_value(v) == value_read(cells_view(cells@), values_view(values@), (row_id, column@)),
{
    let ghost all = cells_view(cells@);
    let ghost found = values_view(values@);
    let ghost cell = (row_id, column@);
    let mut n: usize = cells.len();
    assert(all.take(n as int) =~= all);
    while n > 0
        invariant
            n <= cells.len(),
            cells.len() == values.len(),
            all == cells_view(cells@),
            found == values_view(values@),
            cell == (row_id, column@),
            value_read(all, found, cell) == value_read(all.take(n as int), found, cell),
        decreases n,
    {
        proof {
            assert(all.take(n as int).drop_last() =~= all.take(n - 1));
            assert(all.take(n as int).last() == (cells@[n - 1].0, cells@[n - 1].1@));
        }
        if cells[n - 1].0 == row_id && cells[n - 1].1 == *column {
            assert(found[n - 1] == opt_value(values@[n - 1]));
            return clone_opt(&values[n - 1]);
        }
        n = n - 1;
    }
    None
}

/// The row is there: one of its cells has a value.
pub open spec fn row_exists(
    cells: Seq<CellView>,
    values: Seq<Option<ValueView>>,
    row_id: i64,
) -> bool {
    exists|i: int| 0 <= i < cells.len() && (#[trigger] cells[i]).0 == row_id && values[i] is Some
}

/// The first row that is not there.
pub open spec fn absent_row(
    cells: Seq<CellView>,
    values: Seq<Option<ValueView>>,
    table: Seq<char>,
    rows: Seq<i64>,
) -> Option<ErrorView>
    decreases rows.len(),
{
    if rows.len() == 0 {
        None
    } else {
        match absent_row(cells, values, table, rows.drop_last()) {
            Some(e) => Some(e),
            None => if row_exists(cells, values, rows.last()) {
                None
            } else {
                Some(refused(OpFaultView::RowAbsent { table, row_id: rows.last() }))
            },
        }
    }
}

proof fn lemma_absent_row(
    cells: Seq<CellView>,
    values: Seq<Option<ValueView>>,
    table: Seq<char>,
    rows: Seq<i64>,
    n: int,
)
    requires
        0 <= n <= rows.len(),
        absent_row(cells, values, table, rows.take(n)) is Some,
    ensures
        absent_row(cells, values, table, rows) == absent_row(cells, values, table, rows.take(n)),
    decreases rows.len(),
{
    if n < rows.len() {
        assert(rows.drop_last().take(n) =~= rows.take(n));
        lemma_absent_row(cells, values, table, rows.drop_last(), n);
    } else {
        assert(rows.take(n) =~= rows);
    }
}

fn has_value(cells: &Vec<(i64, String)>, values: &Vec<Option<StoredValue>>, row_id: i64) -> (r: bool)
    requires
        cells.len() == values.len(),
    ensures
        r == row_exists(cells_view(cells@), values_view(values@), row_id),
{
    let ghost all = cells_view(cells@);
    let ghost found = values_view(values@);
    let mut i: usize = 0;
    while i < cells.len()
        invariant
            i <= cells.len(),
            cells.len() == values.len(),
            all == cells_view(cells@),
            found == values_view(values@),
            forall|j: int| 0 <= j < i ==> !((#[trigger] all[j]).0 == row_id && found[j] is Some),
        decreases cells.len() - i,
    {
        assert(all[i as int].0 == cells@[i as int].0);
        assert(found[i as int] == opt_value(values@[i as int]));
        if cells[i].0 == row_id && values[i].is_some() {
            return true;
        }
        i = i + 1;
    }
    false
}

fn check_rows(
    cells: &Vec<(i64, String)>,
    values: &Vec<Option<StoredValue>>,
    table: &String,
    rows: &Vec<i64>,
) -> (r: Result<(), ChangelogError>)
    requires
        cells.len() == values.len(),
    ensures
        match absent_row(cells_view(cells@), values_view(values@), table@, rows@) {
            Some(e) => r matches Err(x) && x@ == e,
            None => r is Ok,
        },
{
    let ghost all = cells_view(cells@);
    let ghost found = values_view(values@);
    let mut i: usize = 0;
    while i < rows.len()
        invariant
            i <= rows.len(),
            cells.len() == values.len(),
            all == cells_view(cells@),
            found == values_view(values@),
            absent_row(all, found, table@, rows@.take(i as int)) is None,
        decreases rows.len() - i,
    {
        assert(rows@.take(i + 1).drop_last() =~= rows@.take(i as int));
        if !has_value(cells, values, rows[i]) {
            proof {
                lemma_absent_row(all, found, table@, rows@, i + 1);
            }
            return Err(refuse(OpFault::RowAbsent { table: table.clone(), row_id: rows[i] }));
        }
        i = i + 1;
    }
    assert(rows@.take(i as int) =~= rows@);
    Ok(())
}

// ---------- what the access rule is put to ----------

/// Values of a row, by column.
#[derive(Debug)]
pub struct RowValues {
    pub row_id: i64,
    pub values: Vec<(String, StoredValue)>,
}

pub struct RowValuesView {
    pub row_id: i64,
    pub values: Seq<(Seq<char>, ValueView)>,
}

pub open spec fn named_values(values: Seq<(String, StoredValue)>) -> Seq<(Seq<char>, ValueView)> {
    Seq::new(values.len(), |i: int| (values[i].0@, values[i].1@))
}

impl View for RowValues {
    type V = RowValuesView;

    open spec fn view(&self) -> RowValuesView {
        RowValuesView { row_id: self.row_id, values: named_values(self.values@) }
    }
}

pub open spec fn rows_view(rows: Seq<RowValues>) -> Seq<RowValuesView> {
    Seq::new(rows.len(), |i: int| rows[i]@)
}

/// The values that a row has in the columns: its id is that of the row, and
/// columns without a value are passed over.
pub open spec fn existing_values(
    cells: Seq<CellView>,
    values: Seq<Option<ValueView>>,
    row_id: i64,
    columns: Seq<String>,
) -> Seq<(Seq<char>, ValueView)>
    decreases columns.len(),
{
    if columns.len() == 0 {
        Seq::empty()
    } else {
        let before = existing_values(cells, values, row_id, columns.drop_last());
        let column = columns.last()@;
        if column == "id"@ {
            before.push((column, ValueView::Int(row_id)))
        } else {
            match value_read(cells, values, (row_id, column)) {
                Some(value) => before.push((column, value)),
                None => before,
            }
        }
    }
}

pub open spec fn existing_rows(
    cells: Seq<CellView>,
    values: Seq<Option<ValueView>>,
    rows: Seq<i64>,
    columns: Seq<String>,
) -> Seq<RowValuesView> {
    Seq::new(
        rows.len(),
        |i: int|
            RowValuesView {
                row_id: rows[i],
                values: existing_values(cells, values, rows[i], columns),
            },
    )
}

/// An update of the row changes a column that the access rule looks at.
pub open spec fn touches(parsed: Seq<ParsedView>, row_id: i64, columns: Seq<String>) -> bool {
    exists|i: int|
        0 <= i < parsed.len() && (#[trigger] parsed[i]).row_id == row_id && parsed[i].column != "id"@
            && names_include(columns, parsed[i].column)
}

pub open spec fn touched_rows(rows: Seq<i64>, parsed: Seq<ParsedView>, columns: Seq<String>) -> Seq<i64>
    decreases rows.len(),
{
    if rows.len() == 0 {
        Seq::empty()
    } else {
        let before = touched_rows(rows.drop_last(), parsed, columns);
        if touches(parsed, rows.last(), columns) {
            before.push(rows.last())
        } else {
            before
        }
    }
}

fn row_values(
    cells: &Vec<(i64, String)>,
    values: &Vec<Option<StoredValue>>,
    row_id: i64,
    columns: &Vec<String>,
) -> (found: Vec<(String, StoredValue)>)
    requires
        cells.len() == values.len(),
    ensures
        named_values(found@) == existing_values(
            cells_view(cells@),
            values_view(values@),
            row_id,
            columns@,
        ),
{
    let ghost all = cells_view(cells@);
    let ghost old_vals = values_view(values@);
    let mut found: Vec<(String, StoredValue)> = Vec::new();
    let mut i: usize = 0;
    assert(named_values(found@) =~= Seq::empty());
    while i < columns.len()
        invariant
            i <= columns.len(),
            cells.len() == values.len(),
            all == cells_view(cells@),
            old_vals == values_view(values@),
            named_values(found@) == existing_values(all, old_vals, row_id, columns@.take(i as int)),
        decreases columns.len() - i,
    {
        let ghost before = found@;
        let column: String = columns[i].clone();
        assert(columns@.take(i + 1).drop_last() =~= columns@.take(i as int));
        if column == "id".to_owned() {
            found.push((column, StoredValue::Int(row_id)));
            assert(named_values(found@) =~= named_values(before).push(
                (columns@[i as int]@, ValueView::Int(row_id)),
            ));
        } else if let Some(value) = find_value(cells, values, row_id, &column) {
            let ghost seen = value@;
            found.push((column, value));
            assert(named_values(found@) =~= named_values(before).push((columns@[i as int]@, seen)));
        }
        i = i + 1;
    }
    assert(columns@.take(i as int) =~= columns@);
    found
}

fn collect_existing(
    cells: &Vec<(i64, String)>,
    values: &Vec<Option<StoredValue>>,
    rows: &Vec<i64>,
    columns: &Vec<String>,
) -> (found: Vec<RowValues>)
    requires
        cells.len() == values.len(),
    ensures
        rows_view(found@) == existing_rows(cells_view(cells@), values_view(values@), rows@, columns@),
{
    let ghost all = cells_view(cells@);
    let ghost old_vals = values_view(values@);
    let ghost expected = existing_rows(all, old_vals, rows@, columns@);
    let mut found: Vec<RowValues> = Vec::new();
    let mut i: usize = 0;
    while i < rows.len()
        invariant
            i <= rows.len(),
            i == found.len(),
            cells.len() == values.len(),
            all == cells_view(cells@),
            old_vals == values_view(values@),
            expected == existing_rows(all, old_vals, rows@, columns@),
            forall|j: int| 0 <= j < i ==> (#[trigger] found@[j])@ == expected[j],
        decreases rows.len() - i,
    {
        let row = RowValues { row_id: rows[i], values: row_values(cells, values, rows[i], columns) };
        assert(row@ == expected[i as int]);
        found.push(row);
        i = i + 1;
    }
    assert(rows_view(found@) =~= expected);
    found
}

fn is_touched(parsed: &Vec<ParsedColumn>, row_id: i64, columns: &Vec<String>) -> (r: bool)
    ensures
        r == touches(parsed_view(parsed@), row_id, columns@),
{
    let ghost all = parsed_view(parsed@);
    let mut i: usize = 0;
    while i < parsed.len()
        invariant
            i <= parsed.len(),
            all == parsed_view(parsed@),
            forall|j: int|
                0 <= j < i ==> !((#[trigger] all[j]).row_id == row_id && all[j].column != "id"@
                    && names_include(columns@, all[j].column)),
        decreases parsed.len() - i,
    {
        assert(all[i as int] == parsed@[i as int]@);
        if parsed[i].row_id == row_id && parsed[i].column != "id".to_owned() && includes_name(
            columns,
            &parsed[i].column,
        ) {
            return true;
        }
        i = i + 1;
    }
    false
}

fn collect_touched(rows: &Vec<i64>, parsed: &Vec<ParsedColumn>, columns: &Vec<String>) -> (touched: Vec<
    i64,
>)
    ensures
        touched@ == touched_rows(rows@, parsed_view(parsed@), columns@),
{
    let ghost all = parsed_view(parsed@);
    let mut touched: Vec<i64> = Vec::new();
    let mut i: usize = 0;
    while i < rows.len()
        invariant
            i <= rows.len(),
            all == parsed_view(parsed@),
            touched@ == touched_rows(rows@.take(i as int), all, columns@),
        decreases rows.len() - i,
    {
        assert(rows@.take(i + 1).drop_last() =~= rows@.take(i as int));
        if is_touched(parsed, rows[i], columns) {
            touched.push(rows[i]);
        }
        i = i + 1;
    }
    assert(rows@.take(i as int) =~= rows@);
    touched
}

// ---------- the writes ----------

/// The new values go to their cells, in the order of the entries.
pub open spec fn cell_puts(table: Seq<char>, parsed: Seq<ParsedView>) -> Seq<BatchOpView> {
    Seq::new(
        parsed.len(),
        |i: int|
            BatchOpView::Put {
                key: cell_key(table, (parsed[i].row_id, parsed[i].column)),
                value: ValueView::Raw(parsed[i].value),
            },
    )
}

/// A change of an index: the entry for the old value, if there is one, gives way
/// to that for the new.
#[derive(Debug)]
pub struct IndexChange {
    pub row_id: i64,
    pub column: String,
    pub old_value: Option<StoredValue>,
    pub new_value: Vec<u8>,
}

pub struct IndexChangeView {
    pub row_id: i64,
    pub column: Seq<char>,
    pub old_value: Option<ValueView>,
    pub new_value: Seq<u8>,
}

impl View for IndexChange {
    type V = IndexChangeView;

    open spec fn view(&self) -> IndexChangeView {
        IndexChangeView {
            row_id: self.row_id,
            column: self.column@,
            old_value: opt_value(self.old_value),
            new_value: self.new_value@,
        }
    }
}

pub open spec fn changes_view(changes: Seq<IndexChange>) -> Seq<IndexChangeView> {
    Seq::new(changes.len(), |i: int| changes[i]@)
}

/// The value that the last entry for a cell gives it.
pub open spec fn last_value(parsed: Seq<ParsedView>, cell: CellView) -> Seq<u8>
    decreases parsed.len(),
{
    if parsed.len() == 0 {
        Seq::empty()
    } else if (parsed.last().row_id, parsed.last().column) == cell {
        parsed.last().value
    } else {
        last_value(parsed.drop_last(), cell)
    }
}

/// The changes of indexes, in the order of the cells.
pub open spec fn index_changes(
    parsed: Seq<ParsedView>,
    indexed: Seq<String>,
    cells: Seq<CellView>,
    values: Seq<Option<ValueView>>,
) -> Seq<IndexChangeView> {
    let changed = with_indexed_cells(Seq::empty(), parsed, indexed);
    Seq::new(
        changed.len(),
        |i: int|
            IndexChangeView {
                row_id: changed[i].0,
                column: changed[i].1,
                old_value: value_read(cells, values, changed[i]),
                new_value: last_value(parsed, changed[i]),
            },
    )
}

fn collect_puts(table: &String, parsed: &Vec<ParsedColumn>) -> (ops: Vec<BatchOp>)
    ensures
        batch_view(ops@) == cell_puts(table@, parsed_view(parsed@)),
{
    let ghost expected = cell_puts(table@, parsed_view(parsed@));
    let mut ops: Vec<BatchOp> = Vec::new();
    let mut i: usize = 0;
    while i < parsed.len()
        invariant
            i <= parsed.len(),
            i == ops.len(),
            expected == cell_puts(table@, parsed_view(parsed@)),
            forall|j: int| 0 <= j < i ==> (#[trigger] ops@[j])@ == expected[j],
        decreases parsed.len() - i,
    {
        let op = BatchOp::Put {
            key: StorageKey::Column {
                table: table.clone(),
                row_id: parsed[i].row_id,
                column: parsed[i].column.clone(),
            },
            value: StoredValue::Raw(clone_bytes(&parsed[i].value)),
        };
        assert(op@ == expected[i as int]);
        ops.push(op);
        i = i + 1;
    }
    assert(batch_view(ops@) =~= expected);
    ops
}

fn new_value(parsed: &Vec<ParsedColumn>, row_id: i64, column: &String) -> (value: Vec<u8>)
    ensures
        value@ == last_value(parsed_view(parsed@), (row_id, column@)),
{
    let ghost all = parsed_view(parsed@);
    let ghost cell = (row_id, column@);
    let mut n: usize = parsed.len();
    assert(all.take(n as int) =~= all);
    while n > 0
        invariant
            n <= parsed.len(),
            all == parsed_view(parsed@),
            cell == (row_id, column@),
            last_value(all, cell) == last_value(all.take(n as int), cell),
        decreases n,
    {
        proof {
            assert(all.take(n as int).drop_last() =~= all.take(n - 1));
            assert(all.take(n as int).last() == parsed@[n - 1]@);
        }
        if parsed[n - 1].row_id == row_id && parsed[n - 1].column == *column {
            return clone_bytes(&parsed[n - 1].value);
        }
        n = n - 1;
    }
    Vec::new()
}

fn collect_changes(
    parsed: &Vec<ParsedColumn>,
    indexed: &Vec<String>,
    cells: &Vec<(i64, String)>,
    values: &Vec<Option<StoredValue>>,
) -> (changes: Vec<IndexChange>)
    requires
        cells.len() == values.len(),
    ensures
        changes_view(changes@) == index_changes(
            parsed_view(parsed@),
            indexed@,
            cells_view(cells@),
            values_view(values@),
        ),
{
    let ghost expected = index_changes(
        parsed_view(parsed@),
        indexed@,
        cells_view(cells@),
        values_view(values@),
    );
    let mut changed: Vec<(i64, String)> = Vec::new();
    assert(cells_view(changed@) =~= Seq::empty());
    add_indexed_cells(&mut changed, parsed, indexed);
    let ghost places = cells_view(changed@);
    let mut changes: Vec<IndexChange> = Vec::new();
    let mut i: usize = 0;
    while i < changed.len()
        invariant
            i <= changed.len(),
            i == changes.len(),
            cells.len() == values.len(),
            places == cells_view(changed@),
            places == with_indexed_cells(Seq::empty(), parsed_view(parsed@), indexed@),
            expected == index_changes(
                parsed_view(parsed@),
                indexed@,
                cells_view(cells@),
                values_view(values@),
            ),
            forall|j: int| 0 <= j < i ==> (#[trigger] changes@[j])@ == expected[j],
        decreases changed.len() - i,
    {
        let row_id: i64 = changed[i].0;
        let column: String = changed[i].1.clone();
        let old_value = find_value(cells, values, row_id, &column);
        let new_value = new_value(parsed, row_id, &column);
        assert(places[i as int] == (row_id, column@));
        let change = IndexChange { row_id, column, old_value, new_value };
        assert(change@ == expected[i as int]);
        changes.push(change);
        i = i + 1;
    }
    assert(changes_view(changes@) =~= expected);
    changes
}

// ---------- planning ----------

/// What an update that may go ahead is put to the access rule for, and what it
/// writes. Only `UpdateOp::plan` makes one.
#[derive(Debug)]
pub struct UpdatePlan {
    existing: Vec<RowValues>,
    touched: Vec<i64>,
    puts: Vec<BatchOp>,
    index_changes: Vec<IndexChange>,
}

pub struct PlanView {
    pub existing: Seq<RowValuesView>,
    pub touched: Seq<i64>,
    pub puts: Seq<BatchOpView>,
    pub index_changes: Seq<IndexChangeView>,
}

impl View for UpdatePlan {
    type V = PlanView;

    closed spec fn view(&self) -> PlanView {
        PlanView {
            existing: rows_view(self.existing@),
            touched: self.touched@,
            puts: batch_view(self.puts@),
            index_changes: changes_view(self.index_changes@),
        }
    }
}

/// Some entries, checked and read of some tree, were planned so.
pub open spec fn is_plan(plan: PlanView) -> bool {
    exists|answers: Answers, checks: UpdateChecks, entries: Seq<KvView>| #[trigger]
        planned(answers, checks, entries) == Ok::<PlanView, ErrorView>(plan)
}

impl UpdatePlan {
    #[verifier::type_invariant]
    spec fn inv(self) -> bool {
        is_plan(self@)
    }

    /// The rows as they are, which the access rule must let the author write.
    pub fn existing(&self) -> (rows: &Vec<RowValues>)
        ensures
            rows_view(rows@) == self@.existing,
    {
        &self.existing
    }

    /// The rows whose new values it must let the author write.
    pub fn touched(&self) -> (rows: &Vec<i64>)
        ensures
            rows@ == self@.touched,
    {
        &self.touched
    }

    /// The changes of indexes that it goes with.
    pub fn index_changes(&self) -> (changes: &Vec<IndexChange>)
        ensures
            changes_view(changes@) == self@.index_changes,
    {
        &self.index_changes
    }
}

/// The plan of an update whose columns may be updated.
pub open spec fn plan_rows(
    answers: Answers,
    table: Seq<char>,
    parsed: Seq<ParsedView>,
    acl_columns: Option<Vec<String>>,
    indexed: Seq<String>,
) -> Result<PlanView, ErrorView> {
    let rows = updated_rows(parsed);
    let cells = cells_to_read(parsed, acl_columns, indexed);
    let values = old_values(answers, table, cells);
    match read_error(answers, table, cells) {
        Some(e) => Err(e),
        None => match absent_row(cells, values, table, rows) {
            Some(e) => Err(e),
            None => Ok(
                PlanView {
                    existing: match acl_columns {
                        Some(columns) => existing_rows(cells, values, rows, columns@),
                        None => Seq::empty(),
                    },
                    touched: match acl_columns {
                        Some(columns) => touched_rows(rows, parsed, columns@),
                        None => Seq::empty(),
                    },
                    puts: cell_puts(table, parsed),
                    index_changes: index_changes(parsed, indexed, cells, values),
                },
            ),
        },
    }
}

/// The first thing that stands against the columns of an update.
pub open spec fn columns_fault(checks: UpdateChecks, parsed: Seq<ParsedView>) -> Option<ErrorView> {
    match checks.columns {
        Err(e) => Some(e@),
        Ok(columns) => match unknown_column(parsed, columns@) {
            Some(e) => Some(e),
            None => match checks.list_columns {
                Err(e) => Some(e@),
                Ok(lists) => match list_column(parsed, lists@) {
                    Some(e) => Some(e),
                    None => match checks.piece_text_columns {
                        Err(e) => Some(e@),
                        Ok(documents) => piece_text_column(parsed, documents@),
                    },
                },
            },
        },
    }
}

/// The first of several checks that failed.
pub open spec fn first_failure(checks: Seq<Result<(), ChangelogError>>) -> Option<ErrorView>
    decreases checks.len(),
{
    if checks.len() == 0 {
        None
    } else {
        match checks[0] {
            Err(e) => Some(e@),
            Ok(_) => first_failure(checks.drop_first()),
        }
    }
}

/// The outcomes that speak of the entries' keys are those of the entries: if the
/// keys pass for those of cells, they are such, and if a table is given, it is
/// theirs.
pub open spec fn checks_of_entries(checks: UpdateChecks, entries: Seq<KvView>) -> bool {
    &&& checks.column_entries is Ok ==> forall|i: int|
        0 <= i < entries.len() ==> (#[trigger] entries[i]).key is Column
    &&& checks.table matches Ok(table) ==> forall|i: int|
        0 <= i < entries.len() ==> match (#[trigger] entries[i]).key {
            KeyView::Column { table: other, .. } => other == table@,
            _ => true,
        }
}

/// The plan of an update, or the first thing that stands against it.
pub open spec fn planned(answers: Answers, checks: UpdateChecks, entries: Seq<KvView>) -> Result<
    PlanView,
    ErrorView,
> {
    let parsed = parsed_entries(entries);
    match first_failure(
        seq![checks.max_entries, checks.sorted, checks.user_access, checks.column_entries],
    ) {
        Some(e) => Err(e),
        None => match checks.table {
            Err(e) => Err(e@),
            Ok(table) => match checks.not_internal {
                Err(e) => Err(e@),
                Ok(_) => match columns_fault(checks, parsed) {
                    Some(e) => Err(e),
                    None => match checks.acl_columns {
                        Err(e) => Err(e@),
                        Ok(acl_columns) => match checks.indexed_columns {
                            Err(e) => Err(e@),
                            Ok(indexed) => plan_rows(
                                answers,
                                table@,
                                parsed,
                                acl_columns,
                                indexed@,
                            ),
                        },
                    },
                },
            },
        },
    }
}

/// The reads that an update is planned with.
pub open spec fn planned_reads(checks: UpdateChecks, entries: Seq<KvView>) -> Seq<ReadOpView> {
    match (checks.table, checks.acl_columns, checks.indexed_columns) {
        (Ok(table), Ok(acl_columns), Ok(indexed)) => cell_reads(
            table@,
            cells_to_read(parsed_entries(entries), acl_columns, indexed@),
        ),
        _ => Seq::empty(),
    }
}

// ---------- the outcomes ----------

/// The index writes made for a change.
#[derive(Debug)]
pub struct IndexOutcome {
    /// The removal of the entry for the old value, if there is one.
    pub delete: Option<Result<BatchOp, ChangelogError>>,
    pub put: Result<BatchOp, ChangelogError>,
}

/// What came of putting a plan to the access rule and making its index writes.
#[derive(Debug)]
pub struct UpdateOutcomes {
    /// Whether the author may write each of the rows as they are.
    pub existing: Vec<Result<(), ChangelogError>>,
    /// Whether the author may write the new values of each of the touched rows.
    pub touched: Vec<Result<(), ChangelogError>>,
    pub index: Vec<IndexOutcome>,
}

/// There is an outcome for all that the plan asks.
pub open spec fn answers_plan(outcomes: UpdateOutcomes, plan: PlanView) -> bool {
    &&& outcomes.existing.len() == plan.existing.len()
    &&& outcomes.touched.len() == plan.touched.len()
    &&& outcomes.index.len() == plan.index_changes.len()
    &&& forall|i: int|
        0 <= i < outcomes.index.len() ==> (#[trigger] outcomes.index@[i]).delete.is_some()
            == plan.index_changes[i].old_value.is_some()
}

/// The index writes, in order: for each change the removal, then the new entry.
pub open spec fn index_writes(outcomes: Seq<IndexOutcome>) -> Result<Seq<BatchOpView>, ErrorView>
    decreases outcomes.len(),
{
    if outcomes.len() == 0 {
        Ok(Seq::empty())
    } else {
        match index_writes(outcomes.drop_last()) {
            Err(e) => Err(e),
            Ok(before) => {
                let outcome = outcomes.last();
                match outcome.delete {
                    Some(Err(e)) => Err(e@),
                    _ => match outcome.put {
                        Err(e) => Err(e@),
                        Ok(put) => Ok(
                            match outcome.delete {
                                Some(Ok(delete)) => before.push(delete@).push(put@),
                                _ => before.push(put@),
                            },
                        ),
                    },
                }
            },
        }
    }
}

/// What an update amounts to: its writes, or the first outcome that stands
/// against it.
pub open spec fn update_writes(plan: PlanView, outcomes: UpdateOutcomes) -> Result<
    Seq<BatchOpView>,
    ErrorView,
> {
    match first_failure(outcomes.existing@) {
        Some(e) => Err(e),
        None => match first_failure(outcomes.touched@) {
            Some(e) => Err(e),
            None => match index_writes(outcomes.index@) {
                Err(e) => Err(e),
                Ok(writes) => Ok(plan.puts + writes),
            },
        },
    }
}

fn check_all(checks: Vec<Result<(), ChangelogError>>) -> (r: Result<(), ChangelogError>)
    ensures
        match first_failure(checks@) {
            Some(e) => r matches Err(x) && x@ == e,
            None => r is Ok,
        },
{
    let ghost all = checks@;
    assert(all.skip(0) =~= all);
    for check in it: checks
        invariant
            it.seq() == all,
            first_failure(all) == first_failure(all.skip(it.index() as int)),
    {
        proof {
            let rest = all.skip(it.index() as int);
            assert(rest[0] == check);
            assert(rest.drop_first() =~= all.skip(it.index() + 1));
        }
        if check.is_err() {
            return check;
        }
    }
    Ok(())
}

proof fn lemma_index_writes_error(outcomes: Seq<IndexOutcome>, n: int)
    requires
        0 <= n <= outcomes.len(),
        index_writes(outcomes.take(n)) is Err,
    ensures
        index_writes(outcomes) == index_writes(outcomes.take(n)),
    decreases outcomes.len(),
{
    if n < outcomes.len() {
        assert(outcomes.drop_last().take(n) =~= outcomes.take(n));
        lemma_index_writes_error(outcomes.drop_last(), n);
    } else {
        assert(outcomes.take(n) =~= outcomes);
    }
}

fn push_index_writes(ops: &mut Vec<BatchOp>, outcomes: Vec<IndexOutcome>) -> (r: Result<
    (),
    ChangelogError,
>)
    ensures
        match index_writes(outcomes@) {
            Err(e) => r matches Err(x) && x@ == e,
            Ok(writes) => r is Ok && batch_view(final(ops)@) == batch_view(old(ops)@) + writes,
        },
{
    let ghost all = outcomes@;
    let ghost start = batch_view(ops@);
    assert(all.take(0) =~= Seq::empty());
    assert(start + Seq::<BatchOpView>::empty() =~= start);
    for outcome in it: outcomes
        invariant
            it.seq() == all,
            index_writes(all.take(it.index() as int)) matches Ok(writes) && batch_view(ops@) == start
                + writes,
    {
        let ghost n = it.index() as int;
        let ghost before = batch_view(ops@);
        proof {
            assert(all.take(n + 1).drop_last() =~= all.take(n));
            assert(all.take(n + 1).last() == outcome);
        }
        match outcome.delete {
            Some(Err(e)) => {
                proof {
                    lemma_index_writes_error(all, n + 1);
                }
                return Err(e);
            },
            Some(Ok(delete)) => {
                ops.push(delete);
                assert(batch_view(ops@) =~= before.push(delete@));
            },
            None => {},
        }
        let ghost mid = batch_view(ops@);
        match outcome.put {
            Err(e) => {
                proof {
                    lemma_index_writes_error(all, n + 1);
                }
                return Err(e);
            },
            Ok(put) => {
                ops.push(put);
                assert(batch_view(ops@) =~= mid.push(put@));
            },
        }
        proof {
            let v = index_writes(all.take(n + 1))->Ok_0;
            assert(batch_view(ops@) =~= start + v);
        }
    }
    assert(all.take(all.len() as int) =~= all);
    Ok(())
}

/// The update of rows.
pub struct UpdateOp;

impl UpdateOp {
    /// Checks an update as far as the tree shows, and plans it.
    pub fn plan<R: OpReader>(entry: &ChangelogEntry, reader: &mut R, checks: UpdateChecks) -> (r: Result<
        UpdatePlan,
        ChangelogError,
    >)
        ensures
            final(reader).answers() == old(reader).answers(),
            made(
                old(reader).log(),
                final(reader).log(),
                planned_reads(checks, entries_view(entry.message.entries@)),
                r is Ok,
            ),
            match planned(old(reader).answers(), checks, entries_view(entry.message.entries@)) {
                Ok(plan) => r matches Ok(p) && p@ == plan,
                Err(e) => r matches Err(x) && x@ == e,
            },
    {
        proof {
            let first = seq![
                checks.max_entries,
                checks.sorted,
                checks.user_access,
                checks.column_entries,
            ];
            let second = first.drop_first();
            let third = second.drop_first();
            assert(second =~= seq![checks.sorted, checks.user_access, checks.column_entries]);
            assert(third =~= seq![checks.user_access, checks.column_entries]);
            assert(third.drop_first() =~= seq![checks.column_entries]);
            reveal_with_fuel(first_failure, 5);
        }
        let ghost entries = entries_view(entry.message.entries@);
        let ghost log = reader.log();
        proof {
            lemma_made_none(log, planned_reads(checks, entries));
        }
        checks.max_entries?;
        checks.sorted?;
        checks.user_access?;
        checks.column_entries?;
        let parsed = parse_entries(&entry.message.entries);
        let table = checks.table?;
        checks.not_internal?;
        let columns = checks.columns?;
        check_known(&parsed, &columns)?;
        let lists = checks.list_columns?;
        check_no_lists(&parsed, &lists)?;
        let documents = checks.piece_text_columns?;
        check_no_piece_text(&parsed, &documents)?;
        let acl_columns = checks.acl_columns?;
        let indexed = checks.indexed_columns?;
        let rows = collect_rows(&parsed);
        let cells = plan_reads(&rows, &parsed, &acl_columns, &indexed);
        let values = read_cells(reader, &table, &cells)?;
        proof {
            assert(values_view(values@).len() == values@.len());
            assert(cells_view(cells@).len() == cells@.len());
        }
        check_rows(&cells, &values, &table, &rows)?;
        let mut existing: Vec<RowValues> = Vec::new();
        let mut touched: Vec<i64> = Vec::new();
        assert(rows_view(existing@) =~= Seq::empty());
        if let Some(columns) = &acl_columns {
            existing = collect_existing(&cells, &values, &rows, columns);
            touched = collect_touched(&rows, &parsed, columns);
        }
        let puts = collect_puts(&table, &parsed);
        let index_changes = collect_changes(&parsed, &indexed, &cells, &values);
        proof {
            let view = PlanView {
                existing: rows_view(existing@),
                touched: touched@,
                puts: batch_view(puts@),
                index_changes: changes_view(index_changes@),
            };
            assert(planned(reader.answers(), checks, entries) == Ok::<PlanView, ErrorView>(view));
            assert(is_plan(view));
        }
        Ok(UpdatePlan { existing, touched, puts, index_changes })
    }

    /// Takes what came of a plan, and gives the writes.
    pub fn extract_and_validate(plan: UpdatePlan, outcomes: UpdateOutcomes) -> (r: Result<
        OpVerifyResult,
        ChangelogError,
    >)
        requires
            answers_plan(outcomes, plan@),
        ensures
            is_plan(plan@),
            match update_writes(plan@, outcomes) {
                Ok(writes) => r matches Ok(result) && result.writes(writes),
                Err(e) => r matches Err(x) && x@ == e,
            },
    {
        proof {
            use_type_invariant(&plan);
        }
        check_all(outcomes.existing)?;
        check_all(outcomes.touched)?;
        let mut ops = plan.puts;
        push_index_writes(&mut ops, outcomes.index)?;
        Ok(OpVerifyResult::of_writes(ops))
    }
}

} // verus!
