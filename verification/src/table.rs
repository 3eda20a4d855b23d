//! The text table that a report is laid out in.

use tabular::{Row, Table};
use vstd::prelude::*;

verus! {

/// A table under construction. Nothing is known of its inside but what the
/// names below say.
#[verifier::external_type_specification]
#[verifier::external_body]
pub struct ExTable(tabular::Table);

/// One row under construction.
#[verifier::external_type_specification]
#[verifier::external_body]
pub struct ExRow(tabular::Row);

/// The cells of a row, in order, each as its text.
pub uninterp spec fn row_cells(row: Row) -> Seq<Seq<char>>;

/// The row specification that a table was made with.
pub uninterp spec fn table_spec(table: Table) -> Seq<char>;

/// The rows of a table, in the order in which they were added.
pub uninterp spec fn table_rows(table: Table) -> Seq<Seq<Seq<char>>>;

/// The text that a table with the given row specification and rows is
/// displayed as.
pub uninterp spec fn table_text(spec: Seq<char>, rows: Seq<Seq<Seq<char>>>) -> Seq<char>;

/// The number of columns that a row specification lays out, read from
/// position `from` on, or `None` where it is malformed. A column is one of
/// `{:<}`, `{:^}` and `{:>}`; doubled braces stand for a brace; any other
/// brace is malformed.
pub open spec fn column_count(spec: Seq<char>, from: int) -> Option<nat>
    decreases spec.len() - from,
{
    if from < 0 || from >= spec.len() {
        Some(0)
    } else if spec[from] == '{' {
        if from + 1 < spec.len() && spec[from + 1] == '{' {
            column_count(spec, from + 2)
        } else if from + 3 < spec.len() && spec[from + 1] == ':' && (spec[from + 2] == '<'
            || spec[from + 2] == '^' || spec[from + 2] == '>') && spec[from + 3] == '}' {
            match column_count(spec, from + 4) {
                Some(n) => Some(n + 1),
                None => None,
            }
        } else {
            None
        }
    } else if spec[from] == '}' {
        if from + 1 < spec.len() && spec[from + 1] == '}' {
            column_count(spec, from + 2)
        } else {
            None
        }
    } else {
        column_count(spec, from + 1)
    }
}

/// Trusted: `tabular::Table::new`, which panics on a malformed row
/// specification. The contract claims that the new table keeps the
/// specification and has no rows.
#[verifier::external_body]
pub(crate) fn table_new(row_spec: &str) -> (table: Table)
    requires
        column_count(row_spec@, 0) is Some,
    ensures
        table_spec(table) == row_spec@,
        table_rows(table) == Seq::<Seq<Seq<char>>>::empty(),
{
    Table::new(row_spec)
}

/// Trusted: `tabular::Row::new`. The contract claims that the new row has
/// no cells.
#[verifier::external_body]
pub(crate) fn row_new() -> (row: Row)
    ensures
        row_cells(row) == Seq::<Seq<char>>::empty(),
{
    Row::new()
}

/// Trusted: `tabular::Row::with_cell`. The contract claims that the row
/// gains one last cell, which holds the text given.
#[verifier::external_body]
pub(crate) fn row_with_cell(row: Row, cell: &str) -> (extended: Row)
    ensures
        row_cells(extended) == row_cells(row).push(cell@),
{
    row.with_cell(cell)
}

/// Trusted: `tabular::Table::add_row`, which panics unless the row has as
/// many cells as the table has columns. The contract claims that the table
/// gains the row as its last and keeps its specification.
#[verifier::external_body]
pub(crate) fn table_add_row(table: &mut Table, row: Row)
    requires
        column_count(table_spec(*old(table)), 0) == Some(row_cells(row).len()),
    ensures
        table_spec(*final(table)) == table_spec(*old(table)),
        table_rows(*final(table)) == table_rows(*old(table)).push(row_cells(row)),
{
    table.add_row(row);
}

/// Trusted: the `Display` of `tabular::Table`, through `to_string`. The
/// contract claims that the text depends on the row specification and the
/// rows alone.
#[verifier::external_body]
pub(crate) fn table_to_string(table: &Table) -> (text: String)
    ensures
        text@ == table_text(table_spec(*table), table_rows(*table)),
{
    table.to_string()
}

/// The row specification of a report: the scope's name to the left, then
/// ten figures to the right, in four groups.
pub open spec fn layout() -> Seq<char> {
    "{:<} | {:>} {:>} {:>} | {:>} {:>} {:>} {:>} {:>} | {:>} {:>}"@
}

/// The layout of a report is well formed and has eleven columns.
pub proof fn lemma_layout_columns()
    ensures
        column_count(layout(), 0) == Some(11nat),
{
    reveal_strlit("{:<} | {:>} {:>} {:>} | {:>} {:>} {:>} {:>} {:>} | {:>} {:>}");
    reveal_with_fuel(column_count, 40);
}

} // verus!
