//! Properties of the table that relate several operations, proved once for all
//! tables.
use vstd::prelude::*;
use crate::edit::{field_count, field_values, lemma_replaced_fits, placeholder, replaced_cell};
use crate::error::CSVError;
use crate::render::{label, record_of, rendering, rows_block, rule_of};
use crate::table::{file_lines, line_fits, loadable, serialized, CSVFile};
use crate::text::{decimal, join_with, lemma_join_split, lemma_split_nonempty, split_on};

verus! {

/// Drawing the range from a row to itself shows that one row only, labelled 1.
pub proof fn lemma_display_single_row(t: CSVFile, r: usize)
    requires
        t.wf(),
        1 <= r <= t.num_rows,
    ensures
        t.range_outcome(Some(r), Some(r)) is Ok,
        t.display_lines(r as int, r as int).len() == 5,
        t.display_lines(r as int, r as int)[3] == record_of(t.row_cells(r - 1), t.max_col_lengths@)
            + seq![' ', ' ', '(', '1', ')'],
        t.display_lines(r as int, r as int)[4] == rule_of(t.max_col_lengths@),
{
    let rows = t.grid().subrange(r - 1, r as int);
    assert(rows.len() == 1);
    assert(rows[0] == t.row_cells(r - 1));
    assert(decimal(1) == seq!['1']);
    assert(label(1) =~= seq![' ', ' ', '(', '1', ')']);
    let ws = t.max_col_lengths@;
    assert(rows_block(rows, ws, 0) =~= Seq::<Seq<char>>::empty());
    assert(rows_block(rows, ws, 1) =~= seq![record_of(rows[0], ws) + label(1), rule_of(ws)]);
    assert(t.display_lines(r as int, r as int) =~= seq![
        rule_of(ws),
        record_of(t.header_cells(), ws),
        rule_of(ws),
        record_of(rows[0], ws) + label(1),
        rule_of(ws),
    ]);
}

/// A range that starts after it ends is refused as inverted, whether or not
/// its ends are rows of the table.
pub proof fn lemma_inverted_range(t: CSVFile, s: usize, e: usize)
    requires
        s > e,
    ensures
        t.range_outcome(Some(s), Some(e)) == Err::<(), CSVError>(CSVError::IncorrectIndices),
{
}

/// After deleting row `r`, the table has one row fewer and draws the rows it
/// had, in order, without row `r`: those after it move up by one.
pub proof fn lemma_delete_row_display(before: CSVFile, after: CSVFile, r: usize)
    requires
        before.wf(),
        after.wf(),
        1 <= r <= before.num_rows,
        after.lines() == before.lines().remove(r - 1),
        after.num_rows == before.num_rows - 1,
        after.header == before.header,
        after.num_cols == before.num_cols,
    ensures
        after.num_rows == before.num_rows - 1,
        after.grid() == before.grid().remove(r - 1),
        forall|i: int| 0 <= i < r - 1 ==> #[trigger] after.lines()[i] == before.lines()[i],
        forall|i: int|
            r - 1 <= i < after.num_rows ==> #[trigger] after.lines()[i] == before.lines()[i + 1],
        after.num_rows > 0 ==> after.display_lines(1, after.num_rows as int) == rendering(
            before.header_cells(),
            before.grid().remove(r - 1),
            after.max_col_lengths@,
        ),
{
    assert(after.grid() =~= before.grid().remove(r - 1));
    assert(after.grid().subrange(0, after.num_rows as int) =~= after.grid());
}

/// A row with one field per column, once added, is the last row of the table,
/// and drawing that row alone shows exactly its fields.
pub proof fn lemma_add_row_display(before: CSVFile, after: CSVFile, data: Seq<char>)
    requires
        before.wf(),
        after.wf(),
        field_count(data) == before.num_cols,
        after.lines() == before.lines().push(data),
        after.num_rows == before.num_rows + 1,
        after.header == before.header,
        after.num_cols == before.num_cols,
    ensures
        before.add_row_outcome(data) is Ok,
        after.row_cells(after.num_rows - 1) == field_values(data),
        after.display_lines(after.num_rows as int, after.num_rows as int)[3] == record_of(
            field_values(data),
            after.max_col_lengths@,
        ) + seq![' ', ' ', '(', '1', ')'],
{
    lemma_split_nonempty(data, ',');
    assert(after.lines()[after.num_rows - 1] == data);
    lemma_display_single_row(after, after.num_rows);
}

/// A row with more fields than the table has columns is refused as too many.
pub proof fn lemma_add_row_too_many(t: CSVFile, data: Seq<char>)
    requires
        field_count(data) > t.num_cols,
    ensures
        t.add_row_outcome(data) == Err::<(), CSVError>(CSVError::MoreEntriesThanRequired),
{
}

/// Clearing a cell that holds a value succeeds; clearing it again is refused,
/// since it then holds the placeholder.
pub proof fn lemma_delete_entry_twice(before: CSVFile, after: CSVFile, r: usize, c: usize)
    requires
        before.wf(),
        after.wf(),
        1 <= r <= before.num_rows,
        1 <= c <= before.num_cols,
        before.row_cells(r - 1)[c - 1] != placeholder(),
        after.lines() == before.lines().update(
            r - 1,
            replaced_cell(before.lines()[r - 1], before.num_cols as nat, c - 1, placeholder()),
        ),
        after.num_rows == before.num_rows,
        after.num_cols == before.num_cols,
    ensures
        before.delete_entry_outcome(r as int, c as int) is Ok,
        after.row_cells(r - 1)[c - 1] == placeholder(),
        after.delete_entry_outcome(r as int, c as int) == Err::<(), CSVError>(CSVError::InvalidEntry),
{
    assert(line_fits(before.lines()[r - 1], before.num_cols as nat));
    assert(placeholder() =~= seq!['_']);
    assert forall|i: int| 0 <= i < placeholder().len() implies placeholder()[i] != ',' by {}
    lemma_replaced_fits(before.lines()[r - 1], before.num_cols as nat, c - 1, placeholder());
}

/// Tables with different numbers of columns are not merged.
pub proof fn lemma_merge_shape_mismatch(a: CSVFile, b: CSVFile)
    requires
        a.num_cols != b.num_cols,
    ensures
        a.merge_outcome(b) == Err::<(), CSVError>(CSVError::InvalidDimensions),
{
}

/// A table built from file content gives that content back when stored, but
/// for a final newline, which is not kept.
pub proof fn lemma_load_store_round_trip(path: Seq<char>, content: Seq<char>, t: CSVFile)
    requires
        loadable(path, content),
        t.header@ == file_lines(content)[0],
        t.lines() == file_lines(content).drop_first(),
    ensures
        serialized(t.header@, t.lines()) == content || serialized(t.header@, t.lines()).push('\n')
            == content,
{
    let p = split_on(content, '\n');
    lemma_split_nonempty(content, '\n');
    lemma_join_split(content, '\n');
    let fl = file_lines(content);
    assert(seq![fl[0]] + fl.drop_first() =~= fl);
    if p.len() > 1 && p.last().len() == 0 {
        assert(join_with(p, '\n') == join_with(p.drop_last(), '\n').push('\n') + p.last());
        assert(join_with(p.drop_last(), '\n').push('\n') + p.last() =~= join_with(
            p.drop_last(),
            '\n',
        ).push('\n'));
    }
}

} // verus!
