//! Validation and the edits of a table. Each edit has a check that says, without
//! changing anything, whether the edit would be refused and why; the edit itself
//! makes the same check and then applies the change as a whole.
use vstd::prelude::*;
use crate::error::CSVError;
use crate::table::{compute_widths, line_cells, line_fits, string_views, CSVFile};
use crate::text::{
    free_of, join_text, join_with, lemma_single_piece, lemma_split_join,
    lemma_split_nonempty, lemma_split_pieces_free, split_on, split_text,
};

verus! {

/// The outcome of supplying `supplied` fields where exactly `required` are needed.
pub open spec fn count_outcome(supplied: nat, required: nat) -> Result<(), CSVError> {
    if supplied > required {
        Err(CSVError::MoreEntriesThanRequired)
    } else if supplied < required {
        Err(CSVError::LessEntriesThanRequired)
    } else {
        Ok(())
    }
}

/// The number of comma-separated fields in `s`.
pub open spec fn field_count(s: Seq<char>) -> nat {
    split_on(s, ',').len()
}

/// The comma-separated values of `s`, in order.
pub open spec fn field_values(s: Seq<char>) -> Seq<Seq<char>> {
    split_on(s, ',')
}

/// The placeholder that marks a cell without a value.
pub open spec fn placeholder() -> Seq<char> {
    seq!['_']
}

/// A line of `n` cells with cell `j` taken out.
pub open spec fn removed_cell(line: Seq<char>, n: nat, j: int) -> Seq<char> {
    join_with(line_cells(line, n).remove(j), ',')
}

/// A line of `n` cells with cell `j` replaced by `v`.
pub open spec fn replaced_cell(line: Seq<char>, n: nat, j: int, v: Seq<char>) -> Seq<char> {
    join_with(line_cells(line, n).update(j, v), ',')
}

/// A line of `n` cells with `v` added as a last cell.
pub open spec fn appended_cell(line: Seq<char>, n: nat, v: Seq<char>) -> Seq<char> {
    join_with(line_cells(line, n).push(v), ',')
}

/// Cells free of commas, joined, form a line of that many cells.
pub proof fn lemma_join_fits(cells: Seq<Seq<char>>)
    requires
        forall|i: int| 0 <= i < cells.len() ==> free_of(#[trigger] cells[i], ','),
    ensures
        line_fits(join_with(cells, ','), cells.len()),
        line_cells(join_with(cells, ','), cells.len()) == cells,
{
    if cells.len() > 0 {
        lemma_split_join(cells, ',');
    }
}

/// The cells of a line that fits hold no comma.
pub proof fn lemma_cells_free(line: Seq<char>, n: nat)
    requires
        line_fits(line, n),
    ensures
        line_cells(line, n).len() == n,
        forall|i: int| 0 <= i < n ==> free_of(#[trigger] line_cells(line, n)[i], ','),
{
    if n > 0 {
        lemma_split_pieces_free(line, ',');
    }
}

impl CSVFile {
    pub open spec fn row_ok(self, r: int) -> bool {
        1 <= r <= self.num_rows
    }

    pub open spec fn col_ok(self, c: int) -> bool {
        1 <= c <= self.num_cols
    }

    pub open spec fn delete_row_outcome(self, r: int) -> Result<(), CSVError> {
        if !self.row_ok(r) {
            Err(CSVError::InvalidRowIndex)
        } else {
            Ok(())
        }
    }

    pub open spec fn delete_column_outcome(self, c: int) -> Result<(), CSVError> {
        if !self.col_ok(c) {
            Err(CSVError::InvalidColIndex)
        } else {
            Ok(())
        }
    }

    pub open spec fn delete_entry_outcome(self, r: int, c: int) -> Result<(), CSVError> {
        if !self.row_ok(r) {
            Err(CSVError::InvalidRowIndex)
        } else if !self.col_ok(c) {
            Err(CSVError::InvalidColIndex)
        } else if self.row_cells(r - 1)[c - 1] == placeholder() {
            Err(CSVError::InvalidEntry)
        } else {
            Ok(())
        }
    }

    pub open spec fn modify_row_outcome(self, r: int, data: Seq<char>) -> Result<(), CSVError> {
        if !self.row_ok(r) {
            Err(CSVError::InvalidRowIndex)
        } else {
            count_outcome(field_count(data), self.num_cols as nat)
        }
    }

    pub open spec fn modify_column_outcome(self, c: int, data: Seq<char>) -> Result<(), CSVError> {
        if !self.col_ok(c) {
            Err(CSVError::InvalidColIndex)
        } else {
            count_outcome(field_count(data), self.num_rows as nat)
        }
    }

    pub open spec fn update_entry_outcome(self, r: int, c: int, v: Seq<char>) -> Result<(), CSVError> {
        if !self.row_ok(r) {
            Err(CSVError::InvalidRowIndex)
        } else if !self.col_ok(c) {
            Err(CSVError::InvalidColIndex)
        } else {
            count_outcome(field_count(v), 1)
        }
    }

    pub open spec fn add_row_outcome(self, data: Seq<char>) -> Result<(), CSVError> {
        count_outcome(field_count(data), self.num_cols as nat)
    }

    pub open spec fn add_column_outcome(self, data: Seq<char>) -> Result<(), CSVError> {
        count_outcome(field_count(data), (self.num_rows + 1) as nat)
    }

    pub open spec fn merge_outcome(self, other: CSVFile) -> Result<(), CSVError> {
        if self.num_cols != other.num_cols {
            Err(CSVError::InvalidDimensions)
        } else {
            Ok(())
        }
    }

    /// Recomputes the cached widths after the lines or the header changed.
    fn refresh_widths(&mut self)
        requires
            old(self).num_rows == old(self).file_data@.len(),
            line_fits(old(self).header@, old(self).num_cols as nat),
            forall|i: int|
                0 <= i < old(self).num_rows ==> line_fits(
                    #[trigger] old(self).lines()[i],
                    old(self).num_cols as nat,
                ),
        ensures
            final(self).wf(),
            final(self).file_data == old(self).file_data,
            final(self).header == old(self).header,
            final(self).num_rows == old(self).num_rows,
            final(self).num_cols == old(self).num_cols,
            final(self).file_path == old(self).file_path,
    {
        assert forall|i: int| 0 <= i < self.file_data@.len() implies line_fits(
            #[trigger] string_views(self.file_data@)[i],
            self.num_cols as nat,
        ) by {
            assert(self.lines()[i] == string_views(self.file_data@)[i]);
        }
        let w = compute_widths(&self.header, &self.file_data, self.num_cols);
        self.max_col_lengths = w;
    }

    /// Whether row `row_index` can be deleted.
    pub fn check_delete_row(&self, row_index: usize) -> (r: Result<(), CSVError>)
        ensures
            r == self.delete_row_outcome(row_index as int),
    {
        if row_index > self.num_rows || row_index == 0 {
            return Err(CSVError::InvalidRowIndex);
        }
        Ok(())
    }

    /// Deletes row `row_index` (from 1); the rows after it move up by one.
    pub fn delete_row(&mut self, row_index: usize) -> (r: Result<(), CSVError>)
        requires
            old(self).wf(),
        ensures
            r == old(self).delete_row_outcome(row_index as int),
            final(self).wf(),
            r is Err ==> *final(self) == *old(self),
            r is Ok ==> {
                &&& final(self).lines() == old(self).lines().remove(row_index - 1)
                &&& final(self).num_rows == old(self).num_rows - 1
                &&& final(self).header == old(self).header
                &&& final(self).num_cols == old(self).num_cols
                &&& final(self).file_path == old(self).file_path
            },
    {
        let c = self.check_delete_row(row_index);
        if c.is_err() {
            return c;
        }
        let ghost before = self.lines();
        let _ = self.file_data.remove(row_index - 1);
        self.num_rows = self.num_rows - 1;
        assert(self.lines() =~= before.remove(row_index - 1));
        assert forall|i: int| 0 <= i < self.num_rows implies line_fits(
            #[trigger] self.lines()[i],
            self.num_cols as nat,
        ) by {
            if i < row_index - 1 {
                assert(self.lines()[i] == before[i]);
            } else {
                assert(self.lines()[i] == before[i + 1]);
            }
        }
        self.refresh_widths();
        Ok(())
    }

    /// Whether column `col_index` can be deleted.
    pub fn check_delete_column(&self, col_index: usize) -> (r: Result<(), CSVError>)
        ensures
            r == self.delete_column_outcome(col_index as int),
    {
        if col_index > self.num_cols || col_index == 0 {
            return Err(CSVError::InvalidColIndex);
        }
        Ok(())
    }

    /// Deletes column `col_index` (from 1) from the header and from every row.
    pub fn delete_column(&mut self, col_index: usize) -> (r: Result<(), CSVError>)
        requires
            old(self).wf(),
        ensures
            r == old(self).delete_column_outcome(col_index as int),
            final(self).wf(),
            r is Err ==> *final(self) == *old(self),
            r is Ok ==> {
                &&& final(self).header@ == removed_cell(
                    old(self).header@,
                    old(self).num_cols as nat,
                    col_index - 1,
                )
                &&& final(self).lines() == Seq::new(
                    old(self).num_rows as nat,
                    |i: int|
                        removed_cell(old(self).lines()[i], old(self).num_cols as nat, col_index - 1),
                )
                &&& final(self).num_cols == old(self).num_cols - 1
                &&& final(self).num_rows == old(self).num_rows
                &&& final(self).file_path == old(self).file_path
            },
    {
        let c = self.check_delete_column(col_index);
        if c.is_err() {
            return c;
        }
        let ghost n = self.num_cols as nat;
        let ghost j = col_index - 1;
        let ghost before = self.lines();
        let ghost header_before = self.header@;
        let new_header = without_cell(&self.header, self.num_cols, col_index - 1);
        let mut i: usize = 0;
        while i < self.file_data.len()
            invariant
                line_fits(header_before, n),
                self.file_path == old(self).file_path,
                self.num_rows == self.file_data@.len(),
                self.num_cols == n,
                1 <= col_index <= n,
                j == col_index - 1,
                i <= self.num_rows,
                before.len() == self.num_rows,
                forall|q: int| 0 <= q < before.len() ==> line_fits(#[trigger] before[q], n),
                forall|q: int| i <= q < self.num_rows ==> #[trigger] self.lines()[q] == before[q],
                forall|q: int|
                    0 <= q < i ==> #[trigger] self.lines()[q] == removed_cell(before[q], n, j),
            decreases self.num_rows - i,
        {
            assert(self.lines()[i as int] == self.file_data@[i as int]@);
            let line = without_cell(&self.file_data[i], self.num_cols, col_index - 1);
            let ghost prev = self.lines();
            self.file_data.set(i, line);
            assert forall|q: int| 0 <= q < self.num_rows && q != i implies #[trigger] self.lines()[q]
                == prev[q] by {}
            i = i + 1;
        }
        assert(self.lines() =~= Seq::new(before.len(), |q: int| removed_cell(before[q], n, j)));
        self.header = new_header;
        self.num_cols = self.num_cols - 1;
        proof {
            lemma_removed_fits(header_before, n, j);
            assert forall|q: int| 0 <= q < self.num_rows implies line_fits(
                #[trigger] self.lines()[q],
                self.num_cols as nat,
            ) by {
                lemma_removed_fits(before[q], n, j);
            }
        }
        self.refresh_widths();
        Ok(())
    }

    /// Whether cell (`row_index`, `col_index`) can be cleared.
    pub fn check_delete_entry(&self, row_index: usize, col_index: usize) -> (r: Result<(), CSVError>)
        requires
            self.wf(),
        ensures
            r == self.delete_entry_outcome(row_index as int, col_index as int),
    {
        if row_index > self.num_rows || row_index == 0 {
            return Err(CSVError::InvalidRowIndex);
        }
        if col_index > self.num_cols || col_index == 0 {
            return Err(CSVError::InvalidColIndex);
        }
        assert(self.lines()[row_index - 1] == self.file_data@[row_index - 1]@);
        assert(line_fits(self.lines()[row_index - 1], self.num_cols as nat));
        let cells = split_text(self.file_data[row_index - 1].as_str(), ',');
        assert(cells@.map_values(|p: String| p@)[col_index - 1] == cells@[col_index - 1]@);
        if is_placeholder(&cells[col_index - 1]) {
            return Err(CSVError::InvalidEntry);
        }
        Ok(())
    }

    /// Clears cell (`row_index`, `col_index`): it then holds the placeholder `_`.
    pub fn delete_entry(&mut self, row_index: usize, col_index: usize) -> (r: Result<(), CSVError>)
        requires
            old(self).wf(),
        ensures
            r == old(self).delete_entry_outcome(row_index as int, col_index as int),
            final(self).wf(),
            r is Err ==> *final(self) == *old(self),
            r is Ok ==> {
                &&& final(self).lines() == old(self).lines().update(
                    row_index - 1,
                    replaced_cell(
                        old(self).lines()[row_index - 1],
                        old(self).num_cols as nat,
                        col_index - 1,
                        placeholder(),
                    ),
                )
                &&& final(self).header == old(self).header
                &&& final(self).num_rows == old(self).num_rows
                &&& final(self).num_cols == old(self).num_cols
                &&& final(self).file_path == old(self).file_path
            },
    {
        let c = self.check_delete_entry(row_index, col_index);
        if c.is_err() {
            return c;
        }
        proof {
            reveal_strlit("_");
        }
        let mark = "_";
        assert(mark@ =~= placeholder());
        self.set_cell(row_index - 1, col_index - 1, mark);
        Ok(())
    }

    /// Puts `v`, a value without commas, in cell (`i`, `j`), counted from 0.
    fn set_cell(&mut self, i: usize, j: usize, v: &str)
        requires
            old(self).wf(),
            i < old(self).num_rows,
            j < old(self).num_cols,
            free_of(v@, ','),
        ensures
            final(self).wf(),
            final(self).lines() == old(self).lines().update(
                i as int,
                replaced_cell(old(self).lines()[i as int], old(self).num_cols as nat, j as int, v@),
            ),
            final(self).header == old(self).header,
            final(self).num_rows == old(self).num_rows,
            final(self).num_cols == old(self).num_cols,
            final(self).file_path == old(self).file_path,
    {
        let ghost before = self.lines();
        assert(before[i as int] == self.file_data@[i as int]@);
        assert(line_fits(before[i as int], self.num_cols as nat));
        let line = with_cell(&self.file_data[i], self.num_cols, j, v);
        self.file_data.set(i, line);
        proof {
            assert(self.lines() =~= before.update(
                i as int,
                replaced_cell(before[i as int], self.num_cols as nat, j as int, v@),
            ));
            lemma_replaced_fits(before[i as int], self.num_cols as nat, j as int, v@);
            assert forall|q: int| 0 <= q < self.num_rows implies line_fits(
                #[trigger] self.lines()[q],
                self.num_cols as nat,
            ) by {
                if q != i {
                    assert(self.lines()[q] == before[q]);
                }
            }
        }
        self.refresh_widths();
    }

    /// Whether cell (`row_index`, `col_index`) can take `new_entry`.
    pub fn check_update_entry(&self, row_index: usize, col_index: usize, new_entry: &String) -> (r:
        Result<(), CSVError>)
        ensures
            r == self.update_entry_outcome(row_index as int, col_index as int, new_entry@),
    {
        if row_index > self.num_rows || row_index == 0 {
            return Err(CSVError::InvalidRowIndex);
        }
        if col_index > self.num_cols || col_index == 0 {
            return Err(CSVError::InvalidColIndex);
        }
        let count = split_text(new_entry.as_str(), ',').len();
        if count > 1 {
            return Err(CSVError::MoreEntriesThanRequired);
        }
        proof {
            lemma_split_nonempty(new_entry@, ',');
        }
        Ok(())
    }

    /// Puts `new_entry` in cell (`row_index`, `col_index`). A value holding a
    /// comma would be more than one field and is refused.
    pub fn update_entry(&mut self, row_index: usize, col_index: usize, new_entry: String) -> (r:
        Result<(), CSVError>)
        requires
            old(self).wf(),
        ensures
            r == old(self).update_entry_outcome(row_index as int, col_index as int, new_entry@),
            final(self).wf(),
            r is Err ==> *final(self) == *old(self),
            r is Ok ==> {
                &&& final(self).lines() == old(self).lines().update(
                    row_index - 1,
                    replaced_cell(
                        old(self).lines()[row_index - 1],
                        old(self).num_cols as nat,
                        col_index - 1,
                        new_entry@,
                    ),
                )
                &&& final(self).header == old(self).header
                &&& final(self).num_rows == old(self).num_rows
                &&& final(self).num_cols == old(self).num_cols
                &&& final(self).file_path == old(self).file_path
            },
    {
        let c = self.check_update_entry(row_index, col_index, &new_entry);
        if c.is_err() {
            return c;
        }
        proof {
            lemma_single_piece(new_entry@, ',');
        }
        self.set_cell(row_index - 1, col_index - 1, new_entry.as_str());
        Ok(())
    }

    /// Whether row `row_index` can be replaced by `new_row_data`.
    pub fn check_modify_row(&self, row_index: usize, new_row_data: &String) -> (r: Result<(), CSVError>)
        ensures
            r == self.modify_row_outcome(row_index as int, new_row_data@),
    {
        if row_index > self.num_rows || row_index == 0 {
            return Err(CSVError::InvalidRowIndex);
        }
        check_count(split_text(new_row_data.as_str(), ',').len(), self.num_cols)
    }

    /// Replaces row `row_index` by `new_row_data`, which must have one field per column.
    pub fn modify_row(&mut self, row_index: usize, new_row_data: String) -> (r: Result<(), CSVError>)
        requires
            old(self).wf(),
        ensures
            r == old(self).modify_row_outcome(row_index as int, new_row_data@),
            final(self).wf(),
            r is Err ==> *final(self) == *old(self),
            r is Ok ==> {
                &&& final(self).lines() == old(self).lines().update(row_index - 1, new_row_data@)
                &&& final(self).header == old(self).header
                &&& final(self).num_rows == old(self).num_rows
                &&& final(self).num_cols == old(self).num_cols
                &&& final(self).file_path == old(self).file_path
            },
    {
        let c = self.check_modify_row(row_index, &new_row_data);
        if c.is_err() {
            return c;
        }
        let ghost before = self.lines();
        let ghost data = new_row_data@;
        self.file_data.set(row_index - 1, new_row_data);
        proof {
            assert(self.lines() =~= before.update(row_index - 1, data));
            lemma_split_nonempty(data, ',');
            assert forall|q: int| 0 <= q < self.num_rows implies line_fits(
                #[trigger] self.lines()[q],
                self.num_cols as nat,
            ) by {
                if q != row_index - 1 {
                    assert(self.lines()[q] == before[q]);
                }
            }
        }
        self.refresh_widths();
        Ok(())
    }

    /// Whether `new_row_data` can be added as a row.
    pub fn check_add_row(&self, new_row_data: &String) -> (r: Result<(), CSVError>)
        ensures
            r == self.add_row_outcome(new_row_data@),
    {
        check_count(split_text(new_row_data.as_str(), ',').len(), self.num_cols)
    }

    /// Adds `new_row_data`, which must have one field per column, as the last row.
    pub fn add_row(&mut self, new_row_data: String) -> (r: Result<(), CSVError>)
        requires
            old(self).wf(),
            old(self).num_rows < usize::MAX,
        ensures
            r == old(self).add_row_outcome(new_row_data@),
            final(self).wf(),
            r is Err ==> *final(self) == *old(self),
            r is Ok ==> {
                &&& final(self).lines() == old(self).lines().push(new_row_data@)
                &&& final(self).num_rows == old(self).num_rows + 1
                &&& final(self).header == old(self).header
                &&& final(self).num_cols == old(self).num_cols
                &&& final(self).file_path == old(self).file_path
            },
    {
        let c = self.check_add_row(&new_row_data);
        if c.is_err() {
            return c;
        }
        let ghost before = self.lines();
        let ghost data = new_row_data@;
        self.file_data.push(new_row_data);
        self.num_rows = self.num_rows + 1;
        proof {
            assert(self.lines() =~= before.push(data));
            lemma_split_nonempty(data, ',');
            assert forall|q: int| 0 <= q < self.num_rows implies line_fits(
                #[trigger] self.lines()[q],
                self.num_cols as nat,
            ) by {
                if q < before.len() {
                    assert(self.lines()[q] == before[q]);
                }
            }
        }
        self.refresh_widths();
        Ok(())
    }

    /// Whether column `col_index` can be replaced by the values in `new_data`.
    pub fn check_modify_column(&self, col_index: usize, new_data: &String) -> (r: Result<(), CSVError>)
        ensures
            r == self.modify_column_outcome(col_index as int, new_data@),
    {
        if col_index > self.num_cols || col_index == 0 {
            return Err(CSVError::InvalidColIndex);
        }
        check_count(split_text(new_data.as_str(), ',').len(), self.num_rows)
    }

    /// Replaces column `col_index` of every row by the comma-separated values
    /// of `new_data`, one per row in order; the header keeps its name.
    pub fn modify_column(&mut self, col_index: usize, new_data: String) -> (r: Result<(), CSVError>)
        requires
            old(self).wf(),
        ensures
            r == old(self).modify_column_outcome(col_index as int, new_data@),
            final(self).wf(),
            r is Err ==> *final(self) == *old(self),
            r is Ok ==> {
                &&& final(self).lines() == Seq::new(
                    old(self).num_rows as nat,
                    |i: int|
                        replaced_cell(
                            old(self).lines()[i],
                            old(self).num_cols as nat,
                            col_index - 1,
                            field_values(new_data@)[i],
                        ),
                )
                &&& final(self).header == old(self).header
                &&& final(self).num_rows == old(self).num_rows
                &&& final(self).num_cols == old(self).num_cols
                &&& final(self).file_path == old(self).file_path
            },
    {
        let c = self.check_modify_column(col_index, &new_data);
        if c.is_err() {
            return c;
        }
        let values = split_text(new_data.as_str(), ',');
        let ghost vals = field_values(new_data@);
        proof {
            lemma_split_pieces_free(new_data@, ',');
        }
        let ghost n = self.num_cols as nat;
        let ghost j = col_index - 1;
        let ghost before = self.lines();
        let mut i: usize = 0;
        while i < self.file_data.len()
            invariant
                self.num_rows == self.file_data@.len(),
                self.num_cols == n,
                self.header == old(self).header,
                self.file_path == old(self).file_path,
                line_fits(self.header@, n),
                1 <= col_index <= n,
                j == col_index - 1,
                i <= self.num_rows,
                before.len() == self.num_rows,
                values@.map_values(|p: String| p@) == vals,
                vals.len() == self.num_rows,
                forall|q: int| 0 <= q < vals.len() ==> free_of(#[trigger] vals[q], ','),
                forall|q: int| 0 <= q < before.len() ==> line_fits(#[trigger] before[q], n),
                forall|q: int| i <= q < self.num_rows ==> #[trigger] self.lines()[q] == before[q],
                forall|q: int|
                    0 <= q < i ==> #[trigger] self.lines()[q] == replaced_cell(before[q], n, j, vals[q]),
            decreases self.num_rows - i,
        {
            assert(self.lines()[i as int] == self.file_data@[i as int]@);
            assert(vals[i as int] == values@[i as int]@);
            let line = with_cell(&self.file_data[i], self.num_cols, col_index - 1, values[i].as_str());
            let ghost prev = self.lines();
            self.file_data.set(i, line);
            assert forall|q: int| 0 <= q < self.num_rows && q != i implies #[trigger] self.lines()[q]
                == prev[q] by {}
            i = i + 1;
        }
        assert(self.lines() =~= Seq::new(
            before.len(),
            |q: int| replaced_cell(before[q], n, j, vals[q]),
        ));
        proof {
            assert forall|q: int| 0 <= q < self.num_rows implies line_fits(
                #[trigger] self.lines()[q],
                self.num_cols as nat,
            ) by {
                lemma_replaced_fits(before[q], n, j, vals[q]);
            }
        }
        self.refresh_widths();
        Ok(())
    }

    /// Whether the values in `new_data` can be added as a column.
    pub fn check_add_column(&self, new_data: &String) -> (r: Result<(), CSVError>)
        ensures
            r == self.add_column_outcome(new_data@),
    {
        let count = split_text(new_data.as_str(), ',').len();
        if count > self.num_rows && count - 1 > self.num_rows {
            return Err(CSVError::MoreEntriesThanRequired);
        }
        if count <= self.num_rows {
            return Err(CSVError::LessEntriesThanRequired);
        }
        Ok(())
    }

    /// Adds a last column: the first comma-separated value of `new_data` is its
    /// name in the header, the others go to the rows in order.
    pub fn add_column(&mut self, new_data: String) -> (r: Result<(), CSVError>)
        requires
            old(self).wf(),
            old(self).num_cols < usize::MAX,
        ensures
            r == old(self).add_column_outcome(new_data@),
            final(self).wf(),
            r is Err ==> *final(self) == *old(self),
            r is Ok ==> {
                &&& final(self).header@ == appended_cell(
                    old(self).header@,
                    old(self).num_cols as nat,
                    field_values(new_data@)[0],
                )
                &&& final(self).lines() == Seq::new(
                    old(self).num_rows as nat,
                    |i: int|
                        appended_cell(
                            old(self).lines()[i],
                            old(self).num_cols as nat,
                            field_values(new_data@)[i + 1],
                        ),
                )
                &&& final(self).num_cols == old(self).num_cols + 1
                &&& final(self).num_rows == old(self).num_rows
                &&& final(self).file_path == old(self).file_path
            },
    {
        let c = self.check_add_column(&new_data);
        if c.is_err() {
            return c;
        }
        let values = split_text(new_data.as_str(), ',');
        let ghost vals = field_values(new_data@);
        proof {
            lemma_split_pieces_free(new_data@, ',');
        }
        let ghost n = self.num_cols as nat;
        let ghost before = self.lines();
        let ghost header_before = self.header@;
        assert(vals[0] == values@[0]@);
        let new_header = with_last_cell(&self.header, self.num_cols, values[0].as_str());
        let mut i: usize = 0;
        while i < self.file_data.len()
            invariant
                self.num_rows == self.file_data@.len(),
                self.num_cols == n,
                self.header@ == header_before,
                self.file_path == old(self).file_path,
                line_fits(header_before, n),
                i <= self.num_rows,
                before.len() == self.num_rows,
                values@.map_values(|p: String| p@) == vals,
                vals.len() == self.num_rows + 1,
                forall|q: int| 0 <= q < vals.len() ==> free_of(#[trigger] vals[q], ','),
                forall|q: int| 0 <= q < before.len() ==> line_fits(#[trigger] before[q], n),
                forall|q: int| i <= q < self.num_rows ==> #[trigger] self.lines()[q] == before[q],
                forall|q: int|
                    0 <= q < i ==> #[trigger] self.lines()[q] == appended_cell(before[q], n, vals[q + 1]),
            decreases self.num_rows - i,
        {
            assert(self.lines()[i as int] == self.file_data@[i as int]@);
            assert(vals[i + 1] == values@[i + 1]@);
            let line = with_last_cell(&self.file_data[i], self.num_cols, values[i + 1].as_str());
            let ghost prev = self.lines();
            self.file_data.set(i, line);
            assert forall|q: int| 0 <= q < self.num_rows && q != i implies #[trigger] self.lines()[q]
                == prev[q] by {}
            i = i + 1;
        }
        assert(self.lines() =~= Seq::new(
            before.len(),
            |q: int| appended_cell(before[q], n, vals[q + 1]),
        ));
        self.header = new_header;
        self.num_cols = self.num_cols + 1;
        proof {
            lemma_appended_fits(header_before, n, vals[0]);
            assert forall|q: int| 0 <= q < self.num_rows implies line_fits(
                #[trigger] self.lines()[q],
                self.num_cols as nat,
            ) by {
                lemma_appended_fits(before[q], n, vals[q + 1]);
            }
        }
        self.refresh_widths();
        Ok(())
    }

    /// Whether `other` can be merged into this table.
    pub fn check_merge_files(&self, other: &CSVFile) -> (r: Result<(), CSVError>)
        ensures
            r == self.merge_outcome(*other),
    {
        if self.num_cols != other.num_cols {
            return Err(CSVError::InvalidDimensions);
        }
        Ok(())
    }

    /// Appends the rows of `other`, which must have as many columns; this
    /// table's header stays.
    pub fn merge_files(&mut self, other: &CSVFile) -> (r: Result<(), CSVError>)
        requires
            old(self).wf(),
            other.wf(),
            old(self).num_rows + other.num_rows <= usize::MAX,
        ensures
            r == old(self).merge_outcome(*other),
            final(self).wf(),
            r is Err ==> *final(self) == *old(self),
            r is Ok ==> {
                &&& final(self).lines() == old(self).lines() + other.lines()
                &&& final(self).num_rows == old(self).num_rows + other.num_rows
                &&& final(self).header == old(self).header
                &&& final(self).num_cols == old(self).num_cols
                &&& final(self).file_path == old(self).file_path
            },
    {
        let c = self.check_merge_files(other);
        if c.is_err() {
            return c;
        }
        let ghost before = self.lines();
        let mut i: usize = 0;
        while i < other.file_data.len()
            invariant
                other.wf(),
                self.num_cols == other.num_cols,
                self.num_rows == before.len(),
                self.header == old(self).header,
                self.file_path == old(self).file_path,
                line_fits(self.header@, self.num_cols as nat),
                forall|q: int| 0 <= q < before.len() ==> line_fits(#[trigger] before[q], self.num_cols as nat),
                i <= other.num_rows,
                self.lines() == before + other.lines().take(i as int),
            decreases other.num_rows - i,
        {
            let ghost prev = self.lines();
            self.file_data.push(other.file_data[i].clone());
            assert(other.lines()[i as int] == other.file_data@[i as int]@);
            assert(self.lines() =~= prev.push(other.lines()[i as int]));
            assert(other.lines().take(i + 1) =~= other.lines().take(i as int).push(other.lines()[i as int]));
            i = i + 1;
        }
        assert(other.lines().take(other.num_rows as int) =~= other.lines());
        self.num_rows = self.num_rows + other.num_rows;
        proof {
            assert forall|q: int| 0 <= q < self.num_rows implies line_fits(
                #[trigger] self.lines()[q],
                self.num_cols as nat,
            ) by {
                if q >= before.len() {
                    assert(self.lines()[q] == other.lines()[q - before.len()]);
                }
            }
        }
        self.refresh_widths();
        Ok(())
    }
}

/// The outcome of supplying `supplied` fields where `required` are needed.
pub fn check_count(supplied: usize, required: usize) -> (r: Result<(), CSVError>)
    ensures
        r == count_outcome(supplied as nat, required as nat),
{
    if supplied > required {
        Err(CSVError::MoreEntriesThanRequired)
    } else if supplied < required {
        Err(CSVError::LessEntriesThanRequired)
    } else {
        Ok(())
    }
}

/// Whether `s` is the placeholder `_`.
pub fn is_placeholder(s: &String) -> (r: bool)
    ensures
        r == (s@ == placeholder()),
{
    proof {
        reveal_strlit("_");
    }
    let mark = String::from_str("_");
    assert(mark@ =~= placeholder());
    *s == mark
}

/// Replacing a cell by a value without commas keeps the line's shape.
pub proof fn lemma_replaced_fits(line: Seq<char>, n: nat, j: int, v: Seq<char>)
    requires
        line_fits(line, n),
        0 <= j < n,
        free_of(v, ','),
    ensures
        line_fits(replaced_cell(line, n, j, v), n),
        line_cells(replaced_cell(line, n, j, v), n) == line_cells(line, n).update(j, v),
{
    lemma_cells_free(line, n);
    let cells = line_cells(line, n).update(j, v);
    assert forall|i: int| 0 <= i < cells.len() implies free_of(#[trigger] cells[i], ',') by {
        if i != j {
            assert(cells[i] == line_cells(line, n)[i]);
        }
    }
    lemma_join_fits(cells);
}

/// Adding a last cell without commas makes a line one column wider.
pub proof fn lemma_appended_fits(line: Seq<char>, n: nat, v: Seq<char>)
    requires
        line_fits(line, n),
        free_of(v, ','),
    ensures
        line_fits(appended_cell(line, n, v), n + 1),
        line_cells(appended_cell(line, n, v), n + 1) == line_cells(line, n).push(v),
{
    lemma_cells_free(line, n);
    let cells = line_cells(line, n).push(v);
    assert forall|i: int| 0 <= i < cells.len() implies free_of(#[trigger] cells[i], ',') by {
        if i < n {
            assert(cells[i] == line_cells(line, n)[i]);
        }
    }
    lemma_join_fits(cells);
}

/// Line `line` of `n` cells with cell `j` replaced by `v`.
fn with_cell(line: &String, n: usize, j: usize, v: &str) -> (r: String)
    requires
        line_fits(line@, n as nat),
        j < n,
    ensures
        r@ == replaced_cell(line@, n as nat, j as int, v@),
{
    let mut cells = split_text(line.as_str(), ',');
    let ghost before = cells@;
    cells.set(j, String::from_str(v));
    assert(cells@.map_values(|p: String| p@) =~= before.map_values(|p: String| p@).update(
        j as int,
        v@,
    ));
    proof {
        reveal_strlit(",");
    }
    join_text(&cells, ",")
}

/// Line `line` of `n` cells with `v` added as a last cell.
fn with_last_cell(line: &String, n: usize, v: &str) -> (r: String)
    requires
        line_fits(line@, n as nat),
    ensures
        r@ == appended_cell(line@, n as nat, v@),
{
    let mut cells: Vec<String> = if n == 0 {
        Vec::new()
    } else {
        split_text(line.as_str(), ',')
    };
    let ghost before = cells@;
    assert(before.map_values(|p: String| p@) =~= line_cells(line@, n as nat));
    cells.push(String::from_str(v));
    assert(cells@.map_values(|p: String| p@) =~= before.map_values(|p: String| p@).push(v@));
    proof {
        reveal_strlit(",");
    }
    join_text(&cells, ",")
}

/// The result of taking out cell `j` still fits, one column narrower.
pub proof fn lemma_removed_fits(line: Seq<char>, n: nat, j: int)
    requires
        line_fits(line, n),
        0 <= j < n,
    ensures
        line_fits(removed_cell(line, n, j), (n - 1) as nat),
{
    lemma_cells_free(line, n);
    let cells = line_cells(line, n).remove(j);
    assert forall|i: int| 0 <= i < cells.len() implies free_of(#[trigger] cells[i], ',') by {
        if i < j {
            assert(cells[i] == line_cells(line, n)[i]);
        } else {
            assert(cells[i] == line_cells(line, n)[i + 1]);
        }
    }
    lemma_join_fits(cells);
}

/// Line `line` of `n` cells without cell `j`.
fn without_cell(line: &String, n: usize, j: usize) -> (r: String)
    requires
        line_fits(line@, n as nat),
        j < n,
    ensures
        r@ == removed_cell(line@, n as nat, j as int),
{
    let mut cells = split_text(line.as_str(), ',');
    let ghost before = cells@;
    let _ = cells.remove(j);
    assert(cells@.map_values(|p: String| p@) =~= before.map_values(|p: String| p@).remove(j as int));
    proof {
        reveal_strlit(",");
    }
    join_text(&cells, ",")
}

} // verus!
