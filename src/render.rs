//! Drawing a table as bordered, column-aligned lines of text: a rule of
//! dashes, the header, a rule, then each row followed by a rule. Rows are
//! labelled from 1 within what is drawn.
use vstd::prelude::*;
use vstd::seq_lib::to_multiset_contains;
use crate::error::CSVError;
use crate::order::{sort_lines, sorted_text};
use crate::table::{line_cells, line_fits, string_views, CSVFile};
use crate::text::{append_decimal, append_padded, append_repeat, decimal, pad, repeat, split_text};

verus! {

/// `+`, then for each width that many dashes and two more, each closed by `+`.
pub open spec fn rule_of(ws: Seq<usize>) -> Seq<char>
    decreases ws.len(),
{
    if ws.len() == 0 {
        seq!['+']
    } else {
        rule_of(ws.drop_last()) + repeat('-', (ws.last() + 2) as nat) + seq!['+']
    }
}

/// `|`, then for each width the cell padded to it between spaces, closed by `|`.
pub open spec fn record_of(cells: Seq<Seq<char>>, ws: Seq<usize>) -> Seq<char>
    decreases ws.len(),
{
    if ws.len() == 0 {
        seq!['|']
    } else {
        record_of(cells, ws.drop_last()) + seq![' '] + pad(cells[ws.len() - 1], ws.last() as nat)
            + seq![' ', '|']
    }
}

/// The label after the `k`-th row drawn.
pub open spec fn label(k: nat) -> Seq<char> {
    seq![' ', ' ', '('] + decimal(k) + seq![')']
}

/// The lines of the first `k` rows: each row with its label, then a rule.
pub open spec fn rows_block(rows: Seq<Seq<Seq<char>>>, ws: Seq<usize>, k: nat) -> Seq<Seq<char>>
    decreases k,
{
    if k == 0 {
        Seq::<Seq<char>>::empty()
    } else {
        rows_block(rows, ws, (k - 1) as nat) + seq![
            record_of(rows[k - 1], ws) + label(k),
            rule_of(ws),
        ]
    }
}

/// The drawing of a header and rows with the column widths `ws`.
pub open spec fn rendering(head: Seq<Seq<char>>, rows: Seq<Seq<Seq<char>>>, ws: Seq<usize>) -> Seq<
    Seq<char>,
> {
    seq![rule_of(ws), record_of(head, ws), rule_of(ws)] + rows_block(rows, ws, rows.len())
}

pub open spec fn grid_views(rows: Seq<Vec<String>>) -> Seq<Seq<Seq<char>>> {
    rows.map_values(|r: Vec<String>| string_views(r@))
}

impl CSVFile {
    /// The cells of every row.
    pub open spec fn grid(self) -> Seq<Seq<Seq<char>>> {
        Seq::new(self.num_rows as nat, |i: int| self.row_cells(i))
    }

    pub open spec fn range_start(self, start: Option<usize>) -> int {
        match start {
            Some(s) => s as int,
            None => 1,
        }
    }

    pub open spec fn range_end(self, end: Option<usize>) -> int {
        match end {
            Some(e) => e as int,
            None => self.num_rows as int,
        }
    }

    /// A range given at both ends must not start after it ends; then both
    /// ends must be rows of the table. A missing start is the first row, a
    /// missing end the last.
    pub open spec fn range_outcome(self, start: Option<usize>, end: Option<usize>) -> Result<
        (),
        CSVError,
    > {
        let s = self.range_start(start);
        let e = self.range_end(end);
        if start is Some && end is Some && s > e {
            Err(CSVError::IncorrectIndices)
        } else if !self.row_ok(s) || !self.row_ok(e) {
            Err(CSVError::InvalidRowIndex)
        } else {
            Ok(())
        }
    }

    /// The drawing of the header and of rows `s` to `e`, counted from 1.
    pub open spec fn display_lines(self, s: int, e: int) -> Seq<Seq<char>> {
        rendering(self.header_cells(), self.grid().subrange(s - 1, e), self.max_col_lengths@)
    }

    /// The drawing of column `c` alone, counted from 1, over all rows.
    pub open spec fn column_lines(self, c: int) -> Seq<Seq<char>> {
        rendering(
            seq![self.header_cells()[c - 1]],
            Seq::new(self.num_rows as nat, |i: int| seq![self.row_cells(i)[c - 1]]),
            seq![self.max_col_lengths@[c - 1]],
        )
    }

    /// The drawing of the header and of `lines` as rows.
    pub open spec fn lines_drawn(self, lines: Seq<Seq<char>>) -> Seq<Seq<char>> {
        rendering(
            self.header_cells(),
            Seq::new(lines.len(), |i: int| line_cells(lines[i], self.num_cols as nat)),
            self.max_col_lengths@,
        )
    }

    /// Draws the header and rows `start` to `end` (from 1; the whole table
    /// where both are missing). The rows are labelled from 1 in each drawing.
    pub fn display_file(&self, start: Option<usize>, end: Option<usize>) -> (r: Result<Vec<String>, CSVError>)
        requires
            self.wf(),
        ensures
            match r {
                Ok(out) => self.range_outcome(start, end) is Ok && string_views(out@)
                    == self.display_lines(self.range_start(start), self.range_end(end)),
                Err(e) => self.range_outcome(start, end) == Err::<(), CSVError>(e),
            },
    {
        let s = match start {
            Some(s) => s,
            None => 1,
        };
        let e = match end {
            Some(e) => e,
            None => self.num_rows,
        };
        if start.is_some() && end.is_some() && s > e {
            return Err(CSVError::IncorrectIndices);
        }
        if s > self.num_rows || e > self.num_rows || s == 0 || e == 0 {
            return Err(CSVError::InvalidRowIndex);
        }
        let head = cells_of(&self.header, self.num_cols);
        let mut rows: Vec<Vec<String>> = Vec::new();
        let mut i: usize = s - 1;
        while i < e
            invariant
                self.wf(),
                1 <= s <= e <= self.num_rows,
                s - 1 <= i <= e,
                grid_views(rows@) == self.grid().subrange(s - 1, i as int),
                forall|q: int| 0 <= q < rows@.len() ==> #[trigger] rows@[q]@.len() == self.num_cols,
            decreases e - i,
        {
            assert(self.lines()[i as int] == self.file_data@[i as int]@);
            let cells = cells_of(&self.file_data[i], self.num_cols);
            let ghost before = rows@;
            rows.push(cells);
            assert(grid_views(rows@) =~= grid_views(before).push(self.grid()[i as int]));
            assert(self.grid().subrange(s - 1, i + 1) =~= self.grid().subrange(s - 1, i as int).push(
                self.grid()[i as int],
            ));
            i = i + 1;
        }
        Ok(render_table(&head, &rows, &self.max_col_lengths))
    }

    /// Draws row `row_index` alone, labelled 1.
    pub fn display_row(&self, row_index: usize) -> (r: Result<Vec<String>, CSVError>)
        requires
            self.wf(),
        ensures
            match r {
                Ok(out) => self.row_ok(row_index as int) && string_views(out@) == self.display_lines(
                    row_index as int,
                    row_index as int,
                ),
                Err(e) => !self.row_ok(row_index as int) && e == CSVError::InvalidRowIndex,
            },
    {
        self.display_file(Some(row_index), Some(row_index))
    }

    /// Draws column `col_index` alone over all rows, labelled by row number,
    /// with that column's own width.
    pub fn display_column(&self, col_index: usize) -> (r: Result<Vec<String>, CSVError>)
        requires
            self.wf(),
        ensures
            match r {
                Ok(out) => self.col_ok(col_index as int) && string_views(out@) == self.column_lines(
                    col_index as int,
                ),
                Err(e) => !self.col_ok(col_index as int) && e == CSVError::InvalidColIndex,
            },
    {
        if col_index > self.num_cols || col_index == 0 {
            return Err(CSVError::InvalidColIndex);
        }
        let j = col_index - 1;
        let ghost n = self.num_cols as nat;
        let mut head_cells = cells_of(&self.header, self.num_cols);
        let mut head: Vec<String> = Vec::new();
        assert(string_views(head_cells@)[j as int] == head_cells@[j as int]@);
        head.push(head_cells.swap_remove(j));
        assert(string_views(head@) =~= seq![self.header_cells()[j as int]]);
        let mut ws: Vec<usize> = Vec::new();
        ws.push(self.max_col_lengths[j]);
        let ghost want = Seq::new(self.num_rows as nat, |q: int| seq![self.row_cells(q)[j as int]]);
        let mut rows: Vec<Vec<String>> = Vec::new();
        let mut i: usize = 0;
        while i < self.file_data.len()
            invariant
                self.wf(),
                j < self.num_cols,
                n == self.num_cols,
                i <= self.num_rows,
                want == Seq::new(self.num_rows as nat, |q: int| seq![self.row_cells(q)[j as int]]),
                grid_views(rows@) == want.take(i as int),
                forall|q: int| 0 <= q < rows@.len() ==> #[trigger] rows@[q]@.len() == 1,
            decreases self.num_rows - i,
        {
            assert(self.lines()[i as int] == self.file_data@[i as int]@);
            let mut cells = cells_of(&self.file_data[i], self.num_cols);
            assert(string_views(cells@)[j as int] == cells@[j as int]@);
            let mut one: Vec<String> = Vec::new();
            one.push(cells.swap_remove(j));
            assert(string_views(one@) =~= want[i as int]);
            let ghost before = rows@;
            rows.push(one);
            assert(grid_views(rows@) =~= grid_views(before).push(want[i as int]));
            assert(want.take(i + 1) =~= want.take(i as int).push(want[i as int]));
            i = i + 1;
        }
        assert(want.take(self.num_rows as int) =~= want);
        assert(ws@ =~= seq![self.max_col_lengths@[j as int]]);
        Ok(render_table(&head, &rows, &ws))
    }

    /// Draws the whole table with its rows in ascending order of their text,
    /// compared character by character. The table itself keeps its order.
    pub fn sorted_display(&self) -> (r: Result<Vec<String>, CSVError>)
        requires
            self.wf(),
        ensures
            match r {
                Ok(out) => self.num_rows > 0 && exists|sorted: Seq<Seq<char>>|
                    {
                        &&& sorted_text(sorted)
                        &&& sorted.to_multiset() == self.lines().to_multiset()
                        &&& string_views(out@) == self.lines_drawn(sorted)
                    },
                Err(e) => self.num_rows == 0 && e == CSVError::InvalidRowIndex,
            },
    {
        if self.num_rows == 0 {
            return Err(CSVError::InvalidRowIndex);
        }
        let sorted = sort_lines(&self.file_data);
        let ghost sv = string_views(sorted@);
        proof {
            assert(sv.to_multiset().len() == self.lines().to_multiset().len());
        }
        let head = cells_of(&self.header, self.num_cols);
        let ghost want = Seq::new(sv.len(), |q: int| line_cells(sv[q], self.num_cols as nat));
        let mut rows: Vec<Vec<String>> = Vec::new();
        let mut i: usize = 0;
        while i < sorted.len()
            invariant
                self.wf(),
                i <= sorted@.len(),
                sv == string_views(sorted@),
                sv.to_multiset() == self.lines().to_multiset(),
                want == Seq::new(sv.len(), |q: int| line_cells(sv[q], self.num_cols as nat)),
                grid_views(rows@) == want.take(i as int),
                forall|q: int| 0 <= q < rows@.len() ==> #[trigger] rows@[q]@.len() == self.num_cols,
            decreases sorted@.len() - i,
        {
            proof {
                let x = sv[i as int];
                assert(sv.contains(x));
                to_multiset_contains(sv, x);
                to_multiset_contains(self.lines(), x);
                assert(self.lines().contains(x));
                let q = choose|q: int| 0 <= q < self.lines().len() && self.lines()[q] == x;
                assert(line_fits(self.lines()[q], self.num_cols as nat));
                assert(x == sorted@[i as int]@);
            }
            let cells = cells_of(&sorted[i], self.num_cols);
            let ghost before = rows@;
            rows.push(cells);
            assert(grid_views(rows@) =~= grid_views(before).push(want[i as int]));
            assert(want.take(i + 1) =~= want.take(i as int).push(want[i as int]));
            i = i + 1;
        }
        assert(want.take(sv.len() as int) =~= want);
        let out = render_table(&head, &rows, &self.max_col_lengths);
        assert(string_views(out@) == self.lines_drawn(sv));
        Ok(out)
    }
}

/// The cells of a line of a table of `n` columns.
fn cells_of(line: &String, n: usize) -> (r: Vec<String>)
    requires
        line_fits(line@, n as nat),
    ensures
        string_views(r@) == line_cells(line@, n as nat),
        r@.len() == n,
{
    if n == 0 {
        let v: Vec<String> = Vec::new();
        assert(string_views(v@) =~= line_cells(line@, 0));
        v
    } else {
        let v = split_text(line.as_str(), ',');
        assert(string_views(v@) =~= v@.map_values(|p: String| p@));
        v
    }
}

/// The rule for the widths `ws`.
fn rule_text(ws: &Vec<usize>) -> (r: String)
    ensures
        r@ == rule_of(ws@),
{
    proof {
        reveal_strlit("+");
        reveal_strlit("-");
        reveal_strlit("--");
    }
    let mut out = String::from_str("+");
    let mut k: usize = 0;
    assert(ws@.take(0) =~= Seq::<usize>::empty());
    while k < ws.len()
        invariant
            k <= ws@.len(),
            out@ == rule_of(ws@.take(k as int)),
        decreases ws@.len() - k,
    {
        let ghost before = out@;
        proof {
            reveal_strlit("+");
            reveal_strlit("-");
            reveal_strlit("--");
        }
        append_repeat(&mut out, "-", ws[k]);
        out.append("--");
        out.append("+");
        proof {
            let t = ws@.take(k + 1);
            assert(t.drop_last() =~= ws@.take(k as int));
            assert(repeat('-', ws@[k as int] as nat) + "--"@ =~= repeat('-', (ws@[k as int] + 2) as nat));
            assert(out@ =~= rule_of(t));
        }
        k = k + 1;
    }
    assert(ws@.take(ws@.len() as int) =~= ws@);
    out
}

/// The record of `cells` for the widths `ws`.
fn record_text(cells: &Vec<String>, ws: &Vec<usize>) -> (r: String)
    requires
        cells@.len() >= ws@.len(),
    ensures
        r@ == record_of(string_views(cells@), ws@),
{
    proof {
        reveal_strlit("|");
        reveal_strlit(" ");
        reveal_strlit(" |");
    }
    let ghost cv = string_views(cells@);
    let mut out = String::from_str("|");
    let mut k: usize = 0;
    assert(ws@.take(0) =~= Seq::<usize>::empty());
    while k < ws.len()
        invariant
            k <= ws@.len(),
            cells@.len() >= ws@.len(),
            cv == string_views(cells@),
            out@ == record_of(cv, ws@.take(k as int)),
        decreases ws@.len() - k,
    {
        let ghost before = out@;
        proof {
            reveal_strlit(" ");
            reveal_strlit(" |");
        }
        out.append(" ");
        append_padded(&mut out, cells[k].as_str(), ws[k]);
        out.append(" |");
        proof {
            let t = ws@.take(k + 1);
            assert(t.drop_last() =~= ws@.take(k as int));
            assert(cv[k as int] == cells@[k as int]@);
            assert(out@ =~= record_of(cv, t));
        }
        k = k + 1;
    }
    assert(ws@.take(ws@.len() as int) =~= ws@);
    out
}

/// Draws `head` and `rows` with the widths `ws`.
fn render_table(head: &Vec<String>, rows: &Vec<Vec<String>>, ws: &Vec<usize>) -> (r: Vec<String>)
    requires
        head@.len() >= ws@.len(),
        forall|q: int| 0 <= q < rows@.len() ==> #[trigger] rows@[q]@.len() >= ws@.len(),
    ensures
        string_views(r@) == rendering(string_views(head@), grid_views(rows@), ws@),
{
    proof {
        reveal_strlit("  (");
        reveal_strlit(")");
    }
    let ghost gv = grid_views(rows@);
    let rule = rule_text(ws);
    let mut out: Vec<String> = Vec::new();
    out.push(rule.clone());
    out.push(record_text(head, ws));
    out.push(rule.clone());
    assert(string_views(out@) =~= seq![rule_of(ws@), record_of(string_views(head@), ws@), rule_of(ws@)]);
    let mut k: usize = 0;
    while k < rows.len()
        invariant
            k <= rows@.len(),
            gv == grid_views(rows@),
            rule@ == rule_of(ws@),
            forall|q: int| 0 <= q < rows@.len() ==> #[trigger] rows@[q]@.len() >= ws@.len(),
            string_views(out@) == seq![rule_of(ws@), record_of(string_views(head@), ws@), rule_of(ws@)]
                + rows_block(gv, ws@, k as nat),
        decreases rows@.len() - k,
    {
        proof {
            reveal_strlit("  (");
            reveal_strlit(")");
        }
        let mut line = record_text(&rows[k], ws);
        let ghost rec = line@;
        line.append("  (");
        append_decimal(&mut line, k + 1);
        line.append(")");
        proof {
            assert("  ("@ =~= seq![' ', ' ', '(']);
            assert(")"@ =~= seq![')']);
            assert(gv[k as int] == string_views(rows@[k as int]@));
            assert(line@ =~= rec + label((k + 1) as nat));
        }
        let ghost before = string_views(out@);
        out.push(line);
        out.push(rule.clone());
        proof {
            assert(gv[k as int] == string_views(rows@[k as int]@));
            assert(string_views(out@) =~= before.push(record_of(gv[k as int], ws@) + label((k + 1) as nat)).push(
                rule_of(ws@),
            ));
            assert(rows_block(gv, ws@, (k + 1) as nat) =~= rows_block(gv, ws@, k as nat) + seq![
                record_of(gv[k as int], ws@) + label((k + 1) as nat),
                rule_of(ws@),
            ]);
        }
        k = k + 1;
    }
    out
}

} // verus!
