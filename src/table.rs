//! The table: its fields, its invariant, the cached column widths, and how it
//! is built from file content and turned back into it.
use vstd::prelude::*;
use crate::error::{LoadError, WriteError};
use crate::text::{join_text, join_with, lemma_split_nonempty, split_on, split_text};

verus! {

/// The cells of one line in a table of `n` columns: none when `n` is 0.
pub open spec fn line_cells(line: Seq<char>, n: nat) -> Seq<Seq<char>> {
    if n == 0 {
        Seq::<Seq<char>>::empty()
    } else {
        split_on(line, ',')
    }
}

/// A line of a table of `n` columns: `n` fields, or empty text when `n` is 0.
pub open spec fn line_fits(line: Seq<char>, n: nat) -> bool {
    if n == 0 {
        line.len() == 0
    } else {
        split_on(line, ',').len() == n
    }
}

/// The length of cell `j` of a line, 0 where the line has no such cell.
pub open spec fn cell_len(line: Seq<char>, n: nat, j: int) -> nat {
    if 0 <= j < line_cells(line, n).len() {
        line_cells(line, n)[j].len()
    } else {
        0
    }
}

/// The widest cell of column `j` over the header and the lines.
pub open spec fn col_width(header: Seq<char>, lines: Seq<Seq<char>>, n: nat, j: int) -> nat
    decreases lines.len(),
{
    if lines.len() == 0 {
        cell_len(header, n, j)
    } else {
        let w = col_width(header, lines.drop_last(), n, j);
        let c = cell_len(lines.last(), n, j);
        if c > w {
            c
        } else {
            w
        }
    }
}

pub open spec fn string_views(v: Seq<String>) -> Seq<Seq<char>> {
    v.map_values(|s: String| s@)
}

/// A path whose text after its last `.` is `csv`.
pub open spec fn csv_path(p: Seq<char>) -> bool {
    split_on(p, '.').len() >= 2 && split_on(p, '.').last() == "csv"@
}

/// The lines of file content; the empty piece after a final newline is not a line.
pub open spec fn file_lines(content: Seq<char>) -> Seq<Seq<char>> {
    let p = split_on(content, '\n');
    if p.len() > 1 && p.last().len() == 0 {
        p.drop_last()
    } else {
        p
    }
}

/// Every line has one field per column.
pub open spec fn all_fit(lines: Seq<Seq<char>>, n: nat) -> bool {
    forall|i: int| 0 <= i < lines.len() ==> line_fits(#[trigger] lines[i], n)
}

/// Content that makes a table: a `.csv` path, a non-empty first line, and
/// every later line with as many fields as the first.
pub open spec fn loadable(path: Seq<char>, content: Seq<char>) -> bool {
    let l = file_lines(content);
    &&& csv_path(path)
    &&& l[0].len() > 0
    &&& all_fit(l.drop_first(), split_on(l[0], ',').len())
}

/// Header and lines, one per line of text.
pub open spec fn serialized(header: Seq<char>, lines: Seq<Seq<char>>) -> Seq<char> {
    join_with(seq![header] + lines, '\n')
}

/// A table held as its header line and its data lines, each a comma-separated
/// record, with the counts and the column widths cached beside them.
#[derive(Debug, Clone, Default)]
pub struct CSVFile {
    pub file_data: Vec<String>,
    pub header: String,
    pub num_rows: usize,
    pub num_cols: usize,
    pub file_path: String,
    pub max_col_lengths: Vec<usize>,
}

impl CSVFile {
    pub open spec fn lines(self) -> Seq<Seq<char>> {
        string_views(self.file_data@)
    }

    pub open spec fn header_cells(self) -> Seq<Seq<char>> {
        line_cells(self.header@, self.num_cols as nat)
    }

    /// The cells of data row `i`, counted from 0.
    pub open spec fn row_cells(self, i: int) -> Seq<Seq<char>> {
        line_cells(self.lines()[i], self.num_cols as nat)
    }

    pub open spec fn widths_exact(self) -> bool {
        &&& self.max_col_lengths@.len() == self.num_cols
        &&& forall|j: int|
            0 <= j < self.num_cols ==> #[trigger] self.max_col_lengths@[j] as nat == col_width(
                self.header@,
                self.lines(),
                self.num_cols as nat,
                j,
            )
    }

    /// The counts match the lines, every line has one field per column, and
    /// each cached width is that of its column's widest cell.
    pub open spec fn wf(self) -> bool {
        &&& self.num_rows == self.file_data@.len()
        &&& line_fits(self.header@, self.num_cols as nat)
        &&& forall|i: int|
            0 <= i < self.num_rows ==> line_fits(#[trigger] self.lines()[i], self.num_cols as nat)
        &&& self.widths_exact()
    }
}

impl CSVFile {
    /// Builds the table held in `content`, the text of the file at `file_path`:
    /// its first line is the header and each later line a row.
    pub fn new(file_path: &String, content: &String) -> (r: Result<CSVFile, LoadError>)
        ensures
            !csv_path(file_path@) ==> r == Err::<CSVFile, LoadError>(LoadError::NotCsvFile),
            csv_path(file_path@) && file_lines(content@)[0].len() == 0 ==> r == Err::<
                CSVFile,
                LoadError,
            >(LoadError::EmptyFile),
            csv_path(file_path@) && file_lines(content@)[0].len() > 0 && !loadable(
                file_path@,
                content@,
            ) ==> r == Err::<CSVFile, LoadError>(LoadError::RaggedRow),
            r is Ok <==> loadable(file_path@, content@),
            r matches Ok(f) ==> {
                &&& f.wf()
                &&& f.header@ == file_lines(content@)[0]
                &&& f.lines() == file_lines(content@).drop_first()
                &&& f.num_cols == split_on(f.header@, ',').len()
                &&& f.file_path@ == file_path@
            },
    {
        if !has_csv_extension(file_path.as_str()) {
            return Err(LoadError::NotCsvFile);
        }
        let ghost fl = file_lines(content@);
        let mut pieces = split_text(content.as_str(), '\n');
        proof {
            lemma_split_nonempty(content@, '\n');
        }
        let np = pieces.len();
        if np > 1 && pieces[np - 1].as_str().unicode_len() == 0 {
            assert(pieces@.map_values(|p: String| p@)[np - 1] == pieces@[np - 1]@);
            let _ = pieces.pop();
            assert(pieces@.map_values(|p: String| p@) =~= fl);
        } else {
            proof {
                if np > 1 {
                    assert(pieces@.map_values(|p: String| p@)[np - 1] == pieces@[np - 1]@);
                }
            }
            assert(pieces@.map_values(|p: String| p@) =~= fl);
        }
        assert(pieces@.map_values(|p: String| p@)[0] == pieces@[0]@);
        if pieces[0].as_str().unicode_len() == 0 {
            return Err(LoadError::EmptyFile);
        }
        let header = pieces[0].clone();
        let n = split_text(header.as_str(), ',').len();
        proof {
            lemma_split_nonempty(header@, ',');
        }
        let mut rows: Vec<String> = Vec::new();
        let mut i: usize = 1;
        while i < pieces.len()
            invariant
                1 <= i <= pieces@.len(),
                pieces@.map_values(|p: String| p@) == fl,
                fl == file_lines(content@),
                csv_path(file_path@),
                fl[0].len() > 0,
                n == split_on(fl[0], ',').len(),
                n >= 1,
                string_views(rows@) == fl.drop_first().take(i - 1),
                all_fit(string_views(rows@), n as nat),
            decreases pieces@.len() - i,
        {
            let line = pieces[i].clone();
            assert(fl[i as int] == line@);
            if split_text(line.as_str(), ',').len() != n {
                assert(!line_fits(fl.drop_first()[i - 1], n as nat));
                assert(!loadable(file_path@, content@));
                return Err(LoadError::RaggedRow);
            }
            let ghost before = rows@;
            rows.push(line);
            assert(string_views(rows@) =~= string_views(before).push(line@));
            assert(fl.drop_first().take(i as int) =~= fl.drop_first().take(i - 1).push(fl[i as int]));
            assert(string_views(rows@) =~= fl.drop_first().take(i as int));
            assert(split_on(line@, ',').len() == n);
            i = i + 1;
        }
        assert(string_views(rows@) =~= fl.drop_first());
        let widths = compute_widths(&header, &rows, n);
        let num_rows = rows.len();
        Ok(CSVFile {
            file_data: rows,
            header,
            num_rows,
            num_cols: n,
            file_path: file_path.clone(),
            max_col_lengths: widths,
        })
    }

    /// The text to store for this table: the header and then each row, one per
    /// line. Refused for a table without columns or a path not ending in `.csv`.
    pub fn file_content(&self) -> (r: Result<String, WriteError>)
        requires
            self.wf(),
        ensures
            self.num_cols == 0 ==> r == Err::<String, WriteError>(WriteError::NoColumns),
            self.num_cols > 0 && !csv_path(self.file_path@) ==> r == Err::<String, WriteError>(
                WriteError::NotCsvFile,
            ),
            self.num_cols > 0 && csv_path(self.file_path@) ==> (r matches Ok(s) && s@ == serialized(
                self.header@,
                self.lines(),
            )),
    {
        if self.num_cols == 0 {
            return Err(WriteError::NoColumns);
        }
        if !has_csv_extension(self.file_path.as_str()) {
            return Err(WriteError::NotCsvFile);
        }
        let mut all: Vec<String> = Vec::new();
        all.push(self.header.clone());
        let mut i: usize = 0;
        while i < self.file_data.len()
            invariant
                i <= self.file_data@.len(),
                string_views(all@) == seq![self.header@] + self.lines().take(i as int),
            decreases self.file_data@.len() - i,
        {
            let ghost before = all@;
            all.push(self.file_data[i].clone());
            assert(self.lines()[i as int] == self.file_data@[i as int]@);
            assert(string_views(all@) =~= string_views(before).push(self.lines()[i as int]));
            assert(string_views(all@) =~= seq![self.header@] + self.lines().take(i + 1));
            i = i + 1;
        }
        assert(self.lines().take(self.file_data@.len() as int) =~= self.lines());
        proof {
            reveal_strlit("\n");
        }
        let s = join_text(&all, "\n");
        Ok(s)
    }
}

impl PartialEq for CSVFile {
    fn eq(&self, other: &CSVFile) -> (r: bool)
        ensures
            r == self.same_as(other),
    {
        same_text_lines(&self.file_data, &other.file_data) && self.header == other.header
            && self.num_rows == other.num_rows && self.num_cols == other.num_cols
            && self.file_path == other.file_path && same_numbers(
            &self.max_col_lengths,
            &other.max_col_lengths,
        )
    }
}

impl vstd::std_specs::cmp::PartialEqSpecImpl for CSVFile {
    open spec fn obeys_eq_spec() -> bool {
        true
    }

    open spec fn eq_spec(&self, other: &CSVFile) -> bool {
        self.same_as(other)
    }
}

impl CSVFile {
    /// Two tables are equal when every field holds the same text or numbers.
    pub open spec fn same_as(&self, other: &CSVFile) -> bool {
        &&& self.lines() == other.lines()
        &&& self.header@ == other.header@
        &&& self.num_rows == other.num_rows
        &&& self.num_cols == other.num_cols
        &&& self.file_path@ == other.file_path@
        &&& self.max_col_lengths@ == other.max_col_lengths@
    }
}

fn same_text_lines(a: &Vec<String>, b: &Vec<String>) -> (r: bool)
    ensures
        r == (string_views(a@) == string_views(b@)),
{
    if a.len() != b.len() {
        return false;
    }
    let mut i: usize = 0;
    while i < a.len()
        invariant
            a@.len() == b@.len(),
            i <= a@.len(),
            forall|q: int| 0 <= q < i ==> #[trigger] a@[q]@ == b@[q]@,
        decreases a@.len() - i,
    {
        if a[i] != b[i] {
            assert(string_views(a@)[i as int] != string_views(b@)[i as int]);
            return false;
        }
        i = i + 1;
    }
    assert(string_views(a@) =~= string_views(b@));
    true
}

fn same_numbers(a: &Vec<usize>, b: &Vec<usize>) -> (r: bool)
    ensures
        r == (a@ == b@),
{
    if a.len() != b.len() {
        return false;
    }
    let mut i: usize = 0;
    while i < a.len()
        invariant
            a@.len() == b@.len(),
            i <= a@.len(),
            forall|q: int| 0 <= q < i ==> #[trigger] a@[q] == b@[q],
        decreases a@.len() - i,
    {
        if a[i] != b[i] {
            return false;
        }
        i = i + 1;
    }
    assert(a@ =~= b@);
    true
}

/// The width of each of the `n` columns over the header and the lines.
pub fn compute_widths(header: &String, lines: &Vec<String>, n: usize) -> (r: Vec<usize>)
    requires
        line_fits(header@, n as nat),
        forall|i: int| 0 <= i < lines@.len() ==> line_fits(#[trigger] string_views(lines@)[i], n as nat),
    ensures
        r@.len() == n,
        forall|j: int|
            0 <= j < n ==> #[trigger] r@[j] as nat == col_width(header@, string_views(lines@), n as nat, j),
{
    let mut w: Vec<usize> = Vec::new();
    if n == 0 {
        return w;
    }
    let ghost views = string_views(lines@);
    let hc = split_text(header.as_str(), ',');
    let mut j: usize = 0;
    while j < n
        invariant
            n >= 1,
            hc@.map_values(|p: String| p@) == split_on(header@, ','),
            hc@.len() == n,
            w@.len() == j,
            j <= n,
            forall|k: int| 0 <= k < j ==> #[trigger] w@[k] as nat == cell_len(header@, n as nat, k),
        decreases n - j,
    {
        let len = hc[j].as_str().unicode_len();
        proof {
            assert(hc@.map_values(|p: String| p@)[j as int] == hc@[j as int]@);
        }
        w.push(len);
        j = j + 1;
    }
    proof {
        assert forall|k: int| 0 <= k < n implies #[trigger] w@[k] as nat == col_width(
            header@,
            views.take(0),
            n as nat,
            k,
        ) by {
            assert(views.take(0).len() == 0);
        }
    }
    let mut i: usize = 0;
    while i < lines.len()
        invariant
            n >= 1,
            views == string_views(lines@),
            i <= lines@.len(),
            w@.len() == n,
            forall|q: int| 0 <= q < lines@.len() ==> line_fits(#[trigger] views[q], n as nat),
            forall|k: int|
                0 <= k < n ==> #[trigger] w@[k] as nat == col_width(header@, views.take(i as int), n as nat, k),
        decreases lines@.len() - i,
    {
        let cells = split_text(lines[i].as_str(), ',');
        proof {
            assert(views[i as int] == lines@[i as int]@);
            assert(line_fits(views[i as int], n as nat));
            assert(views.take(i + 1).drop_last() =~= views.take(i as int));
            assert(views.take(i + 1).last() == views[i as int]);
        }
        let ghost w0 = w@;
        let mut k: usize = 0;
        while k < n
            invariant
                n >= 1,
                w@.len() == n,
                k <= n,
                cells@.map_values(|p: String| p@) == split_on(views[i as int], ','),
                cells@.len() == n,
                views.take(i + 1).drop_last() == views.take(i as int),
                views.take(i + 1).last() == views[i as int],
                i < lines@.len(),
                views.len() == lines@.len(),
                forall|m: int|
                    0 <= m < n ==> #[trigger] w0[m] as nat == col_width(header@, views.take(i as int), n as nat, m),
                forall|m: int| k <= m < n ==> #[trigger] w@[m] == w0[m],
                forall|m: int|
                    0 <= m < k ==> #[trigger] w@[m] as nat == col_width(
                        header@,
                        views.take(i + 1),
                        n as nat,
                        m,
                    ),
            decreases n - k,
        {
            let len = cells[k].as_str().unicode_len();
            proof {
                assert(cells@.map_values(|p: String| p@)[k as int] == cells@[k as int]@);
                assert(cell_len(views[i as int], n as nat, k as int) == len);
            }
            proof {
                let t = views.take(i + 1);
                assert(t.len() > 0);
                assert(col_width(header@, t, n as nat, k as int) == (if len > w0[k as int] {
                    len as nat
                } else {
                    w0[k as int] as nat
                }));
            }
            if len > w[k] {
                w.set(k, len);
            }
            k = k + 1;
        }
        i = i + 1;
    }
    assert(views.take(lines@.len() as int) =~= views);
    w
}

/// Whether the text after the last `.` of `path` is `csv`.
pub fn has_csv_extension(path: &str) -> (r: bool)
    ensures
        r == csv_path(path@),
{
    let parts = split_text(path, '.');
    let ghost pv = parts@.map_values(|p: String| p@);
    if parts.len() < 2 {
        return false;
    }
    let csv = String::from_str("csv");
    let last = parts.len() - 1;
    let r = parts[last] == csv;
    assert(pv[last as int] == parts@[last as int]@);
    r
}

} // verus!
