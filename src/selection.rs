//! Reading the current view: cell values, row labels and exports, all in
//! view-relative coordinates. Positions past the view are dropped.
use vstd::prelude::*;
use crate::format::{
    cell_text, digits_of, format_cell, push_digits, push_range, renders_as, special_of, FormatOptions,
    FormattedValue, SpecialCode,
};
use crate::table::DataTable;
use crate::text::{chars_of, string_of};
use crate::view::ViewSession;

verus! {

/// A set of positions along one axis of the view.
#[derive(Clone, Debug)]
pub enum ArraySelection {
    /// Positions `first_index` to `last_index`, both included.
    SelectRange { first_index: usize, last_index: usize },
    /// The listed positions, in order.
    SelectIndices { indices: Vec<usize> },
}

/// The rows to read from one column.
#[derive(Clone, Debug)]
pub struct ColumnSelection {
    pub column_index: usize,
    pub spec: ArraySelection,
}

/// The positions of `sel` that lie below `n`, in order.
pub open spec fn positions(sel: ArraySelection, n: nat) -> Seq<usize> {
    match sel {
        ArraySelection::SelectRange { first_index, last_index } => {
            let end = if last_index < n {
                last_index + 1
            } else {
                n as int
            };
            if first_index >= end {
                Seq::empty()
            } else {
                Seq::new((end - first_index) as nat, |i: int| (first_index + i) as usize)
            }
        },
        ArraySelection::SelectIndices { indices } => indices@.filter(|i: usize| i < n),
    }
}

/// The positions of a selection that lie below `n`.
pub fn resolve_positions(sel: &ArraySelection, n: usize) -> (r: Vec<usize>)
    ensures
        r@ == positions(*sel, n as nat),
{
    match sel {
        ArraySelection::SelectRange { first_index, last_index } => {
            let end: usize = if *last_index < n { *last_index + 1 } else { n };
            let mut out: Vec<usize> = Vec::new();
            let mut i: usize = *first_index;
            while i < end
                invariant
                    *first_index <= i,
                    i <= end || i == *first_index,
                    out@ =~= Seq::new((i - *first_index) as nat, |k: int| (*first_index + k) as usize),
                decreases end - i,
            {
                out.push(i);
                i = i + 1;
                assert(out@ =~= Seq::new((i - *first_index) as nat, |k: int| (*first_index + k) as usize));
            }
            out
        },
        ArraySelection::SelectIndices { indices } => indices_below(indices, n),
    }
}

/// The listed indices that lie below `n`, in order.
pub fn indices_below(indices: &Vec<usize>, n: usize) -> (r: Vec<usize>)
    ensures
        r@ == indices@.filter(|i: usize| i < n),
{
    let mut out: Vec<usize> = Vec::new();
    let mut i: usize = 0;
    while i < indices.len()
        invariant
            0 <= i <= indices@.len(),
            out@ == indices@.subrange(0, i as int).filter(|x: usize| x < n),
        decreases indices.len() - i,
    {
        let ghost pre = indices@.subrange(0, i as int);
        assert(indices@.subrange(0, i + 1) =~= pre.push(indices@[i as int]));
        reveal(Seq::filter);
        assert(pre.push(indices@[i as int]).drop_last() =~= pre);
        if indices[i] < n {
            out.push(indices[i]);
        }
        i = i + 1;
    }
    assert(indices@.subrange(0, indices@.len() as int) =~= indices@);
    out
}

/// The requested columns that exist, in request order.
pub open spec fn columns_in_range(cs: Seq<ColumnSelection>, n: nat) -> Seq<ColumnSelection> {
    cs.filter(|c: ColumnSelection| c.column_index < n)
}

/// `vals` renders column `col` of the table at view positions `pos`.
pub open spec fn renders_column(
    vals: Seq<FormattedValue>,
    t: DataTable,
    view: Seq<usize>,
    col: int,
    pos: Seq<usize>,
    o: FormatOptions,
) -> bool {
    &&& vals.len() == pos.len()
    &&& forall|j: int|
        0 <= j < vals.len() ==> renders_as(
            #[trigger] vals[j],
            t.cell(col, view[pos[j] as int] as int),
            t.columns@[col].kind,
            o,
        )
}

/// The label of a source row: its label when the table has labels, else
/// its number counted from one.
pub open spec fn row_label(t: DataTable, row: int) -> Seq<char> {
    match t.row_labels {
        Some(l) => l@[row]@,
        None => digits_of((row + 1) as nat),
    }
}

/// The output formats of an export.
#[derive(Clone, Copy, Debug, PartialEq, Eq, Structural)]
pub enum ExportFormat {
    Csv,
    Tsv,
}

/// A part of the view to export.
#[derive(Clone, Debug)]
pub enum TableSelection {
    SingleCell { row_index: usize, column_index: usize },
    CellRange {
        first_row_index: usize,
        last_row_index: usize,
        first_column_index: usize,
        last_column_index: usize,
    },
    RowIndices { indices: Vec<usize> },
    ColumnIndices { indices: Vec<usize> },
}

pub open spec fn delimiter(f: ExportFormat) -> char {
    match f {
        ExportFormat::Csv => ',',
        ExportFormat::Tsv => '\t',
    }
}

pub open spec fn all_positions(n: nat) -> Seq<usize> {
    Seq::new(n, |i: int| i as usize)
}

/// The view positions an export covers.
pub open spec fn export_rows(sel: TableSelection, n: nat) -> Seq<usize> {
    match sel {
        TableSelection::SingleCell { row_index, column_index } => positions(
            ArraySelection::SelectRange { first_index: row_index, last_index: row_index },
            n,
        ),
        TableSelection::CellRange { first_row_index, last_row_index, .. } => positions(
            ArraySelection::SelectRange { first_index: first_row_index, last_index: last_row_index },
            n,
        ),
        TableSelection::RowIndices { indices } => positions(
            ArraySelection::SelectIndices { indices },
            n,
        ),
        TableSelection::ColumnIndices { .. } => all_positions(n),
    }
}

/// The columns an export covers.
pub open spec fn export_columns(sel: TableSelection, n: nat) -> Seq<usize> {
    match sel {
        TableSelection::SingleCell { row_index, column_index } => positions(
            ArraySelection::SelectRange { first_index: column_index, last_index: column_index },
            n,
        ),
        TableSelection::CellRange { first_column_index, last_column_index, .. } => positions(
            ArraySelection::SelectRange {
                first_index: first_column_index,
                last_index: last_column_index,
            },
            n,
        ),
        TableSelection::RowIndices { .. } => all_positions(n),
        TableSelection::ColumnIndices { indices } => positions(
            ArraySelection::SelectIndices { indices },
            n,
        ),
    }
}

/// Whether an export starts with a line of column names.
pub open spec fn has_header(sel: TableSelection) -> bool {
    !(sel is SingleCell)
}

pub open spec fn code_word(c: SpecialCode) -> Seq<char> {
    match c {
        SpecialCode::Na => seq!['N', 'A'],
        SpecialCode::NaN => seq!['N', 'a', 'N'],
        SpecialCode::PosInf => seq!['I', 'n', 'f'],
        SpecialCode::NegInf => seq!['-', 'I', 'n', 'f'],
    }
}

/// The text of a rendered value in an export.
pub open spec fn value_word(v: FormattedValue) -> Seq<char> {
    match v {
        FormattedValue::Text(s) => s@,
        FormattedValue::Special(c) => code_word(c),
    }
}

pub open spec fn needs_quotes(s: Seq<char>, d: char) -> bool {
    exists|i: int| 0 <= i < s.len() && (s[i] == d || s[i] == '"' || s[i] == '\n' || s[i] == '\r')
}

/// `s` with each double quote doubled.
pub open spec fn escaped(s: Seq<char>) -> Seq<char>
    decreases s.len(),
{
    if s.len() == 0 {
        Seq::empty()
    } else if s.last() == '"' {
        escaped(s.drop_last()) + seq!['"', '"']
    } else {
        escaped(s.drop_last()).push(s.last())
    }
}

/// A field of a delimited file: quoted when it holds the delimiter, a
/// quote or a line break.
pub open spec fn field_text(s: Seq<char>, d: char) -> Seq<char> {
    if needs_quotes(s, d) {
        seq!['"'] + escaped(s) + seq!['"']
    } else {
        s
    }
}

/// The parts joined by `sep`.
pub open spec fn joined(parts: Seq<Seq<char>>, sep: char) -> Seq<char>
    decreases parts.len(),
{
    if parts.len() == 0 {
        Seq::empty()
    } else if parts.len() == 1 {
        parts[0]
    } else {
        joined(parts.drop_last(), sep).push(sep) + parts.last()
    }
}

fn field_chars(s: &Vec<char>, d: char) -> (r: Vec<char>)
    ensures
        r@ == field_text(s@, d),
{
    let mut quote = false;
    let mut i: usize = 0;
    while i < s.len()
        invariant
            0 <= i <= s@.len(),
            quote == exists|k: int|
                0 <= k < i && (s@[k] == d || s@[k] == '"' || s@[k] == '\n' || s@[k] == '\r'),
        decreases s.len() - i,
    {
        let c = s[i];
        if c == d || c == '"' || c == '\n' || c == '\r' {
            quote = true;
        }
        i = i + 1;
    }
    if !quote {
        let mut same: Vec<char> = Vec::new();
        push_range(s, 0, s.len(), &mut same);
        assert(s@.subrange(0, s@.len() as int) =~= s@);
        return same;
    }
    let mut out: Vec<char> = Vec::new();
    out.push('"');
    let mut j: usize = 0;
    while j < s.len()
        invariant
            0 <= j <= s@.len(),
            out@ == seq!['"'] + escaped(s@.subrange(0, j as int)),
        decreases s.len() - j,
    {
        let ghost pre = s@.subrange(0, j as int);
        assert(s@.subrange(0, j + 1).drop_last() =~= pre);
        if s[j] == '"' {
            out.push('"');
            out.push('"');
        } else {
            out.push(s[j]);
        }
        j = j + 1;
        assert(out@ =~= seq!['"'] + escaped(s@.subrange(0, j as int)));
    }
    out.push('"');
    assert(s@.subrange(0, s@.len() as int) =~= s@);
    assert(out@ =~= field_text(s@, d));
    out
}

pub open spec fn views_of(parts: Seq<Vec<char>>) -> Seq<Seq<char>> {
    Seq::new(parts.len(), |i: int| parts[i]@)
}

fn join_chars(parts: &Vec<Vec<char>>, sep: char) -> (r: Vec<char>)
    ensures
        r@ == joined(views_of(parts@), sep),
{
    let mut out: Vec<char> = Vec::new();
    let mut k: usize = 0;
    while k < parts.len()
        invariant
            0 <= k <= parts@.len(),
            out@ == joined(views_of(parts@.subrange(0, k as int)), sep),
        decreases parts.len() - k,
    {
        let ghost pre = views_of(parts@.subrange(0, k as int));
        let ghost next = views_of(parts@.subrange(0, k + 1));
        assert(next.drop_last() =~= pre);
        if k > 0 {
            out.push(sep);
        }
        let p = &parts[k];
        let mut i: usize = 0;
        let ghost base = out@;
        while i < p.len()
            invariant
                0 <= i <= p@.len(),
                out@ == base + p@.subrange(0, i as int),
            decreases p.len() - i,
        {
            out.push(p[i]);
            i = i + 1;
            assert(out@ =~= base + p@.subrange(0, i as int));
        }
        assert(p@.subrange(0, p@.len() as int) =~= p@);
        k = k + 1;
        assert(out@ =~= joined(next, sep));
    }
    assert(parts@.subrange(0, parts@.len() as int) =~= parts@);
    out
}

/// The export of the listed view positions and columns.
pub open spec fn export_text(
    t: DataTable,
    view: Seq<usize>,
    rows: Seq<usize>,
    cols: Seq<usize>,
    header: bool,
    d: char,
    o: FormatOptions,
) -> Seq<char> {
    let head = joined(Seq::new(cols.len(), |k: int| field_text(t.columns@[cols[k] as int].name@, d)), d);
    let body = Seq::new(
        rows.len(),
        |j: int|
            joined(
                Seq::new(
                    cols.len(),
                    |k: int|
                        field_text(
                            export_word(t.cell(cols[k] as int, view[rows[j] as int] as int), t.columns@[cols[k] as int].kind, o),
                            d,
                        ),
                ),
                d,
            ),
    );
    joined(
        if header {
            seq![head] + body
        } else {
            body
        },
        '\n',
    )
}

/// The text of a cell in an export: the display text, or the name of its
/// special value.
pub open spec fn export_word(c: crate::table::CellValue, k: crate::table::ColumnKind, o: FormatOptions) -> Seq<char> {
    match special_of(c) {
        Some(code) => code_word(code),
        None => cell_text(c, k, o),
    }
}

fn word_chars(v: &FormattedValue) -> (r: Vec<char>)
    ensures
        r@ == value_word(*v),
{
    match v {
        FormattedValue::Text(s) => chars_of(s.as_str()),
        FormattedValue::Special(c) => {
            let r = match c {
                SpecialCode::Na => vec!['N', 'A'],
                SpecialCode::NaN => vec!['N', 'a', 'N'],
                SpecialCode::PosInf => vec!['I', 'n', 'f'],
                SpecialCode::NegInf => vec!['-', 'I', 'n', 'f'],
            };
            assert(r@ =~= code_word(*c));
            r
        },
    }
}

fn all_positions_exec(n: usize) -> (r: Vec<usize>)
    ensures
        r@ == all_positions(n as nat),
{
    let mut out: Vec<usize> = Vec::new();
    let mut i: usize = 0;
    while i < n
        invariant
            0 <= i <= n,
            out@ =~= all_positions(i as nat),
        decreases n - i,
    {
        out.push(i);
        i = i + 1;
        assert(out@ =~= all_positions(i as nat));
    }
    out
}

proof fn lemma_positions_below(sel: ArraySelection, n: nat, j: int)
    requires
        0 <= j < positions(sel, n).len(),
    ensures
        positions(sel, n)[j] < n,
{
    if let ArraySelection::SelectIndices { indices } = sel {
        indices@.lemma_filter_pred(|x: usize| x < n, j);
    }
}

impl ViewSession {
    /// The source row at a position of the view.
    fn view_row(&self, pos: usize) -> (r: usize)
        requires
            self.wf(),
            pos < self.view().len(),
        ensures
            r == self.view()[pos as int],
            r < self.table().num_rows,
    {
        let view = self.view_rows();
        let row = view[pos];
        proof {
            assert(self.view().contains(row));
            let sel_rows = crate::filter::selected_rows(self.table(), self.filters());
            assert(sel_rows.contains(row));
            let m = choose|m: int| 0 <= m < sel_rows.len() && sel_rows[m] == row;
            crate::view::lemma_selected_rows_bounded(self.table(), self.filters(), m);
        }
        row
    }

    /// Renders the selected view rows of each requested column. Columns
    /// that do not exist are dropped from the reply.
    #[verifier::rlimit(40)]
    pub fn get_data_values(&self, columns: &Vec<ColumnSelection>, o: &FormatOptions) -> (r: Vec<
        Vec<FormattedValue>,
    >)
        requires
            self.wf(),
        ensures
            r@.len() == columns_in_range(columns@, self.table().columns@.len()).len(),
            forall|k: int|
                0 <= k < r@.len() ==> renders_column(
                    (#[trigger] r@[k])@,
                    self.table(),
                    self.view(),
                    columns_in_range(columns@, self.table().columns@.len())[k].column_index as int,
                    positions(
                        columns_in_range(columns@, self.table().columns@.len())[k].spec,
                        self.view().len(),
                    ),
                    *o,
                ),
    {
        let ghost n = self.table().columns@.len();
        let mut out: Vec<Vec<FormattedValue>> = Vec::new();
        let mut i: usize = 0;
        while i < columns.len()
            invariant
                self.wf(),
                n == self.table().columns@.len(),
                0 <= i <= columns@.len(),
                out@.len() == columns_in_range(columns@.subrange(0, i as int), n).len(),
                forall|k: int|
                    0 <= k < out@.len() ==> renders_column(
                        (#[trigger] out@[k])@,
                        self.table(),
                        self.view(),
                        columns_in_range(columns@.subrange(0, i as int), n)[k].column_index as int,
                        positions(
                            columns_in_range(columns@.subrange(0, i as int), n)[k].spec,
                            self.view().len(),
                        ),
                        *o,
                    ),
            decreases columns.len() - i,
        {
            let ghost pre = columns@.subrange(0, i as int);
            assert(columns@.subrange(0, i + 1) =~= pre.push(columns@[i as int]));
            reveal(Seq::filter);
            assert(pre.push(columns@[i as int]).drop_last() =~= pre);
            let c = &columns[i];
            match self.get_column_values(c.column_index, &c.spec, o) {
                Some(vals) => {
                    out.push(vals);
                },
                None => {},
            }
            i = i + 1;
        }
        assert(columns@.subrange(0, columns@.len() as int) =~= columns@);
        out
    }

    /// The labels of the selected view rows.
    pub fn get_row_labels(&self, sel: &ArraySelection) -> (r: Vec<String>)
        requires
            self.wf(),
        ensures
            r@.len() == positions(*sel, self.view().len()).len(),
            forall|j: int|
                0 <= j < r@.len() ==> (#[trigger] r@[j])@ == row_label(
                    self.table(),
                    self.view()[positions(*sel, self.view().len())[j] as int] as int,
                ),
    {
        let t = self.source();
        let pos = resolve_positions(sel, self.view_rows().len());
        let mut out: Vec<String> = Vec::new();
        let mut j: usize = 0;
        while j < pos.len()
            invariant
                self.wf(),
                *t == self.table(),
                pos@ == positions(*sel, self.view().len()),
                0 <= j <= pos@.len(),
                out@.len() == j,
                forall|k: int|
                    0 <= k < j ==> (#[trigger] out@[k])@ == row_label(
                        self.table(),
                        self.view()[pos@[k] as int] as int,
                    ),
            decreases pos.len() - j,
        {
            proof {
                lemma_positions_below(*sel, self.view().len(), j as int);
            }
            let row = self.view_row(pos[j]);
            let label = match &t.row_labels {
                Some(l) => l[row].clone(),
                None => {
                    let mut ds: Vec<char> = Vec::new();
                    push_digits((row + 1) as u64, &mut ds);
                    assert(ds@ =~= digits_of((row + 1) as nat));
                    string_of(&ds)
                },
            };
            out.push(label);
            j = j + 1;
        }
        out
    }

    /// Writes the selected part of the view as delimited text: one line per
    /// row, after a line of column names unless a single cell is exported.
    #[verifier::loop_isolation(false)]
    #[verifier::rlimit(40)]
    pub fn export_data_selection(&self, sel: &TableSelection, format: ExportFormat, o: &FormatOptions) -> (r:
        String)
        requires
            self.wf(),
        ensures
            r@ == export_text(
                self.table(),
                self.view(),
                export_rows(*sel, self.view().len()),
                export_columns(*sel, self.table().columns@.len()),
                has_header(*sel),
                delimiter(format),
                *o,
            ),
    {
        let t = self.source();
        let nrows = self.view_rows().len();
        let ncols = t.columns.len();
        let (rows, cols, header) = match sel {
            TableSelection::SingleCell { row_index, column_index } => (
                resolve_positions(
                    &ArraySelection::SelectRange { first_index: *row_index, last_index: *row_index },
                    nrows,
                ),
                resolve_positions(
                    &ArraySelection::SelectRange {
                        first_index: *column_index,
                        last_index: *column_index,
                    },
                    ncols,
                ),
                false,
            ),
            TableSelection::CellRange {
                first_row_index,
                last_row_index,
                first_column_index,
                last_column_index,
            } => (
                resolve_positions(
                    &ArraySelection::SelectRange {
                        first_index: *first_row_index,
                        last_index: *last_row_index,
                    },
                    nrows,
                ),
                resolve_positions(
                    &ArraySelection::SelectRange {
                        first_index: *first_column_index,
                        last_index: *last_column_index,
                    },
                    ncols,
                ),
                true,
            ),
            TableSelection::RowIndices { indices } => (
                indices_below(indices, nrows),
                all_positions_exec(ncols),
                true,
            ),
            TableSelection::ColumnIndices { indices } => (
                all_positions_exec(nrows),
                indices_below(indices, ncols),
                true,
            ),
        };
        proof {
            assert forall|j: int| 0 <= j < rows@.len() implies #[trigger] rows@[j] < nrows by {
                match *sel {
                    TableSelection::SingleCell { row_index, .. } => lemma_positions_below(
                        ArraySelection::SelectRange { first_index: row_index, last_index: row_index },
                        nrows as nat,
                        j,
                    ),
                    TableSelection::CellRange { first_row_index, last_row_index, .. } =>
                        lemma_positions_below(
                        ArraySelection::SelectRange {
                            first_index: first_row_index,
                            last_index: last_row_index,
                        },
                        nrows as nat,
                        j,
                    ),
                    TableSelection::RowIndices { indices } => lemma_positions_below(
                        ArraySelection::SelectIndices { indices },
                        nrows as nat,
                        j,
                    ),
                    _ => {},
                }
            }
            assert forall|k: int| 0 <= k < cols@.len() implies #[trigger] cols@[k] < ncols by {
                match *sel {
                    TableSelection::SingleCell { column_index, .. } => lemma_positions_below(
                        ArraySelection::SelectRange {
                            first_index: column_index,
                            last_index: column_index,
                        },
                        ncols as nat,
                        k,
                    ),
                    TableSelection::CellRange { first_column_index, last_column_index, .. } =>
                        lemma_positions_below(
                        ArraySelection::SelectRange {
                            first_index: first_column_index,
                            last_index: last_column_index,
                        },
                        ncols as nat,
                        k,
                    ),
                    TableSelection::ColumnIndices { indices } => lemma_positions_below(
                        ArraySelection::SelectIndices { indices },
                        ncols as nat,
                        k,
                    ),
                    _ => {},
                }
            }
        }
        let d = match format {
            ExportFormat::Csv => ',',
            ExportFormat::Tsv => '\t',
        };
        let ghost head = joined(
            Seq::new(cols@.len(), |k: int| field_text(t.columns@[cols@[k] as int].name@, d)),
            d,
        );
        let ghost body = Seq::new(
            rows@.len(),
            |j: int|
                joined(
                    Seq::new(
                        cols@.len(),
                        |k: int|
                            field_text(
                                export_word(
                                    t.cell(cols@[k] as int, self.view()[rows@[j] as int] as int),
                                    t.columns@[cols@[k] as int].kind,
                                    *o,
                                ),
                                d,
                            ),
                    ),
                    d,
                ),
        );
        let mut lines: Vec<Vec<char>> = Vec::new();
        if header {
            let mut fields: Vec<Vec<char>> = Vec::new();
            let mut k: usize = 0;
            while k < cols.len()
                invariant
                    0 <= k <= cols@.len(),
                    forall|q: int| 0 <= q < cols@.len() ==> #[trigger] cols@[q] < ncols,
                    ncols == t.columns@.len(),
                    fields@.len() == k,
                    forall|q: int|
                        0 <= q < k ==> (#[trigger] fields@[q])@ == field_text(
                            t.columns@[cols@[q] as int].name@,
                            d,
                        ),
                decreases cols.len() - k,
            {
                let name = chars_of(t.columns[cols[k]].name.as_str());
                fields.push(field_chars(&name, d));
                k = k + 1;
            }
            assert(views_of(fields@) =~= Seq::new(
                cols@.len(),
                |q: int| field_text(t.columns@[cols@[q] as int].name@, d),
            ));
            lines.push(join_chars(&fields, d));
        }
        let ghost hl: int = if header { 1 } else { 0 };
        assert(lines@.len() == hl);
        assert(header ==> lines@[0]@ == head);
        let mut j: usize = 0;
        while j < rows.len()
            invariant
                self.wf(),
                *t == self.table(),
                nrows == self.view().len(),
                ncols == t.columns@.len(),
                0 <= j <= rows@.len(),
                forall|q: int| 0 <= q < rows@.len() ==> #[trigger] rows@[q] < nrows,
                forall|q: int| 0 <= q < cols@.len() ==> #[trigger] cols@[q] < ncols,
                lines@.len() == hl + j,
                header ==> lines@[0]@ == head,
                forall|q: int| 0 <= q < j ==> (#[trigger] lines@[hl + q])@ == body[q],
            decreases rows.len() - j,
        {
            let row = self.view_row(rows[j]);
            let mut fields: Vec<Vec<char>> = Vec::new();
            let mut k: usize = 0;
            while k < cols.len()
                invariant
                    self.wf(),
                    *t == self.table(),
                    row < t.num_rows,
                    0 <= k <= cols@.len(),
                    ncols == t.columns@.len(),
                    forall|q: int| 0 <= q < cols@.len() ==> #[trigger] cols@[q] < ncols,
                    fields@.len() == k,
                    forall|q: int|
                        0 <= q < k ==> (#[trigger] fields@[q])@ == field_text(
                            export_word(
                                t.cell(cols@[q] as int, row as int),
                                t.columns@[cols@[q] as int].kind,
                                *o,
                            ),
                            d,
                        ),
                decreases cols.len() - k,
            {
                let col = &t.columns[cols[k]];
                assert(col.values@.len() == t.num_rows);
                let v = format_cell(&col.values[row], col.kind, o);
                let w = word_chars(&v);
                fields.push(field_chars(&w, d));
                k = k + 1;
            }
            assert(views_of(fields@) =~= Seq::new(
                cols@.len(),
                |q: int|
                    field_text(
                        export_word(
                            t.cell(cols@[q] as int, self.view()[rows@[j as int] as int] as int),
                            t.columns@[cols@[q] as int].kind,
                            *o,
                        ),
                        d,
                    ),
            ));
            let line = join_chars(&fields, d);
            let ghost prev = lines@;
            assert(line@ == body[j as int]);
            lines.push(line);
            assert(lines@ == prev.push(line));
            assert(header ==> lines@[0] == prev[0]);
            assert(lines@[hl + j] == line);
            assert forall|q: int| 0 <= q < j + 1 implies (#[trigger] lines@[hl + q])@ == body[q] by {
                if q < j {
                    assert(lines@[hl + q] == prev[hl + q]);
                }
            }
            j = j + 1;
        }
        assert forall|i: int| 0 <= i < lines@.len() implies views_of(lines@)[i] == (if header {
            seq![head] + body
        } else {
            body
        })[i] by {
            if header && i == 0 {
            } else {
                assert(lines@[hl + (i - hl)] == lines@[i]);
            }
        }
        assert(views_of(lines@) =~= (if header {
            seq![head] + body
        } else {
            body
        }));
        let text = join_chars(&lines, '\n');
        string_of(&text)
    }

    /// Renders the selected view rows of one column; `None` when the column
    /// does not exist.
    pub fn get_column_values(&self, column_index: usize, sel: &ArraySelection, o: &FormatOptions) -> (r:
        Option<Vec<FormattedValue>>)
        requires
            self.wf(),
        ensures
            r is Some <==> column_index < self.table().columns@.len(),
            r is Some ==> renders_column(
                r->0@,
                self.table(),
                self.view(),
                column_index as int,
                positions(*sel, self.view().len()),
                *o,
            ),
    {
        let t = self.source();
        let view = self.view_rows();
        if column_index >= t.columns.len() {
            return None;
        }
        let col = &t.columns[column_index];
        let pos = resolve_positions(sel, view.len());
        let mut out: Vec<FormattedValue> = Vec::new();
        let mut j: usize = 0;
        while j < pos.len()
            invariant
                self.wf(),
                *t == self.table(),
                view@ == self.view(),
                column_index < t.columns@.len(),
                *col == t.columns@[column_index as int],
                pos@ == positions(*sel, view@.len() as nat),
                0 <= j <= pos@.len(),
                out@.len() == j,
                forall|k: int|
                    0 <= k < j ==> renders_as(
                        #[trigger] out@[k],
                        t.cell(column_index as int, view@[pos@[k] as int] as int),
                        col.kind,
                        *o,
                    ),
            decreases pos.len() - j,
        {
            assert(pos@[j as int] < view@.len()) by {
                if let ArraySelection::SelectIndices { indices } = *sel {
                    indices@.lemma_filter_pred(|x: usize| x < view@.len(), j as int);
                }
            }
            let row = view[pos[j]];
            assert(self.view().contains(row as usize));
            assert(row < t.num_rows) by {
                let sel_rows = crate::filter::selected_rows(self.table(), self.filters());
                assert(sel_rows.contains(row));
                let m = choose|m: int| 0 <= m < sel_rows.len() && sel_rows[m] == row;
                crate::view::lemma_selected_rows_bounded(self.table(), self.filters(), m);
            }
            assert(col.values@.len() == t.num_rows);
            out.push(format_cell(&col.values[row], col.kind, o));
            j = j + 1;
        }
        Some(out)
    }
}

} // verus!
