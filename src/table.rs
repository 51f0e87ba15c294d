//! The column model that the engine reads: a rectangular table of cells,
//! each cell a closed tagged value.
use vstd::prelude::*;

verus! {

/// One million: numbers are held as whole millionths.
pub const MICROS: i64 = 1000000;

/// The declared type of a source column.
#[derive(Clone, Copy, Debug, PartialEq, Eq, Structural)]
pub enum ColumnKind {
    /// Real numbers, held in millionths.
    Number,
    /// Whole numbers, held in millionths like every number.
    Integer,
    /// Character data.
    Text,
    /// Logical data.
    Boolean,
    /// Calendar dates, held as days since 1970-01-01.
    Date,
    /// Instants, held as seconds since 1970-01-01 00:00:00.
    Datetime,
}

/// Floating-point values that have no finite representation.
#[derive(Clone, Copy, Debug, PartialEq, Eq, Structural)]
pub enum SpecialValue {
    NaN,
    PosInf,
    NegInf,
}

/// One cell of a source column.
#[derive(Clone, Debug)]
pub enum CellValue {
    Missing,
    /// A number in millionths.
    Number(i64),
    Text(String),
    Boolean(bool),
    /// Days (for dates) or seconds (for date-times) since the epoch.
    Temporal(i64),
    Special(SpecialValue),
}

/// A named, typed column of cells.
#[derive(Clone, Debug)]
pub struct Column {
    pub name: String,
    pub kind: ColumnKind,
    pub values: Vec<CellValue>,
}

/// A snapshot of the source object: columns of equal length, with
/// optional row labels.
#[derive(Clone, Debug)]
pub struct DataTable {
    pub columns: Vec<Column>,
    pub num_rows: usize,
    pub row_labels: Option<Vec<String>>,
}

impl DataTable {
    /// Every column holds one cell per row, and so do the row labels.
    pub open spec fn wf(&self) -> bool {
        &&& forall|c: int|
            0 <= c < self.columns@.len() ==> #[trigger] self.columns@[c].values@.len()
                == self.num_rows
        &&& self.row_labels is Some ==> self.row_labels->0@.len() == self.num_rows
    }

    pub open spec fn cell(&self, col: int, row: int) -> CellValue {
        self.columns@[col].values@[row]
    }

    /// Builds a table from columns of equal length; `None` when the lengths
    /// differ (from each other, or from the labels).
    pub fn new(columns: Vec<Column>, row_labels: Option<Vec<String>>) -> (r: Option<DataTable>)
        ensures
            r is Some <==> (exists|n: usize|
                (DataTable { columns, num_rows: n, row_labels }).wf()),
            r is Some ==> r->0.columns == columns && r->0.row_labels == row_labels && r->0.wf(),
    {
        let n: usize = if columns.len() > 0 {
            columns[0].values.len()
        } else {
            match &row_labels {
                Some(l) => l.len(),
                None => 0,
            }
        };
        let mut i: usize = 0;
        while i < columns.len()
            invariant
                0 <= i <= columns.len(),
                forall|c: int| 0 <= c < i ==> #[trigger] columns@[c].values@.len() == n,
                columns.len() > 0 ==> n == columns@[0].values@.len(),
            decreases columns.len() - i,
        {
            if columns[i].values.len() != n {
                proof {
                    assert forall|m: usize|
                        !(DataTable { columns, num_rows: m, row_labels }).wf() by {
                        if (DataTable { columns, num_rows: m, row_labels }).wf() {
                            assert(columns@[0].values@.len() == m);
                            assert(columns@[i as int].values@.len() == m);
                        }
                    }
                }
                return None;
            }
            i = i + 1;
        }
        let labels_ok = match &row_labels {
            Some(l) => l.len() == n,
            None => true,
        };
        if !labels_ok {
            proof {
                assert forall|m: usize| !(DataTable { columns, num_rows: m, row_labels }).wf() by {
                    if (DataTable { columns, num_rows: m, row_labels }).wf() {
                        if columns.len() > 0 {
                            assert(columns@[0].values@.len() == m);
                        }
                    }
                }
            }
            return None;
        }
        let t = DataTable { columns, num_rows: n, row_labels };
        assert(t.wf());
        Some(t)
    }

    pub fn num_columns(&self) -> (r: usize)
        ensures
            r == self.columns@.len(),
    {
        self.columns.len()
    }
}

} // verus!
