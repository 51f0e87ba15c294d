//! Column schemas: name, position, display type and type label of each
//! source column.
use vstd::prelude::*;
use vstd::string::StringExecFns;
use crate::table::{Column, ColumnKind, DataTable};

verus! {

/// How a front end should display a column.
#[derive(Clone, Copy, Debug, PartialEq, Eq, Structural)]
pub enum ColumnDisplayType {
    Number,
    Boolean,
    String,
    Date,
    Datetime,
}

#[derive(Clone, Debug)]
pub struct ColumnSchema {
    pub column_name: String,
    pub column_index: usize,
    pub type_label_text: String,
    pub type_display: ColumnDisplayType,
    pub kind: ColumnKind,
}

pub open spec fn display_of(k: ColumnKind) -> ColumnDisplayType {
    match k {
        ColumnKind::Number => ColumnDisplayType::Number,
        ColumnKind::Integer => ColumnDisplayType::Number,
        ColumnKind::Text => ColumnDisplayType::String,
        ColumnKind::Boolean => ColumnDisplayType::Boolean,
        ColumnKind::Date => ColumnDisplayType::Date,
        ColumnKind::Datetime => ColumnDisplayType::Datetime,
    }
}

/// The short type label of a column kind.
pub open spec fn label_of(k: ColumnKind) -> Seq<char> {
    match k {
        ColumnKind::Number => seq!['d', 'b', 'l'],
        ColumnKind::Integer => seq!['i', 'n', 't'],
        ColumnKind::Text => seq!['s', 't', 'r'],
        ColumnKind::Boolean => seq!['l', 'g', 'l'],
        ColumnKind::Date => seq!['D', 'a', 't', 'e'],
        ColumnKind::Datetime => seq!['P', 'O', 'S', 'I', 'X', 'c', 't'],
    }
}

/// `s` describes column `index` of `cols`.
pub open spec fn describes(s: ColumnSchema, cols: Seq<Column>, index: int) -> bool {
    &&& 0 <= index < cols.len()
    &&& s.column_index == index
    &&& s.column_name@ == cols[index].name@
    &&& s.kind == cols[index].kind
    &&& s.type_display == display_of(cols[index].kind)
    &&& s.type_label_text@ == label_of(cols[index].kind)
}

pub fn type_label(k: ColumnKind) -> (r: String)
    ensures
        r@ == label_of(k),
{
    let r = match k {
        ColumnKind::Number => String::from_str("dbl"),
        ColumnKind::Integer => String::from_str("int"),
        ColumnKind::Text => String::from_str("str"),
        ColumnKind::Boolean => String::from_str("lgl"),
        ColumnKind::Date => String::from_str("Date"),
        ColumnKind::Datetime => String::from_str("POSIXct"),
    };
    proof {
        reveal_strlit("dbl");
        reveal_strlit("int");
        reveal_strlit("str");
        reveal_strlit("lgl");
        reveal_strlit("Date");
        reveal_strlit("POSIXct");
    }
    assert(r@ =~= label_of(k));
    r
}

pub fn display_type(k: ColumnKind) -> (r: ColumnDisplayType)
    ensures
        r == display_of(k),
{
    match k {
        ColumnKind::Number => ColumnDisplayType::Number,
        ColumnKind::Integer => ColumnDisplayType::Number,
        ColumnKind::Text => ColumnDisplayType::String,
        ColumnKind::Boolean => ColumnDisplayType::Boolean,
        ColumnKind::Date => ColumnDisplayType::Date,
        ColumnKind::Datetime => ColumnDisplayType::Datetime,
    }
}

/// The schema of one column.
pub fn column_schema(table: &DataTable, index: usize) -> (r: ColumnSchema)
    requires
        index < table.columns@.len(),
    ensures
        describes(r, table.columns@, index as int),
{
    let c = &table.columns[index];
    ColumnSchema {
        column_name: c.name.clone(),
        column_index: index,
        type_label_text: type_label(c.kind),
        type_display: display_type(c.kind),
        kind: c.kind,
    }
}

/// The requested indices that name a column, in request order.
pub open spec fn indices_in_range(indices: Seq<usize>, n: int) -> Seq<usize> {
    indices.filter(|i: usize| i < n)
}

/// The schemas of the requested columns; indices past the last column are
/// dropped from the reply.
pub fn get_schema(table: &DataTable, indices: &Vec<usize>) -> (r: Vec<ColumnSchema>)
    ensures
        r@.len() == indices_in_range(indices@, table.columns@.len() as int).len(),
        forall|k: int|
            0 <= k < r@.len() ==> describes(
                #[trigger] r@[k],
                table.columns@,
                indices_in_range(indices@, table.columns@.len() as int)[k] as int,
            ),
{
    let ghost n = table.columns@.len() as int;
    let mut out: Vec<ColumnSchema> = Vec::new();
    let mut i: usize = 0;
    while i < indices.len()
        invariant
            n == table.columns@.len(),
            0 <= i <= indices@.len(),
            out@.len() == indices_in_range(indices@.subrange(0, i as int), n).len(),
            forall|k: int|
                0 <= k < out@.len() ==> describes(
                    #[trigger] out@[k],
                    table.columns@,
                    indices_in_range(indices@.subrange(0, i as int), n)[k] as int,
                ),
        decreases indices.len() - i,
    {
        let ghost pre = indices@.subrange(0, i as int);
        assert(indices@.subrange(0, i + 1) =~= pre.push(indices@[i as int]));
        reveal(Seq::filter);
        assert(pre.push(indices@[i as int]).drop_last() =~= pre);
        let c = indices[i];
        if c < table.columns.len() {
            let s = column_schema(table, c);
            out.push(s);
        }
        i = i + 1;
    }
    assert(indices@.subrange(0, indices@.len() as int) =~= indices@);
    out
}

/// The schemas of all columns, in order.
pub fn table_schema(table: &DataTable) -> (r: Vec<ColumnSchema>)
    ensures
        r@.len() == table.columns@.len(),
        forall|k: int| 0 <= k < r@.len() ==> describes(#[trigger] r@[k], table.columns@, k),
{
    let mut out: Vec<ColumnSchema> = Vec::new();
    let mut i: usize = 0;
    while i < table.columns.len()
        invariant
            0 <= i <= table.columns@.len(),
            out@.len() == i,
            forall|k: int| 0 <= k < i ==> describes(#[trigger] out@[k], table.columns@, k),
        decreases table.columns.len() - i,
    {
        out.push(column_schema(table, i));
        i = i + 1;
    }
    out
}

} // verus!
