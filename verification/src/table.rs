//! Columns of tables and the cells of their rows.

use vstd::prelude::*;

use crate::histogram::{CustomBound, Span};
use crate::labels::Labels;

verus! {

/// What the cells of a column hold.
#[derive(Clone, Copy, Debug, PartialEq, Eq, Structural)]
pub enum ColumnKind {
    Text,
    TextList,
    TextMap,
    Integer,
    SmallInteger,
    Unsigned,
    SmallUnsigned,
    Byte,
    Bytes,
    Float,
    Timestamp,
    SpanList,
    IntegerList,
    FloatList,
    Histogram,
}

/// A column of a table.
#[derive(Debug, PartialEq, Eq)]
pub struct Column {
    pub name: String,
    pub kind: ColumnKind,
    pub nullable: bool,
}

/// What a column is.
#[verifier::ext_equal]
pub struct ColumnModel {
    pub name: Seq<char>,
    pub kind: ColumnKind,
    pub nullable: bool,
}

impl View for Column {
    type V = ColumnModel;

    open spec fn view(&self) -> ColumnModel {
        ColumnModel { name: self.name@, kind: self.kind, nullable: self.nullable }
    }
}

/// A column that has a value in each row.
pub open spec fn required(name: Seq<char>, kind: ColumnKind) -> ColumnModel {
    ColumnModel { name, kind, nullable: false }
}

/// A column that has no value in some rows.
pub open spec fn optional(name: Seq<char>, kind: ColumnKind) -> ColumnModel {
    ColumnModel { name, kind, nullable: true }
}

/// The columns of a list.
pub open spec fn column_models(columns: Seq<Column>) -> Seq<ColumnModel> {
    columns.map_values(|column: Column| column@)
}

/// The fields of a histogram in a row: for each field that holds counts there is one for integers
/// and one for floats, and one of the two has a value.
pub struct HistogramCells {
    pub kind: &'static str,
    pub schema: i32,
    pub count_int: Option<u64>,
    pub count_float: Option<u64>,
    pub sum: u64,
    pub zero_threshold: u64,
    pub zero_count_int: Option<u64>,
    pub zero_count_float: Option<u64>,
    pub reset_hint: u8,
    pub positive_spans: Vec<Span>,
    pub negative_spans: Vec<Span>,
    pub positive_buckets_int: Option<Vec<i64>>,
    pub negative_buckets_int: Option<Vec<i64>>,
    pub positive_buckets_float: Option<Vec<u64>>,
    pub negative_buckets_float: Option<Vec<u64>>,
    pub custom_values: Vec<CustomBound>,
}

/// What the fields of a histogram hold.
#[verifier::ext_equal]
pub struct HistogramCellsModel {
    pub kind: Seq<char>,
    pub schema: i32,
    pub count_int: Option<u64>,
    pub count_float: Option<u64>,
    pub sum: u64,
    pub zero_threshold: u64,
    pub zero_count_int: Option<u64>,
    pub zero_count_float: Option<u64>,
    pub reset_hint: u8,
    pub positive_spans: Seq<Span>,
    pub negative_spans: Seq<Span>,
    pub positive_buckets_int: Option<Seq<i64>>,
    pub negative_buckets_int: Option<Seq<i64>>,
    pub positive_buckets_float: Option<Seq<u64>>,
    pub negative_buckets_float: Option<Seq<u64>>,
    pub custom_values: Seq<CustomBound>,
}

/// The values of a list that may be missing.
pub open spec fn list_view<T>(list: Option<Vec<T>>) -> Option<Seq<T>> {
    match list {
        Some(list) => Some(list@),
        None => None,
    }
}

impl View for HistogramCells {
    type V = HistogramCellsModel;

    open spec fn view(&self) -> HistogramCellsModel {
        HistogramCellsModel {
            kind: self.kind@,
            schema: self.schema,
            count_int: self.count_int,
            count_float: self.count_float,
            sum: self.sum,
            zero_threshold: self.zero_threshold,
            zero_count_int: self.zero_count_int,
            zero_count_float: self.zero_count_float,
            reset_hint: self.reset_hint,
            positive_spans: self.positive_spans@,
            negative_spans: self.negative_spans@,
            positive_buckets_int: list_view(self.positive_buckets_int),
            negative_buckets_int: list_view(self.negative_buckets_int),
            positive_buckets_float: list_view(self.positive_buckets_float),
            negative_buckets_float: list_view(self.negative_buckets_float),
            custom_values: self.custom_values@,
        }
    }
}

/// The value of a column in one row. A float is a bit pattern.
pub enum Cell {
    Null,
    Text(String),
    TextList(Vec<String>),
    TextMap(Labels),
    Integer(i64),
    SmallInteger(i32),
    Unsigned(u64),
    SmallUnsigned(u32),
    Float(u64),
    Timestamp(i64),
    Histogram(HistogramCells),
}

/// What the value of a column is.
pub enum CellModel {
    Null,
    Text(Seq<char>),
    TextList(Seq<String>),
    TextMap(Seq<(Seq<char>, Seq<char>)>),
    Integer(i64),
    SmallInteger(i32),
    Unsigned(u64),
    SmallUnsigned(u32),
    Float(u64),
    Timestamp(i64),
    Histogram(HistogramCellsModel),
}

impl View for Cell {
    type V = CellModel;

    open spec fn view(&self) -> CellModel {
        match self {
            Cell::Null => CellModel::Null,
            Cell::Text(text) => CellModel::Text(text@),
            Cell::TextList(texts) => CellModel::TextList(texts@),
            Cell::TextMap(labels) => CellModel::TextMap(labels.pairs()),
            Cell::Integer(number) => CellModel::Integer(*number),
            Cell::SmallInteger(number) => CellModel::SmallInteger(*number),
            Cell::Unsigned(number) => CellModel::Unsigned(*number),
            Cell::SmallUnsigned(number) => CellModel::SmallUnsigned(*number),
            Cell::Float(bits) => CellModel::Float(*bits),
            Cell::Timestamp(time) => CellModel::Timestamp(*time),
            Cell::Histogram(histogram) => CellModel::Histogram(histogram@),
        }
    }
}

/// The values of a row.
pub open spec fn cell_models(cells: Seq<Cell>) -> Seq<CellModel> {
    cells.map_values(|cell: Cell| cell@)
}

/// A value is what its column asks for.
pub open spec fn cell_fits(cell: CellModel, column: ColumnModel) -> bool {
    match cell {
        CellModel::Null => column.nullable,
        CellModel::Text(_) => column.kind == ColumnKind::Text,
        CellModel::TextList(_) => column.kind == ColumnKind::TextList,
        CellModel::TextMap(_) => column.kind == ColumnKind::TextMap,
        CellModel::Integer(_) => column.kind == ColumnKind::Integer,
        CellModel::SmallInteger(_) => column.kind == ColumnKind::SmallInteger,
        CellModel::Unsigned(_) => column.kind == ColumnKind::Unsigned,
        CellModel::SmallUnsigned(_) => column.kind == ColumnKind::SmallUnsigned,
        CellModel::Float(_) => column.kind == ColumnKind::Float,
        CellModel::Timestamp(_) => column.kind == ColumnKind::Timestamp,
        CellModel::Histogram(_) => column.kind == ColumnKind::Histogram,
    }
}

/// A row has one value for each column, and each is what its column asks for.
pub open spec fn cells_fit(cells: Seq<CellModel>, columns: Seq<ColumnModel>) -> bool {
    &&& cells.len() == columns.len()
    &&& forall|i: int| 0 <= i < cells.len() ==> cell_fits(#[trigger] cells[i], columns[i])
}

/// Adds a column that has a value in each row.
pub(crate) fn push_required(columns: &mut Vec<Column>, name: &str, kind: ColumnKind)
    ensures
        column_models(final(columns)@) == column_models(old(columns)@).push(required(name@, kind)),
{
    let ghost before = columns@;
    columns.push(Column { name: name.to_owned(), kind, nullable: false });
    assert(column_models(columns@) =~= column_models(before).push(required(name@, kind)));
}

/// Adds a column that has no value in some rows.
pub(crate) fn push_optional(columns: &mut Vec<Column>, name: &str, kind: ColumnKind)
    ensures
        column_models(final(columns)@) == column_models(old(columns)@).push(optional(name@, kind)),
{
    let ghost before = columns@;
    columns.push(Column { name: name.to_owned(), kind, nullable: true });
    assert(column_models(columns@) =~= column_models(before).push(optional(name@, kind)));
}

} // verus!
