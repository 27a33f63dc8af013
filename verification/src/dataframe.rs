//! Cells, columns and tables.

use crate::lines::{lemma_line_end, line_at, line_end, lines_until, next_line_end};
use crate::parsers::{
    lemma_schema_cells_fit, parse_line_with_schema, spec_parse_line_with_schema, LF,
};
use crate::schema::{cell_type, DataType};
use vstd::arithmetic::div_mod::lemma_fundamental_div_mod;
use vstd::prelude::*;

verus! {

/// One cell of a table: a value of one of the four types, or a missing
/// value. A float is held as the bit pattern of its IEEE-754 binary64
/// value.
#[derive(PartialEq, Clone, Debug)]
pub enum Data {
    /// A `String` cell.
    String(String),
    /// A `i64` cell.
    Int(i64),
    /// A binary64 cell, as its bits.
    Float(u64),
    /// A `bool` cell.
    Bool(bool),
    /// A missing value.
    Null,
}

/// What a cell holds, as a mathematical value.
pub enum DataView {
    /// The characters of a string.
    String(Seq<char>),
    /// An integer.
    Int(i64),
    /// The bits of a binary64 value.
    Float(u64),
    /// A boolean.
    Bool(bool),
    /// A missing value.
    Null,
}

impl View for Data {
    type V = DataView;

    open spec fn view(&self) -> DataView {
        match self {
            Data::String(s) => DataView::String(s@),
            Data::Int(n) => DataView::Int(*n),
            Data::Float(b) => DataView::Float(*b),
            Data::Bool(b) => DataView::Bool(*b),
            Data::Null => DataView::Null,
        }
    }
}

impl Data {
    /// Get the data assuming its a String
    pub fn unwrap_string(&self) -> (r: String)
        requires
            self is String,
        ensures
            self@ == DataView::String(r@),
    {
        match self {
            Data::String(s) => s.clone(),
            _ => String::new(),
        }
    }

    /// Get the data assuming its an int
    pub fn unwrap_int(&self) -> (r: i64)
        requires
            self is Int,
        ensures
            self@ == DataView::Int(r),
    {
        match self {
            Data::Int(n) => *n,
            _ => 0,
        }
    }

    /// Get the bits of the data assuming its a float
    pub fn unwrap_float(&self) -> (r: u64)
        requires
            self is Float,
        ensures
            self@ == DataView::Float(r),
    {
        match self {
            Data::Float(n) => *n,
            _ => 0,
        }
    }

    /// Get the data assuming its a bool
    pub fn unwrap_bool(&self) -> (r: bool)
        requires
            self is Bool,
        ensures
            self@ == DataView::Bool(r),
    {
        match self {
            Data::Bool(n) => *n,
            _ => false,
        }
    }
}

/// What the cells of a row hold.
pub open spec fn row_view(row: Seq<Data>) -> Seq<DataView> {
    row.map_values(|d: Data| d@)
}

/// Whether `r` is the row `m`, or both are none.
pub open spec fn row_as(r: Option<Vec<Data>>, m: Option<Seq<DataView>>) -> bool {
    match (r, m) {
        (Some(row), Some(cells)) => row_view(row@) == cells,
        (None, None) => true,
        _ => false,
    }
}

/// What the cells of each of some rows hold.
pub open spec fn rows_view(rows: Seq<Vec<Data>>) -> Seq<Seq<DataView>> {
    rows.map_values(|r: Vec<Data>| row_view(r@))
}

/// Represents a column of parsed data from a `SoR` file: cells of one
/// type, each present or missing. A float is held as the bit pattern of
/// its IEEE-754 binary64 value.
#[derive(PartialEq, Clone, Debug)]
pub enum Column {
    /// A Column consisting of optional `i64`s.
    Int(Vec<Option<i64>>),
    /// A Column consisting of optional `bool`s.
    Bool(Vec<Option<bool>>),
    /// A Column consisting of optional binary64 values, as their bits.
    Float(Vec<Option<u64>>),
    /// A Column consisting of optional `String`s.
    String(Vec<Option<String>>),
}

impl Column {
    /// The type of the cells of the column.
    pub open spec fn data_type(&self) -> DataType {
        match self {
            Column::Int(_) => DataType::Int,
            Column::Bool(_) => DataType::Bool,
            Column::Float(_) => DataType::Float,
            Column::String(_) => DataType::String,
        }
    }

    /// The number of cells of the column.
    pub open spec fn spec_len(&self) -> nat {
        match self {
            Column::Int(col) => col@.len(),
            Column::Bool(col) => col@.len(),
            Column::Float(col) => col@.len(),
            Column::String(col) => col@.len(),
        }
    }

    /// What the cell of row `r` holds.
    pub open spec fn cell(&self, r: int) -> DataView {
        match self {
            Column::Int(col) => match col@[r] {
                Some(n) => DataView::Int(n),
                None => DataView::Null,
            },
            Column::Bool(col) => match col@[r] {
                Some(b) => DataView::Bool(b),
                None => DataView::Null,
            },
            Column::Float(col) => match col@[r] {
                Some(b) => DataView::Float(b),
                None => DataView::Null,
            },
            Column::String(col) => match col@[r] {
                Some(s) => DataView::String(s@),
                None => DataView::Null,
            },
        }
    }

    /// The number of cells of the column.
    pub fn len(&self) -> (n: usize)
        ensures
            n == self@.len(),
    {
        match self {
            Column::Bool(col) => col.len(),
            Column::Int(col) => col.len(),
            Column::Float(col) => col.len(),
            Column::String(col) => col.len(),
        }
    }
}

impl View for Column {
    type V = Seq<DataView>;

    /// The cells of the column, from the first row to the last.
    open spec fn view(&self) -> Seq<DataView> {
        Seq::new(self.spec_len(), |r: int| self.cell(r))
    }
}

/// Every cell of a column is missing or of the column's type.
pub proof fn lemma_column_cells_typed(col: Column, r: int)
    requires
        0 <= r < col@.len(),
    ensures
        cell_type(col@[r]) is None || cell_type(col@[r]) == Some(col.data_type()),
{
}

/// The types of the columns of a table.
pub open spec fn table_types(table: Seq<Column>) -> Seq<DataType> {
    table.map_values(|c: Column| c.data_type())
}

/// The cells of a table, column by column.
pub open spec fn table_view(table: Seq<Column>) -> Seq<Seq<DataView>> {
    table.map_values(|c: Column| c@)
}

/// Whether a row has one cell for each type of `schema`, each missing or
/// of its column's type.
pub open spec fn row_fits(row: Seq<DataView>, schema: Seq<DataType>) -> bool {
    &&& row.len() == schema.len()
    &&& forall|c: int|
        0 <= c < row.len() ==> cell_type(#[trigger] row[c]) is None || cell_type(row[c]) == Some(
            schema[c],
        )
}

/// The first `width` columns of some rows: cell `r` of column `c` is cell
/// `c` of row `r`.
pub open spec fn columns_of(rows: Seq<Seq<DataView>>, width: nat) -> Seq<Seq<DataView>> {
    Seq::new(width, |c: int| Seq::new(rows.len(), |r: int| rows[r][c]))
}

/// Whether a table has the columns of `schema` and holds exactly the rows
/// `rows`, in their order.
pub open spec fn holds_rows(
    table: Seq<Column>,
    schema: Seq<DataType>,
    rows: Seq<Seq<DataView>>,
) -> bool {
    &&& table_types(table) == schema
    &&& table_view(table) == columns_of(rows, schema.len())
}

/// Whether all columns of a table have the same number of cells.
pub open spec fn rectangular(table: Seq<Column>) -> bool {
    forall|c: int, d: int|
        0 <= c < table.len() && 0 <= d < table.len() ==> (#[trigger] table[c])@.len() == (
        #[trigger] table[d])@.len()
}

/// A table that holds some rows has one cell in every column for each of
/// them.
pub proof fn lemma_holds_rows_rectangular(
    table: Seq<Column>,
    schema: Seq<DataType>,
    rows: Seq<Seq<DataView>>,
)
    requires
        holds_rows(table, schema, rows),
    ensures
        rectangular(table),
        table.len() == schema.len(),
        forall|c: int| 0 <= c < table.len() ==> (#[trigger] table[c])@.len() == rows.len(),
{
    assert(table_types(table).len() == table.len());
    assert forall|c: int| 0 <= c < table.len() implies (#[trigger] table[c])@.len()
        == rows.len() by {
        assert(table_view(table)[c] == table[c]@);
        assert(columns_of(rows, schema.len())[c].len() == rows.len());
    }
}

/// An empty column of the type `t`.
fn empty_column(t: &DataType) -> (col: Column)
    ensures
        col.data_type() == *t,
        col@ == Seq::<DataView>::empty(),
{
    let col = match t {
        DataType::Bool => Column::Bool(Vec::new()),
        DataType::Int => Column::Int(Vec::new()),
        DataType::Float => Column::Float(Vec::new()),
        DataType::String => Column::String(Vec::new()),
    };
    assert(col@ =~= Seq::<DataView>::empty());
    col
}

/// Generate a `Vec<Column>` matching the given schema.
pub fn init_columnar(schema: &[DataType]) -> (result: Vec<Column>)
    ensures
        holds_rows(result@, schema@, Seq::empty()),
{
    let mut result: Vec<Column> = Vec::new();
    let mut c: usize = 0;
    while c < schema.len()
        invariant
            c <= schema.len(),
            result.len() == c,
            forall|j: int| 0 <= j < c ==> (#[trigger] result@[j]).data_type() == schema@[j],
            forall|j: int| 0 <= j < c ==> (#[trigger] result@[j])@ == Seq::<DataView>::empty(),
        decreases schema.len() - c,
    {
        result.push(empty_column(&schema[c]));
        c += 1;
    }
    proof {
        assert(table_types(result@) =~= schema@);
        assert forall|j: int| 0 <= j < schema@.len() implies table_view(result@)[j] == columns_of(
            Seq::empty(),
            schema@.len(),
        )[j] by {
            assert(columns_of(Seq::empty(), schema@.len())[j] =~= Seq::<DataView>::empty());
        }
        assert(table_view(result@) =~= columns_of(Seq::empty(), schema@.len()));
    }
    result
}

/// Get the (i,j) element from the DataFrame
pub fn get(d: &[Column], col_idx: usize, row_idx: usize) -> (r: Data)
    requires
        col_idx < d@.len(),
        row_idx < d@[col_idx as int]@.len(),
    ensures
        r@ == d@[col_idx as int]@[row_idx as int],
{
    match &d[col_idx] {
        Column::Bool(b) => {
            if let Some(val) = &b[row_idx] {
                Data::Bool(*val)
            } else {
                Data::Null
            }
        },
        Column::Int(b) => {
            if let Some(val) = &b[row_idx] {
                Data::Int(*val)
            } else {
                Data::Null
            }
        },
        Column::Float(b) => {
            if let Some(val) = &b[row_idx] {
                Data::Float(*val)
            } else {
                Data::Null
            }
        },
        Column::String(b) => {
            if let Some(val) = &b[row_idx] {
                Data::String(val.clone())
            } else {
                Data::Null
            }
        },
    }
}

/// A column with one more cell.
fn push_cell(col: &mut Column, d: &Data)
    requires
        cell_type(d@) is None || cell_type(d@) == Some(old(col).data_type()),
    ensures
        final(col).data_type() == old(col).data_type(),
        final(col)@ == old(col)@.push(d@),
{
    match (d, col) {
        (Data::Bool(b), Column::Bool(c)) => {
            c.push(Some(*b));
        },
        (Data::Int(i), Column::Int(c)) => {
            c.push(Some(*i));
        },
        (Data::Float(f), Column::Float(c)) => {
            c.push(Some(*f));
        },
        (Data::String(s), Column::String(c)) => {
            c.push(Some(s.clone()));
        },
        (Data::Null, Column::Bool(c)) => {
            c.push(None);
        },
        (Data::Null, Column::Int(c)) => {
            c.push(None);
        },
        (Data::Null, Column::Float(c)) => {
            c.push(None);
        },
        (Data::Null, Column::String(c)) => {
            c.push(None);
        },
        _ => {
            assert(false);
        },
    }
    assert(final(col)@ =~= old(col)@.push(d@));
}

/// The columns `cols` with the cells of `row` behind them, one in each.
pub open spec fn with_row(cols: Seq<Seq<DataView>>, row: Seq<DataView>) -> Seq<Seq<DataView>> {
    Seq::new(cols.len(), |c: int| cols[c].push(row[c]))
}

/// The columns of some rows and one more are the columns of the rows with
/// the cells of the last behind them.
pub proof fn lemma_columns_of_push(rows: Seq<Seq<DataView>>, row: Seq<DataView>, width: nat)
    ensures
        columns_of(rows.push(row), width) == with_row(columns_of(rows, width), row),
{
    let a = columns_of(rows.push(row), width);
    let b = with_row(columns_of(rows, width), row);
    assert forall|c: int| 0 <= c < width implies a[c] == b[c] by {
        assert(a[c] =~= b[c]);
    }
    assert(a =~= b);
}

/// Puts the cells of `row` behind the columns of `table`, one in each.
pub fn push_row(table: &mut Vec<Column>, row: &Vec<Data>)
    requires
        row_fits(row_view(row@), table_types(old(table)@)),
    ensures
        table_types(final(table)@) == table_types(old(table)@),
        table_view(final(table)@) == with_row(table_view(old(table)@), row_view(row@)),
{
    let ghost types = table_types(table@);
    let ghost before = table_view(table@);
    let ghost cells = row_view(row@);
    let n: usize = table.len();
    let mut c: usize = 0;
    while c < n
        invariant
            c <= n == table.len() == row.len(),
            cells == row_view(row@),
            row_fits(cells, types),
            table_types(table@) == types,
            forall|j: int| 0 <= j < c ==> (#[trigger] table@[j])@ == before[j].push(cells[j]),
            forall|j: int| c <= j < n ==> (#[trigger] table@[j])@ == before[j],
        decreases n - c,
    {
        let ghost prev = table@;
        assert(types[c as int] == prev[c as int].data_type());
        assert(cells[c as int] == row@[c as int]@);
        push_cell(&mut table[c], &row[c]);
        proof {
            assert(table_types(table@) =~= types) by {
                assert forall|j: int| 0 <= j < n implies table_types(table@)[j] == types[j] by {
                    assert(types[j] == prev[j].data_type());
                }
            }
        }
        c += 1;
    }
    assert(table_view(table@) =~= with_row(before, cells));
}

/// The rows that the line of `s` from `start` to `end` gives: the row that
/// it is under `schema`, or none.
pub open spec fn line_rows(s: Seq<u8>, schema: Seq<DataType>, start: int, end: int) -> Seq<
    Seq<DataView>,
> {
    match spec_parse_line_with_schema(s.subrange(start, end), schema) {
        Some(row) => seq![row],
        None => Seq::empty(),
    }
}

/// The rows of the lines of `s` that `spans` gives, in their order: a line
/// that is no row under `schema` is left out.
pub open spec fn rows_of(s: Seq<u8>, schema: Seq<DataType>, spans: Seq<(int, int)>) -> Seq<
    Seq<DataView>,
>
    decreases spans.len(),
{
    if spans.len() == 0 {
        Seq::empty()
    } else {
        line_rows(s, schema, spans[0].0, spans[0].1) + rows_of(s, schema, spans.drop_first())
    }
}

/// The rows of two runs of lines, one after the other, are the rows of
/// the first followed by the rows of the second.
pub proof fn lemma_rows_of_add(
    s: Seq<u8>,
    schema: Seq<DataType>,
    a: Seq<(int, int)>,
    b: Seq<(int, int)>,
)
    ensures
        rows_of(s, schema, a + b) == rows_of(s, schema, a) + rows_of(s, schema, b),
    decreases a.len(),
{
    if a.len() == 0 {
        assert(a + b =~= b);
        assert(rows_of(s, schema, a) + rows_of(s, schema, b) =~= rows_of(s, schema, b));
    } else {
        lemma_rows_of_add(s, schema, a.drop_first(), b);
        assert((a + b).drop_first() =~= a.drop_first() + b);
        assert((a + b)[0] == a[0]);
        let first = line_rows(s, schema, a[0].0, a[0].1);
        assert(first + (rows_of(s, schema, a.drop_first()) + rows_of(s, schema, b)) =~= (first
            + rows_of(s, schema, a.drop_first())) + rows_of(s, schema, b));
    }
}

/// The rows that were read and those of the lines from `pos` on are the
/// rows that were read, those of the line at `pos`, and those of the lines
/// from its end on; and the columns of the rows with those of that line
/// are the columns of the rows with the cells of that line behind them,
/// where it is a row.
pub proof fn lemma_rows_next_line(
    s: Seq<u8>,
    schema: Seq<DataType>,
    done: Seq<Seq<DataView>>,
    pos: int,
    stop: int,
)
    requires
        0 <= pos < s.len(),
        line_end(s, pos) < stop,
    ensures
        done + rows_of(s, schema, lines_until(s, pos, stop)) == (done + line_rows(
            s,
            schema,
            pos,
            line_end(s, pos),
        )) + rows_of(s, schema, lines_until(s, line_end(s, pos), stop)),
        columns_of(done + line_rows(s, schema, pos, line_end(s, pos)), schema.len())
            == with_parsed(
            columns_of(done, schema.len()),
            spec_parse_line_with_schema(s.subrange(pos, line_end(s, pos)), schema),
        ),
{
    let end = line_end(s, pos);
    let spans = lines_until(s, pos, stop);
    let rest = rows_of(s, schema, lines_until(s, end, stop));
    let first = line_rows(s, schema, pos, end);
    assert(spans.drop_first() =~= lines_until(s, end, stop));
    assert(spans[0] == (pos, end));
    assert(done + (first + rest) =~= (done + first) + rest);
    match spec_parse_line_with_schema(s.subrange(pos, end), schema) {
        Some(row) => {
            lemma_columns_of_push(done, row, schema.len());
            assert(done + first =~= done.push(row));
        },
        None => {
            assert(done + first =~= done);
        },
    }
}

/// No row follows where the text ends or the next line ends at the bound
/// or behind it.
pub proof fn lemma_rows_no_line(
    s: Seq<u8>,
    schema: Seq<DataType>,
    done: Seq<Seq<DataView>>,
    pos: int,
    stop: int,
)
    requires
        pos >= s.len() || line_end(s, pos) >= stop,
    ensures
        done + rows_of(s, schema, lines_until(s, pos, stop)) == done,
{
    assert(lines_until(s, pos, stop) =~= Seq::<(int, int)>::empty());
    assert(done + Seq::<Seq<DataView>>::empty() =~= done);
}

/// Where the reading of a unit that was asked to start at `from` starts:
/// at `from`, or else, where the unit passes over its first line, behind
/// the line that holds `from`.
pub open spec fn unit_begin(s: Seq<u8>, from: int, skip_first: bool) -> int {
    if skip_first {
        line_end(s, from)
    } else {
        from
    }
}

/// The lines that a unit of `len` bytes from `from` on reads: those from
/// where it starts reading on that end less than `len` bytes behind `from`.
pub open spec fn unit_lines(s: Seq<u8>, from: int, len: int, skip_first: bool) -> Seq<
    (int, int),
> {
    lines_until(s, unit_begin(s, from, skip_first), from + len)
}

/// The rows that a unit of `len` bytes from `from` on holds.
pub open spec fn unit_rows(
    s: Seq<u8>,
    schema: Seq<DataType>,
    from: int,
    len: int,
    skip_first: bool,
) -> Seq<Seq<DataView>> {
    rows_of(s, schema, unit_lines(s, from, len, skip_first))
}

/// Where the reading of a chunk that was asked to start at `from` starts:
/// at the start of `s`, or else behind the line that holds `from`.
pub open spec fn chunk_start(s: Seq<u8>, from: int) -> int {
    unit_begin(s, from, from != 0)
}

/// The lines that the chunk of `len` bytes from `from` on reads: a chunk
/// passes over its first line unless it starts at byte 0.
pub open spec fn chunk_lines(s: Seq<u8>, from: int, len: int) -> Seq<(int, int)> {
    unit_lines(s, from, len, from != 0)
}

/// The rows that the chunk of `len` bytes from `from` on holds.
pub open spec fn chunk_rows(s: Seq<u8>, schema: Seq<DataType>, from: int, len: int) -> Seq<
    Seq<DataView>,
> {
    rows_of(s, schema, chunk_lines(s, from, len))
}

/// The columns `cols` after the line that gave `parsed`: with its cells
/// behind them where it is a row, and as they are where it is none.
pub open spec fn with_parsed(cols: Seq<Seq<DataView>>, parsed: Option<Seq<DataView>>) -> Seq<
    Seq<DataView>,
> {
    match parsed {
        Some(row) => with_row(cols, row),
        None => cols,
    }
}

/// Reads `line` under `schema` and, where it is a row, puts its cells
/// behind the columns of `table`. Says whether it was a row.
pub fn parse_row(line: &[u8], schema: &Vec<DataType>, table: &mut Vec<Column>) -> (added: bool)
    requires
        table_types(old(table)@) == schema@,
    ensures
        table_types(final(table)@) == schema@,
        added == spec_parse_line_with_schema(line@, schema@) is Some,
        table_view(final(table)@) == with_parsed(
            table_view(old(table)@),
            spec_parse_line_with_schema(line@, schema@),
        ),
        !added ==> *final(table) == *old(table),
{
    match parse_line_with_schema(line, schema) {
        Some(data) => {
            proof {
                lemma_schema_cells_fit(line@, schema@);
            }
            push_row(table, &data);
            true
        },
        None => false,
    }
}

/// The reading of one chunk, line by line. Whoever holds the text hands
/// over the lines from the chunk's first byte on, each with its line feed,
/// as long as `feed` asks for more.
pub struct ChunkReader {
    /// The types of the columns.
    pub schema: Vec<DataType>,
    /// The number of bytes of the chunk.
    pub len: usize,
    /// The number of bytes that were handed over.
    pub so_far: usize,
    /// Whether the next line is the one that the chunk starts in, which
    /// belongs to the chunk before.
    pub skip_first: bool,
    /// The rows that were read.
    pub table: Vec<Column>,
}

impl ChunkReader {
    /// Whether the table has the columns of the schema.
    pub open spec fn wf(&self) -> bool {
        table_types(self.table@) == self.schema@
    }

    /// A reader for the chunk of `len` bytes that starts at byte `from`:
    /// it has read no row, and passes over its first line unless it starts
    /// at byte 0.
    pub fn new(schema: Vec<DataType>, from: usize, len: usize) -> (r: Self)
        ensures
            r.wf(),
            r.schema@ == schema@,
            r.len == len,
            r.so_far == 0,
            r.skip_first == (from != 0),
            holds_rows(r.table@, schema@, Seq::empty()),
    {
        ChunkReader::with_skip(schema, from != 0, len)
    }

    /// A reader for a unit of `len` bytes that passes over its first line
    /// where `skip_first` says so: it has read no row.
    pub fn with_skip(schema: Vec<DataType>, skip_first: bool, len: usize) -> (r: Self)
        ensures
            r.wf(),
            r.schema@ == schema@,
            r.len == len,
            r.so_far == 0,
            r.skip_first == skip_first,
            holds_rows(r.table@, schema@, Seq::empty()),
    {
        let table = init_columnar(schema.as_slice());
        ChunkReader { schema, len, so_far: 0, skip_first, table }
    }

    /// Takes the next line, and says whether the chunk goes on. The line
    /// that the chunk starts in is passed over. The chunk is over with an
    /// empty line, which is the end of the text, and with the line that
    /// takes the bytes handed over to the chunk's length or beyond; neither
    /// is read. Any other line is read under the schema and, where it is a
    /// row, put behind the table.
    pub fn feed(&mut self, line: &[u8]) -> (more: bool)
        requires
            old(self).wf(),
        ensures
            final(self).wf(),
            final(self).schema == old(self).schema,
            final(self).len == old(self).len,
            !final(self).skip_first,
            old(self).skip_first ==> more && final(self).so_far == line.len() && final(self).table
                == old(self).table,
            !old(self).skip_first ==> more == (line.len() > 0 && old(self).so_far + line.len()
                < old(self).len),
            !old(self).skip_first && !more ==> final(self).table == old(self).table,
            !old(self).skip_first && !more ==> final(self).so_far == old(self).so_far,
            !old(self).skip_first && more ==> final(self).so_far == old(self).so_far + line.len()
                && table_view(final(self).table@) == with_parsed(
                table_view(old(self).table@),
                spec_parse_line_with_schema(line@, old(self).schema@),
            ),
    {
        if self.skip_first {
            self.skip_first = false;
            self.so_far = line.len();
            return true;
        }
        let so_far = match self.so_far.checked_add(line.len()) {
            Some(n) => n,
            None => {
                return false;
            },
        };
        if line.len() == 0 || so_far >= self.len {
            return false;
        }
        self.so_far = so_far;
        parse_row(line, &self.schema, &mut self.table);
        true
    }

    /// The table of the rows that were read.
    pub fn finish(self) -> (table: Vec<Column>)
        ensures
            table == self.table,
    {
        self.table
    }
}

/// Reads the unit of `len` bytes of the text `data` that starts at byte
/// `from`. Where `skip_first` says so, the line that holds byte `from` is
/// passed over. Then every line is read that ends less than `len` bytes
/// behind `from`; those that are rows under `schema` make the table.
pub fn read_unit(
    schema: Vec<DataType>,
    data: &[u8],
    from: usize,
    len: usize,
    skip_first: bool,
) -> (table: Vec<Column>)
    ensures
        holds_rows(
            table@,
            schema@,
            unit_rows(data@, schema@, from as int, len as int, skip_first),
        ),
        rectangular(table@),
{
    let ghost s = data@;
    let ghost types = schema@;
    let ghost stop = from + len;
    let ghost all = unit_rows(s, types, from as int, len as int, skip_first);
    let mut chunk = ChunkReader::with_skip(schema, skip_first, len);
    if from >= data.len() {
        proof {
            lemma_rows_no_line(
                s,
                types,
                Seq::empty(),
                unit_begin(s, from as int, skip_first),
                stop,
            );
            lemma_holds_rows_rectangular(chunk.table@, types, Seq::empty());
        }
        return chunk.finish();
    }
    let mut pos: usize = from;
    if skip_first {
        let end = next_line_end(data, pos);
        chunk.feed(&data[pos..end]);
        pos = end;
    }
    let ghost rows: Seq<Seq<DataView>> = Seq::empty();
    assert(rows + all =~= all);
    loop
        invariant_except_break
            from <= pos <= data.len(),
            chunk.so_far + from == pos,
            all == rows + rows_of(s, types, lines_until(s, pos as int, stop)),
        invariant
            s == data@,
            stop == from + len,
            chunk.wf(),
            !chunk.skip_first,
            chunk.schema@ == types,
            chunk.len == len,
            holds_rows(chunk.table@, types, rows),
        ensures
            all == rows,
        decreases data.len() - pos,
    {
        let end = next_line_end(data, pos);
        let more = chunk.feed(&data[pos..end]);
        if !more {
            proof {
                lemma_rows_no_line(s, types, rows, pos as int, stop);
            }
            break ;
        }
        proof {
            lemma_rows_next_line(s, types, rows, pos as int, stop);
            rows = rows + line_rows(s, types, pos as int, end as int);
        }
        pos = end;
    }
    proof {
        lemma_holds_rows_rectangular(chunk.table@, types, rows);
    }
    chunk.finish()
}

/// Reads the chunk of `len` bytes of the text `data` that starts at byte
/// `from`. Where `from` is not 0, the line that holds byte `from` is left
/// to the chunk before. Then every line is read that ends less than `len`
/// bytes behind `from`; those that are rows under `schema` make the table.
pub fn read_chunk(schema: Vec<DataType>, data: &[u8], from: usize, len: usize) -> (table: Vec<
    Column,
>)
    ensures
        holds_rows(table@, schema@, chunk_rows(data@, schema@, from as int, len as int)),
        rectangular(table@),
{
    read_unit(schema, data, from, len, from != 0)
}

/// The number of bytes of the window of `len` bytes from byte `from` on in
/// a text of `file_len` bytes: `len`, but for `usize::MAX`, which stands
/// for all that follows `from`.
pub open spec fn spec_window_len(file_len: int, from: int, len: int) -> int {
    if len != usize::MAX {
        len
    } else if from <= file_len {
        file_len - from
    } else {
        0
    }
}

/// The number of bytes of the window of `len` bytes from byte `from` on.
pub fn window_len(file_len: usize, from: usize, len: usize) -> (n: usize)
    ensures
        n == spec_window_len(file_len as int, from as int, len as int),
{
    if len != usize::MAX {
        len
    } else if from <= file_len {
        file_len - from
    } else {
        0
    }
}

/// The share of each of `workers` workers in `num_bytes` bytes: the
/// quotient, rounded up.
pub open spec fn spec_chunk_step(num_bytes: int, workers: int) -> int {
    if num_bytes % workers == 0 {
        num_bytes / workers
    } else {
        num_bytes / workers + 1
    }
}

/// The shares of all workers together hold all bytes, and one byte less
/// for each would not; no share is more than all bytes.
pub proof fn lemma_chunk_step(num_bytes: int, workers: int)
    requires
        0 <= num_bytes,
        1 <= workers,
    ensures
        0 <= spec_chunk_step(num_bytes, workers) <= num_bytes,
        workers * spec_chunk_step(num_bytes, workers) >= num_bytes,
        num_bytes > 0 ==> workers * (spec_chunk_step(num_bytes, workers) - 1) < num_bytes,
        spec_chunk_step(num_bytes, workers) == 0 <==> num_bytes == 0,
{
    let q = num_bytes / workers;
    let r = num_bytes % workers;
    lemma_fundamental_div_mod(num_bytes, workers);
    assert(0 <= r < workers);
    assert(num_bytes == workers * q + r);
    assert(q >= 0 && (q >= 1 ==> workers * q >= q) && workers * (q + 1) == workers * q + workers
        && workers * (q - 1) == workers * q - workers) by (nonlinear_arith)
        requires
            workers >= 1,
            num_bytes == workers * q + r,
            0 <= r < workers,
            num_bytes >= 0,
    ;
}

/// The share of each of `workers` workers in `num_bytes` bytes.
pub fn chunk_step(num_bytes: usize, workers: usize) -> (step: usize)
    requires
        workers >= 1,
    ensures
        step == spec_chunk_step(num_bytes as int, workers as int),
{
    proof {
        lemma_chunk_step(num_bytes as int, workers as int);
    }
    if num_bytes % workers == 0 {
        num_bytes / workers
    } else {
        num_bytes / workers + 1
    }
}

/// The byte at which unit `i` starts: `i` steps behind `from`.
pub open spec fn unit_start(from: int, step: int, i: int) -> int {
    from + i * step
}

/// The units of a plan for `workers` workers. Unit `i` starts `i` steps
/// behind `from`. The last is one step long. Each other one is one step
/// long and as much longer as the line that its successor starts in goes
/// on from there, and one byte more: `probes[i]` is that number of bytes
/// for unit `i`.
pub open spec fn spec_plan_units(from: int, step: int, workers: int, probes: Seq<usize>) -> Seq<
    (int, int),
> {
    Seq::new(
        workers as nat,
        |i: int|
            (
                unit_start(from, step, i),
                if i < probes.len() {
                    step + probes[i] + 1
                } else {
                    step
                },
            ),
    )
}

/// The number of bytes from position `pos` to the end of its line.
pub open spec fn probe_len(s: Seq<u8>, pos: int) -> int {
    line_end(s, pos) - pos
}

/// For each unit but the first, the number of bytes from its start to the
/// end of the line that it starts in.
pub open spec fn spec_probes(s: Seq<u8>, from: int, step: int, workers: int) -> Seq<usize> {
    Seq::new(
        (workers - 1) as nat,
        |i: int| probe_len(s, unit_start(from, step, i + 1)) as usize,
    )
}

/// The units of the plan for reading the text `s` from byte `from` on in
/// steps of `step` bytes with `workers` workers.
pub open spec fn spec_plan(s: Seq<u8>, from: int, step: int, workers: int) -> Seq<(int, int)> {
    spec_plan_units(from, step, workers, spec_probes(s, from, step, workers))
}

/// Work units as pairs of integers.
pub open spec fn spans_view(units: Seq<(usize, usize)>) -> Seq<(int, int)> {
    units.map_values(|u: (usize, usize)| (u.0 as int, u.1 as int))
}

/// Whether the first bytes of the units of a plan can be held in a
/// `usize`.
pub open spec fn spec_starts_fit(from: int, step: int, workers: int) -> bool {
    workers >= 1 && unit_start(from, step, workers - 1) <= usize::MAX
}

/// Whether the first bytes of the units of a plan can be held in a
/// `usize`.
pub fn starts_fit(from: usize, step: usize, workers: usize) -> (r: bool)
    ensures
        r == spec_starts_fit(from as int, step as int, workers as int),
{
    if workers == 0 {
        return false;
    }
    match (workers - 1).checked_mul(step) {
        Some(n) => from.checked_add(n).is_some(),
        None => false,
    }
}

/// Whether the length of every unit that is longer than one step can be
/// held in a `usize`.
pub open spec fn spec_probes_fit(step: int, probes: Seq<usize>) -> bool {
    forall|i: int| 0 <= i < probes.len() ==> step + #[trigger] probes[i] + 1 <= usize::MAX
}

/// Whether the length of every unit that is longer than one step can be
/// held in a `usize`.
pub fn probes_fit(step: usize, probes: &Vec<usize>) -> (r: bool)
    ensures
        r == spec_probes_fit(step as int, probes@),
{
    let mut i: usize = 0;
    while i < probes.len()
        invariant
            i <= probes.len(),
            forall|j: int| 0 <= j < i ==> step + #[trigger] probes[j] + 1 <= usize::MAX,
        decreases probes.len() - i,
    {
        let fits = match step.checked_add(probes[i]) {
            Some(n) => n < usize::MAX,
            None => false,
        };
        if !fits {
            return false;
        }
        i += 1;
    }
    true
}

/// Whether the first byte and the length of every unit of the plan for the
/// window of `len` bytes from `from` on of the text `s` with `workers`
/// workers can be held in a `usize`, and there is a worker.
pub open spec fn spec_plan_fits(s: Seq<u8>, from: int, len: int, workers: int) -> bool {
    let step = spec_chunk_step(spec_window_len(s.len() as int, from, len), workers);
    spec_starts_fit(from, step, workers) && spec_probes_fit(
        step,
        spec_probes(s, from, step, workers),
    )
}

/// The byte at which unit `i` starts.
pub fn unit_offset(from: usize, step: usize, i: usize) -> (offset: usize)
    requires
        unit_start(from as int, step as int, i as int) <= usize::MAX,
    ensures
        offset == unit_start(from as int, step as int, i as int),
{
    assert(i * step >= 0) by (nonlinear_arith)
        requires
            i >= 0,
            step >= 0,
    ;
    from + i * step
}

/// Unit `i` of a plan starts no later than unit `j` behind it.
pub proof fn lemma_unit_start_monotone(from: int, step: int, i: int, j: int)
    requires
        0 <= step,
        0 <= i <= j,
    ensures
        from <= unit_start(from, step, i) <= unit_start(from, step, j),
        unit_start(from, step, i + 1) == unit_start(from, step, i) + step,
{
    assert(0 <= i * step <= j * step && (i + 1) * step == i * step + step) by (nonlinear_arith)
        requires
            0 <= step,
            0 <= i <= j,
    ;
}

/// The units of a plan, from where the reading starts, the step, the
/// number of workers, and what was found at the start of each unit but
/// the first.
pub fn plan_units(from: usize, step: usize, workers: usize, probes: &Vec<usize>) -> (work: Vec<
    (usize, usize),
>)
    requires
        spec_starts_fit(from as int, step as int, workers as int),
        probes.len() == workers - 1,
        spec_probes_fit(step as int, probes@),
    ensures
        spans_view(work@) == spec_plan_units(from as int, step as int, workers as int, probes@),
{
    let mut work: Vec<(usize, usize)> = Vec::new();
    let mut i: usize = 0;
    while i < workers
        invariant
            i <= workers,
            spec_starts_fit(from as int, step as int, workers as int),
            probes.len() == workers - 1,
            spec_probes_fit(step as int, probes@),
            work.len() == i,
            forall|j: int|
                0 <= j < i ==> (#[trigger] work@[j]).0 == unit_start(from as int, step as int, j)
                    && work@[j].1 == (if j < probes.len() {
                    step + probes[j] + 1
                } else {
                    step as int
                }),
        decreases workers - i,
    {
        proof {
            lemma_unit_start_monotone(from as int, step as int, i as int, workers - 1);
        }
        let start = unit_offset(from, step, i);
        let len: usize = if i < probes.len() {
            step + probes[i] + 1
        } else {
            step
        };
        work.push((start, len));
        i += 1;
    }
    assert(spans_view(work@) =~= spec_plan_units(
        from as int,
        step as int,
        workers as int,
        probes@,
    ));
    work
}

/// A window can be planned whenever its last byte and the number of
/// workers together can be held in a `usize`, and the text is shorter than
/// the greatest `usize`.
pub proof fn lemma_plan_fits(s: Seq<u8>, from: int, len: int, workers: int)
    requires
        0 <= from,
        0 <= len <= usize::MAX,
        1 <= workers,
        s.len() < usize::MAX,
        from + spec_window_len(s.len() as int, from, len) + workers <= usize::MAX,
    ensures
        spec_plan_fits(s, from, len, workers),
{
    let bytes = spec_window_len(s.len() as int, from, len);
    let step = spec_chunk_step(bytes, workers);
    lemma_chunk_step(bytes, workers);
    assert((workers - 1) * step <= bytes + workers) by (nonlinear_arith)
        requires
            1 <= workers,
            0 <= step <= bytes,
            bytes > 0 ==> workers * (step - 1) < bytes,
            step == 0 <==> bytes == 0,
    ;
    let probes = spec_probes(s, from, step, workers);
    assert forall|i: int| 0 <= i < probes.len() implies step + #[trigger] probes[i] + 1
        <= usize::MAX by {
        let start = unit_start(from, step, i + 1);
        lemma_unit_start_monotone(from, step, 1, i + 1);
        assert(unit_start(from, step, 1) == from + step) by (nonlinear_arith);
        if start < s.len() {
            lemma_line_end(s, start);
        }
    }
}

/// Finds, for each unit of a plan but the first, how far the line goes on
/// that the unit starts in.
pub fn probe_units(data: &[u8], from: usize, step: usize, workers: usize) -> (probes: Vec<usize>)
    requires
        spec_starts_fit(from as int, step as int, workers as int),
    ensures
        probes@ == spec_probes(data@, from as int, step as int, workers as int),
{
    let ghost want = spec_probes(data@, from as int, step as int, workers as int);
    let mut probes: Vec<usize> = Vec::new();
    let mut i: usize = 1;
    while i < workers
        invariant
            1 <= i <= workers,
            spec_starts_fit(from as int, step as int, workers as int),
            want == spec_probes(data@, from as int, step as int, workers as int),
            probes.len() == i - 1,
            forall|j: int| 0 <= j < i - 1 ==> #[trigger] probes@[j] == want[j],
        decreases workers - i,
    {
        proof {
            lemma_unit_start_monotone(from as int, step as int, i as int, workers - 1);
        }
        // the line that this unit starts in is left to the unit before
        let so_far = unit_offset(from, step, i);
        let probe: usize = if so_far < data.len() {
            next_line_end(data, so_far) - so_far
        } else {
            0
        };
        probes.push(probe);
        i += 1;
    }
    assert(probes@ =~= want);
    probes
}

/// Whether the window of `len` bytes from `from` on of the text `data` can
/// be planned for `workers` workers: there is a worker, and the first byte
/// and the length of every unit can be held in a `usize`.
pub fn plan_fits(data: &[u8], from: usize, len: usize, workers: usize) -> (r: bool)
    ensures
        r == spec_plan_fits(data@, from as int, len as int, workers as int),
{
    if workers == 0 {
        return false;
    }
    let step = chunk_step(window_len(data.len(), from, len), workers);
    if !starts_fit(from, step, workers) {
        return false;
    }
    let probes = probe_units(data, from, step, workers);
    probes_fit(step, &probes)
}

/// Plans the reading of the window of `len` bytes from byte `from` on of
/// the text `data` with `num_threads` workers: one unit for each, as its
/// first byte and its number of bytes.
pub fn plan_chunks(data: &[u8], from: usize, len: usize, num_threads: usize) -> (work: Vec<
    (usize, usize),
>)
    requires
        spec_plan_fits(data@, from as int, len as int, num_threads as int),
    ensures
        spans_view(work@) == spec_plan(
            data@,
            from as int,
            spec_chunk_step(
                spec_window_len(data.len() as int, from as int, len as int),
                num_threads as int,
            ),
            num_threads as int,
        ),
{
    // the total number of bytes to read
    let num_chars = window_len(data.len(), from, len);
    // each worker will read this many bytes, give or take a line
    let step = chunk_step(num_chars, num_threads);
    let probes = probe_units(data, from, step, num_threads);
    plan_units(from, step, num_threads, &probes)
}

/// The columns `a`, each with the cells of the column of `b` at its place
/// behind it.
pub open spec fn merged(a: Seq<Seq<DataView>>, b: Seq<Seq<DataView>>) -> Seq<Seq<DataView>> {
    Seq::new(a.len(), |c: int| a[c] + b[c])
}

/// The columns of two runs of rows, one after the other, are the columns
/// of the first with those of the second behind them.
pub proof fn lemma_columns_of_add(a: Seq<Seq<DataView>>, b: Seq<Seq<DataView>>, width: nat)
    ensures
        columns_of(a + b, width) == merged(columns_of(a, width), columns_of(b, width)),
{
    let x = columns_of(a + b, width);
    let y = merged(columns_of(a, width), columns_of(b, width));
    assert forall|c: int| 0 <= c < width implies x[c] == y[c] by {
        assert(x[c] =~= y[c]);
    }
    assert(x =~= y);
}

/// Moves the cells of `partial` behind those of `complete`.
fn append_cells(complete: &mut Column, partial: &mut Column)
    requires
        old(complete).data_type() == old(partial).data_type(),
    ensures
        final(complete).data_type() == old(complete).data_type(),
        final(complete)@ == old(complete)@ + old(partial)@,
        final(partial).data_type() == old(partial).data_type(),
        final(partial)@ == Seq::<DataView>::empty(),
{
    match (complete, partial) {
        (Column::Bool(c1), Column::Bool(c2)) => {
            c1.append(c2);
        },
        (Column::Int(c1), Column::Int(c2)) => {
            c1.append(c2);
        },
        (Column::Float(c1), Column::Float(c2)) => {
            c1.append(c2);
        },
        (Column::String(c1), Column::String(c2)) => {
            c1.append(c2);
        },
        _ => {
            assert(false);
        },
    }
    assert(final(complete)@ =~= old(complete)@ + old(partial)@);
    assert(final(partial)@ =~= Seq::<DataView>::empty());
}

/// Moves the cells of each column of `partial` behind the column of
/// `complete` at its place, and leaves the columns of `partial` empty.
pub fn append_columns(complete: &mut Vec<Column>, partial: &mut Vec<Column>)
    requires
        table_types(old(complete)@) == table_types(old(partial)@),
    ensures
        table_types(final(complete)@) == table_types(old(complete)@),
        table_view(final(complete)@) == merged(
            table_view(old(complete)@),
            table_view(old(partial)@),
        ),
        holds_rows(final(partial)@, table_types(old(partial)@), Seq::empty()),
{
    let ghost types = table_types(complete@);
    let ghost before = table_view(complete@);
    let ghost more = table_view(partial@);
    assert(table_types(partial@).len() == partial.len());
    let n: usize = complete.len();
    let mut c: usize = 0;
    while c < n
        invariant
            c <= n == complete.len() == partial.len(),
            table_types(complete@) == types,
            forall|j: int| 0 <= j < n ==> (#[trigger] partial@[j]).data_type() == types[j],
            forall|j: int| 0 <= j < c ==> (#[trigger] partial@[j])@ == Seq::<DataView>::empty(),
            forall|j: int| 0 <= j < c ==> (#[trigger] complete@[j])@ == before[j] + more[j],
            forall|j: int| c <= j < n ==> (#[trigger] complete@[j])@ == before[j],
            forall|j: int| c <= j < n ==> (#[trigger] partial@[j])@ == more[j],
        decreases n - c,
    {
        let ghost prev = complete@;
        assert(types[c as int] == prev[c as int].data_type());
        append_cells(&mut complete[c], &mut partial[c]);
        proof {
            assert(table_types(complete@) =~= types) by {
                assert forall|j: int| 0 <= j < n implies table_types(complete@)[j]
                    == types[j] by {
                    assert(types[j] == prev[j].data_type());
                }
            }
        }
        c += 1;
    }
    assert(table_view(complete@) =~= merged(before, more));
    assert(table_types(partial@) =~= types);
    assert(table_view(partial@) =~= columns_of(Seq::empty(), types.len())) by {
        assert forall|j: int| 0 <= j < n implies table_view(partial@)[j] =~= columns_of(
            Seq::empty(),
            types.len(),
        )[j] by {}
    }
}

/// The byte before byte `from` of `s`, where there is one.
pub open spec fn spec_byte_before(s: Seq<u8>, from: int) -> Option<u8> {
    if 0 < from <= s.len() {
        Some(s[from - 1])
    } else {
        None
    }
}

/// The byte before byte `from` of `data`, where there is one.
pub fn byte_before(data: &[u8], from: usize) -> (before: Option<u8>)
    ensures
        before == spec_byte_before(data@, from as int),
{
    if 0 < from && from <= data.len() {
        Some(data[from - 1])
    } else {
        None
    }
}

/// Whether the worker of a unit that starts at byte `from` passes over its
/// first line, given the byte before `from`. A worker that has others
/// beside it does so unless it starts at byte 0: its first line belongs to
/// the unit before. A worker that reads alone has no unit before it: it
/// does so unless it starts at byte 0 or behind a line feed, which is at
/// the start of a line.
pub open spec fn spec_skips_first_line(from: int, workers: int, before: Option<u8>) -> bool {
    if workers == 1 {
        from != 0 && before != Some(LF)
    } else {
        from != 0
    }
}

/// Whether the worker of a unit that starts at byte `from` passes over its
/// first line, given the byte before `from`.
pub fn skips_first_line(from: usize, workers: usize, before: Option<u8>) -> (skip: bool)
    ensures
        skip == spec_skips_first_line(from as int, workers as int, before),
{
    if workers == 1 {
        match before {
            Some(b) => from != 0 && b != LF,
            None => from != 0,
        }
    } else {
        from != 0
    }
}

/// Whether the first of `workers` workers that read the text `s` from byte
/// `from` on passes over its first line.
pub open spec fn file_skips_first(s: Seq<u8>, from: int, workers: int) -> bool {
    spec_skips_first_line(from, workers, spec_byte_before(s, from))
}

/// Where `workers` workers start to read the text `s` when they are asked
/// to read from byte `from` on.
pub open spec fn file_start(s: Seq<u8>, from: int, workers: int) -> int {
    unit_begin(s, from, file_skips_first(s, from, workers))
}

/// The lines that the workers read who are given the units `units`, unit
/// by unit. The first passes over its first line where `skip_first` says
/// so; each other one is read as a chunk.
pub open spec fn plan_lines(s: Seq<u8>, units: Seq<(int, int)>, skip_first: bool) -> Seq<
    (int, int),
>
    decreases units.len(),
{
    if units.len() == 0 {
        Seq::empty()
    } else if units.len() == 1 {
        unit_lines(s, units[0].0, units[0].1, skip_first)
    } else {
        plan_lines(s, units.drop_last(), skip_first) + chunk_lines(
            s,
            units.last().0,
            units.last().1,
        )
    }
}

/// The step of the plan for the window of `len` bytes from `from` on of
/// the text `s` with `workers` workers.
pub open spec fn file_step(s: Seq<u8>, from: int, len: int, workers: int) -> int {
    spec_chunk_step(spec_window_len(s.len() as int, from, len), workers)
}

/// The lines of the text `s` that make the table of the window of `len`
/// bytes from `from` on, read by `workers` workers.
pub open spec fn file_lines(s: Seq<u8>, from: int, len: int, workers: int) -> Seq<(int, int)> {
    plan_lines(
        s,
        spec_plan(s, from, file_step(s, from, len, workers), workers),
        file_skips_first(s, from, workers),
    )
}

/// The rows of the table of the window of `len` bytes from `from` on of
/// the text `s`, read by `workers` workers.
pub open spec fn spec_from_file(
    s: Seq<u8>,
    schema: Seq<DataType>,
    from: int,
    len: int,
    workers: int,
) -> Seq<Seq<DataView>> {
    rows_of(s, schema, file_lines(s, from, len, workers))
}

/// A copy of `schema`.
fn clone_schema(schema: &Vec<DataType>) -> (copy: Vec<DataType>)
    ensures
        copy@ == schema@,
{
    let mut copy: Vec<DataType> = Vec::new();
    let mut c: usize = 0;
    while c < schema.len()
        invariant
            c <= schema.len(),
            copy@ == schema@.take(c as int),
        decreases schema.len() - c,
    {
        copy.push(schema[c]);
        assert(copy@ =~= schema@.take(c + 1));
        c += 1;
    }
    assert(schema@.take(schema.len() as int) =~= schema@);
    copy
}

/// Reads `len` number of bytes of the text `data` starting at the `from`
/// byte offset according to the given `schema`, as `num_threads` workers
/// would: the window is planned as one unit for each worker, each unit is
/// read, and the tables of the units are put together in the order of the
/// units. A worker passes over the line that its unit starts in, which the
/// unit before reads, unless it starts at byte 0; a worker that reads alone
/// also reads the line that it starts at the start of.
pub fn from_file(
    data: &[u8],
    schema: Vec<DataType>,
    from: usize,
    len: usize,
    num_threads: usize,
) -> (parsed_data: Vec<Column>)
    requires
        spec_plan_fits(data@, from as int, len as int, num_threads as int),
    ensures
        holds_rows(
            parsed_data@,
            schema@,
            spec_from_file(data@, schema@, from as int, len as int, num_threads as int),
        ),
        rectangular(parsed_data@),
{
    let ghost s = data@;
    let ghost types = schema@;
    let ghost first_skips = file_skips_first(s, from as int, num_threads as int);
    let work = plan_chunks(data, from, len, num_threads);
    let ghost units = spans_view(work@);
    // initialize the resulting columnar data frame
    let mut parsed_data: Vec<Column> = init_columnar(schema.as_slice());
    let mut w: usize = 0;
    assert(units.take(0) =~= Seq::<(int, int)>::empty());
    assert(work.len() == units.len() == num_threads);
    assert(units[0].0 == from) by {
        assert(unit_start(from as int, file_step(s, from as int, len as int, num_threads as int), 0)
            == from) by (nonlinear_arith);
    }
    while w < work.len()
        invariant
            w <= work.len() == num_threads,
            s == data@,
            types == schema@,
            units == spans_view(work@),
            units[0].0 == from,
            first_skips == file_skips_first(s, from as int, num_threads as int),
            holds_rows(
                parsed_data@,
                types,
                rows_of(s, types, plan_lines(s, units.take(w as int), first_skips)),
            ),
        decreases work.len() - w,
    {
        let unit = work[w];
        // the line that the unit starts in is read by the unit before,
        // where there is one
        let before = if w == 0 {
            byte_before(data, unit.0)
        } else {
            None
        };
        let skip = skips_first_line(unit.0, num_threads, before);
        let ghost done = plan_lines(s, units.take(w as int), first_skips);
        let ghost lines = unit_lines(s, unit.0 as int, unit.1 as int, skip);
        let mut x: Vec<Column> = read_unit(clone_schema(&schema), data, unit.0, unit.1, skip);
        append_columns(&mut parsed_data, &mut x);
        proof {
            let next = units.take(w + 1);
            assert(next.drop_last() =~= units.take(w as int));
            assert(next.last() == (unit.0 as int, unit.1 as int));
            assert(next[0] == units[0]);
            if w == 0 {
                assert(done =~= Seq::<(int, int)>::empty());
                assert(done + lines =~= lines);
            }
            assert(plan_lines(s, next, first_skips) == done + lines);
            lemma_rows_of_add(s, types, done, lines);
            lemma_columns_of_add(rows_of(s, types, done), rows_of(s, types, lines), types.len());
        }
        w += 1;
    }
    proof {
        assert(units.take(work.len() as int) =~= units);
        lemma_holds_rows_rectangular(
            parsed_data@,
            types,
            spec_from_file(s, types, from as int, len as int, num_threads as int),
        );
    }
    parsed_data
}

/// In a table that holds rows under a schema, every cell is missing or of
/// the type that the schema gives its column.
pub proof fn lemma_table_cells_typed(
    table: Seq<Column>,
    schema: Seq<DataType>,
    rows: Seq<Seq<DataView>>,
    c: int,
    r: int,
)
    requires
        holds_rows(table, schema, rows),
        0 <= c < table.len(),
        0 <= r < table[c]@.len(),
    ensures
        cell_type(table[c]@[r]) is None || cell_type(table[c]@[r]) == Some(schema[c]),
{
    assert(table_types(table)[c] == table[c].data_type());
    lemma_column_cells_typed(table[c], r);
}

impl Data {
    /// A cell that holds what this one holds.
    pub fn duplicate(&self) -> (r: Data)
        ensures
            r@ == self@,
    {
        match self {
            Data::String(s) => Data::String(s.clone()),
            Data::Int(n) => Data::Int(*n),
            Data::Float(b) => Data::Float(*b),
            Data::Bool(b) => Data::Bool(*b),
            Data::Null => Data::Null,
        }
    }
}

/// What one batch of a text gives: the rows of the batch, the position
/// behind the last line that was read for it, and whether the batch is
/// full. The lines are read from position `pos` on, each without its line
/// feed, and those that are rows under `schema` are kept. The batch is
/// full as soon as, after a line, it holds `chunk_size` rows with the
/// `had` rows that it has already; a table without columns is never full.
pub open spec fn spec_batch(
    s: Seq<u8>,
    schema: Seq<DataType>,
    pos: int,
    chunk_size: int,
    had: int,
) -> (Seq<Seq<DataView>>, int, bool)
    decreases s.len() - pos,
    via spec_batch_decreases
{
    if pos < 0 || pos >= s.len() {
        (Seq::empty(), pos, false)
    } else {
        let first = match spec_parse_line_with_schema(line_at(s, pos), schema) {
            Some(row) => seq![row],
            None => Seq::empty(),
        };
        if schema.len() > 0 && had + first.len() == chunk_size {
            (first, line_end(s, pos), true)
        } else {
            let (rows, end, full) = spec_batch(
                s,
                schema,
                line_end(s, pos),
                chunk_size,
                had + first.len(),
            );
            (first + rows, end, full)
        }
    }
}

#[via_fn]
proof fn spec_batch_decreases(
    s: Seq<u8>,
    schema: Seq<DataType>,
    pos: int,
    chunk_size: int,
    had: int,
) {
    if 0 <= pos < s.len() {
        lemma_line_end(s, pos);
    }
}

/// Whether a table has a column, and `chunk_size` cells in its first
/// column.
pub fn is_full(table: &Vec<Column>, chunk_size: usize) -> (r: bool)
    ensures
        r == (table.len() > 0 && table[0]@.len() == chunk_size),
{
    table.len() > 0 && table[0].len() == chunk_size
}

/// Whether a table has a column, and a cell in its first column.
pub fn has_rows(table: &Vec<Column>) -> (r: bool)
    ensures
        r == (table.len() > 0 && table[0]@.len() > 0),
{
    table.len() > 0 && table[0].len() > 0
}

/// Used for chunking `SoR` text: hands out the rows of a text in tables of
/// `chunk_size` rows, where all columns have the same length. The last
/// table may have less than `chunk_size` rows.
pub struct SorTerator {
    /// The text.
    pub data: Vec<u8>,
    /// The position behind the last line that was read.
    pub pos: usize,
    /// The number of rows of a table.
    pub chunk_size: usize,
    /// The types of the columns.
    pub schema: Vec<DataType>,
}

impl SorTerator {
    /// Creates a new `SorTerator` at the start of the text `data`.
    pub fn new(data: Vec<u8>, schema: Vec<DataType>, chunk_size: usize) -> (r: Self)
        ensures
            r.data == data,
            r.schema == schema,
            r.chunk_size == chunk_size,
            r.pos == 0,
    {
        SorTerator { data, pos: 0, chunk_size, schema }
    }

    /// Reads on until `self.chunk_size` rows have been parsed, returning
    /// `Some(Vec<Column>)` of the parsed rows when done, or when the text
    /// has come to its end and one row at least was read; `None` where the
    /// end came without a row.
    pub fn next(&mut self) -> (r: Option<Vec<Column>>)
        ensures
            final(self).data == old(self).data,
            final(self).schema == old(self).schema,
            final(self).chunk_size == old(self).chunk_size,
            ({
                let (rows, end, full) = spec_batch(
                    old(self).data@,
                    old(self).schema@,
                    old(self).pos as int,
                    old(self).chunk_size as int,
                    0,
                );
                &&& final(self).pos == end
                &&& r is Some <==> full || (rows.len() > 0 && old(self).schema@.len() > 0)
                &&& r matches Some(table) ==> holds_rows(table@, old(self).schema@, rows)
                    && rectangular(table@)
            }),
    {
        let ghost s = self.data@;
        let ghost types = self.schema@;
        let ghost size = self.chunk_size as int;
        let ghost target = spec_batch(s, types, self.pos as int, size, 0);
        let ghost rows: Seq<Seq<DataView>> = Seq::empty();
        let mut parsed_data = init_columnar(self.schema.as_slice());
        assert(rows + target.0 =~= target.0);
        while self.pos < self.data.len()
            invariant
                self.data@ == s,
                self.schema@ == types,
                self.chunk_size == size,
                self.data == old(self).data,
                self.schema == old(self).schema,
                self.chunk_size == old(self).chunk_size,
                target == spec_batch(s, types, old(self).pos as int, size, 0),
                holds_rows(parsed_data@, types, rows),
                target == ({
                    let (more, end, full) = spec_batch(
                        s,
                        types,
                        self.pos as int,
                        size,
                        rows.len() as int,
                    );
                    (rows + more, end, full)
                }),
            decreases self.data.len() - self.pos,
        {
            let end = next_line_end(self.data.as_slice(), self.pos);
            let stop: usize = if self.data[end - 1] == LF {
                end - 1
            } else {
                end
            };
            let ghost line = s.subrange(self.pos as int, stop as int);
            let ghost before = rows;
            parse_row(&self.data.as_slice()[self.pos..stop], &self.schema, &mut parsed_data);
            self.pos = end;
            proof {
                if let Some(row) = spec_parse_line_with_schema(line, types) {
                    lemma_schema_cells_fit(line, types);
                    lemma_columns_of_push(rows, row, types.len());
                    rows = rows.push(row);
                }
            }
            proof {
                lemma_holds_rows_rectangular(parsed_data@, types, rows);
                let first = match spec_parse_line_with_schema(line, types) {
                    Some(row) => seq![row],
                    None => Seq::empty(),
                };
                assert(rows =~= before + first);
                let rest = spec_batch(s, types, end as int, size, rows.len() as int);
                assert(before + (first + rest.0) =~= rows + rest.0);
            }
            if is_full(&parsed_data, self.chunk_size) {
                return Some(parsed_data);
            }
        }
        proof {
            lemma_holds_rows_rectangular(parsed_data@, types, rows);
            assert(rows + Seq::<Seq<DataView>>::empty() =~= rows);
        }
        if has_rows(&parsed_data) {
            Some(parsed_data)
        } else {
            None
        }
    }
}

} // verus!
