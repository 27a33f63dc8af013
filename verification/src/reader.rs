//! Inferring a schema from the head of a text, and reading a chunk of a
//! text into columns of cells.

use crate::dataframe::{
    chunk_rows, columns_of, lemma_rows_next_line, lemma_rows_no_line, line_rows, row_view,
    rows_of, rows_view, with_row, Data, DataView,
};
use crate::lines::{head_lines, lines_until, next_line_end};
use crate::parsers::parse_line_with_schema;
use crate::schema::{
    lemma_sample_fold, lemma_widest_rows_uniform, parsed_rows, sample_forward, schema_of,
    schema_of_rows, widest_rows,
};
use vstd::prelude::*;

pub use crate::schema::DataType;

verus! {

/// The number of lines at the head of a text that a schema is inferred
/// from.
pub const HEAD_LINES: usize = 500;

/// Infers the schema of the text `data` from its first lines: the schema
/// of the widest rows among them.
pub fn infer_schema(data: &[u8]) -> (schema: Vec<DataType>)
    ensures
        schema@ == schema_of(widest_rows(parsed_rows(head_lines(data@, 0, HEAD_LINES as nat)))),
{
    let mut parsed_lines: Vec<Vec<Data>> = Vec::new();
    sample_forward(data, 0, HEAD_LINES, &mut parsed_lines);
    proof {
        let none = Seq::<Seq<u8>>::empty();
        let lines = head_lines(data@, 0, HEAD_LINES as nat);
        assert(rows_view(Seq::<Vec<Data>>::empty()) =~= widest_rows(parsed_rows(none)));
        lemma_sample_fold(none, lines);
        assert(none + lines =~= lines);
        lemma_widest_rows_uniform(parsed_rows(lines));
    }
    schema_of_rows(&parsed_lines)
}

/// Puts the cells of `row` behind the columns of `parsed_data`, one in
/// each.
fn push_cells(parsed_data: &mut Vec<Vec<Data>>, row: &Vec<Data>)
    requires
        old(parsed_data).len() == row.len(),
    ensures
        final(parsed_data).len() == old(parsed_data).len(),
        rows_view(final(parsed_data)@) == with_row(rows_view(old(parsed_data)@), row_view(row@)),
{
    let ghost before = rows_view(parsed_data@);
    let ghost cells = row_view(row@);
    let n: usize = row.len();
    let mut c: usize = 0;
    while c < n
        invariant
            c <= n == row.len() == parsed_data.len(),
            cells == row_view(row@),
            forall|j: int|
                0 <= j < c ==> row_view((#[trigger] parsed_data@[j])@) == before[j].push(cells[j]),
            forall|j: int| c <= j < n ==> row_view((#[trigger] parsed_data@[j])@) == before[j],
        decreases n - c,
    {
        let ghost column = parsed_data@[c as int]@;
        let d = row[c].duplicate();
        parsed_data[c].push(d);
        assert(row_view(column.push(d)) =~= row_view(column).push(d@));
        c += 1;
    }
    assert(rows_view(parsed_data@) =~= with_row(before, cells));
}

/// Reads the chunk of `len` bytes of the text `data` that starts at byte
/// `from` according to the given `schema` and turns it into columns of
/// cells. Where `from` is not 0, the line that holds byte `from` is left
/// out. Then every line is read that ends less than `len` bytes behind
/// `from`; those that are rows under `schema` make the columns.
pub fn read_file(schema: Vec<DataType>, data: &[u8], from: u64, len: u64) -> (parsed_data: Vec<
    Vec<Data>,
>)
    ensures
        rows_view(parsed_data@) == columns_of(
            chunk_rows(data@, schema@, from as int, len as int),
            schema@.len(),
        ),
{
    let ghost s = data@;
    let ghost types = schema@;
    let ghost stop = from + len;
    let ghost rows: Seq<Seq<DataView>> = Seq::empty();
    let mut parsed_data: Vec<Vec<Data>> = Vec::new();
    let mut c: usize = 0;
    while c < schema.len()
        invariant
            c <= schema.len(),
            parsed_data.len() == c,
            forall|j: int| 0 <= j < c ==> (#[trigger] parsed_data@[j])@.len() == 0,
        decreases schema.len() - c,
    {
        parsed_data.push(Vec::new());
        c += 1;
    }
    assert(rows_view(parsed_data@) =~= columns_of(rows, types.len())) by {
        assert forall|j: int| 0 <= j < types.len() implies rows_view(parsed_data@)[j]
            =~= columns_of(rows, types.len())[j] by {}
    }
    if from >= data.len() as u64 {
        return parsed_data;
    }
    let mut pos: usize = from as usize;
    let mut so_far: u64 = 0;
    if from != 0 {
        // leave out the first line
        let end = next_line_end(data, pos);
        so_far = (end - pos) as u64;
        pos = end;
    }
    assert(rows + chunk_rows(s, types, from as int, len as int) =~= chunk_rows(
        s,
        types,
        from as int,
        len as int,
    ));
    loop
        invariant_except_break
            from <= pos <= data.len(),
            so_far + from == pos,
            chunk_rows(s, types, from as int, len as int) == rows + rows_of(
                s,
                types,
                lines_until(s, pos as int, stop),
            ),
        invariant
            s == data@,
            types == schema@,
            stop == from + len,
            parsed_data.len() == schema.len(),
            rows_view(parsed_data@) == columns_of(rows, types.len()),
        ensures
            chunk_rows(s, types, from as int, len as int) == rows,
        decreases data.len() - pos,
    {
        let end = next_line_end(data, pos);
        let line_len: u64 = (end - pos) as u64;
        if line_len == 0 || so_far + line_len >= len {
            proof {
                lemma_rows_no_line(s, types, rows, pos as int, stop);
            }
            break ;
        }
        so_far += line_len;
        match parse_line_with_schema(&data[pos..end], &schema) {
            Some(row) => {
                push_cells(&mut parsed_data, &row);
            },
            None => {},
        }
        proof {
            lemma_rows_next_line(s, types, rows, pos as int, stop);
            rows = rows + line_rows(s, types, pos as int, end as int);
        }
        pos = end;
    }
    parsed_data
}

} // verus!
