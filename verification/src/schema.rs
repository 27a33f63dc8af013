//! Column types, their precedence, and schema inference.

use crate::dataframe::{row_view, rows_view, Data, DataView};
use crate::lines::{head_lines, line_end, next_line_end, prev_line_start, tail_lines};
use crate::parsers::{parse_line, spec_parse_line, LF};
use vstd::prelude::*;

verus! {

/// The type of a column. The variants are listed from the highest
/// precedence to the lowest.
#[derive(PartialEq, Eq, Structural, Debug, Clone, Copy)]
pub enum DataType {
    /// Has the highest data type precedence.
    String,
    /// Has the second highest data type precedence.
    Float,
    /// Has the third highest data type precedence.
    Int,
    /// Has the fourth highest data type precedence.
    Bool,
}

/// The precedence of a column type as a number: the higher, the more
/// values the type can hold.
pub open spec fn rank(t: DataType) -> nat {
    match t {
        DataType::Bool => 0,
        DataType::Int => 1,
        DataType::Float => 2,
        DataType::String => 3,
    }
}

/// The type of higher precedence among two.
pub open spec fn join(a: DataType, b: DataType) -> DataType {
    if rank(a) >= rank(b) {
        a
    } else {
        b
    }
}

/// The type under which a cell was read, or `None` for a missing cell.
pub open spec fn cell_type(d: DataView) -> Option<DataType> {
    match d {
        DataView::String(_) => Some(DataType::String),
        DataView::Float(_) => Some(DataType::Float),
        DataView::Int(_) => Some(DataType::Int),
        DataView::Bool(_) => Some(DataType::Bool),
        DataView::Null => None,
    }
}

/// The running type of a column after one more cell has been seen:
/// `String` if either side is a string, else `Float` if either is a float,
/// else `Int` if either is an integer, else `Bool`.
pub open spec fn dominant(t: DataType, d: DataView) -> DataType {
    if d is String || t == DataType::String {
        DataType::String
    } else if d is Float || t == DataType::Float {
        DataType::Float
    } else if d is Int || t == DataType::Int {
        DataType::Int
    } else {
        DataType::Bool
    }
}

/// Get the dominant data type between a running column type and a cell.
pub fn get_dominant_data_type(cur_dominant_type: &DataType, other_type: &Data) -> (r: DataType)
    ensures
        r == dominant(*cur_dominant_type, other_type@),
{
    match (cur_dominant_type, other_type) {
        (_, Data::String(_)) => DataType::String,
        (DataType::String, _) => DataType::String,
        (_, Data::Float(_)) => DataType::Float,
        (DataType::Float, _) => DataType::Float,
        (_, Data::Int(_)) => DataType::Int,
        (DataType::Int, _) => DataType::Int,
        _ => DataType::Bool,
    }
}

/// A present cell widens the running type to the join of the two types.
pub proof fn lemma_dominant_is_join(t: DataType, d: DataView)
    requires
        !(d is Null),
    ensures
        cell_type(d) is Some,
        dominant(t, d) == join(t, cell_type(d).unwrap()),
{
}

/// A missing cell leaves the running type as it is.
pub proof fn lemma_dominant_null(t: DataType)
    ensures
        dominant(t, DataView::Null) == t,
{
}

/// The join of two types does not depend on their order.
pub proof fn lemma_join_commutative(a: DataType, b: DataType)
    ensures
        join(a, b) == join(b, a),
{
}

/// Joining three types gives the same type however they are grouped.
pub proof fn lemma_join_associative(a: DataType, b: DataType, c: DataType)
    ensures
        join(join(a, b), c) == join(a, join(b, c)),
{
}

/// Two cells widen a running type to the same type in either order.
pub proof fn lemma_dominant_commutes(t: DataType, x: DataView, y: DataView)
    ensures
        dominant(dominant(t, x), y) == dominant(dominant(t, y), x),
{
}

/// The width of a sample: that of its first row, 0 where it has none.
pub open spec fn sample_width(rows: Seq<Seq<DataView>>) -> nat {
    if rows.len() == 0 {
        0
    } else {
        rows[0].len()
    }
}

/// Whether all rows of a sample have its width.
pub open spec fn uniform(rows: Seq<Seq<DataView>>) -> bool {
    forall|r: int| 0 <= r < rows.len() ==> (#[trigger] rows[r]).len() == sample_width(rows)
}

/// The sample after one more line: a row that is wider than the sample
/// replaces it, a row of its width joins it, and a narrower row or a line
/// that is no row leaves it as it is.
pub open spec fn retain(rows: Seq<Seq<DataView>>, parsed: Option<Seq<DataView>>) -> Seq<
    Seq<DataView>,
> {
    match parsed {
        Some(row) => if row.len() > sample_width(rows) {
            seq![row]
        } else if row.len() == sample_width(rows) {
            rows.push(row)
        } else {
            rows
        },
        None => rows,
    }
}

/// Takes the line `i` into the sample `current_lines`.
pub fn handle_line_inference(i: &[u8], current_lines: &mut Vec<Vec<Data>>)
    ensures
        rows_view(final(current_lines)@) == retain(
            rows_view(old(current_lines)@),
            spec_parse_line(i@),
        ),
        uniform(rows_view(old(current_lines)@)) ==> uniform(rows_view(final(current_lines)@)),
{
    if let Some(parsed) = parse_line(i) {
        let width: usize = if current_lines.len() == 0 {
            0
        } else {
            current_lines[0].len()
        };
        let ghost before = current_lines@;
        if parsed.len() > width {
            current_lines.clear();
            current_lines.push(parsed);
            assert(rows_view(current_lines@) =~= seq![row_view(parsed@)]);
        } else if parsed.len() == width {
            current_lines.push(parsed);
            assert(rows_view(current_lines@) =~= rows_view(before).push(row_view(parsed@)));
        }
    }
}

/// The rows that some lines make, in their order: a line that is no row
/// is left out.
pub open spec fn parsed_rows(lines: Seq<Seq<u8>>) -> Seq<Seq<DataView>>
    decreases lines.len(),
{
    if lines.len() == 0 {
        Seq::empty()
    } else {
        match spec_parse_line(lines.last()) {
            Some(row) => parsed_rows(lines.drop_last()).push(row),
            None => parsed_rows(lines.drop_last()),
        }
    }
}

/// The greatest width among some rows, 0 where there are none.
pub open spec fn widest(rows: Seq<Seq<DataView>>) -> nat
    decreases rows.len(),
{
    if rows.len() == 0 {
        0
    } else if rows.last().len() > widest(rows.drop_last()) {
        rows.last().len()
    } else {
        widest(rows.drop_last())
    }
}

/// Those of some rows that have the width `w`, in their order.
pub open spec fn rows_of_width(rows: Seq<Seq<DataView>>, w: nat) -> Seq<Seq<DataView>>
    decreases rows.len(),
{
    if rows.len() == 0 {
        Seq::empty()
    } else if rows.last().len() == w {
        rows_of_width(rows.drop_last(), w).push(rows.last())
    } else {
        rows_of_width(rows.drop_last(), w)
    }
}

/// The widest of some rows, in their order.
pub open spec fn widest_rows(rows: Seq<Seq<DataView>>) -> Seq<Seq<DataView>> {
    rows_of_width(rows, widest(rows))
}

/// The sample after some lines, taken in one by one from the first.
pub open spec fn sample_fold(rows: Seq<Seq<DataView>>, lines: Seq<Seq<u8>>) -> Seq<Seq<DataView>>
    decreases lines.len(),
{
    if lines.len() == 0 {
        rows
    } else {
        sample_fold(retain(rows, spec_parse_line(lines[0])), lines.drop_first())
    }
}

/// The type of column `c` of a sample: the running type after every row,
/// starting from `Bool`.
pub open spec fn column_type(rows: Seq<Seq<DataView>>, c: int) -> DataType
    decreases rows.len(),
{
    if rows.len() == 0 {
        DataType::Bool
    } else {
        dominant(column_type(rows.drop_last(), c), rows.last()[c])
    }
}

/// The schema of a sample: one type for each column of its width.
pub open spec fn schema_of(rows: Seq<Seq<DataView>>) -> Seq<DataType> {
    Seq::new(sample_width(rows), |c: int| column_type(rows, c))
}

/// No row is wider than the widest, rows of a width are of that width,
/// and the widest rows of a sample that is not empty are not empty.
pub proof fn lemma_widest(rows: Seq<Seq<DataView>>, w: nat)
    ensures
        forall|r: int| 0 <= r < rows.len() ==> (#[trigger] rows[r]).len() <= widest(rows),
        forall|r: int|
            0 <= r < rows_of_width(rows, w).len() ==> (#[trigger] rows_of_width(rows, w)[r]).len()
                == w,
        w > widest(rows) ==> rows_of_width(rows, w).len() == 0,
        rows.len() > 0 ==> widest_rows(rows).len() > 0,
    decreases rows.len(),
{
    if rows.len() > 0 {
        let init = rows.drop_last();
        lemma_widest(init, w);
        lemma_widest(init, widest(rows));
        lemma_widest(init, widest(init));
        assert forall|r: int| 0 <= r < rows.len() implies (#[trigger] rows[r]).len() <= widest(
            rows,
        ) by {
            if r < rows.len() - 1 {
                assert(rows[r] == init[r]);
            }
        }
        let kept = rows_of_width(rows, w);
        assert forall|r: int| 0 <= r < kept.len() implies (#[trigger] kept[r]).len() == w by {
            if r < rows_of_width(init, w).len() {
                assert(kept[r] == rows_of_width(init, w)[r]);
            }
        }
    }
}

/// The widest rows are a sample of one width.
pub proof fn lemma_widest_rows_uniform(rows: Seq<Seq<DataView>>)
    ensures
        uniform(widest_rows(rows)),
        sample_width(widest_rows(rows)) == widest(rows),
{
    lemma_widest(rows, widest(rows));
    if rows.len() == 0 {
    }
}

/// Taking one more line into the widest rows of the lines before it gives
/// the widest rows of all of them.
pub proof fn lemma_retain_widest(lines: Seq<Seq<u8>>, line: Seq<u8>)
    ensures
        retain(widest_rows(parsed_rows(lines)), spec_parse_line(line)) == widest_rows(
            parsed_rows(lines.push(line)),
        ),
{
    let rows = parsed_rows(lines);
    let all = lines.push(line);
    assert(all.drop_last() =~= lines);
    assert(all.last() == line);
    lemma_widest_rows_uniform(rows);
    if let Some(row) = spec_parse_line(line) {
        let more = rows.push(row);
        assert(parsed_rows(all) == more);
        assert(more.drop_last() =~= rows);
        assert(more.last() == row);
        lemma_widest(rows, row.len());
        if row.len() > widest(rows) {
            assert(widest_rows(more) =~= seq![row]);
        }
    }
}

/// A sample that is taken line by line holds the widest of the rows that
/// the lines make, in their order.
pub proof fn lemma_sample_fold(seen: Seq<Seq<u8>>, lines: Seq<Seq<u8>>)
    ensures
        sample_fold(widest_rows(parsed_rows(seen)), lines) == widest_rows(
            parsed_rows(seen + lines),
        ),
    decreases lines.len(),
{
    if lines.len() == 0 {
        assert(seen + lines =~= seen);
    } else {
        lemma_retain_widest(seen, lines[0]);
        lemma_sample_fold(seen.push(lines[0]), lines.drop_first());
        assert(seen.push(lines[0]) + lines.drop_first() =~= seen + lines);
    }
}

/// Taking in two runs of lines one after the other is taking in their
/// concatenation.
pub proof fn lemma_sample_fold_add(rows: Seq<Seq<DataView>>, a: Seq<Seq<u8>>, b: Seq<Seq<u8>>)
    ensures
        sample_fold(sample_fold(rows, a), b) == sample_fold(rows, a + b),
    decreases a.len(),
{
    if a.len() == 0 {
        assert(a + b =~= b);
    } else {
        lemma_sample_fold_add(retain(rows, spec_parse_line(a[0])), a.drop_first(), b);
        assert((a + b).drop_first() =~= a.drop_first() + b);
        assert((a + b)[0] == a[0]);
    }
}

/// Once a column is a string column, it stays one.
pub proof fn lemma_column_type_string(rows: Seq<Seq<DataView>>, c: int, k: int)
    requires
        0 <= k <= rows.len(),
        column_type(rows.take(k), c) == DataType::String,
    ensures
        column_type(rows, c) == DataType::String,
    decreases rows.len() - k,
{
    if k == rows.len() {
        assert(rows.take(k) =~= rows);
    } else {
        assert(rows.take(k + 1).drop_last() =~= rows.take(k));
        lemma_column_type_string(rows, c, k + 1);
    }
}

/// The schema of a sample of one width.
pub fn schema_of_rows(parsed_lines: &Vec<Vec<Data>>) -> (schema: Vec<DataType>)
    requires
        uniform(rows_view(parsed_lines@)),
    ensures
        schema@ == schema_of(rows_view(parsed_lines@)),
{
    let ghost rows = rows_view(parsed_lines@);
    let cur_width: usize = if parsed_lines.len() == 0 {
        0
    } else {
        parsed_lines[0].len()
    };
    let mut schema: Vec<DataType> = Vec::new();
    let mut c: usize = 0;
    while c < cur_width
        invariant
            c <= cur_width == sample_width(rows),
            rows == rows_view(parsed_lines@),
            uniform(rows),
            schema@ == Seq::new(c as nat, |j: int| column_type(rows, j)),
        decreases cur_width - c,
    {
        let mut data_type = DataType::Bool;
        let mut r: usize = 0;
        assert(rows.take(0) =~= Seq::<Seq<DataView>>::empty());
        while r < parsed_lines.len() && data_type != DataType::String
            invariant
                r <= parsed_lines.len(),
                c < cur_width == sample_width(rows),
                rows == rows_view(parsed_lines@),
                uniform(rows),
                data_type == column_type(rows.take(r as int), c as int),
            decreases parsed_lines.len() - r,
        {
            assert(rows[r as int].len() == cur_width);
            assert(rows.take(r + 1).drop_last() =~= rows.take(r as int));
            data_type = get_dominant_data_type(&data_type, &parsed_lines[r][c]);
            r += 1;
        }
        proof {
            if data_type == DataType::String {
                lemma_column_type_string(rows, c as int, r as int);
            } else {
                assert(rows.take(r as int) =~= rows);
            }
        }
        schema.push(data_type);
        assert(schema@ =~= Seq::new((c + 1) as nat, |j: int| column_type(rows, j)));
        c += 1;
    }
    schema
}

/// How many lines each of the three bands of a sample may hold, for a
/// sample of `num_lines_to_parse` lines: a third of them. A third of none
/// puts no bound on a band.
pub open spec fn band_len(num_lines_to_parse: usize) -> nat {
    if num_lines_to_parse / 3 == 0 {
        usize::MAX as nat
    } else {
        (num_lines_to_parse / 3) as nat
    }
}

/// How many lines each of the three bands of a sample may hold, for a
/// sample of `num_lines_to_parse` lines.
pub fn sample_band(num_lines_to_parse: usize) -> (n: usize)
    ensures
        n == band_len(num_lines_to_parse),
        n > 0,
{
    if num_lines_to_parse / 3 == 0 {
        usize::MAX
    } else {
        num_lines_to_parse / 3
    }
}

/// The lines from which a schema is inferred: a band from the start of `s`,
/// a band from the first line that starts behind the middle of `s`, and a
/// band from the end of `s`, read backwards.
pub open spec fn sample_lines(s: Seq<u8>, num_lines_to_parse: usize) -> Seq<Seq<u8>> {
    let n = band_len(num_lines_to_parse);
    head_lines(s, 0, n) + head_lines(s, line_end(s, s.len() as int / 2), n) + tail_lines(
        s,
        s.len() as int,
        n,
    )
}

/// The schema that a sample of `num_lines_to_parse` lines of `s` gives:
/// that of the widest rows among the sampled lines.
pub open spec fn spec_infer_schema(s: Seq<u8>, num_lines_to_parse: usize) -> Seq<DataType> {
    schema_of(widest_rows(parsed_rows(sample_lines(s, num_lines_to_parse))))
}

/// Takes up to `limit` lines of `data` from position `start` on into the
/// sample `current_lines`.
pub fn sample_forward(
    data: &[u8],
    start: usize,
    limit: usize,
    current_lines: &mut Vec<Vec<Data>>,
)
    requires
        start <= data.len(),
    ensures
        rows_view(final(current_lines)@) == sample_fold(
            rows_view(old(current_lines)@),
            head_lines(data@, start as int, limit as nat),
        ),
{
    let ghost target = sample_fold(
        rows_view(current_lines@),
        head_lines(data@, start as int, limit as nat),
    );
    let mut pos: usize = start;
    let mut taken: usize = 0;
    while pos < data.len() && taken < limit
        invariant
            pos <= data.len(),
            taken <= limit,
            target == sample_fold(
                rows_view(current_lines@),
                head_lines(data@, pos as int, (limit - taken) as nat),
            ),
        decreases data.len() - pos,
    {
        let end = next_line_end(data, pos);
        let stop: usize = if data[end - 1] == LF {
            end - 1
        } else {
            end
        };
        let ghost lines = head_lines(data@, pos as int, (limit - taken) as nat);
        proof {
            assert(lines.drop_first() =~= head_lines(
                data@,
                end as int,
                (limit - taken - 1) as nat,
            ));
        }
        handle_line_inference(&data[pos..stop], current_lines);
        pos = end;
        taken += 1;
    }
}

/// Takes up to `limit` lines of `data` from its end on, the last first,
/// into the sample `current_lines`.
pub fn sample_backward(data: &[u8], limit: usize, current_lines: &mut Vec<Vec<Data>>)
    ensures
        rows_view(final(current_lines)@) == sample_fold(
            rows_view(old(current_lines)@),
            tail_lines(data@, data.len() as int, limit as nat),
        ),
{
    let ghost target = sample_fold(
        rows_view(current_lines@),
        tail_lines(data@, data.len() as int, limit as nat),
    );
    let mut stop: usize = data.len();
    let mut taken: usize = 0;
    while stop > 0 && taken < limit
        invariant
            stop <= data.len(),
            taken <= limit,
            target == sample_fold(
                rows_view(current_lines@),
                tail_lines(data@, stop as int, (limit - taken) as nat),
            ),
        decreases stop,
    {
        let end: usize = if data[stop - 1] == LF {
            stop - 1
        } else {
            stop
        };
        let start = prev_line_start(data, end);
        let ghost lines = tail_lines(data@, stop as int, (limit - taken) as nat);
        proof {
            assert(lines.drop_first() =~= tail_lines(
                data@,
                start as int,
                (limit - taken - 1) as nat,
            ));
        }
        handle_line_inference(&data[start..end], current_lines);
        stop = start;
        taken += 1;
    }
}

/// Infers the schema of the text `data` from a sample of about
/// `num_lines_to_parse` of its lines.
pub fn infer_schema_for_n_lines(data: &[u8], num_lines_to_parse: usize) -> (schema: Vec<DataType>)
    ensures
        schema@ == spec_infer_schema(data@, num_lines_to_parse),
{
    let book_end = sample_band(num_lines_to_parse);
    let mut parsed_lines: Vec<Vec<Data>> = Vec::new();
    let ghost first = head_lines(data@, 0, book_end as nat);
    let ghost middle = head_lines(data@, line_end(data@, data@.len() as int / 2), book_end as nat);
    let ghost last = tail_lines(data@, data@.len() as int, book_end as nat);

    // infer the schema at the beginning
    sample_forward(data, 0, book_end, &mut parsed_lines);

    // go to the middle, leave the line that is under way there, and infer
    // the schema in the middle
    let mid_pt = next_line_end(data, data.len() / 2);
    sample_forward(data, mid_pt, book_end, &mut parsed_lines);

    // infer the schema at the end of the text
    sample_backward(data, book_end, &mut parsed_lines);

    proof {
        let none = Seq::<Seq<u8>>::empty();
        assert(rows_view(Seq::<Vec<Data>>::empty()) =~= widest_rows(parsed_rows(none)));
        lemma_sample_fold_add(widest_rows(parsed_rows(none)), first, middle);
        lemma_sample_fold_add(widest_rows(parsed_rows(none)), first + middle, last);
        lemma_sample_fold(none, first + middle + last);
        assert(none + (first + middle + last) =~= first + middle + last);
        lemma_widest_rows_uniform(parsed_rows(first + middle + last));
    }
    schema_of_rows(&parsed_lines)
}

/// The number of lines that a schema is inferred from.
pub const SAMPLE_LINES: usize = 300;

/// Infers the schema of the text `data`.
pub fn infer_schema(data: &[u8]) -> (schema: Vec<DataType>)
    ensures
        schema@ == spec_infer_schema(data@, SAMPLE_LINES),
{
    infer_schema_for_n_lines(data, SAMPLE_LINES)
}

/// A column whose sampled cells are all missing is typed `Bool`.
pub proof fn lemma_null_column_is_bool(rows: Seq<Seq<DataView>>, c: int)
    requires
        forall|r: int| 0 <= r < rows.len() ==> (#[trigger] rows[r])[c] is Null,
    ensures
        column_type(rows, c) == DataType::Bool,
        0 <= c < sample_width(rows) ==> schema_of(rows)[c] == DataType::Bool,
    decreases rows.len(),
{
    if rows.len() > 0 {
        let init = rows.drop_last();
        assert forall|r: int| 0 <= r < init.len() implies (#[trigger] init[r])[c] is Null by {
            assert(init[r] == rows[r]);
        }
        lemma_null_column_is_bool(init, c);
        assert(rows.last() == rows[rows.len() - 1]);
    }
}

/// The type of a column is `String` if a cell of it is a string; else
/// `Float` if one is a float; else `Int` if one is an integer; else `Bool`.
pub proof fn lemma_column_type(rows: Seq<Seq<DataView>>, c: int)
    ensures
        column_type(rows, c) == (if exists|r: int|
            0 <= r < rows.len() && (#[trigger] rows[r])[c] is String {
            DataType::String
        } else if exists|r: int| 0 <= r < rows.len() && (#[trigger] rows[r])[c] is Float {
            DataType::Float
        } else if exists|r: int| 0 <= r < rows.len() && (#[trigger] rows[r])[c] is Int {
            DataType::Int
        } else {
            DataType::Bool
        }),
    decreases rows.len(),
{
    if rows.len() > 0 {
        let init = rows.drop_last();
        let last = rows.len() - 1;
        lemma_column_type(init, c);
        assert(rows.last() == rows[last]);
        assert forall|r: int| 0 <= r < init.len() implies #[trigger] init[r] == rows[r] by {}
        if exists|r: int| 0 <= r < init.len() && (#[trigger] init[r])[c] is String {
            let r = choose|r: int| 0 <= r < init.len() && (#[trigger] init[r])[c] is String;
            assert(rows[r][c] is String);
        }
        if exists|r: int| 0 <= r < init.len() && (#[trigger] init[r])[c] is Float {
            let r = choose|r: int| 0 <= r < init.len() && (#[trigger] init[r])[c] is Float;
            assert(rows[r][c] is Float);
        }
        if exists|r: int| 0 <= r < init.len() && (#[trigger] init[r])[c] is Int {
            let r = choose|r: int| 0 <= r < init.len() && (#[trigger] init[r])[c] is Int;
            assert(rows[r][c] is Int);
        }
        if exists|r: int| 0 <= r < rows.len() && (#[trigger] rows[r])[c] is String {
            let r = choose|r: int| 0 <= r < rows.len() && (#[trigger] rows[r])[c] is String;
            if r < last {
                assert(init[r][c] is String);
            }
        }
        if exists|r: int| 0 <= r < rows.len() && (#[trigger] rows[r])[c] is Float {
            let r = choose|r: int| 0 <= r < rows.len() && (#[trigger] rows[r])[c] is Float;
            if r < last {
                assert(init[r][c] is Float);
            }
        }
        if exists|r: int| 0 <= r < rows.len() && (#[trigger] rows[r])[c] is Int {
            let r = choose|r: int| 0 <= r < rows.len() && (#[trigger] rows[r])[c] is Int;
            if r < last {
                assert(init[r][c] is Int);
            }
        }
    }
}

/// Two texts of which the same lines are sampled have the same schema.
pub proof fn lemma_schema_of_same_sample(a: Seq<u8>, b: Seq<u8>, num_lines_to_parse: usize)
    requires
        sample_lines(a, num_lines_to_parse) == sample_lines(b, num_lines_to_parse),
    ensures
        spec_infer_schema(a, num_lines_to_parse) == spec_infer_schema(b, num_lines_to_parse),
{
}

/// The schema has as many columns as the widest row that the sampled lines
/// make.
pub proof fn lemma_schema_width(s: Seq<u8>, num_lines_to_parse: usize)
    ensures
        spec_infer_schema(s, num_lines_to_parse).len() == widest(
            parsed_rows(sample_lines(s, num_lines_to_parse)),
        ),
{
    lemma_widest_rows_uniform(parsed_rows(sample_lines(s, num_lines_to_parse)));
}

} // verus!
