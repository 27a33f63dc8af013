//! What a plan covers: the lines that the workers of a plan read, taken
//! together, are the lines of one window of the text, each read once and
//! in the order of the text.

use crate::dataframe::{
    chunk_lines, chunk_start, file_lines, file_skips_first, file_start, file_step, holds_rows,
    lemma_chunk_step, lemma_unit_start_monotone, plan_lines, probe_len, rows_of, spec_from_file,
    spec_plan, spec_window_len, table_types, table_view, unit_lines, unit_start, Column, DataView,
};
use crate::lines::{lemma_line_end, lemma_line_end_within, line_end, lines_until};
use crate::parsers::LF;
use crate::schema::DataType;
use vstd::prelude::*;

verus! {

/// Whether position `b` is `a` or the end of a line that is reached from
/// `a` line by line.
pub open spec fn reaches(s: Seq<u8>, a: int, b: int) -> bool
    decreases s.len() - a,
    via reaches_decreases
{
    a == b || (0 <= a < s.len() && line_end(s, a) <= b && reaches(s, line_end(s, a), b))
}

#[via_fn]
proof fn reaches_decreases(s: Seq<u8>, a: int, b: int) {
    if 0 <= a < s.len() {
        lemma_line_end(s, a);
    }
}

/// The end of a line does not come before the end of a line that starts
/// earlier.
pub proof fn lemma_line_end_monotone(s: Seq<u8>, i: int, j: int)
    requires
        0 <= i <= j,
    ensures
        line_end(s, i) <= line_end(s, j),
{
    if i < s.len() {
        lemma_line_end(s, i);
        if j < line_end(s, i) {
            lemma_line_end_within(s, i, j);
        } else if j < s.len() {
            lemma_line_end(s, j);
        }
    }
}

/// From a position `a`, the end of the line of any later position of the
/// text is reached.
pub proof fn lemma_reaches_line_end(s: Seq<u8>, a: int, p: int)
    requires
        0 <= a <= p < s.len(),
    ensures
        reaches(s, a, line_end(s, p)),
    decreases s.len() - a,
{
    let e = line_end(s, a);
    lemma_line_end(s, a);
    lemma_line_end(s, p);
    if p < e {
        lemma_line_end_within(s, a, p);
        assert(reaches(s, e, e));
    } else {
        lemma_reaches_line_end(s, e, p);
    }
}

/// No line starts at or behind the end of the text.
pub proof fn lemma_lines_until_end(s: Seq<u8>, a: int, x: int)
    requires
        a >= s.len(),
    ensures
        lines_until(s, a, x) == Seq::<(int, int)>::empty(),
{
}

/// Every bound behind the end of the text gives the same lines: all that
/// follow.
pub proof fn lemma_lines_until_beyond(s: Seq<u8>, a: int, x: int, y: int)
    requires
        x > s.len(),
        y > s.len(),
    ensures
        lines_until(s, a, x) == lines_until(s, a, y),
    decreases s.len() - a,
{
    if 0 <= a < s.len() {
        lemma_line_end(s, a);
        lemma_lines_until_beyond(s, line_end(s, a), x, y);
    }
}

/// The lines from `a` on fall into those that end at `b` or before it and
/// those from `b` on, where `b` is reached from `a`.
pub proof fn lemma_lines_until_split(s: Seq<u8>, a: int, b: int, x: int)
    requires
        reaches(s, a, b),
        b + 1 <= x,
    ensures
        lines_until(s, a, x) == lines_until(s, a, b + 1) + lines_until(s, b, x),
    decreases s.len() - a,
{
    let none = Seq::<(int, int)>::empty();
    if a == b {
        if 0 <= a < s.len() {
            lemma_line_end(s, a);
        }
        assert(lines_until(s, a, a + 1) =~= none);
        assert(none + lines_until(s, b, x) =~= lines_until(s, b, x));
    } else {
        let e = line_end(s, a);
        lemma_line_end(s, a);
        lemma_lines_until_split(s, e, b, x);
        let first = seq![(a, e)];
        assert(first + (lines_until(s, e, b + 1) + lines_until(s, b, x)) =~= (first + lines_until(
            s,
            e,
            b + 1,
        )) + lines_until(s, b, x));
    }
}

/// The bound up to which the workers of a plan read, taken together: the
/// byte behind the last step, or else the end of the line that the last
/// unit starts in, where that lies further on.
pub open spec fn window_stop(s: Seq<u8>, from: int, step: int, workers: int) -> int {
    let end = from + workers * step;
    let reach = line_end(s, unit_start(from, step, workers - 1)) + 1;
    if workers >= 2 && reach > end {
        reach
    } else {
        end
    }
}

/// The bound up to which the first `j` workers of a plan read, taken
/// together.
pub open spec fn covered_until(s: Seq<u8>, from: int, step: int, workers: int, j: int) -> int {
    if j < workers {
        line_end(s, unit_start(from, step, j)) + 1
    } else {
        window_stop(s, from, step, workers)
    }
}

/// Whether no unit of the plan but the first starts at byte 0.
pub open spec fn plan_is_regular(from: int, step: int, workers: int) -> bool {
    from > 0 || step > 0 || workers == 1
}

/// Whether the workers of the plan read no line twice. A unit that starts
/// at byte 0 reads the first line, which it would else leave to the unit
/// before: where the window starts at byte 0 and has no byte, every unit
/// but the last reads the first line of the text.
pub open spec fn reads_no_line_twice(s: Seq<u8>, from: int, step: int, workers: int) -> bool {
    from > 0 || step > 0 || workers <= 2 || s.len() == 0
}

/// The lines that the first `j` units of a plan give are the lines from
/// where the first worker starts to read up to the bound of unit `j`.
pub proof fn lemma_plan_prefix(s: Seq<u8>, from: int, step: int, workers: int, j: int)
    requires
        s.len() <= usize::MAX,
        0 <= from,
        0 <= step,
        1 <= j <= workers,
        plan_is_regular(from, step, workers),
    ensures
        plan_lines(
            s,
            spec_plan(s, from, step, workers).take(j),
            file_skips_first(s, from, workers),
        ) == lines_until(
            s,
            file_start(s, from, workers),
            covered_until(s, from, step, workers, j),
        ),
    decreases j,
{
    let units = spec_plan(s, from, step, workers);
    let skip = file_skips_first(s, from, workers);
    let none = Seq::<(int, int)>::empty();
    let a0 = file_start(s, from, workers);
    let start = unit_start(from, step, j - 1);
    let next = unit_start(from, step, j);
    lemma_unit_start_monotone(from, step, j - 1, j);
    lemma_unit_start_monotone(from, step, j - 1, workers - 1);
    lemma_unit_start_monotone(from, step, workers - 1, workers);
    assert(units.take(j).drop_last() =~= units.take(j - 1));
    assert(units.take(j).last() == units[j - 1]);
    assert(units.take(j)[0] == units[0]);
    assert(units[j - 1].0 == start);
    // where the unit stops
    let stop = start + units[j - 1].1;
    assert(stop == if j < workers {
        line_end(s, next) + 1
    } else {
        from + workers * step
    }) by {
        if j < workers {
            if next < s.len() {
                lemma_line_end(s, next);
            }
            assert(0 <= probe_len(s, next) <= s.len());
        }
    }
    let x = covered_until(s, from, step, workers, j);
    if j == 1 {
        // the first unit, which starts to read where the reading starts
        assert(start == from && (workers == 1 ==> workers * step == step)) by (nonlinear_arith)
            requires
                start == from + (j - 1) * step,
                j == 1,
        ;
        assert(plan_lines(s, units.take(1), skip) == unit_lines(s, from, units[0].1, skip));
    } else {
        lemma_plan_prefix(s, from, step, workers, j - 1);
        assert(plan_lines(s, units.take(j), skip) == plan_lines(s, units.take(j - 1), skip)
            + chunk_lines(s, start, units[j - 1].1));
        // the unit starts behind byte 0, in the line that ends at `b`
        assert(a0 == chunk_start(s, from));
        assert(start > 0) by {
            assert((j - 1) * step > 0 || from > 0) by (nonlinear_arith)
                requires
                    j - 1 >= 1,
                    from > 0 || step > 0,
                    from >= 0,
                    step >= 0,
            ;
        }
        let b = line_end(s, start);
        lemma_line_end_monotone(s, start, next);
        lemma_line_end_monotone(s, start, unit_start(from, step, workers - 1));
        assert(b + 1 <= x);
        if start >= s.len() {
            lemma_lines_until_beyond(s, a0, b + 1, x);
            lemma_lines_until_end(s, b, stop);
            assert(lines_until(s, a0, x) + none =~= lines_until(s, a0, x));
        } else {
            assert(reaches(s, a0, b)) by {
                if from == 0 {
                    lemma_reaches_line_end(s, 0, start);
                } else {
                    lemma_line_end(s, from);
                    if start < a0 {
                        lemma_line_end_within(s, from, start);
                    } else {
                        lemma_reaches_line_end(s, a0, start);
                    }
                }
            }
            lemma_lines_until_split(s, a0, b, x);
            if stop < x {
                // the last unit ends within the line that it starts in
                lemma_line_end(s, start);
                if b < s.len() {
                    lemma_line_end(s, b);
                }
                assert(lines_until(s, b, stop) =~= none);
                assert(lines_until(s, b, x) =~= none);
            }
        }
    }
}

/// No worker reads a line of a text that has none.
pub proof fn lemma_plan_lines_of_empty_text(s: Seq<u8>, units: Seq<(int, int)>, skip_first: bool)
    requires
        s.len() == 0,
        forall|i: int| 0 <= i < units.len() ==> (#[trigger] units[i]).0 >= 0,
    ensures
        plan_lines(s, units, skip_first) == Seq::<(int, int)>::empty(),
    decreases units.len(),
{
    let none = Seq::<(int, int)>::empty();
    if units.len() == 1 {
        assert(unit_lines(s, units[0].0, units[0].1, skip_first) =~= none);
    } else if units.len() > 1 {
        lemma_plan_lines_of_empty_text(s, units.drop_last(), skip_first);
        let last = units.last();
        lemma_lines_until_end(s, chunk_start(s, last.0), last.0 + last.1);
        assert(none + none =~= none);
    }
}

/// The lines that the workers of a plan read, taken together and in the
/// order of the units, are the lines of the text from where the first
/// worker starts to read up to the bound of the window: each of them once,
/// in the order of the text. One worker alone starts to read at `from`
/// where a line starts there, and behind the line that holds `from` where
/// none does; the first of several workers starts at `from` only where
/// `from` is 0.
pub proof fn lemma_plan_covers_window(s: Seq<u8>, from: int, step: int, workers: int)
    requires
        s.len() <= usize::MAX,
        0 <= from,
        0 <= step,
        1 <= workers,
        reads_no_line_twice(s, from, step, workers),
    ensures
        plan_lines(s, spec_plan(s, from, step, workers), file_skips_first(s, from, workers))
            == lines_until(
            s,
            file_start(s, from, workers),
            window_stop(s, from, step, workers),
        ),
{
    let units = spec_plan(s, from, step, workers);
    let skip = file_skips_first(s, from, workers);
    let none = Seq::<(int, int)>::empty();
    if plan_is_regular(from, step, workers) {
        assert(units.take(workers) =~= units);
        lemma_plan_prefix(s, from, step, workers, workers);
    } else if s.len() == 0 {
        assert forall|i: int| 0 <= i < units.len() implies (#[trigger] units[i]).0 >= 0 by {
            lemma_unit_start_monotone(from, step, i, i);
        }
        lemma_plan_lines_of_empty_text(s, units, skip);
        lemma_lines_until_end(s, file_start(s, from, workers), window_stop(s, from, step, workers));
    } else {
        // two units at byte 0, of which the first reads the first line
        lemma_line_end(s, 0);
        assert(unit_start(0, 0, 0) == 0 && unit_start(0, 0, 1) == 0);
        assert(units.drop_last() =~= seq![units[0]]);
        assert(units[0] == (0int, line_end(s, 0) + 1));
        assert(units[1] == (0int, 0int));
        let one = seq![units[0]];
        assert(plan_lines(s, one, skip) == lines_until(s, 0, line_end(s, 0) + 1));
        assert(lines_until(s, 0, 0) =~= none);
        assert(lines_until(s, 0, line_end(s, 0) + 1) + none =~= lines_until(
            s,
            0,
            line_end(s, 0) + 1,
        ));
    }
}

/// One worker that is asked to read from the start of a line on reads that
/// line, where it ends before the bound and is a row; one that is asked to
/// read from within a line on starts behind that line.
pub proof fn lemma_one_worker_start(s: Seq<u8>, from: int)
    requires
        0 <= from,
    ensures
        file_start(s, from, 1) == (if from == 0 || (from <= s.len() && s[from - 1] == LF) {
            from
        } else {
            line_end(s, from)
        }),
{
}

/// One worker alone reads the lines from where it starts to read on that
/// end before the end of the window.
pub proof fn lemma_one_worker_lines(s: Seq<u8>, from: int, len: int)
    requires
        s.len() <= usize::MAX,
        0 <= from,
        0 <= len <= usize::MAX,
    ensures
        file_lines(s, from, len, 1) == lines_until(
            s,
            file_start(s, from, 1),
            from + spec_window_len(s.len() as int, from, len),
        ),
{
    let bytes = spec_window_len(s.len() as int, from, len);
    lemma_chunk_step(bytes, 1);
    assert(file_step(s, from, len, 1) == bytes);
    lemma_plan_covers_window(s, from, bytes, 1);
    assert(1 * bytes == bytes);
}

/// Whether `workers` workers that read a whole text read the line that
/// ends it.
pub open spec fn reads_last_line(s: Seq<u8>, workers: int) -> bool {
    window_stop(s, 0, file_step(s, 0, usize::MAX as int, workers), workers) > s.len()
}

/// However many workers read a whole text, they read every line that ends
/// before the end of the text, in the order of the text; the line that
/// ends the text they read or leave out.
pub proof fn lemma_whole_file_lines(s: Seq<u8>, workers: int)
    requires
        s.len() <= usize::MAX,
        1 <= workers,
    ensures
        file_lines(s, 0, usize::MAX as int, workers) == lines_until(
            s,
            0,
            if reads_last_line(s, workers) {
                s.len() as int + 1
            } else {
                s.len() as int
            },
        ),
{
    let step = file_step(s, 0, usize::MAX as int, workers);
    let units = spec_plan(s, 0, step, workers);
    lemma_chunk_step(s.len() as int, workers);
    if s.len() == 0 {
        assert forall|i: int| 0 <= i < units.len() implies (#[trigger] units[i]).0 >= 0 by {
            lemma_unit_start_monotone(0, step, i, i);
        }
        lemma_plan_lines_of_empty_text(s, units, false);
        lemma_lines_until_end(s, 0, s.len() as int + 1);
        lemma_lines_until_end(s, 0, s.len() as int);
    } else {
        lemma_plan_covers_window(s, 0, step, workers);
        let stop = window_stop(s, 0, step, workers);
        assert(stop >= workers * step);
        if stop > s.len() {
            lemma_lines_until_beyond(s, 0, stop, s.len() as int + 1);
        }
    }
}

/// The lines up to the end of a text are those that end before it, and at
/// most one more.
pub proof fn lemma_last_line(s: Seq<u8>, a: int)
    ensures
        lines_until(s, a, s.len() as int).len() <= lines_until(s, a, s.len() as int + 1).len()
            <= lines_until(s, a, s.len() as int).len() + 1,
        lines_until(s, a, s.len() as int) == lines_until(s, a, s.len() as int + 1).take(
            lines_until(s, a, s.len() as int).len() as int,
        ),
    decreases s.len() - a,
{
    let short = lines_until(s, a, s.len() as int);
    let long = lines_until(s, a, s.len() as int + 1);
    if 0 <= a < s.len() {
        let e = line_end(s, a);
        lemma_line_end(s, a);
        if e < s.len() {
            lemma_last_line(s, e);
            let first = seq![(a, e)];
            let less = lines_until(s, e, s.len() as int);
            let more = lines_until(s, e, s.len() as int + 1);
            assert(short == first + less);
            assert(long == first + more);
            assert(first + more.take(less.len() as int) =~= (first + more).take(
                less.len() as int + 1,
            ));
        } else {
            lemma_lines_until_end(s, e, s.len() as int + 1);
            assert(long =~= seq![(a, e)]);
            assert(short =~= long.take(0));
        }
    } else {
        assert(short =~= long.take(0));
    }
}

/// The rows of all lines of a text but the one that ends it.
pub open spec fn inner_rows(s: Seq<u8>, schema: Seq<DataType>) -> Seq<Seq<DataView>> {
    rows_of(s, schema, lines_until(s, 0, s.len() as int))
}

/// The rows of all lines of a text.
pub open spec fn all_rows(s: Seq<u8>, schema: Seq<DataType>) -> Seq<Seq<DataView>> {
    rows_of(s, schema, lines_until(s, 0, s.len() as int + 1))
}

/// However many workers read a whole text, they give the rows of all its
/// lines, or of all but the line that ends it.
pub proof fn lemma_whole_file_rows(s: Seq<u8>, schema: Seq<DataType>, workers: int)
    requires
        s.len() <= usize::MAX,
        1 <= workers,
    ensures
        spec_from_file(s, schema, 0, usize::MAX as int, workers) == (if reads_last_line(
            s,
            workers,
        ) {
            all_rows(s, schema)
        } else {
            inner_rows(s, schema)
        }),
{
    lemma_whole_file_lines(s, workers);
}

/// Two numbers of workers that read a whole text give the same rows,
/// where both read the line that ends the text or both leave it out, or
/// where that line is no row.
pub proof fn lemma_workers_agree(s: Seq<u8>, schema: Seq<DataType>, w1: int, w2: int)
    requires
        s.len() <= usize::MAX,
        1 <= w1,
        1 <= w2,
        reads_last_line(s, w1) == reads_last_line(s, w2) || all_rows(s, schema) == inner_rows(
            s,
            schema,
        ),
    ensures
        spec_from_file(s, schema, 0, usize::MAX as int, w1) == spec_from_file(
            s,
            schema,
            0,
            usize::MAX as int,
            w2,
        ),
{
    lemma_whole_file_lines(s, w1);
    lemma_whole_file_lines(s, w2);
}

/// Two tables that were read from one text with one schema, one window
/// and one number of workers hold the same cells in columns of the same
/// types.
pub proof fn lemma_from_file_twice(
    s: Seq<u8>,
    schema: Seq<DataType>,
    from: int,
    len: int,
    workers: int,
    first: Seq<Column>,
    second: Seq<Column>,
)
    requires
        holds_rows(first, schema, spec_from_file(s, schema, from, len, workers)),
        holds_rows(second, schema, spec_from_file(s, schema, from, len, workers)),
    ensures
        table_types(first) == table_types(second),
        table_view(first) == table_view(second),
{
}

} // verus!
