//! What follows the last field of a row: a row that is read from the head
//! of a line stays the same row when other bytes follow it, as long as no
//! double quote stands among them.

use crate::dataframe::DataView;
use crate::parsers::{
    closed, field_close, field_open, float_literal, in_class, lemma_field_close_len,
    lemma_field_shrinks, lemma_payload_len, lemma_run_len, lemma_run_len_is,
    lemma_skip_spaces_len, run_len, skip_spaces, spec_bool, spec_delimited_null, spec_int,
    spec_null, spec_parse_line_with_schema, spec_schema_cells, spec_schema_field, spec_string,
    string_run, ByteClass, Parsed, GT, MINUS, PLUS, QUOTE,
};
use crate::schema::DataType;
use vstd::prelude::*;

verus! {

/// Whether `a` and `b` have the same first `n` bytes.
pub open spec fn same_head(a: Seq<u8>, b: Seq<u8>, n: int) -> bool {
    &&& 0 <= n <= a.len()
    &&& n <= b.len()
    &&& forall|j: int| 0 <= j < n ==> a[j] == b[j]
}

/// Whether no double quote stands in `b` from position `n` on.
pub open spec fn no_quote_from(b: Seq<u8>, n: int) -> bool {
    forall|j: int| n <= j < b.len() ==> b[j] != QUOTE
}

/// The number of bytes of `a` that a recogniser read which left `rest`.
pub open spec fn read_of(a: Seq<u8>, rest: Seq<u8>) -> int {
    a.len() - rest.len()
}

/// Whether the outcome `mb` on `b` is the outcome `ma` on `a`, where that
/// is a cell: the same cell, read from as many bytes.
pub open spec fn same_outcome(a: Seq<u8>, ma: Parsed, b: Seq<u8>, mb: Parsed) -> bool {
    match ma {
        Some((rest, v)) => {
            &&& 0 <= read_of(a, rest) <= a.len()
            &&& read_of(a, rest) <= b.len()
            &&& rest == a.skip(read_of(a, rest))
            &&& mb == Some((b.skip(read_of(a, rest)), v))
        },
        None => true,
    }
}

/// What is left behind `k` bytes of two sequences with the same head has
/// the same head, and no double quote where there was none.
pub proof fn lemma_skip_same_head(a: Seq<u8>, b: Seq<u8>, n: int, k: int)
    requires
        same_head(a, b, n),
        0 <= k <= n,
    ensures
        same_head(a.skip(k), b.skip(k), n - k),
        no_quote_from(b, n) ==> no_quote_from(b.skip(k), n - k),
{
    if no_quote_from(b, n) {
        assert forall|j: int| n - k <= j < b.skip(k).len() implies b.skip(k)[j] != QUOTE by {
            assert(b.skip(k)[j] == b[j + k]);
        }
    }
}

/// A run that ends within the common head of two sequences is as long in
/// the one as in the other.
pub proof fn lemma_run_same(a: Seq<u8>, b: Seq<u8>, n: int, c: ByteClass)
    requires
        same_head(a, b, n),
        run_len(a, c) < n,
    ensures
        run_len(b, c) == run_len(a, c),
    decreases a.len(),
{
    if a.len() > 0 && in_class(c, a[0]) {
        lemma_skip_same_head(a, b, n, 1);
        lemma_run_same(a.drop_first(), b.drop_first(), n - 1, c);
    }
}

/// Whitespace at the head that ends within the common head is skipped
/// alike.
pub proof fn lemma_skip_spaces_same(a: Seq<u8>, b: Seq<u8>, n: int)
    requires
        same_head(a, b, n),
        read_of(a, skip_spaces(a)) < n,
    ensures
        skip_spaces(b) == b.skip(read_of(a, skip_spaces(a))),
        skip_spaces(a) == a.skip(read_of(a, skip_spaces(a))),
        0 <= read_of(a, skip_spaces(a)) <= a.len(),
{
    lemma_run_len(a, ByteClass::Space);
    lemma_run_same(a, b, n, ByteClass::Space);
}

/// The start of a field whose payload starts within the common head is
/// read alike.
pub proof fn lemma_open_same(a: Seq<u8>, b: Seq<u8>, n: int)
    requires
        same_head(a, b, n),
        field_open(a) matches Some(p) && read_of(a, p) < n,
    ensures
        1 <= read_of(a, field_open(a).unwrap()) <= a.len(),
        field_open(a).unwrap() == a.skip(read_of(a, field_open(a).unwrap())),
        field_open(b) == Some(b.skip(read_of(a, field_open(a).unwrap()))),
        // the payload starts with a byte that is no whitespace
        !in_class(ByteClass::Space, a[read_of(a, field_open(a).unwrap())]),
{
    let p = field_open(a).unwrap();
    lemma_run_len(a.drop_first(), ByteClass::Space);
    lemma_skip_same_head(a, b, n, 1);
    lemma_skip_spaces_same(a.skip(1), b.skip(1), n - 1);
    let r = read_of(a.skip(1), p);
    assert(a.skip(1).skip(r) =~= a.skip(1 + r));
    assert(b.skip(1).skip(r) =~= b.skip(1 + r));
    assert(a.drop_first()[r] == a[1 + r]);
}

/// The end of a field that lies within the common head is read alike.
pub proof fn lemma_close_same(a: Seq<u8>, b: Seq<u8>, n: int)
    requires
        same_head(a, b, n),
        field_close(a) matches Some(r) && read_of(a, r) <= n,
    ensures
        1 <= read_of(a, field_close(a).unwrap()) <= a.len(),
        field_close(a).unwrap() == a.skip(read_of(a, field_close(a).unwrap())),
        field_close(b) == Some(b.skip(read_of(a, field_close(a).unwrap()))),
{
    let t = skip_spaces(a);
    lemma_run_len(a, ByteClass::Space);
    lemma_skip_spaces_same(a, b, n);
    let k = read_of(a, t);
    assert(t[0] == a[k]);
    assert(b.skip(k)[0] == b[k]);
    assert(a.skip(k).drop_first() =~= a.skip(k + 1));
    assert(b.skip(k).drop_first() =~= b.skip(k + 1));
}

/// A payload that was read alike, with the end of its field within the
/// common head, gives the same field.
pub proof fn lemma_closed_same(a: Seq<u8>, ma: Parsed, b: Seq<u8>, mb: Parsed, n: int)
    requires
        same_head(a, b, n),
        ma is Some,
        same_outcome(a, ma, b, mb),
        closed(ma) matches Some((rest, _)) && read_of(a, rest) <= n,
    ensures
        same_outcome(a, closed(ma), b, closed(mb)),
{
    let (left, v) = ma.unwrap();
    let k = read_of(a, left);
    let rest = closed(ma).unwrap().0;
    lemma_field_close_len(left);
    lemma_skip_same_head(a, b, n, k);
    lemma_close_same(a.skip(k), b.skip(k), n - k);
    let r = read_of(left, rest);
    assert(a.skip(k).skip(r) =~= a.skip(k + r));
    assert(b.skip(k).skip(r) =~= b.skip(k + r));
}

/// An outcome on what is left behind `k` bytes is an outcome on the
/// whole.
pub proof fn lemma_same_outcome_behind(
    a: Seq<u8>,
    b: Seq<u8>,
    k: int,
    ma: Parsed,
    mb: Parsed,
)
    requires
        0 <= k <= a.len(),
        k <= b.len(),
        ma is Some,
        same_outcome(a.skip(k), ma, b.skip(k), mb),
    ensures
        same_outcome(a, ma, b, mb),
        read_of(a, ma.unwrap().0) == k + read_of(a.skip(k), ma.unwrap().0),
{
    let r = read_of(a.skip(k), ma.unwrap().0);
    assert(a.skip(k).skip(r) =~= a.skip(k + r));
    assert(b.skip(k).skip(r) =~= b.skip(k + r));
}

/// A boolean within the common head is read alike.
pub proof fn lemma_bool_same(p: Seq<u8>, q: Seq<u8>, m: int)
    requires
        same_head(p, q, m),
        spec_bool(p) matches Some((rest, _)) && read_of(p, rest) < m,
    ensures
        same_outcome(p, spec_bool(p), q, spec_bool(q)),
{
    assert(p.drop_first() =~= p.skip(1));
    assert(q.drop_first() =~= q.skip(1));
}

/// An integer that ends within the common head is read alike.
pub proof fn lemma_int_same(p: Seq<u8>, q: Seq<u8>, m: int)
    requires
        same_head(p, q, m),
        spec_int(p) matches Some((rest, _)) && read_of(p, rest) < m,
    ensures
        same_outcome(p, spec_int(p), q, spec_int(q)),
{
    let signed = p.len() > 0 && (p[0] == PLUS || p[0] == MINUS);
    let sign: int = if signed {
        1
    } else {
        0
    };
    let body = p.skip(sign);
    let other = q.skip(sign);
    assert(p.drop_first() =~= p.skip(1));
    assert(q.drop_first() =~= q.skip(1));
    assert(p.skip(0) =~= p);
    assert(q.skip(0) =~= q);
    lemma_run_len(body, ByteClass::Digit);
    let r = run_len(body, ByteClass::Digit) as int;
    lemma_skip_same_head(p, q, m, sign);
    lemma_run_same(body, other, m - sign, ByteClass::Digit);
    assert(body.take(r) =~= other.take(r));
    assert(body.skip(r) =~= p.skip(sign + r));
    assert(other.skip(r) =~= q.skip(sign + r));
}

/// A string that ends within the common head is read alike, where no
/// double quote follows the common head.
pub proof fn lemma_string_same(p: Seq<u8>, q: Seq<u8>, m: int)
    requires
        same_head(p, q, m),
        no_quote_from(q, m),
        spec_string(p) matches Some((rest, _)) && read_of(p, rest) < m,
    ensures
        same_outcome(p, spec_string(p), q, spec_string(q)),
{
    let body = p.drop_first();
    let other = q.drop_first();
    let quoted = run_len(body, ByteClass::Quoted) as int;
    let bare = run_len(p, ByteClass::Bare) as int;
    lemma_run_len(body, ByteClass::Quoted);
    lemma_run_len(p, ByteClass::Bare);
    if p.len() > 0 {
        lemma_skip_same_head(p, q, m, 1);
        assert(body =~= p.skip(1));
        assert(other =~= q.skip(1));
    }
    if p.len() > 0 && p[0] == QUOTE && 0 < quoted < body.len() {
        lemma_run_same(body, other, m - 1, ByteClass::Quoted);
        assert(body.take(quoted) =~= other.take(quoted));
        assert(body.skip(quoted + 1) =~= p.skip(quoted + 2));
        assert(other.skip(quoted + 1) =~= q.skip(quoted + 2));
    } else {
        lemma_run_same(p, q, m, ByteClass::Bare);
        assert(p.take(bare) =~= q.take(bare));
        if p[0] == QUOTE {
            // the quote is not closed in `q` either
            if quoted == 0 {
                assert(body[0] == QUOTE);
                assert(in_class(ByteClass::Bare, body[0]));
                assert(run_len(body, ByteClass::Bare) >= 1);
                assert(other[0] == q[1]);
                lemma_run_len_is(other, ByteClass::Quoted, 0);
            } else {
                assert forall|j: int| 0 <= j < other.len() implies in_class(
                    ByteClass::Quoted,
                    #[trigger] other[j],
                ) by {
                    assert(other[j] == q[j + 1]);
                    if j + 1 < m {
                        assert(body[j] == p[j + 1]);
                    }
                }
                lemma_run_len_is(other, ByteClass::Quoted, other.len() as int);
            }
        }
        assert(string_run(q) == Some((q.take(bare), q.skip(bare))));
    }
}

/// A field whose payload is read alike, and which ends within the common
/// head, is read alike.
pub proof fn lemma_delimited_same(a: Seq<u8>, b: Seq<u8>, n: int, mp: Parsed, mq: Parsed)
    requires
        same_head(a, b, n),
        field_open(a) matches Some(p) && read_of(a, p) < n && same_outcome(
            p,
            mp,
            b.skip(read_of(a, p)),
            mq,
        ),
        mp is Some,
        closed(mp) matches Some((rest, _)) && read_of(a, rest) <= n,
    ensures
        same_outcome(a, closed(mp), b, closed(mq)),
{
    let p = field_open(a).unwrap();
    let k = read_of(a, p);
    lemma_open_same(a, b, n);
    lemma_skip_same_head(a, b, n, k);
    lemma_closed_same(p, mp, b.skip(k), mq, n - k);
    lemma_same_outcome_behind(a, b, k, closed(mp), closed(mq));
}

/// A field of a column that ends within the common head is read alike,
/// where no double quote follows the common head.
pub proof fn lemma_field_same(a: Seq<u8>, b: Seq<u8>, n: int, t: DataType)
    requires
        same_head(a, b, n),
        no_quote_from(b, n),
        spec_schema_field(a, t) matches Some((rest, _)) && read_of(a, rest) <= n,
    ensures
        same_outcome(a, spec_schema_field(a, t), b, spec_schema_field(b, t)),
{
    let p = field_open(a).unwrap();
    let k = read_of(a, p);
    let rest = spec_schema_field(a, t).unwrap().0;
    lemma_payload_len(p);
    lemma_run_len(p, ByteClass::Token);
    let r = run_len(p, ByteClass::Token) as int;
    // the payload starts within the common head, and so does the end of
    // the field
    assert(k < n && p.len() > 0) by {
        if let Some((left, _)) = spec_null(p) {
            lemma_field_close_len(left);
        }
        if let Some((left, _)) = spec_bool(p) {
            lemma_field_close_len(left);
        }
        if let Some((left, _)) = spec_int(p) {
            lemma_field_close_len(left);
        }
        if let Some((left, _)) = spec_string(p) {
            lemma_field_close_len(left);
        }
        lemma_field_close_len(p.skip(r));
    }
    lemma_open_same(a, b, n);
    lemma_skip_same_head(a, b, n, k);
    let q = b.skip(k);
    assert(p[0] == a[k] && q[0] == b[k]);
    lemma_run_len_is(p, ByteClass::Space, 0);
    lemma_run_len_is(q, ByteClass::Space, 0);
    assert(skip_spaces(p) =~= p);
    assert(skip_spaces(q) =~= q);
    assert(p.skip(0) =~= p);
    assert(q.skip(0) =~= q);
    if spec_delimited_null(a) is Some {
        lemma_delimited_same(a, b, n, spec_null(p), spec_null(q));
    } else {
        // the payload is not empty in `b` either
        assert(p[0] != GT);
        assert(spec_delimited_null(b) is None);
        match t {
            DataType::Bool => {
                lemma_field_close_len(spec_bool(p).unwrap().0);
                lemma_bool_same(p, q, n - k);
                lemma_delimited_same(a, b, n, spec_bool(p), spec_bool(q));
            },
            DataType::Int => {
                lemma_field_close_len(spec_int(p).unwrap().0);
                lemma_int_same(p, q, n - k);
                lemma_delimited_same(a, b, n, spec_int(p), spec_int(q));
            },
            DataType::String => {
                lemma_field_close_len(spec_string(p).unwrap().0);
                lemma_string_same(p, q, n - k);
                lemma_delimited_same(a, b, n, spec_string(p), spec_string(q));
            },
            DataType::Float => {
                let bits = float_literal(p.take(r)).unwrap().1;
                let mp: Parsed = Some((p.skip(r), DataView::Float(bits)));
                let mq: Parsed = Some((q.skip(r), DataView::Float(bits)));
                lemma_field_close_len(p.skip(r));
                lemma_run_same(p, q, n - k, ByteClass::Token);
                assert(p.take(r) =~= q.take(r));
                lemma_delimited_same(a, b, n, mp, mq);
            },
        }
    }
}

/// What is left of `s` behind one field for each type of `schema`; `None`
/// where a field is not of its column's type, or `s` comes to its end
/// before the last column.
pub open spec fn spec_schema_left(s: Seq<u8>, schema: Seq<DataType>) -> Option<Seq<u8>>
    decreases schema.len(),
{
    let p = skip_spaces(s);
    if schema.len() == 0 {
        Some(s)
    } else if p.len() == 0 {
        None
    } else {
        match spec_schema_field(p, schema[0]) {
            Some((left, _)) => spec_schema_left(left, schema.drop_first()),
            None => None,
        }
    }
}

/// What is left behind the fields of a row is no longer than the line.
pub proof fn lemma_schema_left_len(s: Seq<u8>, schema: Seq<DataType>)
    ensures
        spec_schema_left(s, schema) matches Some(left) ==> left.len() <= s.len(),
    decreases schema.len(),
{
    if schema.len() > 0 {
        let p = skip_spaces(s);
        lemma_skip_spaces_len(s);
        lemma_field_shrinks(p);
        if let Some((left, _)) = spec_schema_field(p, schema[0]) {
            lemma_schema_left_len(left, schema.drop_first());
        }
    }
}

/// Bytes behind the last field of a row do not change the row: where a
/// line has a field for each column, every line that starts with the same
/// bytes up to the end of the last of them is the same row, if no double
/// quote follows these bytes. A double quote there may close a quote that
/// a field of the row opens.
pub proof fn lemma_trailing_bytes(a: Seq<u8>, b: Seq<u8>, schema: Seq<DataType>, n: int)
    requires
        spec_schema_left(a, schema) matches Some(left) && read_of(a, left) <= n,
        same_head(a, b, n),
        no_quote_from(b, n),
    ensures
        spec_schema_cells(a, schema) is Some,
        spec_schema_cells(b, schema) == spec_schema_cells(a, schema),
        schema.len() > 0 ==> spec_parse_line_with_schema(b, schema) == spec_parse_line_with_schema(
            a,
            schema,
        ),
    decreases schema.len(),
{
    if schema.len() > 0 {
        let types = schema.drop_first();
        let p = skip_spaces(a);
        let (left, cell) = spec_schema_field(p, schema[0]).unwrap();
        let r = read_of(a, p);
        lemma_skip_spaces_len(a);
        lemma_field_shrinks(p);
        lemma_schema_left_len(left, types);
        lemma_skip_spaces_same(a, b, n);
        lemma_skip_same_head(a, b, n, r);
        let q = b.skip(r);
        lemma_field_same(p, q, n - r, schema[0]);
        let k = read_of(p, left);
        lemma_skip_same_head(p, q, n - r, k);
        lemma_trailing_bytes(left, q.skip(k), types, n - r - k);
    }
}

} // verus!
