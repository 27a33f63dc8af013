//! Recognisers for the fields and lines of SoR text.
//!
//! A recogniser takes the input that is left and gives back what is left
//! after it, together with the cell that it read. Each comes with a spec
//! function of the same shape over `Seq<u8>`, which says what it accepts.

use crate::dataframe::{row_as, row_fits, row_view, Data, DataView};
use crate::schema::{cell_type, DataType};
use vstd::prelude::*;
use vstd::utf8::{decode_utf8, valid_utf8};

verus! {

/// The space.
pub const SPACE: u8 = 32;

/// The horizontal tab.
pub const TAB: u8 = 9;

/// The carriage return.
pub const CR: u8 = 13;

/// The line feed, which ends a line.
pub const LF: u8 = 10;

/// `<`, which opens a field.
pub const LT: u8 = 60;

/// `>`, which closes a field.
pub const GT: u8 = 62;

/// The double quote.
pub const QUOTE: u8 = 34;

/// `+`.
pub const PLUS: u8 = 43;

/// `-`.
pub const MINUS: u8 = 45;

/// The digit 0, which is also the boolean `false`.
pub const ZERO: u8 = 48;

/// The digit 1, which is also the boolean `true`.
pub const ONE: u8 = 49;

/// The digit 9.
pub const NINE: u8 = 57;

/// The classes of bytes over which a scan runs.
#[derive(Clone, Copy, Debug)]
pub enum ByteClass {
    /// Space, tab, carriage return and line feed.
    Space,
    /// The decimal digits.
    Digit,
    /// Every byte but whitespace and `>`: what a number's token is made of.
    Token,
    /// Every byte but the space and `>`: what an unquoted string is made of.
    Bare,
    /// Every byte but the double quote.
    Quoted,
}

/// Whether `b` is whitespace.
pub open spec fn is_space(b: u8) -> bool {
    b == SPACE || b == TAB || b == CR || b == LF
}

/// Whether `b` is a decimal digit.
pub open spec fn is_digit(b: u8) -> bool {
    ZERO <= b <= NINE
}

/// Whether the byte `b` belongs to the class `c`.
pub open spec fn in_class(c: ByteClass, b: u8) -> bool {
    match c {
        ByteClass::Space => is_space(b),
        ByteClass::Digit => is_digit(b),
        ByteClass::Token => !is_space(b) && b != GT,
        ByteClass::Bare => b != SPACE && b != GT,
        ByteClass::Quoted => b != QUOTE,
    }
}

/// The number of bytes at the head of `s` that belong to the class `c`.
pub open spec fn run_len(s: Seq<u8>, c: ByteClass) -> nat
    decreases s.len(),
{
    if s.len() > 0 && in_class(c, s[0]) {
        1 + run_len(s.drop_first(), c)
    } else {
        0
    }
}

/// A run lies within the sequence, holds only bytes of the class, and is
/// followed by a byte outside the class or by the end.
pub proof fn lemma_run_len(s: Seq<u8>, c: ByteClass)
    ensures
        run_len(s, c) <= s.len(),
        forall|j: int| 0 <= j < run_len(s, c) ==> in_class(c, #[trigger] s[j]),
        run_len(s, c) < s.len() ==> !in_class(c, s[run_len(s, c) as int]),
    decreases s.len(),
{
    if s.len() > 0 && in_class(c, s[0]) {
        let t = s.drop_first();
        lemma_run_len(t, c);
        assert forall|j: int| 0 <= j < run_len(s, c) implies in_class(c, #[trigger] s[j]) by {
            if j > 0 {
                assert(s[j] == t[j - 1]);
            }
        }
        if run_len(s, c) < s.len() {
            assert(s[run_len(s, c) as int] == t[run_len(t, c) as int]);
        }
    }
}

/// Whether the byte `b` belongs to the class `c`.
fn class_holds(c: ByteClass, b: u8) -> (r: bool)
    ensures
        r == in_class(c, b),
{
    match c {
        ByteClass::Space => b == SPACE || b == TAB || b == CR || b == LF,
        ByteClass::Digit => ZERO <= b && b <= NINE,
        ByteClass::Token => !(b == SPACE || b == TAB || b == CR || b == LF) && b != GT,
        ByteClass::Bare => b != SPACE && b != GT,
        ByteClass::Quoted => b != QUOTE,
    }
}

/// Counts the bytes at the head of `i` that belong to the class `c`.
pub fn scan(i: &[u8], c: ByteClass) -> (n: usize)
    ensures
        n == run_len(i@, c),
        n <= i.len(),
{
    let mut k: usize = 0;
    assert(i@.skip(0) =~= i@);
    while k < i.len() && class_holds(c, i[k])
        invariant
            k <= i.len(),
            run_len(i@, c) == k + run_len(i@.skip(k as int), c),
        decreases i.len() - k,
    {
        proof {
            assert(i@.skip(k as int)[0] == i@[k as int]);
            assert(i@.skip(k as int).drop_first() =~= i@.skip(k + 1));
        }
        k += 1;
    }
    proof {
        if k < i.len() {
            assert(i@.skip(k as int)[0] == i@[k as int]);
        }
    }
    k
}

/// What is left of `s` after the whitespace at its head.
pub open spec fn skip_spaces(s: Seq<u8>) -> Seq<u8> {
    s.skip(run_len(s, ByteClass::Space) as int)
}

/// Skips the whitespace at the head of `i`.
pub fn my_multispace(i: &[u8]) -> (rest: &[u8])
    ensures
        rest@ == skip_spaces(i@),
{
    let n = scan(i, ByteClass::Space);
    &i[n..i.len()]
}

/// What a recogniser says of an input: what is left after the cell, and
/// the cell; or `None` where the input does not start with such a cell.
pub type Parsed = Option<(Seq<u8>, DataView)>;

/// Whether the outcome `r` of a recogniser is the outcome `m` that its
/// spec function gives.
pub open spec fn parsed_as(r: Option<(&[u8], Data)>, m: Parsed) -> bool {
    match (r, m) {
        (Some((rest, d)), Some((left, v))) => rest@ == left && d@ == v,
        (None, None) => true,
        _ => false,
    }
}

/// The payload of a field that starts at the head of `s`: what follows
/// `<` and the whitespace behind it.
pub open spec fn field_open(s: Seq<u8>) -> Option<Seq<u8>> {
    if s.len() > 0 && s[0] == LT {
        Some(skip_spaces(s.drop_first()))
    } else {
        None
    }
}

/// What follows the end of a field: `s` after whitespace and `>`.
pub open spec fn field_close(s: Seq<u8>) -> Option<Seq<u8>> {
    let t = skip_spaces(s);
    if t.len() > 0 && t[0] == GT {
        Some(t.drop_first())
    } else {
        None
    }
}

/// A payload that was read, followed by the end of its field.
pub open spec fn closed(m: Parsed) -> Parsed {
    match m {
        Some((left, v)) => match field_close(left) {
            Some(rest) => Some((rest, v)),
            None => None,
        },
        None => None,
    }
}

/// Reads `<` and the whitespace behind it.
fn open_field(i: &[u8]) -> (r: Option<&[u8]>)
    ensures
        match field_open(i@) {
            Some(p) => r is Some && r.unwrap()@ == p,
            None => r is None,
        },
{
    if i.len() > 0 && i[0] == LT {
        Some(my_multispace(&i[1..i.len()]))
    } else {
        None
    }
}

/// Reads whitespace and the `>` behind it.
fn close_field(i: &[u8]) -> (r: Option<&[u8]>)
    ensures
        match field_close(i@) {
            Some(p) => r is Some && r.unwrap()@ == p,
            None => r is None,
        },
{
    let t = my_multispace(i);
    if t.len() > 0 && t[0] == GT {
        Some(&t[1..t.len()])
    } else {
        None
    }
}

/// Reads the end of the field behind a payload that was read.
fn close_payload<'a>(r: Option<(&'a [u8], Data)>, Ghost(m): Ghost<Parsed>) -> (out: Option<
    (&'a [u8], Data),
>)
    requires
        parsed_as(r, m),
    ensures
        parsed_as(out, closed(m)),
{
    match r {
        Some((left, d)) => match close_field(left) {
            Some(rest) => Some((rest, d)),
            None => None,
        },
        None => None,
    }
}

/// A missing value: any whitespace, which is skipped.
pub open spec fn spec_null(s: Seq<u8>) -> Parsed {
    Some((skip_spaces(s), DataView::Null))
}

/// Reads a missing value at the head of `i`: skips whitespace.
pub fn parse_null(i: &[u8]) -> (r: Option<(&[u8], Data)>)
    ensures
        parsed_as(r, spec_null(i@)),
{
    Some((my_multispace(i), Data::Null))
}

/// An explicit missing field: `<`, whitespace, `>`.
pub open spec fn spec_delimited_null(s: Seq<u8>) -> Parsed {
    match field_open(s) {
        Some(p) => closed(spec_null(p)),
        None => None,
    }
}

/// Reads an explicit missing field at the head of `i`.
pub fn parse_delimited_null(i: &[u8]) -> (r: Option<(&[u8], Data)>)
    ensures
        parsed_as(r, spec_delimited_null(i@)),
{
    match open_field(i) {
        Some(p) => close_payload(parse_null(p), Ghost(spec_null(p@))),
        None => None,
    }
}

/// A boolean: the byte `1` or the byte `0`.
pub open spec fn spec_bool(s: Seq<u8>) -> Parsed {
    if s.len() > 0 && s[0] == ONE {
        Some((s.drop_first(), DataView::Bool(true)))
    } else if s.len() > 0 && s[0] == ZERO {
        Some((s.drop_first(), DataView::Bool(false)))
    } else {
        None
    }
}

/// Reads a boolean at the head of `i`.
pub fn parse_bool(i: &[u8]) -> (r: Option<(&[u8], Data)>)
    ensures
        parsed_as(r, spec_bool(i@)),
{
    if i.len() > 0 && i[0] == ONE {
        Some((&i[1..i.len()], Data::Bool(true)))
    } else if i.len() > 0 && i[0] == ZERO {
        Some((&i[1..i.len()], Data::Bool(false)))
    } else {
        None
    }
}

/// A boolean field: `<`, whitespace, `1` or `0`, whitespace, `>`.
pub open spec fn spec_delimited_bool(s: Seq<u8>) -> Parsed {
    match field_open(s) {
        Some(p) => closed(spec_bool(p)),
        None => None,
    }
}

/// Reads a boolean field at the head of `i`.
pub fn parse_delimited_bool(i: &[u8]) -> (r: Option<(&[u8], Data)>)
    ensures
        parsed_as(r, spec_delimited_bool(i@)),
{
    match open_field(i) {
        Some(p) => close_payload(parse_bool(p), Ghost(spec_bool(p@))),
        None => None,
    }
}

/// The number that a decimal digit stands for; 0 for any other byte.
pub open spec fn digit_value(b: u8) -> nat {
    if is_digit(b) {
        (b - ZERO) as nat
    } else {
        0
    }
}

/// The number that a run of decimal digits writes.
pub open spec fn decimal_value(s: Seq<u8>) -> nat
    decreases s.len(),
{
    if s.len() == 0 {
        0
    } else {
        decimal_value(s.drop_last()) * 10 + digit_value(s.last())
    }
}

/// More digits never write a smaller number.
pub proof fn lemma_decimal_value_prefix(s: Seq<u8>, k: int)
    requires
        0 <= k <= s.len(),
    ensures
        decimal_value(s.take(k)) <= decimal_value(s),
    decreases s.len(),
{
    if k == s.len() {
        assert(s.take(k) =~= s);
    } else {
        assert(s.drop_last().take(k) =~= s.take(k));
        lemma_decimal_value_prefix(s.drop_last(), k);
    }
}

/// An integer: an optional sign directly followed by one or more decimal
/// digits, whose value fits in 64 signed bits. The digits are taken as far
/// as they go.
pub open spec fn spec_int(s: Seq<u8>) -> Parsed {
    let signed = s.len() > 0 && (s[0] == PLUS || s[0] == MINUS);
    let negative = s.len() > 0 && s[0] == MINUS;
    let body = if signed {
        s.drop_first()
    } else {
        s
    };
    let n = run_len(body, ByteClass::Digit) as int;
    let magnitude = decimal_value(body.take(n)) as int;
    let value = if negative {
        -magnitude
    } else {
        magnitude
    };
    if n > 0 && i64::MIN <= value <= i64::MAX {
        Some((body.skip(n), DataView::Int(value as i64)))
    } else {
        None
    }
}

/// Reads an integer at the head of `i`.
#[verifier::loop_isolation(false)]
pub fn parse_int(i: &[u8]) -> (r: Option<(&[u8], Data)>)
    ensures
        parsed_as(r, spec_int(i@)),
{
    let signed = i.len() > 0 && (i[0] == PLUS || i[0] == MINUS);
    let negative = i.len() > 0 && i[0] == MINUS;
    let body: &[u8] = if signed {
        &i[1..i.len()]
    } else {
        i
    };
    let n = scan(body, ByteClass::Digit);
    if n == 0 {
        return None;
    }
    let limit: u64 = if negative {
        0x8000_0000_0000_0000
    } else {
        0x7fff_ffff_ffff_ffff
    };
    let mut acc: u64 = 0;
    let mut k: usize = 0;
    proof {
        lemma_run_len(body@, ByteClass::Digit);
    }
    while k < n
        invariant
            k <= n <= body.len(),
            forall|j: int| 0 <= j < n ==> is_digit(#[trigger] body@[j]),
            acc == decimal_value(body@.take(k as int)),
            acc <= limit <= 0x8000_0000_0000_0000,
        decreases n - k,
    {
        let d: u64 = (body[k] - ZERO) as u64;
        let next: u128 = acc as u128 * 10 + d as u128;
        proof {
            let head = body@.take(k + 1);
            assert(head.drop_last() =~= body@.take(k as int));
            assert(head.last() == body@[k as int]);
            assert(next == decimal_value(head));
        }
        if next > limit as u128 {
            proof {
                lemma_decimal_value_prefix(body@.take(n as int), k + 1);
                assert(body@.take(n as int).take(k + 1) =~= body@.take(k + 1));
            }
            return None;
        }
        acc = next as u64;
        k += 1;
    }
    let value: i64 = if negative {
        if acc == 0x8000_0000_0000_0000 {
            i64::MIN
        } else {
            -(acc as i64)
        }
    } else {
        acc as i64
    };
    Some((&body[n..body.len()], Data::Int(value)))
}

/// An integer field: `<`, whitespace, an integer, whitespace, `>`.
pub open spec fn spec_delimited_int(s: Seq<u8>) -> Parsed {
    match field_open(s) {
        Some(p) => closed(spec_int(p)),
        None => None,
    }
}

/// Reads an integer field at the head of `i`.
pub fn parse_delimited_int(i: &[u8]) -> (r: Option<(&[u8], Data)>)
    ensures
        parsed_as(r, spec_delimited_int(i@)),
{
    match open_field(i) {
        Some(p) => close_payload(parse_int(p), Ghost(spec_int(p@))),
        None => None,
    }
}

/// What `nom::number::complete::double` makes of the bytes `s`: the number
/// of bytes that it leaves unread and the bits of the binary64 value that
/// it reads, or `None` where it reports an error.
pub uninterp spec fn float_literal(s: Seq<u8>) -> Option<(usize, u64)>;

/// Calls `nom::number::complete::double` on `i`. The contract only gives
/// the outcome its name: which bytes make a float literal, and which value
/// one has, is left to that function.
#[verifier::external_body]
fn recognize_float(i: &[u8]) -> (r: Option<(usize, u64)>)
    ensures
        r == float_literal(i@),
{
    match nom::number::complete::double::<&[u8], nom::error::Error<&[u8]>>(i) {
        Ok((rest, value)) => Some((rest.len(), value.to_bits())),
        Err(_) => None,
    }
}

/// The float at the head of `s`, given what the float recogniser made of
/// `s`: it leaves the bytes that the recogniser left.
pub open spec fn float_from(s: Seq<u8>, scanned: Option<(usize, u64)>) -> Parsed {
    match scanned {
        Some((left, bits)) => if left <= s.len() {
            Some((s.skip(s.len() - left), DataView::Float(bits)))
        } else {
            None
        },
        None => None,
    }
}

/// A float: a float literal, as the float recogniser reads it.
pub open spec fn spec_float(s: Seq<u8>) -> Parsed {
    float_from(s, float_literal(s))
}

/// Makes the float cell at the head of `i` from what the float recogniser
/// made of `i`.
pub fn float_cell(i: &[u8], scanned: Option<(usize, u64)>) -> (r: Option<(&[u8], Data)>)
    ensures
        parsed_as(r, float_from(i@, scanned)),
{
    match scanned {
        Some((left, bits)) => if left <= i.len() {
            Some((&i[i.len() - left..i.len()], Data::Float(bits)))
        } else {
            None
        },
        None => None,
    }
}

/// Reads a float at the head of `i`.
pub fn parse_float(i: &[u8]) -> (r: Option<(&[u8], Data)>)
    ensures
        parsed_as(r, spec_float(i@)),
{
    float_cell(i, recognize_float(i))
}

/// The token of the field at the head of `s`: its payload up to the next
/// whitespace or `>`.
pub open spec fn field_token(s: Seq<u8>) -> Option<Seq<u8>> {
    match field_open(s) {
        Some(p) => Some(p.take(run_len(p, ByteClass::Token) as int)),
        None => None,
    }
}

/// The float field at the head of `s`, given what the float recogniser
/// made of the field's token: the token must be read to its last byte.
pub open spec fn delimited_float_from(s: Seq<u8>, scanned: Option<(usize, u64)>) -> Parsed {
    match (field_open(s), scanned) {
        (Some(p), Some((left, bits))) => if left == 0 {
            closed(Some((p.skip(run_len(p, ByteClass::Token) as int), DataView::Float(bits))))
        } else {
            None
        },
        _ => None,
    }
}

/// A float field: `<`, whitespace, a token that is a float literal from
/// its first byte to its last, whitespace, `>`.
pub open spec fn spec_delimited_float(s: Seq<u8>) -> Parsed {
    match field_token(s) {
        Some(token) => delimited_float_from(s, float_literal(token)),
        None => None,
    }
}

/// Makes the float field at the head of `i` from what the float recogniser
/// made of the field's token.
pub fn float_field(i: &[u8], scanned: Option<(usize, u64)>) -> (r: Option<(&[u8], Data)>)
    ensures
        parsed_as(r, delimited_float_from(i@, scanned)),
{
    match (open_field(i), scanned) {
        (Some(p), Some((left, bits))) => if left == 0 {
            let n = scan(p, ByteClass::Token);
            close_payload(
                Some((&p[n..p.len()], Data::Float(bits))),
                Ghost(Some((p@.skip(n as int), DataView::Float(bits)))),
            )
        } else {
            None
        },
        _ => None,
    }
}

/// Reads a float field at the head of `i`.
pub fn parse_delimited_float(i: &[u8]) -> (r: Option<(&[u8], Data)>)
    ensures
        parsed_as(r, spec_delimited_float(i@)),
{
    match open_field(i) {
        Some(p) => {
            let n = scan(p, ByteClass::Token);
            float_field(i, recognize_float(&p[0..n]))
        },
        None => None,
    }
}

/// The longest string that a field may hold, in bytes.
pub const MAX_STRING_LEN: usize = 255;

/// The bytes of the string at the head of `s`, and what is left after it.
/// A string is a double quote, one or more bytes that are no double quote,
/// and a double quote, of which the quotes are dropped; or else one or
/// more bytes that are neither a space nor `>`.
pub open spec fn string_run(s: Seq<u8>) -> Option<(Seq<u8>, Seq<u8>)> {
    let body = s.drop_first();
    let quoted = run_len(body, ByteClass::Quoted) as int;
    let bare = run_len(s, ByteClass::Bare) as int;
    if s.len() > 0 && s[0] == QUOTE && 0 < quoted < body.len() {
        Some((body.take(quoted), body.skip(quoted + 1)))
    } else if bare > 0 {
        Some((s.take(bare), s.skip(bare)))
    } else {
        None
    }
}

/// The string cell that the bytes `content` make: they must be at most
/// `MAX_STRING_LEN` and valid UTF-8.
pub open spec fn string_value(content: Seq<u8>) -> Option<DataView> {
    if content.len() <= MAX_STRING_LEN && valid_utf8(content) {
        Some(DataView::String(decode_utf8(content)))
    } else {
        None
    }
}

/// A string: a quoted or an unquoted run of bytes that makes a string
/// cell.
pub open spec fn spec_string(s: Seq<u8>) -> Parsed {
    match string_run(s) {
        Some((content, left)) => match string_value(content) {
            Some(v) => Some((left, v)),
            None => None,
        },
        None => None,
    }
}

/// Calls `core::str::from_utf8`: the bytes as a string slice where they
/// are valid UTF-8, and `None` where they are not.
#[verifier::external_body]
fn str_from_utf8(bytes: &[u8]) -> (r: Option<&str>)
    ensures
        r is Some <==> valid_utf8(bytes@),
        r is Some ==> r.unwrap()@ == decode_utf8(bytes@),
{
    match core::str::from_utf8(bytes) {
        Ok(s) => Some(s),
        Err(_) => None,
    }
}

/// The string cell that the bytes `content` make.
fn string_cell(content: &[u8]) -> (r: Option<Data>)
    ensures
        match string_value(content@) {
            Some(v) => r is Some && r.unwrap()@ == v,
            None => r is None,
        },
{
    if content.len() > MAX_STRING_LEN {
        return None;
    }
    match str_from_utf8(content) {
        Some(s) => Some(Data::String(s.to_owned())),
        None => None,
    }
}

/// Reads a string at the head of `i`.
pub fn parse_string(i: &[u8]) -> (r: Option<(&[u8], Data)>)
    ensures
        parsed_as(r, spec_string(i@)),
{
    if i.len() > 0 && i[0] == QUOTE {
        let body = &i[1..i.len()];
        let quoted = scan(body, ByteClass::Quoted);
        if 0 < quoted && quoted < body.len() {
            return match string_cell(&body[0..quoted]) {
                Some(d) => Some((&body[quoted + 1..body.len()], d)),
                None => None,
            };
        }
    }
    let bare = scan(i, ByteClass::Bare);
    if bare > 0 {
        match string_cell(&i[0..bare]) {
            Some(d) => Some((&i[bare..i.len()], d)),
            None => None,
        }
    } else {
        None
    }
}

/// A string field: `<`, whitespace, a string, whitespace, `>`.
pub open spec fn spec_delimited_string(s: Seq<u8>) -> Parsed {
    match field_open(s) {
        Some(p) => closed(spec_string(p)),
        None => None,
    }
}

/// Reads a string field at the head of `i`.
pub fn parse_delimited_string(i: &[u8]) -> (r: Option<(&[u8], Data)>)
    ensures
        parsed_as(r, spec_delimited_string(i@)),
{
    match open_field(i) {
        Some(p) => close_payload(parse_string(p), Ghost(spec_string(p@))),
        None => None,
    }
}

/// The first of two outcomes that is a success.
pub open spec fn or_else(a: Parsed, b: Parsed) -> Parsed {
    if a is Some {
        a
    } else {
        b
    }
}

/// A field of any type. The forms are tried from the narrowest to the
/// widest: missing, boolean, integer, float, string.
pub open spec fn spec_field(s: Seq<u8>) -> Parsed {
    or_else(
        spec_delimited_null(s),
        or_else(
            spec_delimited_bool(s),
            or_else(
                spec_delimited_int(s),
                or_else(spec_delimited_float(s), spec_delimited_string(s)),
            ),
        ),
    )
}

/// Reads a field of any type at the head of `i`.
pub fn parse_field(i: &[u8]) -> (r: Option<(&[u8], Data)>)
    ensures
        parsed_as(r, spec_field(i@)),
{
    let null = parse_delimited_null(i);
    if null.is_some() {
        return null;
    }
    let boolean = parse_delimited_bool(i);
    if boolean.is_some() {
        return boolean;
    }
    let integer = parse_delimited_int(i);
    if integer.is_some() {
        return integer;
    }
    let float = parse_delimited_float(i);
    if float.is_some() {
        return float;
    }
    parse_delimited_string(i)
}

/// Skipping whitespace leaves no more than there was.
pub proof fn lemma_skip_spaces_len(s: Seq<u8>)
    ensures
        skip_spaces(s).len() <= s.len(),
{
    lemma_run_len(s, ByteClass::Space);
}

/// The payload of a field is shorter than the field.
pub proof fn lemma_field_open_len(s: Seq<u8>)
    ensures
        field_open(s) matches Some(p) ==> p.len() + 1 <= s.len(),
{
    if s.len() > 0 {
        lemma_skip_spaces_len(s.drop_first());
    }
}

/// What follows the end of a field is shorter than what came before it.
pub proof fn lemma_field_close_len(s: Seq<u8>)
    ensures
        field_close(s) matches Some(rest) ==> rest.len() + 1 <= s.len(),
{
    lemma_skip_spaces_len(s);
}

/// A payload leaves no more than it was given.
pub proof fn lemma_payload_len(s: Seq<u8>)
    ensures
        spec_null(s) matches Some((left, _)) ==> left.len() <= s.len(),
        spec_bool(s) matches Some((left, _)) ==> left.len() <= s.len(),
        spec_int(s) matches Some((left, _)) ==> left.len() <= s.len(),
        spec_string(s) matches Some((left, _)) ==> left.len() <= s.len(),
{
    lemma_skip_spaces_len(s);
    let body = if s.len() > 0 && (s[0] == PLUS || s[0] == MINUS) {
        s.drop_first()
    } else {
        s
    };
    lemma_run_len(body, ByteClass::Digit);
    if s.len() > 0 {
        lemma_run_len(s.drop_first(), ByteClass::Quoted);
    }
    lemma_run_len(s, ByteClass::Bare);
}

/// A field that was read is at least two bytes long.
pub proof fn lemma_field_shrinks(s: Seq<u8>)
    ensures
        spec_field(s) matches Some((left, _)) ==> left.len() + 2 <= s.len(),
        forall|t: DataType|
            (#[trigger] spec_schema_field(s, t)) matches Some((left, _)) ==> left.len() + 2
                <= s.len(),
{
    lemma_field_open_len(s);
    if let Some(p) = field_open(s) {
        lemma_payload_len(p);
        if let Some((left, _)) = spec_null(p) {
            lemma_field_close_len(left);
        }
        if let Some((left, _)) = spec_bool(p) {
            lemma_field_close_len(left);
        }
        if let Some((left, _)) = spec_int(p) {
            lemma_field_close_len(left);
        }
        if let Some((left, _)) = spec_string(p) {
            lemma_field_close_len(left);
        }
        lemma_run_len(p, ByteClass::Token);
        lemma_field_close_len(p.skip(run_len(p, ByteClass::Token) as int));
    }
}

/// The cells of the fields at the head of `s`, each with whitespace
/// before and after it, and what is left where no further field starts.
pub open spec fn spec_fields(s: Seq<u8>) -> (Seq<DataView>, Seq<u8>)
    decreases s.len(),
    via spec_fields_decreases
{
    match spec_field(skip_spaces(s)) {
        Some((left, cell)) => {
            let (cells, stop) = spec_fields(skip_spaces(left));
            (seq![cell] + cells, stop)
        },
        None => (Seq::empty(), s),
    }
}

#[via_fn]
proof fn spec_fields_decreases(s: Seq<u8>) {
    lemma_skip_spaces_len(s);
    lemma_field_shrinks(skip_spaces(s));
    if let Some((left, _)) = spec_field(skip_spaces(s)) {
        lemma_skip_spaces_len(left);
    }
}

/// A line without a schema: fields of any type, with whitespace between
/// and around them, up to the last byte of `s`.
pub open spec fn spec_parse_line(s: Seq<u8>) -> Option<Seq<DataView>> {
    let (cells, stop) = spec_fields(s);
    if stop.len() == 0 {
        Some(cells)
    } else {
        None
    }
}

/// Parses a row of `SoR` data, `i`, into a `Option<Vec<Data>>`, returning
/// `Some` if `i` was a valid sor row, `None` otherwise. It parses using the
/// most conservative precedence possible. Types `bool` are parsed first,
/// then `int`, then `float`, then `string`. If a field is invalid, returns a
/// None.
pub fn parse_line(i: &[u8]) -> (r: Option<Vec<Data>>)
    ensures
        row_as(r, spec_parse_line(i@)),
{
    let mut data: Vec<Data> = Vec::new();
    let mut remaining: &[u8] = i;
    assert(row_view(data@) + spec_fields(i@).0 =~= spec_fields(i@).0);
    loop
        invariant_except_break
            spec_fields(i@).0 == row_view(data@) + spec_fields(remaining@).0,
            spec_fields(i@).1 == spec_fields(remaining@).1,
        ensures
            spec_fields(i@) == (row_view(data@), remaining@),
        decreases remaining.len(),
    {
        let p = my_multispace(remaining);
        proof {
            lemma_skip_spaces_len(remaining@);
            lemma_field_shrinks(p@);
        }
        match parse_field(p) {
            Some((left, d)) => {
                proof {
                    lemma_skip_spaces_len(left@);
                    assert(row_view(data@.push(d)) =~= row_view(data@) + seq![d@]);
                    assert((row_view(data@) + seq![d@]) + spec_fields(skip_spaces(left@)).0
                        =~= row_view(data@) + (seq![d@] + spec_fields(skip_spaces(left@)).0));
                }
                data.push(d);
                remaining = my_multispace(left);
            },
            None => {
                assert(row_view(data@) + Seq::<DataView>::empty() =~= row_view(data@));
                break ;
            },
        }
    }
    if remaining.len() == 0 {
        Some(data)
    } else {
        None
    }
}

/// The field of a column of type `t`: an explicit missing field, or else a
/// field of that type.
pub open spec fn spec_schema_field(s: Seq<u8>, t: DataType) -> Parsed {
    or_else(
        spec_delimited_null(s),
        match t {
            DataType::String => spec_delimited_string(s),
            DataType::Float => spec_delimited_float(s),
            DataType::Int => spec_delimited_int(s),
            DataType::Bool => spec_delimited_bool(s),
        },
    )
}

/// A row put before the rest of it, where there is a rest.
pub open spec fn prepend(head: Seq<DataView>, tail: Option<Seq<DataView>>) -> Option<
    Seq<DataView>,
> {
    match tail {
        Some(cells) => Some(head + cells),
        None => None,
    }
}

/// One cell for each type of `schema`, read from the head of `s`: after
/// whitespace, a field of the column's type; a missing cell for each column
/// that the input no longer reaches. `None` where a field is not of its
/// column's type. What follows the last column is not looked at.
pub open spec fn spec_schema_cells(s: Seq<u8>, schema: Seq<DataType>) -> Option<Seq<DataView>>
    decreases schema.len(),
{
    let p = skip_spaces(s);
    if schema.len() == 0 {
        Some(Seq::empty())
    } else if p.len() == 0 {
        prepend(seq![DataView::Null], spec_schema_cells(p, schema.drop_first()))
    } else {
        match spec_schema_field(p, schema[0]) {
            Some((left, cell)) => prepend(seq![cell], spec_schema_cells(left, schema.drop_first())),
            None => None,
        }
    }
}

/// A line under a schema: no row for an empty line, else one cell for each
/// column.
pub open spec fn spec_parse_line_with_schema(s: Seq<u8>, schema: Seq<DataType>) -> Option<
    Seq<DataView>,
> {
    if s.len() == 0 {
        None
    } else {
        spec_schema_cells(s, schema)
    }
}

/// Reads the field of a column of type `column_type` at the head of `i`.
fn parse_schema_field<'a>(i: &'a [u8], column_type: &DataType) -> (r: Option<(&'a [u8], Data)>)
    ensures
        parsed_as(r, spec_schema_field(i@, *column_type)),
{
    let null = parse_delimited_null(i);
    if null.is_some() {
        return null;
    }
    match column_type {
        DataType::String => parse_delimited_string(i),
        DataType::Float => parse_delimited_float(i),
        DataType::Int => parse_delimited_int(i),
        DataType::Bool => parse_delimited_bool(i),
    }
}

/// Parses a row of `SoR` data, `i`, into a `Option<Vec<Data>>`, returning
/// `Some` if the data types in `i` matches the `schema`. If the data types
/// match, but `i` contains fewer fields than `schema`, than `Data::Null` is
/// inserted. If the row has more fields than `schema`, then the extra fields
/// are discarded.
pub fn parse_line_with_schema(i: &[u8], schema: &Vec<DataType>) -> (r: Option<Vec<Data>>)
    ensures
        row_as(r, spec_parse_line_with_schema(i@, schema@)),
        r is Some ==> r.unwrap().len() == schema.len(),
        i.len() == 0 ==> r is None,
{
    if i.len() == 0 {
        return None;
    }
    let mut result: Vec<Data> = Vec::new();
    let mut remaining_input: &[u8] = i;
    let mut col: usize = 0;
    assert(schema@.skip(0) =~= schema@);
    assert(row_view(result@) =~= Seq::<DataView>::empty());
    while col < schema.len()
        invariant
            col <= schema.len(),
            result.len() == col,
            spec_schema_cells(i@, schema@) == prepend(
                row_view(result@),
                spec_schema_cells(remaining_input@, schema@.skip(col as int)),
            ),
        decreases schema.len() - col,
    {
        let ghost before = row_view(result@);
        let ghost types = schema@.skip(col as int);
        proof {
            assert(types[0] == schema@[col as int]);
            assert(types.drop_first() =~= schema@.skip(col + 1));
        }
        remaining_input = my_multispace(remaining_input);
        if remaining_input.len() == 0 {
            result.push(Data::Null);
        } else {
            match parse_schema_field(remaining_input, &schema[col]) {
                Some((left, d)) => {
                    result.push(d);
                    remaining_input = left;
                },
                None => {
                    return None;
                },
            }
        }
        proof {
            let cell = result@[col as int]@;
            assert(row_view(result@) =~= before + seq![cell]);
            let tail = spec_schema_cells(remaining_input@, schema@.skip(col + 1));
            if let Some(cells) = tail {
                assert(before + (seq![cell] + cells) =~= (before + seq![cell]) + cells);
            }
        }
        col += 1;
    }
    proof {
        assert(row_view(result@) + Seq::<DataView>::empty() =~= row_view(result@));
    }
    Some(result)
}

/// A row that is read under a schema has one cell for each column, each
/// missing or of its column's type.
pub proof fn lemma_schema_cells_fit(s: Seq<u8>, schema: Seq<DataType>)
    ensures
        spec_schema_cells(s, schema) matches Some(cells) ==> row_fits(cells, schema),
    decreases schema.len(),
{
    if schema.len() > 0 {
        let p = skip_spaces(s);
        let types = schema.drop_first();
        if p.len() == 0 {
            lemma_schema_cells_fit(p, types);
        } else if let Some((left, cell)) = spec_schema_field(p, schema[0]) {
            lemma_schema_cells_fit(left, types);
        }
        if let Some(cells) = spec_schema_cells(s, schema) {
            assert forall|c: int| 0 <= c < cells.len() implies cell_type(#[trigger] cells[c])
                is None || cell_type(cells[c]) == Some(schema[c]) by {
                if c > 0 {
                    assert(schema[c] == types[c - 1]);
                }
            }
        }
    }
}

/// A run is as long as the bytes of its class go.
pub proof fn lemma_run_len_is(s: Seq<u8>, c: ByteClass, n: int)
    requires
        0 <= n <= s.len(),
        forall|j: int| 0 <= j < n ==> in_class(c, #[trigger] s[j]),
        n < s.len() ==> !in_class(c, s[n]),
    ensures
        run_len(s, c) == n,
    decreases n,
{
    if n > 0 {
        let t = s.drop_first();
        assert forall|j: int| 0 <= j < n - 1 implies in_class(c, #[trigger] t[j]) by {
            assert(t[j] == s[j + 1]);
        }
        if n < s.len() {
            assert(t[n - 1] == s[n]);
        }
        lemma_run_len_is(t, c, n - 1);
    }
}

/// A field with nothing but whitespace between `<` and `>` is a missing
/// value, whatever the type of its column.
pub proof fn lemma_blank_field_is_null(s: Seq<u8>, k: int)
    requires
        0 < k < s.len(),
        s[0] == LT,
        s[k] == GT,
        forall|j: int| 0 < j < k ==> is_space(#[trigger] s[j]),
    ensures
        spec_field(s) == Some((s.skip(k + 1), DataView::Null)),
        forall|t: DataType|
            #[trigger] spec_schema_field(s, t) == Some((s.skip(k + 1), DataView::Null)),
{
    let body = s.drop_first();
    assert forall|j: int| 0 <= j < k - 1 implies in_class(ByteClass::Space, #[trigger] body[j]) by {
        assert(body[j] == s[j + 1]);
    }
    assert(body[k - 1] == s[k]);
    lemma_run_len_is(body, ByteClass::Space, k - 1);
    let p = skip_spaces(body);
    assert(p =~= s.skip(k));
    assert(p[0] == s[k]);
    lemma_run_len_is(p, ByteClass::Space, 0);
    assert(skip_spaces(p) =~= p);
    assert(p.drop_first() =~= s.skip(k + 1));
    assert(spec_delimited_null(s) == Some((s.skip(k + 1), DataView::Null)));
}

/// Where a line has come to its end, every column that is left has a
/// missing value.
pub proof fn lemma_missing_tail(s: Seq<u8>, schema: Seq<DataType>)
    requires
        skip_spaces(s).len() == 0,
    ensures
        spec_schema_cells(s, schema) == Some(Seq::new(schema.len(), |c: int| DataView::Null)),
    decreases schema.len(),
{
    let p = skip_spaces(s);
    if schema.len() > 0 {
        lemma_run_len_is(p, ByteClass::Space, 0);
        assert(skip_spaces(p) =~= p);
        lemma_missing_tail(p, schema.drop_first());
        assert(seq![DataView::Null] + Seq::new(
            schema.drop_first().len(),
            |c: int| DataView::Null,
        ) =~= Seq::new(schema.len(), |c: int| DataView::Null));
    } else {
        assert(Seq::<DataView>::empty() =~= Seq::new(schema.len(), |c: int| DataView::Null));
    }
}

/// Fields beyond the width of a schema are discarded: where a line is a
/// row under a schema with further columns, it is a row under the schema
/// without them, and its cells are the first cells of that row.
pub proof fn lemma_extra_fields_discarded(s: Seq<u8>, schema: Seq<DataType>, more: Seq<DataType>)
    ensures
        spec_schema_cells(s, schema + more) matches Some(cells) ==> spec_schema_cells(s, schema)
            == Some(cells.take(schema.len() as int)),
    decreases schema.len(),
{
    let wide = schema + more;
    if let Some(cells) = spec_schema_cells(s, wide) {
        if schema.len() == 0 {
            assert(cells.take(0) =~= Seq::<DataView>::empty());
        } else {
            let p = skip_spaces(s);
            assert(wide[0] == schema[0]);
            assert(wide.drop_first() =~= schema.drop_first() + more);
            if p.len() == 0 {
                lemma_extra_fields_discarded(p, schema.drop_first(), more);
                lemma_schema_cells_fit(p, wide.drop_first());
                let rest = spec_schema_cells(p, wide.drop_first()).unwrap();
                assert((seq![DataView::Null] + rest).take(schema.len() as int) =~= seq![
                    DataView::Null,
                ] + rest.take(schema.len() - 1));
            } else {
                let (left, cell) = spec_schema_field(p, schema[0]).unwrap();
                lemma_extra_fields_discarded(left, schema.drop_first(), more);
                lemma_schema_cells_fit(left, wide.drop_first());
                let rest = spec_schema_cells(left, wide.drop_first()).unwrap();
                assert((seq![cell] + rest).take(schema.len() as int) =~= seq![cell] + rest.take(
                    schema.len() - 1,
                ));
            }
        }
    }
}

} // verus!
