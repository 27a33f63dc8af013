use sorer::dataframe::Data;
use sorer::parsers::{
    parse_bool, parse_field, parse_float, parse_int, parse_line, parse_line_with_schema,
    parse_string,
};
use sorer::schema::DataType;

fn float(x: f64) -> Data {
    Data::Float(x.to_bits())
}

#[test]
fn test_parse_string() {
    let x = parse_string(b"\"hello world\"");
    assert_eq!(x.unwrap().1, Data::String("hello world".to_string()));
    let x = parse_string(b"hello");
    assert_eq!(x.unwrap().1, Data::String("hello".to_string()));
    let x = parse_string(b"hello world");
    assert_eq!(x.unwrap().1, Data::String("hello".to_string()));
}

#[test]
fn test_parse_bool() {
    let x = parse_bool(b"1");
    assert_eq!(x.unwrap().1, Data::Bool(true));
    let y = parse_bool(b"0");
    assert_eq!(y.unwrap().1, Data::Bool(false));
}

#[test]
fn test_parse_int() {
    let x = parse_int(b"+123");
    assert_eq!(x.unwrap().1, Data::Int(123));
    let y = parse_int(b"-123");
    assert_eq!(y.unwrap().1, Data::Int(-123));
    let z = parse_int(b"123");
    assert_eq!(z.unwrap().1, Data::Int(123));
    let w = parse_int(b"01");
    assert_eq!(w.unwrap().1, Data::Int(1));
}

#[test]
fn test_parse_float() {
    let x = parse_float(b"69E-01");
    assert_eq!(x.unwrap().1, float(6.9));
    let y = parse_float(b"-2.2");
    assert_eq!(y.unwrap().1, float(-2.2));
    let z = parse_float(b"2.2");
    assert_eq!(z.unwrap().1, float(2.2));
    let z = parse_float(b"4.20E+2");
    assert_eq!(z.unwrap().1, float(420.0));
}

#[test]
fn test_parse_field() {
    let s = parse_field(b"< hello >");
    assert_eq!(s.unwrap().1, Data::String("hello".to_string()));
    let i = parse_field(b"<123>");
    assert_eq!(i.unwrap().1, Data::Int(123));
    let f = parse_field(b"< 123.123 >");
    assert_eq!(f.unwrap().1, float(123.123));
    let b = parse_field(b"< 1 >");
    assert_eq!(b.unwrap().1, Data::Bool(true));
    let n = parse_field(b"< >");
    assert_eq!(n.unwrap().1, Data::Null);
    let n2 = parse_field(b"<>");
    assert_eq!(n2.unwrap().1, Data::Null);
}

#[test]
fn test_parse_line() {
    let line = parse_line(b"< hello > <123> <123.123> <> <1>");
    assert_eq!(
        line,
        Some(vec![
            Data::String("hello".to_string()),
            Data::Int(123),
            float(123.123),
            Data::Null,
            Data::Bool(true)
        ])
    );
    let line = parse_line(b"< hello > <123> <123.123> <> <1>");
    assert_eq!(
        line,
        Some(vec![
            Data::String("hello".to_string()),
            Data::Int(123),
            float(123.123),
            Data::Null,
            Data::Bool(true)
        ])
    );
    let empty = parse_line(b"");
    assert_eq!(empty, Some(vec![]));
    let i = parse_line(b"<123>");
    assert_eq!(i, Some(vec![Data::Int(123)]));
    let failing = parse_line(b"<1. 0>");
    assert_eq!(failing, None);
    let failing2 = parse_line(b"<bye world>");
    assert_eq!(failing2, None);
    let failing3 = parse_line(b"<+ 1>");
    assert_eq!(failing3, None);
}

#[test]
fn test_parse_line_with_schema() {
    let schema = vec![
        DataType::String,
        DataType::Int,
        DataType::Float,
        DataType::String,
        DataType::Bool,
    ];
    let line = parse_line_with_schema(b" < hello > <123> <123.123> <> <1> ", &schema);
    assert_eq!(
        line,
        Some(vec![
            Data::String("hello".to_string()),
            Data::Int(123),
            float(123.123),
            Data::Null,
            Data::Bool(true)
        ])
    );

    let string_variants =
        parse_line_with_schema(b"< \"hi world\" > <+2> <1.1> <\"  hi \"> <0> ", &schema);
    assert_eq!(
        string_variants,
        Some(vec![
            Data::String("hi world".to_string()),
            Data::Int(2),
            float(1.1),
            Data::String("  hi ".to_string()),
            Data::Bool(false)
        ])
    );

    let string_variants2 =
        parse_line_with_schema(b"< \"<>\" > <-2> <1.19999> <<> <0> ", &schema);
    assert_eq!(
        string_variants2,
        Some(vec![
            Data::String("<>".to_string()),
            Data::Int(-2),
            float(1.19999),
            Data::String("<".to_string()),
            Data::Bool(false)
        ])
    );

    let parse_schema_precedence = parse_line_with_schema(b"<1> <1> <1.0> <1> <1>", &schema);
    assert_eq!(
        parse_schema_precedence,
        Some(vec![
            Data::String("1".to_string()),
            Data::Int(1),
            float(1.0),
            Data::String("1".to_string()),
            Data::Bool(true),
        ])
    );
}

#[test]
fn test_parse_line_with_schema_and_missing_fields() {
    let schema = vec![DataType::String, DataType::Int, DataType::Float];

    let parse_explicit_missing = parse_line_with_schema(b"<> <-1> <>", &schema);
    assert_eq!(
        parse_explicit_missing,
        Some(vec![Data::Null, Data::Int(-1), Data::Null,])
    );

    let implicit_missing_at_end = parse_line_with_schema(b"<bye> <223> ", &schema);
    assert_eq!(
        implicit_missing_at_end,
        Some(vec![
            Data::String("bye".to_string()),
            Data::Int(223),
            Data::Null,
        ])
    );

    let too_many_fields_not_discarded =
        parse_line_with_schema(b"<bye> <223> <1.123> <> <1> <extra_field>", &schema);
    assert_eq!(
        too_many_fields_not_discarded,
        Some(vec![
            Data::String("bye".to_string()),
            Data::Int(223),
            float(1.123),
        ])
    );
}

#[test]
fn test_parsing_bad_lines_with_schema() {
    let schema = vec![
        DataType::String,
        DataType::Int,
        DataType::Float,
        DataType::String,
        DataType::Bool,
    ];
    let bad_string =
        parse_line_with_schema(b"< hi world > <+2> <1.1> <\"  hi \"> <0> ", &schema);
    assert_eq!(bad_string, None);

    let bad_row_wrong_types = parse_line_with_schema(b"<world> <1.2> <123> <1> <0>", &schema);
    assert_eq!(bad_row_wrong_types, None);

    let empty = parse_line_with_schema(b"", &schema);
    assert_eq!(empty, None);
}
