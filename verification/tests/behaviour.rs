use sorer::dataframe::{
    byte_before, from_file, plan_chunks, read_chunk, read_unit, skips_first_line, Column, Data,
};
use sorer::parsers::{parse_field, parse_line, parse_line_with_schema};
use sorer::schema::{get_dominant_data_type, infer_schema, DataType};

fn rows_of(table: &Vec<Column>) -> usize {
    match table.get(0) {
        Some(c) => c.len(),
        None => 0,
    }
}

#[test]
fn all_columns_have_one_length() {
    let schema = vec![DataType::String, DataType::Bool, DataType::Int];
    let text = b"<a><1><5>\n<b>\n<c><0>\n<1><1><1><1>\n<d><7>\n";
    for workers in 1..9 {
        let table = from_file(text, schema.clone(), 0, usize::MAX, workers);
        assert_eq!(table.len(), 3);
        for c in &table {
            assert_eq!(c.len(), rows_of(&table));
        }
    }
}

#[test]
fn columns_have_the_types_of_the_schema() {
    let schema = vec![DataType::String, DataType::Bool, DataType::Int, DataType::Float];
    let table = from_file(b"<a><1><5><1>\n<b><0><6><2.5>\n", schema, 0, usize::MAX, 2);
    assert!(matches!(table[0], Column::String(_)));
    assert!(matches!(table[1], Column::Bool(_)));
    assert!(matches!(table[2], Column::Int(_)));
    assert!(matches!(table[3], Column::Float(_)));
    assert_eq!(table[3], Column::Float(vec![Some(1.0f64.to_bits()), Some(2.5f64.to_bits())]));
}

#[test]
fn schema_is_the_same_on_every_run() {
    let text = b"<1><hello><>\n<12><1.2><>\n<1><1><1>\n";
    assert_eq!(infer_schema(text), infer_schema(text));
    let schema = infer_schema(text);
    assert_eq!(
        from_file(text, schema.clone(), 0, usize::MAX, 3),
        from_file(text, schema, 0, usize::MAX, 3)
    );
}

#[test]
fn workers_differ_in_the_last_line_only() {
    let schema = vec![DataType::String, DataType::Bool];
    let all = vec![
        Column::String(vec![Some("1".to_string()), Some("a".to_string()), Some("x".to_string())]),
        Column::Bool(vec![Some(true), Some(false), None]),
    ];
    let all_but_last = vec![
        Column::String(vec![Some("1".to_string()), Some("a".to_string())]),
        Column::Bool(vec![Some(true), Some(false)]),
    ];
    // 18 bytes: two workers stop at byte 18, where the last line ends
    let text = b"<1><1>\n<a><0>\n<x>\n";
    assert_eq!(from_file(text, schema.clone(), 0, usize::MAX, 1), all_but_last);
    assert_eq!(from_file(text, schema.clone(), 0, usize::MAX, 2), all_but_last);
    assert_eq!(from_file(text, schema.clone(), 0, usize::MAX, 4), all);
    assert_eq!(from_file(text, schema.clone(), 0, usize::MAX, 5), all);
    assert_eq!(from_file(text, schema.clone(), 0, usize::MAX, 7), all);
    // three workers stop at byte 18 as well
    assert_eq!(from_file(text, schema.clone(), 0, usize::MAX, 3), all_but_last);
    // six workers: the last unit starts in the last line, which the unit
    // before reads to its end
    assert_eq!(from_file(text, schema, 0, usize::MAX, 6), all);
}

#[test]
fn chunks_of_a_plan_tile_the_window() {
    let schema = vec![DataType::Int];
    let mut text: Vec<u8> = Vec::new();
    for i in 0..40 {
        text.extend_from_slice(format!("<{}>\n", i * 37).as_bytes());
    }
    for workers in 1..12 {
        for from in [0usize, 1, 5, 17, 60] {
            let work = plan_chunks(&text, from, 90, workers);
            assert_eq!(work.len(), workers);
            let mut merged: Vec<Option<i64>> = Vec::new();
            for w in &work {
                match &read_chunk(schema.clone(), &text, w.0, w.1)[0] {
                    Column::Int(c) => merged.extend_from_slice(c),
                    _ => panic!("wrong column"),
                }
            }
            // consecutive rows, none twice and none left out
            for pair in merged.windows(2) {
                assert_eq!(pair[0].unwrap() + 37, pair[1].unwrap());
            }
            assert_eq!(
                from_file(&text, schema.clone(), from, 90, workers),
                vec![Column::Int(merged)]
            );
        }
    }
}

#[test]
fn empty_window_from_the_start_reads_the_first_line_again() {
    // a window of no bytes at byte 0: each unit but the last reads line 1
    let schema = vec![DataType::Int];
    let table = from_file(b"<5>\n<6>\n", schema, 0, 0, 3);
    assert_eq!(table, vec![Column::Int(vec![Some(5), Some(5)])]);
}

#[test]
fn precedence_dominance() {
    let types = [DataType::Bool, DataType::Int, DataType::Float, DataType::String];
    let cells = [
        Data::Bool(true),
        Data::Int(3),
        Data::Float(1.5f64.to_bits()),
        Data::String("s".to_string()),
    ];
    for (i, t) in types.iter().enumerate() {
        for (j, d) in cells.iter().enumerate() {
            let expected = types[if i > j { i } else { j }];
            assert_eq!(get_dominant_data_type(t, d), expected);
        }
        assert_eq!(get_dominant_data_type(t, &Data::Null), *t);
    }
    // the order in which cells are seen does not matter
    for t in types.iter() {
        for x in cells.iter() {
            for y in cells.iter() {
                assert_eq!(
                    get_dominant_data_type(&get_dominant_data_type(t, x), y),
                    get_dominant_data_type(&get_dominant_data_type(t, y), x)
                );
            }
        }
    }
}

#[test]
fn null_only_column_is_bool() {
    assert_eq!(
        infer_schema(b"<><a>\n<  ><b>\n<><>\n"),
        vec![DataType::Bool, DataType::String]
    );
}

#[test]
fn line_of_length_zero_is_dropped() {
    let schema = vec![DataType::Bool];
    assert_eq!(parse_line_with_schema(b"", &schema), None);
    assert_eq!(parse_line_with_schema(b"", &vec![]), None);
    // a line that holds its line feed only is a row of missing values
    assert_eq!(parse_line_with_schema(b"\n", &schema), Some(vec![Data::Null]));
}

#[test]
fn whitespace_only_field_is_null() {
    assert_eq!(parse_field(b"<   >").unwrap().1, Data::Null);
    assert_eq!(parse_field(b"< \t\r\n >").unwrap().1, Data::Null);
    let schema = vec![DataType::Int, DataType::String, DataType::Float, DataType::Bool];
    assert_eq!(
        parse_line_with_schema(b"< >< ><\t><  >", &schema),
        Some(vec![Data::Null, Data::Null, Data::Null, Data::Null])
    );
}

#[test]
fn missing_fields_at_the_end_are_null() {
    let schema = vec![DataType::String, DataType::Int, DataType::Float];
    assert_eq!(
        parse_line_with_schema(b"<bye>", &schema),
        Some(vec![Data::String("bye".to_string()), Data::Null, Data::Null])
    );
    assert_eq!(
        parse_line_with_schema(b"  ", &schema),
        Some(vec![Data::Null, Data::Null, Data::Null])
    );
    // a field that is missing at the start or in the middle shifts the
    // others under the wrong types
    assert_eq!(parse_line_with_schema(b"<223> <1.123>", &schema), None);
    assert_eq!(parse_line_with_schema(b"<bye> <1.123>", &schema), None);
}

#[test]
fn extra_fields_are_discarded() {
    let schema = vec![DataType::String, DataType::Int];
    let wide = vec![DataType::String, DataType::Int, DataType::Float, DataType::Bool];
    let line = b"<bye> <223> <1.5> <1>";
    let cells = parse_line_with_schema(line, &wide).unwrap();
    assert_eq!(parse_line_with_schema(line, &schema).unwrap(), cells[..2].to_vec());
    // what follows the last column is not looked at
    assert_eq!(
        parse_line_with_schema(b"<bye> <223> not a field", &schema),
        Some(vec![Data::String("bye".to_string()), Data::Int(223)])
    );
}

#[test]
fn whitespace_alone_is_no_row_without_a_schema() {
    assert_eq!(parse_line(b" "), None);
    assert_eq!(parse_line(b" <1> "), Some(vec![Data::Bool(true)]));
    assert_eq!(parse_line(b"<1> x"), None);
}

#[test]
fn schema_and_table_of_a_text() {
    let text = b"<1><hello><>\n<12><1.2><>";
    let schema = infer_schema(text);
    assert_eq!(schema, vec![DataType::Int, DataType::String, DataType::Bool]);
    assert_eq!(
        read_chunk(schema, text, 0, text.len() + 1),
        vec![
            Column::Int(vec![Some(1), Some(12)]),
            Column::String(vec![Some("hello".to_string()), Some("1.2".to_string())]),
            Column::Bool(vec![None, None]),
        ]
    );

    // the second line holds a string in a float column and is left out
    let text = b"<1>\n<hello><0>\n<1.1><0><2>";
    let schema = infer_schema(text);
    assert_eq!(schema, vec![DataType::Float, DataType::Bool, DataType::Int]);
    assert_eq!(
        read_chunk(schema, text, 0, text.len() + 1),
        vec![
            Column::Float(vec![Some(1.0f64.to_bits()), Some(1.1f64.to_bits())]),
            Column::Bool(vec![None, Some(false)]),
            Column::Int(vec![None, Some(2)]),
        ]
    );
}

#[test]
fn one_worker_reads_the_line_that_it_starts_at() {
    let schema = vec![DataType::Bool];
    let text = b"<1>\n<0>\n<1>\n<1>\n";
    // byte 4 is the first of the second line
    assert_eq!(
        from_file(text, schema.clone(), 4, usize::MAX, 1),
        vec![Column::Bool(vec![Some(false), Some(true)])]
    );
    // byte 5 lies within the second line, which is passed over
    assert_eq!(
        from_file(text, schema.clone(), 5, usize::MAX, 1),
        vec![Column::Bool(vec![Some(true)])]
    );
    assert_eq!(
        from_file(text, schema.clone(), 5, 12, 1),
        vec![Column::Bool(vec![Some(true), Some(true)])]
    );
    assert_eq!(
        from_file(text, schema.clone(), 0, usize::MAX, 1),
        vec![Column::Bool(vec![Some(true), Some(false), Some(true)])]
    );
    assert_eq!(
        from_file(text, schema.clone(), 8, 5, 1),
        vec![Column::Bool(vec![Some(true)])]
    );
    // behind the last line feed nothing is left
    assert_eq!(from_file(text, schema.clone(), 16, usize::MAX, 1), vec![Column::Bool(vec![])]);
    assert_eq!(from_file(text, schema.clone(), 40, usize::MAX, 1), vec![Column::Bool(vec![])]);
    // the first of several workers leaves the line to a unit before it
    assert_eq!(
        from_file(text, schema.clone(), 4, usize::MAX, 2),
        vec![Column::Bool(vec![Some(true)])]
    );
    // and so does a chunk that is read for itself
    assert_eq!(
        read_chunk(schema, text, 4, 12),
        vec![Column::Bool(vec![Some(true)])]
    );
}

#[test]
fn first_line_is_passed_over_by_rule() {
    assert!(!skips_first_line(0, 1, None));
    assert!(!skips_first_line(7, 1, Some(b'\n')));
    assert!(skips_first_line(7, 1, Some(b'>')));
    assert!(skips_first_line(7, 1, None));
    assert!(!skips_first_line(0, 3, None));
    assert!(skips_first_line(7, 3, Some(b'\n')));
    assert!(skips_first_line(7, 3, None));
    assert_eq!(byte_before(b"ab", 0), None);
    assert_eq!(byte_before(b"ab", 1), Some(b'a'));
    assert_eq!(byte_before(b"ab", 2), Some(b'b'));
    assert_eq!(byte_before(b"ab", 3), None);
    let schema = vec![DataType::Bool];
    let text = b"<1>\n<0>\n<1>\n";
    assert_eq!(
        read_unit(schema.clone(), text, 4, 20, false),
        vec![Column::Bool(vec![Some(false), Some(true)])]
    );
    assert_eq!(
        read_unit(schema.clone(), text, 4, 20, true),
        vec![Column::Bool(vec![Some(true)])]
    );
    assert_eq!(
        read_unit(schema, text, 6, 20, false),
        vec![Column::Bool(vec![Some(true)])]
    );
}

#[test]
fn bytes_behind_the_last_field_do_not_change_the_row() {
    let schema = vec![DataType::String, DataType::Float, DataType::Int, DataType::Bool];
    let line: &[u8] = b" <\"a b\"> < 1.5 ><-7> <1>";
    let row = parse_line_with_schema(line, &schema);
    assert_eq!(
        row,
        Some(vec![
            Data::String("a b".to_string()),
            Data::Float(1.5f64.to_bits()),
            Data::Int(-7),
            Data::Bool(true),
        ])
    );
    for tail in [&b""[..], b" ", b"<x>", b"> <", b"12", b"\n", b"<<<< not a field"] {
        let mut longer = line.to_vec();
        longer.extend_from_slice(tail);
        assert_eq!(parse_line_with_schema(&longer, &schema), row);
    }
    // a double quote behind the row may close a quote that a field opens
    let schema = vec![DataType::String];
    assert_eq!(
        parse_line_with_schema(b"<\"ab>", &schema),
        Some(vec![Data::String("\"ab".to_string())])
    );
    assert_eq!(parse_line_with_schema(b"<\"ab> \"", &schema), None);
    assert_eq!(
        parse_line_with_schema(b"<\"ab> \">", &schema),
        Some(vec![Data::String("ab> ".to_string())])
    );
}
