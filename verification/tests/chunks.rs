use sorer::dataframe::{
    append_columns, chunk_step, has_rows, init_columnar, is_full, plan_fits, plan_units,
    probe_units, probes_fit, push_row, starts_fit, unit_offset, window_len, ChunkReader, Column,
    Data, SorTerator,
};
use sorer::schema::{handle_line_inference, schema_of_rows, DataType};

#[test]
fn test_sor_terator() {
    let schema = vec![
        DataType::Bool,
        DataType::Int,
        DataType::Float,
        DataType::String,
    ];
    let mut text: Vec<u8> = Vec::new();
    for i in 0..15 {
        text.extend_from_slice(format!("<{}> <{}> <{}.5> <row{}>\n", i % 2, i, i, i).as_bytes());
    }
    let mut sor_terator = SorTerator::new(text, schema, 10);
    let mut chunk = sor_terator.next();
    assert_eq!(chunk.unwrap().get(0).unwrap().len(), 10);
    chunk = sor_terator.next();
    assert_eq!(chunk.unwrap().get(0).unwrap().len(), 5);
    chunk = sor_terator.next();
    assert!(chunk.is_none());
}

#[test]
fn sor_terator_leaves_out_bad_lines() {
    let schema = vec![DataType::Int];
    let mut it = SorTerator::new(b"<1>\n\n<x>\n<2>\n<3>".to_vec(), schema.clone(), 2);
    assert_eq!(it.next(), Some(vec![Column::Int(vec![Some(1), Some(2)])]));
    assert_eq!(it.next(), Some(vec![Column::Int(vec![Some(3)])]));
    assert_eq!(it.next(), None);

    // a table without columns is never handed out
    let mut it = SorTerator::new(b"<1>\n<2>\n".to_vec(), vec![], 1);
    assert_eq!(it.next(), None);

    // with tables of no rows, the first is full after one line that is no row
    let mut it = SorTerator::new(b"<x>\n<2>\n".to_vec(), schema, 0);
    assert_eq!(it.next(), Some(vec![Column::Int(vec![])]));
    assert_eq!(it.next(), Some(vec![Column::Int(vec![Some(2)])]));
    assert_eq!(it.next(), None);
}

#[test]
fn step_is_the_quotient_rounded_up() {
    assert_eq!(chunk_step(21, 8), 3);
    assert_eq!(chunk_step(21, 7), 3);
    assert_eq!(chunk_step(21, 1), 21);
    assert_eq!(chunk_step(0, 5), 0);
    assert_eq!(chunk_step(1, 5), 1);
    assert_eq!(chunk_step(usize::MAX, 2), usize::MAX / 2 + 1);
}

#[test]
fn window_goes_to_the_end_for_the_greatest_length() {
    assert_eq!(window_len(100, 30, usize::MAX), 70);
    assert_eq!(window_len(100, 130, usize::MAX), 0);
    assert_eq!(window_len(100, 30, 500), 500);
    assert_eq!(window_len(100, 30, 0), 0);
}

#[test]
fn plan_must_fit() {
    let text = b"<1><1>\n<a><0>\n<1.2><>";
    assert!(plan_fits(text, 0, usize::MAX, 8));
    assert!(plan_fits(text, 3, 26, 1));
    assert!(!plan_fits(text, 0, 26, 0));
    // one worker needs no offset but the first
    assert!(plan_fits(text, 0, usize::MAX - 1, 1));
    assert!(plan_fits(text, usize::MAX, usize::MAX - 1, 1));
    // the second unit would start behind the greatest offset
    assert!(!plan_fits(text, usize::MAX - 10, 26, 2));
    assert!(plan_fits(text, 0, usize::MAX - 1, 2));
    assert!(plan_fits(text, 0, usize::MAX - 1, 4));
    assert!(!plan_fits(text, usize::MAX / 2, usize::MAX - 1, 4));
    assert!(starts_fit(5, 7, 3));
    assert!(!starts_fit(5, 7, 0));
    assert!(!starts_fit(usize::MAX - 13, 7, 3));
    assert!(starts_fit(usize::MAX - 14, 7, 3));
    assert!(probes_fit(7, &vec![2, 0]));
    assert!(probes_fit(usize::MAX - 3, &vec![2, 0]));
    assert!(!probes_fit(usize::MAX - 2, &vec![0, 2]));
    assert_eq!(probe_units(text, 0, 5, 4), vec![2, 4, 6]);
    assert_eq!(probe_units(text, 20, 5, 3), vec![0, 0]);
}

#[test]
fn units_are_extended_by_what_was_probed() {
    assert_eq!(unit_offset(5, 7, 3), 26);
    assert_eq!(
        plan_units(5, 7, 3, &vec![2, 0]),
        vec![(5, 10), (12, 8), (19, 7)]
    );
    assert_eq!(plan_units(5, 7, 1, &vec![]), vec![(5, 7)]);
}

#[test]
fn chunk_reader_asks_for_lines_until_its_length_is_reached() {
    let schema = vec![DataType::String, DataType::Bool];
    // the chunk of 22 bytes from byte 3 on
    let mut chunk = ChunkReader::new(schema.clone(), 3, 22);
    assert!(chunk.feed(b"><1>\n"));
    assert!(chunk.feed(b"<1><1>\n"));
    assert!(chunk.feed(b"<c><1.2>\n"));
    assert!(!chunk.feed(b"<a><0>\n"));
    assert_eq!(
        chunk.finish(),
        vec![
            Column::String(vec![Some("1".to_string())]),
            Column::Bool(vec![Some(true)]),
        ]
    );

    // a unit that does not pass over its first line
    let mut chunk = ChunkReader::with_skip(vec![DataType::Bool], false, 9);
    assert!(chunk.feed(b"<1>\n"));
    assert!(chunk.feed(b"<0>\n"));
    assert!(!chunk.feed(b"<1>\n"));
    assert_eq!(chunk.finish(), vec![Column::Bool(vec![Some(true), Some(false)])]);

    // the chunk at the start of the text reads its first line
    let mut chunk = ChunkReader::new(schema, 0, 100);
    assert!(chunk.feed(b"<x><0>\n"));
    assert!(!chunk.feed(b""));
    assert_eq!(
        chunk.finish(),
        vec![
            Column::String(vec![Some("x".to_string())]),
            Column::Bool(vec![Some(false)]),
        ]
    );
}

#[test]
fn tables_are_appended_column_by_column() {
    let schema = vec![DataType::Int, DataType::Float];
    let mut table = init_columnar(&schema);
    assert_eq!(table, vec![Column::Int(vec![]), Column::Float(vec![])]);
    push_row(&mut table, &vec![Data::Int(1), Data::Null]);
    let mut more = init_columnar(&schema);
    push_row(&mut more, &vec![Data::Null, Data::Float(7)]);
    append_columns(&mut table, &mut more);
    assert_eq!(
        table,
        vec![
            Column::Int(vec![Some(1), None]),
            Column::Float(vec![None, Some(7)]),
        ]
    );
}

#[test]
fn sample_keeps_the_widest_rows() {
    let mut sample: Vec<Vec<Data>> = Vec::new();
    handle_line_inference(b"", &mut sample);
    assert_eq!(sample, vec![vec![]]);
    handle_line_inference(b"<1>", &mut sample);
    handle_line_inference(b"<1> <1>", &mut sample);
    handle_line_inference(b"<x>", &mut sample);
    handle_line_inference(b"<x> <", &mut sample);
    handle_line_inference(b"<2> <>", &mut sample);
    assert_eq!(
        sample,
        vec![
            vec![Data::Bool(true), Data::Bool(true)],
            vec![Data::Int(2), Data::Null],
        ]
    );
    assert_eq!(schema_of_rows(&sample), vec![DataType::Int, DataType::Bool]);
    assert_eq!(schema_of_rows(&vec![]), vec![]);
}

#[test]
fn data_is_unwrapped_and_duplicated() {
    assert_eq!(Data::String("s".to_string()).unwrap_string(), "s");
    assert_eq!(Data::Int(-3).unwrap_int(), -3);
    assert_eq!(f64::from_bits(Data::Float(2.5f64.to_bits()).unwrap_float()), 2.5);
    assert_eq!(Data::Bool(true).unwrap_bool(), true);
    let d = Data::String("s".to_string());
    assert_eq!(d.duplicate(), d);
}

#[test]
fn columns_from_vectors_and_back() {
    let c = Column::from(vec![Some(true), None]);
    assert_eq!(c, Column::Bool(vec![Some(true), None]));
    assert_eq!(c.len(), 2);
    assert_eq!(Vec::<Option<bool>>::try_from(c.clone()), Ok(vec![Some(true), None]));
    assert_eq!(
        Vec::<Option<i64>>::try_from(c.clone()),
        Err("The given column was not of type int")
    );
    assert_eq!(
        Vec::<Option<u64>>::try_from(c.clone()),
        Err("The given column was not of type float")
    );
    assert_eq!(
        Vec::<Option<String>>::try_from(c),
        Err("The given column was not of type String")
    );
    assert_eq!(
        Vec::<Option<bool>>::try_from(Column::from(vec![Some(1i64)])),
        Err("The given column was not of type bool")
    );
    assert_eq!(Column::from(vec![Some(1u64)]), Column::Float(vec![Some(1)]));
    assert_eq!(
        Column::from(vec![Some("a".to_string())]),
        Column::String(vec![Some("a".to_string())])
    );
}

#[test]
fn full_and_empty_tables() {
    let table = vec![Column::Int(vec![Some(1), None]), Column::Bool(vec![None, None])];
    assert!(is_full(&table, 2));
    assert!(!is_full(&table, 3));
    assert!(has_rows(&table));
    assert!(!is_full(&vec![], 0));
    assert!(!has_rows(&vec![]));
    assert!(is_full(&vec![Column::Int(vec![])], 0));
    assert!(!has_rows(&vec![Column::Int(vec![])]));
}
