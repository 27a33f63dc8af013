use sorer::dataframe::{from_file, get, plan_chunks, read_chunk, Column, Data};
use sorer::schema::DataType;

fn expected_table() -> Vec<Column> {
    let expected_col1 = Column::String(vec![
        Some("1".to_string()),
        Some("a".to_string()),
        Some("1.2".to_string()),
    ]);
    let expected_col2 = Column::Bool(vec![Some(true), Some(false), None]);
    vec![expected_col1, expected_col2]
}

#[test]
fn dataframe_test_read_file() {
    let schema = vec![DataType::String, DataType::Bool];
    let expected = expected_table();

    // Simple case : first nd last line are not discarded
    let input = b"<1><1>\n<a><0>\n<1.2><>";
    let parsed1: Vec<Column> = read_chunk(schema.clone(), input, 0, 26);
    assert_eq!(parsed1, expected.clone());

    // last line is discarded
    let larger_input = b"<1><1>\n<a><0>\n<1.2><>\n<no><1>";
    let parsed2: Vec<Column> = read_chunk(schema.clone(), larger_input, 0, 27);
    assert_eq!(parsed2, expected.clone());

    // first line is discarded
    let input_skipped_l1 = b"<b><1>\n<1><1>\n<a><0>\n<1.2><>";
    let parsed3: Vec<Column> = read_chunk(schema.clone(), input_skipped_l1, 3, 26);
    assert_eq!(parsed3, expected.clone());

    // Invalid line is discarded
    let input_with_invalid = b"<1><1>\n<a><0>\n<c><1.2>\n<1.2><>";
    let parsed4: Vec<Column> = read_chunk(schema.clone(), input_with_invalid, 0, 32);
    assert_eq!(parsed4, expected.clone());
}

#[test]
fn plan_extends_each_unit_to_the_next_line_end() {
    // 21 bytes, three lines of 7 bytes
    let input = b"<1><1>\n<a><0>\n<1.2><>";
    assert_eq!(plan_chunks(input, 0, 26, 2), vec![(0, 15), (13, 13)]);
    assert_eq!(plan_chunks(input, 0, usize::MAX, 3), vec![(0, 15), (7, 15), (14, 7)]);
    assert_eq!(plan_chunks(input, 0, usize::MAX, 1), vec![(0, 21)]);
    assert_eq!(plan_chunks(input, 0, 0, 2), vec![(0, 8), (0, 0)]);
}

#[test]
fn from_file_reads_every_line_once() {
    let schema = vec![DataType::String, DataType::Bool];
    let input = b"<1><1>\n<a><0>\n<1.2><>";
    assert_eq!(from_file(input, schema.clone(), 0, 26, 1), expected_table());
    assert_eq!(from_file(input, schema.clone(), 0, 26, 2), expected_table());
    assert_eq!(from_file(input, schema.clone(), 0, usize::MAX, 3), expected_table());
    assert_eq!(from_file(input, schema.clone(), 0, usize::MAX, 4), expected_table());

    let table = from_file(input, schema, 0, 26, 2);
    assert_eq!(get(&table, 0, 2), Data::String("1.2".to_string()));
    assert_eq!(get(&table, 1, 0), Data::Bool(true));
    assert_eq!(get(&table, 1, 2), Data::Null);
}

#[test]
fn one_worker_leaves_out_the_line_that_ends_the_window() {
    let schema = vec![DataType::String, DataType::Bool];
    let input = b"<1><1>\n<a><0>\n<1.2><>";
    let table = from_file(input, schema, 0, usize::MAX, 1);
    assert_eq!(
        table,
        vec![
            Column::String(vec![Some("1".to_string()), Some("a".to_string())]),
            Column::Bool(vec![Some(true), Some(false)]),
        ]
    );
}
