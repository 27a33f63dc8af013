use sorer::dataframe::Data;
use sorer::reader::{infer_schema, read_file, DataType};

#[test]
fn infer_schema_test() {
    // Design decisions demonstrated by this test:
    // Null only columns are typed as a Bool
    let input = b"<1><hello><>\n<12><1.2><>";
    let schema = infer_schema(input);
    assert_eq!(
        schema,
        vec![DataType::Int, DataType::String, DataType::Bool]
    );

    let uses_row_w_most_fields = b"<1>\n<hello><0>\n<1.1><0><2>";
    let schema2 = infer_schema(uses_row_w_most_fields);
    assert_eq!(
        schema2,
        vec![DataType::Float, DataType::Bool, DataType::Int]
    );

    let type_precedence = b"<0><3><3.3><str>\n<3><5.5><r><h>";
    let schema3 = infer_schema(type_precedence);
    assert_eq!(
        schema3,
        vec![
            DataType::Int,
            DataType::Float,
            DataType::String,
            DataType::String
        ]
    );
}

#[test]
fn reader_test_read_file() {
    let schema = vec![DataType::String, DataType::Bool];

    let expected_col1 = vec![
        Data::String("1".to_string()),
        Data::String("a".to_string()),
        Data::String("1.2".to_string()),
    ];
    let expected_col2 = vec![Data::Bool(true), Data::Bool(false), Data::Null];
    let expected = vec![expected_col1, expected_col2];

    // Simple case : first nd last line are not discarded
    let input = b"<1><1>\n<a><0>\n<1.2><>";
    let parsed1 = read_file(schema.clone(), input, 0, 26);
    assert_eq!(parsed1, expected.clone());

    // last line is discarded
    let larger_input = b"<1><1>\n<a><0>\n<1.2><>\n<no><1>";
    let parsed2 = read_file(schema.clone(), larger_input, 0, 27);
    assert_eq!(parsed2, expected.clone());

    // first line is discarded
    let input_skipped_l1 = b"<b><1>\n<1><1>\n<a><0>\n<1.2><>";
    let parsed3 = read_file(schema.clone(), input_skipped_l1, 3, 26);
    assert_eq!(parsed3, expected.clone());

    // Invalid line is discarded
    let input_with_invalid = b"<1><1>\n<a><0>\n<c><1.2>\n<1.2><>";
    let parsed4 = read_file(schema.clone(), input_with_invalid, 0, 32);
    assert_eq!(parsed4, expected.clone());
}

#[test]
fn head_of_the_text_decides() {
    // line 501 is wider and holds a string, but only 500 lines are sampled
    let mut text: Vec<u8> = Vec::new();
    for _ in 0..500 {
        text.extend_from_slice(b"<1>\n");
    }
    text.extend_from_slice(b"<a><b>\n");
    assert_eq!(infer_schema(&text), vec![DataType::Bool]);
}

#[test]
fn read_file_behind_the_end_is_empty() {
    let schema = vec![DataType::String, DataType::Bool];
    let empty: Vec<Vec<Data>> = vec![vec![], vec![]];
    assert_eq!(read_file(schema.clone(), b"<1><1>\n", 7, 26), empty);
    assert_eq!(read_file(schema.clone(), b"<1><1>\n", 100, 26), empty);
    assert_eq!(read_file(schema, b"<1><1>\n", 0, 0), empty);
}
