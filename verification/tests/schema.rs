use sorer::schema::{infer_schema, infer_schema_for_n_lines, sample_band, DataType, SAMPLE_LINES};

#[test]
fn schema_of_sampled_lines() {
    // Null only columns are typed as a Bool
    let schema = infer_schema(b"<1><hello><>\n<12><1.2><>");
    assert_eq!(
        schema,
        vec![DataType::Int, DataType::String, DataType::Bool]
    );

    let schema2 = infer_schema(b"<1>\n<hello><0>\n<1.1><0><2>");
    assert_eq!(
        schema2,
        vec![DataType::Float, DataType::Bool, DataType::Int]
    );

    let schema3 = infer_schema(b"<0><3><3.3><str>\n<3><5.5><r><h>");
    assert_eq!(
        schema3,
        vec![
            DataType::Int,
            DataType::Float,
            DataType::String,
            DataType::String
        ]
    );
}

#[test]
fn empty_text_has_empty_schema() {
    assert_eq!(infer_schema(b""), Vec::<DataType>::new());
}

#[test]
fn sample_takes_start_middle_and_end() {
    // one line from each band: the first line, the line behind the one that
    // holds the middle byte, and the last line
    let text = b"<1>\n<a>\n<2>\n<3>\n<4>\n<5>\n<0>\n<7>\n<8>\n<0>\n";
    assert_eq!(infer_schema_for_n_lines(text, 3), vec![DataType::Bool]);
    let text = b"<1>\n<a>\n<2>\n<3>\n<4>\n<5>\n<0>\n<7>\n<8>\n<9>\n";
    assert_eq!(infer_schema_for_n_lines(text, 3), vec![DataType::Int]);
    let text = b"<1>\n<a>\n<2>\n<3>\n<4>\n<5>\n<1.5>\n<7>\n<8>\n<0>";
    assert_eq!(infer_schema_for_n_lines(text, 3), vec![DataType::Float]);
    // without a bound every line is sampled
    assert_eq!(infer_schema_for_n_lines(text, 0), vec![DataType::String]);
}

#[test]
fn band_is_a_third_of_the_sample() {
    assert_eq!(sample_band(SAMPLE_LINES), 100);
    assert_eq!(sample_band(3), 1);
    assert_eq!(sample_band(5), 1);
    assert_eq!(sample_band(2), usize::MAX);
    assert_eq!(sample_band(0), usize::MAX);
}
