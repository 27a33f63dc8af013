use sorer::dataframe::{from_file, get, Data};
use sorer::schema::{infer_schema, DataType};

// Texts in the shape of the files that the command line tool is run on.
const SOR_0: &[u8] = b"<>\n<1>\n<0>\n";

const SOR_1: &[u8] = b"<abc>\n<a1>\n<xyz>\n<+1>\n<hello>\n<1.5>\n<+2.2>\n<world>\n\
<\"q r\">\n<12>\n<end>\n<a>\n<b>\n<c>\n<d>\n";

const SOR_2: &[u8] = b"<0> <> <1.2> <hi>\n<1> <12> <-0.2> <\"ho ho ho\">\n<1> <3> <4.5> <x>\n";

const SOR_4: &[u8] = b"<12> <1.5>\n<2147483647> <-2e-09>\n<-2147483648> <1e+10>\n<0> <0>\n";

fn text_of(name: &str) -> &'static [u8] {
    match name {
        "tests/0.sor" => SOR_0,
        "tests/1.sor" => SOR_1,
        "tests/2.sor" => SOR_2,
        "tests/4.sor" => SOR_4,
        _ => panic!("no such text"),
    }
}

#[test]
fn get_col_type() {
    let col_type_tests = vec![
        ("tests/0.sor", 0, DataType::Bool),
        ("tests/1.sor", 0, DataType::String),
        ("tests/2.sor", 0, DataType::Bool),
        ("tests/2.sor", 1, DataType::Int),
        ("tests/2.sor", 2, DataType::Float),
        ("tests/2.sor", 3, DataType::String),
    ];

    for t in col_type_tests {
        let s = infer_schema(text_of(t.0));
        assert_eq!(*s.get(t.1).unwrap(), t.2);
    }
}

#[test]
fn is_missing_idx() {
    let is_missing_tests = vec![
        ("tests/0.sor", 0, 0, true),
        ("tests/1.sor", 0, 1, false),
        ("tests/2.sor", 1, 0, true),
        ("tests/2.sor", 1, 1, false),
    ];

    for t in is_missing_tests {
        let schema = infer_schema(text_of(t.0));
        let data_frame = from_file(text_of(t.0), schema, 0, std::usize::MAX, 8);

        assert_eq!(get(&data_frame, t.1, t.2) == Data::Null, t.3);
    }

    // special case
    let schema = infer_schema(text_of("tests/1.sor"));
    let data_frame = from_file(text_of("tests/1.sor"), schema, 1, 74, 8);

    assert_eq!(get(&data_frame, 0, 0) == Data::Null, false);
}

#[test]
fn print_col_idx() {
    let print_col_idx_tests = vec![
        ("tests/1.sor", 0, 3, Data::String("+1".to_string())),
        ("tests/2.sor", 3, 0, Data::String("hi".to_string())),
        ("tests/2.sor", 3, 1, Data::String("ho ho ho".to_string())),
        ("tests/2.sor", 2, 0, Data::Float(1.2f64.to_bits())),
        ("tests/2.sor", 2, 1, Data::Float((-0.2f64).to_bits())),
        ("tests/4.sor", 0, 1, Data::Int(2147483647)),
        ("tests/4.sor", 0, 2, Data::Int(-2147483648)),
        ("tests/4.sor", 1, 1, Data::Float((-2e-09f64).to_bits())),
        ("tests/4.sor", 1, 2, Data::Float(1e+10f64.to_bits())),
    ];

    for t in print_col_idx_tests {
        let schema = infer_schema(text_of(t.0));
        let data_frame = from_file(text_of(t.0), schema, 0, std::usize::MAX, 8);

        assert_eq!(get(&data_frame, t.1, t.2), t.3);
    }
}
