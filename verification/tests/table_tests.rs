//! Assembler tests: the unescape transform, every structural error of
//! the four schema rows, and whole tables with data rows.

use qvs20::table::{DataType, Qvs20ErrorTable, Row, Table, Value};

#[test]
pub fn test_01_unescape() {
    // one byte characters
    let unescaped = Table::unescape(b"one");
    assert_eq!(unescaped, "one");
    // non one byte characters
    let unescaped = Table::unescape("čćšß€".as_bytes());
    assert_eq!(unescaped, "čćšß€");
    // escape sequences of the format
    let unescaped = Table::unescape("1\\[2\\]3\\\\4\\r5\\n6\\t".as_bytes());
    assert_eq!(unescaped, "1[2]3\\4\r5\n6\t");
}

#[test]
pub fn test_03_all_wrong_in_schema() {
    // error in first row - table_name
    let s = "";
    let err_msg = Table::from_qvs20_with_schema(s.as_bytes()).unwrap_err();
    assert_eq!(err_msg.message(), "Error: first row is empty.");

    let s = "bad-formed text";
    let err_msg = Table::from_qvs20_with_schema(s.as_bytes()).unwrap_err();
    assert_eq!(
        err_msg.message(),
        "Error: first row table name. Error: The field must start with [. pos: 0"
    );

    let s = "[bad-formed text";
    let err_msg = Table::from_qvs20_with_schema(s.as_bytes()).unwrap_err();
    assert_eq!(
        err_msg.message(),
        "Error: first row table name. Error: Last bracket is missing. pos: 1"
    );

    let s = "[no row delimiter]";
    let err_msg = Table::from_qvs20_with_schema(s.as_bytes()).unwrap_err();
    assert_eq!(
        err_msg.message(),
        "Error: first row  Error: Last row delimiter is missing. pos: 18"
    );

    let s = "[row delimiter too big]\n\n";
    let err_msg = Table::from_qvs20_with_schema(s.as_bytes()).unwrap_err();
    assert_eq!(
        err_msg.message(),
        "Error: first row  Error: The row delimiter has more than 1 byte. pos: 23"
    );

    // error in second row - data types
    // good table_name, but no 2nd row
    let s = "[table name]\n";
    let err_msg = Table::from_qvs20_with_schema(s.as_bytes()).unwrap_err();
    assert_eq!(
        err_msg.message(),
        "Error: Missing mandatory second row - data types."
    );

    let s = "[table name]\n[String";
    let err_msg = Table::from_qvs20_with_schema(s.as_bytes()).unwrap_err();
    assert_eq!(
        err_msg.message(),
        "Error: second row  Error: Last bracket is missing. pos: 14"
    );

    let s = "[table name]\n[String]";
    let err_msg = Table::from_qvs20_with_schema(s.as_bytes()).unwrap_err();
    assert_eq!(
        err_msg.message(),
        "Error: second row  Error: Last row delimiter is missing. pos: 21"
    );

    let s = "[table name]\n[String][Integer][Decimal]";
    let err_msg = Table::from_qvs20_with_schema(s.as_bytes()).unwrap_err();
    assert_eq!(
        err_msg.message(),
        "Error: second row  Error: Last row delimiter is missing. pos: 39"
    );

    // wrong row delimiter
    let s = "[table name]\n[String][Integer][Decimal]1";
    let err_msg = Table::from_qvs20_with_schema(s.as_bytes()).unwrap_err();
    assert_eq!(
        err_msg.message(),
        "Error: second row wrong row delimiter:49 instead of 10"
    );

    let s = "[table name]\n[String][Integer][Decimal]\n\n";
    let err_msg = Table::from_qvs20_with_schema(s.as_bytes()).unwrap_err();
    assert_eq!(
        err_msg.message(),
        "Error: second row  Error: The row delimiter has more than 1 byte. pos: 39"
    );

    // error in third row - additional properties: the input ends after
    // the second row, and the third row is mandatory
    let s = "[table name]\n[String][Integer][Decimal]\n";
    let err_msg = Table::from_qvs20_with_schema(s.as_bytes()).unwrap_err();
    assert_eq!(
        err_msg.message(),
        "Error in third row: additional properties."
    );
}

#[test]
pub fn full_table_with_two_string_columns() {
    let s = "[t]\n[String][String]\n[][]\n[name][description]\n[a][b]\n";
    let table = Table::from_qvs20_with_schema(s.as_bytes()).unwrap();
    assert_eq!(table.table_name, "t");
    assert_eq!(table.row_delimiter, b'\n');
    assert_eq!(table.data_types, vec![DataType::String, DataType::String]);
    assert_eq!(table.additional_properties, vec![String::new(), String::new()]);
    assert_eq!(
        table.column_names,
        vec!["name".to_string(), "description".to_string()]
    );
    assert_eq!(
        table.rows,
        vec![Row {
            values: vec![
                Value::String("a".to_string()),
                Value::String("b".to_string()),
            ],
        }]
    );
}

#[test]
pub fn duplicate_column_names_are_rejected() {
    let s = "[t]\n[String][String]\n[][]\n[x][x]\n";
    let err = Table::from_qvs20_with_schema(s.as_bytes()).unwrap_err();
    assert_eq!(err, Qvs20ErrorTable::ErrorInFourthRowColumnNames);
    assert_eq!(err.message(), "Error in fourth row: column names.");
}

#[test]
pub fn zero_data_rows_make_an_empty_table() {
    let s = "[t]\n[String]\n[]\n[name]\n";
    let table = Table::from_qvs20_with_schema(s.as_bytes()).unwrap();
    assert_eq!(table.rows, vec![]);
    assert_eq!(table.column_names, vec!["name".to_string()]);
}

#[test]
pub fn escaped_content_is_unescaped_in_cells() {
    let s = "[table-name]\n[String][String]\n[][]\n[name][description]\n[name_1][unescape\\\\\\[\\]\\nNewLine]\n";
    let table = Table::from_qvs20_with_schema(s.as_bytes()).unwrap();
    assert_eq!(table.table_name, "table-name");
    assert_eq!(
        table.rows[0].values,
        vec![
            Value::String("name_1".to_string()),
            Value::String("unescape\\[]\nNewLine".to_string()),
        ]
    );
}

#[test]
pub fn integer_cells_parse_as_signed_decimal() {
    let s = "[t]\n[String][Integer]\n[][]\n[name][id]\n[a][1601]\n[b][-7]\n";
    let table = Table::from_qvs20_with_schema(s.as_bytes()).unwrap();
    assert_eq!(
        table.rows,
        vec![
            Row {
                values: vec![Value::String("a".to_string()), Value::Integer(1601)],
            },
            Row {
                values: vec![Value::String("b".to_string()), Value::Integer(-7)],
            },
        ]
    );
}

#[test]
pub fn other_data_types_carry_raw_unescaped_bytes() {
    let s = "[t]\n[Date]\n[]\n[d]\n[2020-01-01]\n";
    let table = Table::from_qvs20_with_schema(s.as_bytes()).unwrap();
    assert_eq!(
        table.rows,
        vec![Row { values: vec![Value::Bytes(b"2020-01-01".to_vec())] }]
    );
}

#[test]
pub fn bad_integer_is_a_data_row_error() {
    let s = "[t]\n[Integer]\n[]\n[n]\n[12x]\n";
    let err = Table::from_qvs20_with_schema(s.as_bytes()).unwrap_err();
    assert_eq!(err, Qvs20ErrorTable::ErrorInDataRow { row_number: 0 });
    assert_eq!(err.message(), "Error in data row.");
}

#[test]
pub fn short_data_row_is_rejected() {
    let s = "[t]\n[String][String]\n[][]\n[a][b]\n[only one]\n";
    let err = Table::from_qvs20_with_schema(s.as_bytes()).unwrap_err();
    assert_eq!(err, Qvs20ErrorTable::ErrorInDataRow { row_number: 0 });
}

#[test]
pub fn second_data_row_error_counts_complete_rows() {
    let s = "[t]\n[Integer]\n[]\n[n]\n[1]\n[x]\n";
    let err = Table::from_qvs20_with_schema(s.as_bytes()).unwrap_err();
    assert_eq!(err, Qvs20ErrorTable::ErrorInDataRow { row_number: 1 });
}

#[test]
pub fn wrong_delimiter_in_data_row_is_rejected() {
    let s = "[t]\n[String]\n[]\n[a]\n[v]x[w]\n";
    let err = Table::from_qvs20_with_schema(s.as_bytes()).unwrap_err();
    assert_eq!(err, Qvs20ErrorTable::ErrorInDataRow { row_number: 0 });
}

#[test]
pub fn third_row_count_must_match() {
    let s = "[t]\n[String][String]\n[p]\n[a][b]\n";
    let err = Table::from_qvs20_with_schema(s.as_bytes()).unwrap_err();
    assert_eq!(err, Qvs20ErrorTable::ErrorInThirdRowAdditionalProperties);
    assert_eq!(err.message(), "Error in third row: additional properties.");
}

#[test]
pub fn fourth_row_count_must_match() {
    let s = "[t]\n[String][String]\n[][]\n[only]\n";
    let err = Table::from_qvs20_with_schema(s.as_bytes()).unwrap_err();
    assert_eq!(err, Qvs20ErrorTable::ErrorInFourthRowColumnNames);
}

#[test]
pub fn two_fields_in_first_row_are_rejected() {
    let s = "[a][b]\n";
    let err = Table::from_qvs20_with_schema(s.as_bytes()).unwrap_err();
    assert_eq!(
        err.message(),
        "Error: first row expected Row delimiter found Field."
    );
}

#[test]
pub fn unknown_data_type_is_rejected() {
    let s = "[t]\n[Text]\n[]\n[a]\n";
    let err = Table::from_qvs20_with_schema(s.as_bytes()).unwrap_err();
    assert_eq!(err.message(), "Error: second row unknown data type.");
}

#[test]
pub fn data_type_from_str_matches_exact_names() {
    assert_eq!(DataType::from_str("String"), Some(DataType::String));
    assert_eq!(DataType::from_str("Integer"), Some(DataType::Integer));
    assert_eq!(DataType::from_str("Decimal"), Some(DataType::Decimal));
    assert_eq!(DataType::from_str("Float"), Some(DataType::Float));
    assert_eq!(DataType::from_str("Bool"), Some(DataType::Bool));
    assert_eq!(DataType::from_str("Date"), Some(DataType::Date));
    assert_eq!(DataType::from_str("Time"), Some(DataType::Time));
    assert_eq!(DataType::from_str("DateTime"), Some(DataType::DateTime));
    assert_eq!(DataType::from_str("Table"), Some(DataType::Table));
    assert_eq!(DataType::from_str("string"), None);
    assert_eq!(DataType::from_str(""), None);
}

#[test]
pub fn default_value_is_the_empty_string() {
    let v = Value::default();
    assert_eq!(v, Value::String(String::new()));
}
