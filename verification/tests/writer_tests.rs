//! Writer tests: exact wire bytes for a small table, and the round trip
//! through the assembler on concrete tables.

use qvs20::table::{DataType, Row, Table, Value};
use qvs20::writer::{write_table, Schema, Writer};

fn sample_table() -> Table {
    Table {
        table_name: "crates".to_string(),
        row_delimiter: b'\n',
        data_types: vec![DataType::String, DataType::Integer, DataType::Date],
        additional_properties: vec![String::new(), String::new(), String::new()],
        column_names: vec!["name".to_string(), "id".to_string(), "day".to_string()],
        rows: vec![
            Row {
                values: vec![
                    Value::String("first [entry]".to_string()),
                    Value::Integer(-42),
                    Value::Bytes(b"2020-01-01".to_vec()),
                ],
            },
            Row {
                values: vec![
                    Value::String("second\nentry".to_string()),
                    Value::Integer(1601),
                    Value::Bytes(b"2021-12-31".to_vec()),
                ],
            },
        ],
    }
}

#[test]
pub fn write_emits_exact_wire_bytes() {
    let table = sample_table();
    let bytes = write_table(&table);
    let expected = "[crates]\n[String][Integer][Date]\n[][][]\n[name][id][day]\n[first \\[entry\\]][-42][2020-01-01]\n[second\\nentry][1601][2021-12-31]\n";
    assert_eq!(bytes, expected.as_bytes().to_vec());
}

#[test]
pub fn write_then_assemble_reconstructs_the_table() {
    let table = sample_table();
    let bytes = write_table(&table);
    let back = Table::from_qvs20_with_schema(bytes.as_slice()).unwrap();
    assert_eq!(back, table);
}

#[test]
pub fn round_trip_with_another_delimiter_byte() {
    let table = Table {
        table_name: "nested".to_string(),
        row_delimiter: b'1',
        data_types: vec![DataType::String],
        additional_properties: vec!["free form".to_string()],
        column_names: vec!["only".to_string()],
        rows: vec![Row { values: vec![Value::String("v".to_string())] }],
    };
    let bytes = write_table(&table);
    assert_eq!(bytes, "[nested]1[String]1[free form]1[only]1[v]1".as_bytes().to_vec());
    let back = Table::from_qvs20_with_schema(bytes.as_slice()).unwrap();
    assert_eq!(back, table);
}

#[test]
pub fn streaming_writer_closes_each_row_with_the_delimiter() {
    let schema = Schema {
        table_name: "crates".to_string(),
        row_delimiter: b'\n',
        data_types: vec![DataType::String, DataType::String],
        additional_properties: vec![String::new(), String::new()],
        column_names: vec!["name".to_string(), "description".to_string()],
    };
    let mut wtr = Writer::new(schema);
    wtr.push_string("name_1");
    wtr.push_string("A small [git] 1");
    wtr.push_string("name_2");
    wtr.push_string("A small git 2");
    assert_eq!(
        wtr.bytes_for_file(),
        "[name_1][A small \\[git\\] 1]\n[name_2][A small git 2]\n".as_bytes()
    );
}

#[test]
pub fn schema_carries_the_first_four_rows() {
    let schema = Schema {
        table_name: "t".to_string(),
        row_delimiter: b'\n',
        data_types: vec![DataType::String],
        additional_properties: vec![String::new()],
        column_names: vec!["c".to_string()],
    };
    assert_eq!(schema.table_name, "t");
    assert_eq!(schema.clone(), schema);
}
