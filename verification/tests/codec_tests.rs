use prost::encoding::WireType;
use tablestore::database::cell_value::Value;
use tablestore::database::{
    CellValue, ColumnDefinition, ColumnType, Database, Row, TableData, TableDefinition,
};

fn column(name: &str, col_type: i32, length: u32, not_null: bool) -> ColumnDefinition {
    ColumnDefinition { name: name.to_string(), col_type, length, not_null }
}

fn cell(value: Value) -> CellValue {
    CellValue { value: Some(value) }
}

fn users() -> TableDefinition {
    TableDefinition {
        name: "users".to_string(),
        columns: vec![column("id", 0, 0, true), column("name", 1, 20, false)],
    }
}

fn sample_rows() -> TableData {
    TableData {
        table_name: "t".to_string(),
        num_rows: 2,
        rows: vec![
            Row { cells: vec![cell(Value::IntVal(1)), cell(Value::StrVal("a".to_string()))] },
            Row { cells: vec![cell(Value::IntVal(2)), cell(Value::NullVal(true))] },
        ],
    }
}

fn nested(tag: u32, body: &[u8], out: &mut Vec<u8>) {
    prost::encoding::encode_key(tag, WireType::LengthDelimited, out);
    prost::encoding::encode_varint(body.len() as u64, out);
    out.extend_from_slice(body);
}

#[test]
fn column_definition_bytes() {
    assert_eq!(column("id", 0, 0, true).encode(), vec![0x0a, 0x02, b'i', b'd', 0x20, 0x01]);
    assert_eq!(
        column("name", 1, 20, false).encode(),
        vec![0x0a, 0x04, b'n', b'a', b'm', b'e', 0x10, 0x01, 0x18, 0x14]
    );
    assert_eq!(column("", 0, 300, false).encode(), vec![0x18, 0xac, 0x02]);
    assert_eq!(column("", 0, 0, false).encode(), Vec::<u8>::new());
    assert_eq!(
        column("", -1, 0, false).encode(),
        vec![0x10, 0xff, 0xff, 0xff, 0xff, 0xff, 0xff, 0xff, 0xff, 0xff, 0x01]
    );
    assert_eq!(column("", 0, u32::MAX, false).encode(), vec![0x18, 0xff, 0xff, 0xff, 0xff, 0x0f]);
}

#[test]
fn column_definition_bytes_are_those_of_prost() {
    let c = column("caf\u{e9}", 1, 70000, true);
    let mut expected = Vec::new();
    prost::encoding::string::encode(1, &c.name, &mut expected);
    prost::encoding::int32::encode(2, &c.col_type, &mut expected);
    prost::encoding::uint32::encode(3, &c.length, &mut expected);
    prost::encoding::bool::encode(4, &c.not_null, &mut expected);
    assert_eq!(c.encode(), expected);
}

#[test]
fn table_definition_bytes() {
    let mut expected = vec![0x0a, 0x05, b'u', b's', b'e', b'r', b's'];
    expected.extend_from_slice(&[0x12, 0x06, 0x0a, 0x02, b'i', b'd', 0x20, 0x01]);
    expected.extend_from_slice(&[0x12, 0x0a, 0x0a, 0x04, b'n', b'a', b'm', b'e', 0x10, 0x01, 0x18, 0x14]);
    assert_eq!(users().encode(), expected);
}

#[test]
fn database_bytes() {
    let database = Database { tables: vec![users(), TableDefinition { name: String::new(), columns: vec![] }] };
    let mut expected = Vec::new();
    nested(1, &users().encode(), &mut expected);
    nested(1, &[], &mut expected);
    assert_eq!(database.encode(), expected);
    assert_eq!(expected[0], 0x0a);
    assert_eq!(expected[1], 27);
    assert_eq!(&expected[expected.len() - 2..], &[0x0a, 0x00]);
    assert_eq!(Database { tables: vec![] }.encode(), Vec::<u8>::new());
}

#[test]
fn cell_bytes() {
    assert_eq!(cell(Value::IntVal(1)).encode(), vec![0x08, 0x01]);
    assert_eq!(cell(Value::IntVal(0)).encode(), vec![0x08, 0x00]);
    assert_eq!(
        cell(Value::IntVal(-1)).encode(),
        vec![0x08, 0xff, 0xff, 0xff, 0xff, 0xff, 0xff, 0xff, 0xff, 0xff, 0x01]
    );
    assert_eq!(
        cell(Value::IntVal(i64::MIN)).encode(),
        vec![0x08, 0x80, 0x80, 0x80, 0x80, 0x80, 0x80, 0x80, 0x80, 0x80, 0x01]
    );
    assert_eq!(
        cell(Value::IntVal(i64::MAX)).encode(),
        vec![0x08, 0xff, 0xff, 0xff, 0xff, 0xff, 0xff, 0xff, 0xff, 0x7f]
    );
    assert_eq!(cell(Value::StrVal("a".to_string())).encode(), vec![0x12, 0x01, b'a']);
    assert_eq!(cell(Value::StrVal(String::new())).encode(), vec![0x12, 0x00]);
    assert_eq!(cell(Value::NullVal(true)).encode(), vec![0x18, 0x01]);
    assert_eq!(cell(Value::NullVal(false)).encode(), vec![0x18, 0x00]);
    assert_eq!(CellValue { value: None }.encode(), Vec::<u8>::new());
}

#[test]
fn cell_bytes_are_those_of_prost() {
    for v in [0i64, 1, -1, 127, 128, 300, i64::MAX, i64::MIN, -123456789] {
        let mut expected = Vec::new();
        prost::encoding::int64::encode(1, &v, &mut expected);
        assert_eq!(cell(Value::IntVal(v)).encode(), expected);
    }
    let text = "gr\u{fc}n \u{1f600}".to_string();
    let mut expected = Vec::new();
    prost::encoding::string::encode(2, &text, &mut expected);
    assert_eq!(cell(Value::StrVal(text)).encode(), expected);
}

#[test]
fn table_data_bytes() {
    let mut expected = vec![0x0a, 0x01, b't', 0x10, 0x02];
    expected.extend_from_slice(&[0x1a, 0x09, 0x0a, 0x02, 0x08, 0x01, 0x0a, 0x03, 0x12, 0x01, b'a']);
    expected.extend_from_slice(&[0x1a, 0x08, 0x0a, 0x02, 0x08, 0x02, 0x0a, 0x02, 0x18, 0x01]);
    assert_eq!(sample_rows().encode(), expected);
}

#[test]
fn round_trip_of_a_catalog() {
    let database = Database {
        tables: vec![
            users(),
            TableDefinition { name: "empty".to_string(), columns: vec![] },
            TableDefinition {
                name: "\u{85cf}".to_string(),
                columns: vec![column("", 0, 0, false), column("x", i32::MIN, u32::MAX, true)],
            },
        ],
    };
    assert_eq!(Database::decode(&database.encode()), Ok(database));
    assert_eq!(Database::decode(&[]), Ok(Database { tables: vec![] }));
}

#[test]
fn round_trip_of_table_contents() {
    let data = TableData {
        table_name: "t".to_string(),
        num_rows: 4,
        rows: vec![
            Row { cells: vec![] },
            Row { cells: vec![CellValue { value: None }, cell(Value::NullVal(false))] },
            Row { cells: vec![cell(Value::IntVal(i64::MIN)), cell(Value::StrVal(String::new()))] },
            Row { cells: vec![cell(Value::StrVal("x".repeat(300))), cell(Value::IntVal(0))] },
        ],
    };
    assert_eq!(TableData::decode(&data.encode()), Ok(data));
    assert_eq!(TableData::decode(&sample_rows().encode()), Ok(sample_rows()));
}

#[test]
fn round_trip_of_the_parts() {
    let c = column("name", 1, 20, true);
    assert_eq!(ColumnDefinition::decode(&c.encode()), Ok(c));
    assert_eq!(TableDefinition::decode(&users().encode()), Ok(users()));
    let r = Row { cells: vec![cell(Value::IntVal(-5)), CellValue { value: None }] };
    assert_eq!(Row::decode(&r.encode()), Ok(r));
    for value in [Value::IntVal(7), Value::StrVal("s".to_string()), Value::NullVal(false)] {
        assert_eq!(CellValue::decode(&cell(value.clone()).encode()), Ok(cell(value)));
    }
    assert_eq!(CellValue::decode(&[]), Ok(CellValue { value: None }));
}

#[test]
fn encode_into_appends() {
    let mut buf = vec![0xee];
    column("id", 0, 0, true).encode_into(&mut buf);
    assert_eq!(buf, vec![0xee, 0x0a, 0x02, b'i', b'd', 0x20, 0x01]);
}

#[test]
fn fields_may_come_in_any_order_and_the_last_counts() {
    let bytes = [0x20, 0x01, 0x18, 0x05, 0x0a, 0x01, b'a', 0x18, 0x07, 0x0a, 0x01, b'b', 0x20, 0x00];
    assert_eq!(ColumnDefinition::decode(&bytes), Ok(column("b", 0, 7, false)));
    let bytes = [0x08, 0x01, 0x12, 0x01, b'a', 0x18, 0x01];
    assert_eq!(CellValue::decode(&bytes), Ok(cell(Value::NullVal(true))));
    let bytes = [0x18, 0x01, 0x08, 0x2a];
    assert_eq!(CellValue::decode(&bytes), Ok(cell(Value::IntVal(42))));
}

#[test]
fn unknown_fields_are_passed_over() {
    let mut bytes = vec![0x0a, 0x01, b'a'];
    bytes.extend_from_slice(&[0x78, 0x96, 0x01]);
    bytes.extend_from_slice(&[0x7a, 0x02, 0xff, 0xfe]);
    bytes.extend_from_slice(&[0x79, 1, 2, 3, 4, 5, 6, 7, 8]);
    bytes.extend_from_slice(&[0x7d, 1, 2, 3, 4]);
    bytes.extend_from_slice(&[0x20, 0x01]);
    assert_eq!(ColumnDefinition::decode(&bytes), Ok(column("a", 0, 0, true)));
    let bytes = [0x10, 0x01, 0x0a, 0x03, 0x0a, 0x01, b'u'];
    assert_eq!(Database::decode(&bytes), Ok(Database { tables: vec![TableDefinition { name: "u".to_string(), columns: vec![] }] }));
}

#[test]
fn varints_are_read_as_prost_reads_them() {
    assert_eq!(ColumnDefinition::decode(&[0x18, 0x80, 0x00]), Ok(column("", 0, 0, false)));
    assert_eq!(ColumnDefinition::decode(&[0x18, 0x81, 0x80, 0x00]), Ok(column("", 0, 1, false)));
    let ones = [0x10, 0xff, 0xff, 0xff, 0xff, 0xff, 0xff, 0xff, 0xff, 0xff, 0x01];
    assert_eq!(ColumnDefinition::decode(&ones), Ok(column("", -1, 0, false)));
    let wide = [0x18, 0x81, 0x80, 0x80, 0x80, 0x10];
    assert_eq!(ColumnDefinition::decode(&wide), Ok(column("", 0, 1, false)));
    let flag = [0x20, 0x02];
    assert_eq!(ColumnDefinition::decode(&flag), Ok(column("", 0, 0, true)));
    let too_long = [0x10, 0xff, 0xff, 0xff, 0xff, 0xff, 0xff, 0xff, 0xff, 0xff, 0x02];
    assert!(ColumnDefinition::decode(&too_long).is_err());
    let eleven = [0x10, 0x80, 0x80, 0x80, 0x80, 0x80, 0x80, 0x80, 0x80, 0x80, 0x80, 0x00];
    assert!(ColumnDefinition::decode(&eleven).is_err());
    for bytes in [&ones[1..], &wide[1..], &too_long[1..], &eleven[1..], &[0x80u8][..], &[][..]] {
        let mut rest = bytes;
        let read = prost::encoding::decode_varint(&mut rest).ok();
        let mut field = vec![0x10];
        field.extend_from_slice(bytes);
        let ours = ColumnDefinition::decode(&field).ok().map(|c| c.col_type);
        if rest.is_empty() || read.is_none() {
            assert_eq!(ours, read.map(|v| v as i32));
        }
    }
}

#[test]
fn malformed_bytes_are_refused() {
    assert!(ColumnDefinition::decode(&[0x0a]).is_err());
    assert!(ColumnDefinition::decode(&[0x0a, 0x02, b'a']).is_err());
    assert!(ColumnDefinition::decode(&[0x0a, 0x01, 0xff]).is_err());
    assert!(ColumnDefinition::decode(&[0x0a, 0x02, 0xc3, 0x28]).is_err());
    assert!(ColumnDefinition::decode(&[0x08, 0x01]).is_err());
    assert!(ColumnDefinition::decode(&[0x12, 0x01, 0x00]).is_err());
    assert!(ColumnDefinition::decode(&[0x1a, 0x00]).is_err());
    assert!(ColumnDefinition::decode(&[0x22, 0x00]).is_err());
    assert!(ColumnDefinition::decode(&[0x00, 0x00]).is_err());
    assert!(ColumnDefinition::decode(&[0x02, 0x00]).is_err());
    assert!(ColumnDefinition::decode(&[0x7b]).is_err());
    assert!(ColumnDefinition::decode(&[0x7c]).is_err());
    assert!(ColumnDefinition::decode(&[0x7e, 0x00]).is_err());
    assert!(ColumnDefinition::decode(&[0x7f, 0x00]).is_err());
    assert!(ColumnDefinition::decode(&[0x79, 1, 2, 3]).is_err());
    assert!(ColumnDefinition::decode(&[0x7d, 1, 2, 3]).is_err());
    assert!(ColumnDefinition::decode(&[0x80, 0x80, 0x80, 0x80, 0x10, 0x00]).is_err());
    assert!(Database::decode(&[0x0a, 0x02, 0x0a, 0x05]).is_err());
    assert!(Database::decode(&[0x08, 0x00]).is_err());
    assert!(TableData::decode(&[0x1a, 0x02, 0x0a, 0x01]).is_err());
    assert!(TableData::decode(&[0x12, 0x00]).is_err());
    assert!(Row::decode(&[0x0a, 0x02, 0x12, 0x05]).is_err());
    assert!(CellValue::decode(&[0x0a, 0x00]).is_err());
    assert!(CellValue::decode(&[0x10, 0x00]).is_err());
    assert!(CellValue::decode(&[0x1a, 0x00]).is_err());
    assert!(CellValue::decode(&[0x12, 0x01, 0x80]).is_err());
}

#[test]
fn column_type_names_and_numbers() {
    assert_eq!(ColumnType::Int.as_str_name(), "INT");
    assert_eq!(ColumnType::String.as_str_name(), "STRING");
    assert_eq!(ColumnType::from_str_name("INT"), Some(ColumnType::Int));
    assert_eq!(ColumnType::from_str_name("STRING"), Some(ColumnType::String));
    assert_eq!(ColumnType::from_str_name("int"), None);
    assert_eq!(ColumnType::from_str_name("INTEGER"), None);
    assert_eq!(ColumnType::from_str_name(""), None);
    assert_eq!(ColumnType::Int.to_i32(), 0);
    assert_eq!(ColumnType::String.to_i32(), 1);
}
