use rust_data_voyager::column::ColumnValues;
use rust_data_voyager::convert::ConversionError;
use rust_data_voyager::pipeline::{convert_records, read_columns, validate_and_convert, PipelineError};
use rust_data_voyager::schema::{ColumnDesc, LogicalType, Schema, SchemaSource};
use rust_data_voyager::validate::ValidationError;

fn fixed_id_count() -> SchemaSource {
    SchemaSource::Fixed(Schema {
        columns: vec![
            ColumnDesc { name: b"id".to_vec(), ty: LogicalType::UInt64, nullable: false },
            ColumnDesc { name: b"count".to_vec(), ty: LogicalType::UInt32, nullable: false },
        ],
    })
}

#[test]
fn bad_numeric_field_reports_line_column_and_raw_text() {
    let input = b"id,count\n1,10\n2,notanumber\n".to_vec();
    let r = validate_and_convert(&input, fixed_id_count());
    assert_eq!(
        r,
        Err(PipelineError::Conversion(ConversionError::ParseError {
            line: 3,
            column: b"count".to_vec(),
            raw_value: b"notanumber".to_vec(),
        }))
    );
}

#[test]
fn two_rows_convert_and_read_back() {
    let input = b"id,count\n1,10\n2,20\n".to_vec();
    let bytes = validate_and_convert(&input, fixed_id_count()).unwrap();
    let batch = read_columns(&bytes).unwrap();
    assert_eq!(batch.num_columns(), 2);
    assert_eq!(batch.num_rows(), 2);
    assert_eq!(batch.schema.columns[0].name, b"id".to_vec());
    assert_eq!(batch.schema.columns[1].name, b"count".to_vec());
    match &batch.columns[0].values {
        ColumnValues::UInt64(v) => assert_eq!(v, &vec![1u64, 2]),
        _ => panic!("id column has the wrong type"),
    }
    match &batch.columns[1].values {
        ColumnValues::UInt32(v) => assert_eq!(v, &vec![10u32, 20]),
        _ => panic!("count column has the wrong type"),
    }
    assert!(batch.columns[0].validity.is_none());
    assert!(batch.columns[1].validity.is_none());
}

#[test]
fn three_fields_against_two_columns() {
    let input = b"a,b\n1,2,3\n".to_vec();
    let r = validate_and_convert(&input, SchemaSource::Infer);
    assert_eq!(
        r,
        Err(PipelineError::Validation(ValidationError::ColumnCountMismatch {
            line: 2,
            expected: 2,
            found: 3,
        }))
    );
}

#[test]
fn running_twice_gives_identical_bytes() {
    let input = b"id,count\n1,10\n2,20\n".to_vec();
    let first = validate_and_convert(&input, fixed_id_count()).unwrap();
    let second = validate_and_convert(&input, fixed_id_count()).unwrap();
    assert_eq!(first, second);
}

#[test]
fn validation_error_wins_over_later_parse_error() {
    // line 2 has a column-count violation; line 3 would fail to parse.
    // The whole input is validated first, so the structural error is
    // reported and no conversion output exists.
    let input = b"id,count\n1,2,3\n4,notanumber\n".to_vec();
    let r = validate_and_convert(&input, fixed_id_count());
    assert_eq!(
        r,
        Err(PipelineError::Validation(ValidationError::ColumnCountMismatch {
            line: 2,
            expected: 2,
            found: 3,
        }))
    );
}

#[test]
fn leading_byte_order_mark_is_stripped() {
    let plain = b"id,count\n1,10\n".to_vec();
    let mut with_bom = vec![0xef, 0xbb, 0xbf];
    with_bom.extend_from_slice(&plain);
    let a = validate_and_convert(&plain, fixed_id_count()).unwrap();
    let b = validate_and_convert(&with_bom, fixed_id_count()).unwrap();
    assert_eq!(a, b);
}

#[test]
fn quoted_field_with_comma_is_one_field() {
    let input = b"name,note\n\"x,y\",ok\n".to_vec();
    let bytes = validate_and_convert(&input, SchemaSource::Infer).unwrap();
    let batch = read_columns(&bytes).unwrap();
    assert_eq!(batch.num_columns(), 2);
    match &batch.columns[0].values {
        ColumnValues::Utf8(v) => assert_eq!(v[0], b"x,y".to_vec()),
        _ => panic!("name column has the wrong type"),
    }
}

#[test]
fn empty_input_has_no_header() {
    let input = Vec::new();
    let r = validate_and_convert(&input, SchemaSource::Infer);
    assert_eq!(r, Err(PipelineError::MissingHeader));
}

#[test]
fn malformed_utf8_field_is_an_encoding_error() {
    let mut input = b"id,name\n1,".to_vec();
    input.extend_from_slice(&[0xff, 0xfe]);
    input.push(b'\n');
    let r = validate_and_convert(&input, SchemaSource::Infer);
    assert_eq!(
        r,
        Err(PipelineError::Validation(ValidationError::EncodingError {
            line: 2,
            field_index: 2,
        }))
    );
}

#[test]
fn plus_sign_and_leading_zeros_parse() {
    let input = b"id,count\n+1,007\n".to_vec();
    let bytes = validate_and_convert(&input, fixed_id_count()).unwrap();
    let batch = read_columns(&bytes).unwrap();
    match &batch.columns[0].values {
        ColumnValues::UInt64(v) => assert_eq!(v, &vec![1u64]),
        _ => panic!("id column has the wrong type"),
    }
    match &batch.columns[1].values {
        ColumnValues::UInt32(v) => assert_eq!(v, &vec![7u32]),
        _ => panic!("count column has the wrong type"),
    }
}

#[test]
fn overflowing_value_fails_its_column_type() {
    let source = SchemaSource::Fixed(Schema {
        columns: vec![ColumnDesc { name: b"n".to_vec(), ty: LogicalType::UInt16, nullable: false }],
    });
    let input = b"n\n65535\n".to_vec();
    assert!(validate_and_convert(&input, source).is_ok());

    let source = SchemaSource::Fixed(Schema {
        columns: vec![ColumnDesc { name: b"n".to_vec(), ty: LogicalType::UInt16, nullable: false }],
    });
    let input = b"n\n65536\n".to_vec();
    let r = validate_and_convert(&input, source);
    assert_eq!(
        r,
        Err(PipelineError::Conversion(ConversionError::ParseError {
            line: 2,
            column: b"n".to_vec(),
            raw_value: b"65536".to_vec(),
        }))
    );
}

#[test]
fn convert_records_on_presplit_rows() {
    let records = vec![
        vec![b"id".to_vec(), b"count".to_vec()],
        vec![b"5".to_vec(), b"6".to_vec()],
    ];
    let bytes = convert_records(&records, fixed_id_count()).unwrap();
    let batch = read_columns(&bytes).unwrap();
    assert_eq!(batch.num_rows(), 1);
    match &batch.columns[0].values {
        ColumnValues::UInt64(v) => assert_eq!(v, &vec![5u64]),
        _ => panic!("id column has the wrong type"),
    }
}

#[test]
fn nullable_columns_round_trip_validity() {
    // inferred schemas mark every column nullable; the builder records
    // every value as present.
    let input = b"name\nabc\ndef\n".to_vec();
    let bytes = validate_and_convert(&input, SchemaSource::Infer).unwrap();
    let batch = read_columns(&bytes).unwrap();
    assert_eq!(batch.columns[0].validity, Some(vec![true, true]));
}
