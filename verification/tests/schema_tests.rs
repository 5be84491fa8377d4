use rust_data_voyager::schema::{
    build_schema, infer_schema, ColumnDesc, LogicalType, Schema, SchemaError, SchemaSource,
};

#[test]
fn heuristic_types_from_header_names() {
    let headers = vec![
        b"Year of birth".to_vec(),
        b"Founded".to_vec(),
        b"Number of employees".to_vec(),
        b"Company".to_vec(),
    ];
    let schema = infer_schema(&headers).unwrap();
    let types: Vec<LogicalType> = schema.columns.iter().map(|c| c.ty).collect();
    assert_eq!(
        types,
        vec![LogicalType::UInt16, LogicalType::UInt16, LogicalType::UInt32, LogicalType::Utf8]
    );
    assert!(schema.columns.iter().all(|c| c.nullable));
    assert_eq!(schema.columns[3].name, b"Company".to_vec());
}

#[test]
fn heuristic_is_case_sensitive_substring_match() {
    // "year" in lower case does not match the "Year" pattern.
    let headers = vec![b"year".to_vec(), b"Last Year".to_vec()];
    let schema = infer_schema(&headers).unwrap();
    assert_eq!(schema.columns[0].ty, LogicalType::Utf8);
    assert_eq!(schema.columns[1].ty, LogicalType::UInt16);
}

#[test]
fn duplicate_header_names_are_rejected() {
    let headers = vec![b"id".to_vec(), b"x".to_vec(), b"id".to_vec()];
    let r = infer_schema(&headers);
    assert_eq!(r.err(), Some(SchemaError::DuplicateName { first: 0, second: 2 }));
}

#[test]
fn earliest_duplicate_pair_is_reported() {
    let headers = vec![b"a".to_vec(), b"b".to_vec(), b"b".to_vec(), b"a".to_vec()];
    let r = infer_schema(&headers);
    assert_eq!(r.err(), Some(SchemaError::DuplicateName { first: 1, second: 2 }));
}

#[test]
fn fixed_schema_must_match_header_count() {
    let source = SchemaSource::Fixed(Schema {
        columns: vec![
            ColumnDesc { name: b"a".to_vec(), ty: LogicalType::Utf8, nullable: false },
            ColumnDesc { name: b"b".to_vec(), ty: LogicalType::Utf8, nullable: false },
        ],
    });
    let headers = vec![b"x".to_vec(), b"y".to_vec(), b"z".to_vec()];
    let r = build_schema(source, &headers);
    assert_eq!(r.err(), Some(SchemaError::ColumnCountMismatch { expected: 2, found: 3 }));
}

#[test]
fn fixed_schema_with_duplicate_names_is_rejected() {
    let source = SchemaSource::Fixed(Schema {
        columns: vec![
            ColumnDesc { name: b"a".to_vec(), ty: LogicalType::Utf8, nullable: false },
            ColumnDesc { name: b"a".to_vec(), ty: LogicalType::UInt16, nullable: false },
        ],
    });
    let headers = vec![b"x".to_vec(), b"y".to_vec()];
    let r = build_schema(source, &headers);
    assert_eq!(r.err(), Some(SchemaError::DuplicateName { first: 0, second: 1 }));
}

#[test]
fn fixed_schema_names_override_headers() {
    let source = SchemaSource::Fixed(Schema {
        columns: vec![ColumnDesc { name: b"total".to_vec(), ty: LogicalType::UInt64, nullable: false }],
    });
    let headers = vec![b"whatever".to_vec()];
    let schema = build_schema(source, &headers).unwrap();
    assert_eq!(schema.columns[0].name, b"total".to_vec());
    assert_eq!(schema.columns[0].ty, LogicalType::UInt64);
}
