use rust_data_voyager::codec::{decode_batch, encode_batch, ContainerFormatError};
use rust_data_voyager::column::{Batch, ColumnValues, TypedColumn};
use rust_data_voyager::pipeline::{read_columns, validate_and_convert};
use rust_data_voyager::schema::{ColumnDesc, LogicalType, Schema, SchemaSource};

fn sample_container() -> Vec<u8> {
    let input = b"id,count\n1,10\n2,20\n".to_vec();
    let source = SchemaSource::Fixed(Schema {
        columns: vec![
            ColumnDesc { name: b"id".to_vec(), ty: LogicalType::UInt64, nullable: false },
            ColumnDesc { name: b"count".to_vec(), ty: LogicalType::UInt32, nullable: false },
        ],
    });
    validate_and_convert(&input, source).unwrap()
}

#[test]
fn container_opens_with_marker_and_version() {
    let bytes = sample_container();
    assert_eq!(&bytes[0..5], &[0x43, 0x4f, 0x4c, 0x42, 0x01]);
}

#[test]
fn hand_built_batch_round_trips() {
    let batch = Batch {
        schema: Schema {
            columns: vec![
                ColumnDesc { name: b"w".to_vec(), ty: LogicalType::UInt16, nullable: true },
                ColumnDesc { name: b"t".to_vec(), ty: LogicalType::Utf8, nullable: false },
            ],
        },
        columns: vec![
            TypedColumn {
                values: ColumnValues::UInt16(vec![7, 65535, 0]),
                validity: Some(vec![true, false, true]),
            },
            TypedColumn {
                values: ColumnValues::Utf8(vec![b"".to_vec(), b"abc".to_vec(), b"x y".to_vec()]),
                validity: None,
            },
        ],
    };
    let bytes = encode_batch(&batch);
    let back = decode_batch(&bytes).unwrap();
    assert_eq!(back.schema.columns.len(), 2);
    assert_eq!(back.schema.columns[0].name, b"w".to_vec());
    assert_eq!(back.schema.columns[0].ty, LogicalType::UInt16);
    assert!(back.schema.columns[0].nullable);
    match &back.columns[0].values {
        ColumnValues::UInt16(v) => assert_eq!(v, &vec![7u16, 65535, 0]),
        _ => panic!("wrong type for first column"),
    }
    assert_eq!(back.columns[0].validity, Some(vec![true, false, true]));
    match &back.columns[1].values {
        ColumnValues::Utf8(v) => {
            assert_eq!(v[0], b"".to_vec());
            assert_eq!(v[1], b"abc".to_vec());
            assert_eq!(v[2], b"x y".to_vec());
        }
        _ => panic!("wrong type for second column"),
    }
    assert_eq!(back.columns[1].validity, None);
}

#[test]
fn truncated_container_is_rejected() {
    let bytes = sample_container();
    let cut = bytes[..bytes.len() - 1].to_vec();
    assert_eq!(read_columns(&cut).err(), Some(ContainerFormatError::Truncated));
    let tiny = bytes[..3].to_vec();
    assert_eq!(read_columns(&tiny).err(), Some(ContainerFormatError::Truncated));
}

#[test]
fn wrong_marker_is_rejected() {
    let mut bytes = sample_container();
    bytes[0] = 0x58;
    assert_eq!(read_columns(&bytes).err(), Some(ContainerFormatError::BadMagic));
}

#[test]
fn unknown_version_is_rejected() {
    let mut bytes = sample_container();
    bytes[4] = 2;
    assert_eq!(read_columns(&bytes).err(), Some(ContainerFormatError::BadVersion));
}

#[test]
fn trailing_bytes_are_rejected() {
    let mut bytes = sample_container();
    bytes.push(0);
    assert_eq!(read_columns(&bytes).err(), Some(ContainerFormatError::TrailingBytes));
}

#[test]
fn unknown_type_tag_is_rejected() {
    // marker, version, one column named "a" with tag 9
    let mut bytes = vec![0x43, 0x4f, 0x4c, 0x42, 0x01];
    bytes.extend_from_slice(&1u64.to_le_bytes());
    bytes.extend_from_slice(&1u64.to_le_bytes());
    bytes.push(b'a');
    bytes.push(9);
    bytes.push(0);
    assert_eq!(read_columns(&bytes).err(), Some(ContainerFormatError::BadTypeTag));
}

#[test]
fn nullability_flag_other_than_zero_or_one_is_rejected() {
    let mut bytes = vec![0x43, 0x4f, 0x4c, 0x42, 0x01];
    bytes.extend_from_slice(&1u64.to_le_bytes());
    bytes.extend_from_slice(&1u64.to_le_bytes());
    bytes.push(b'a');
    bytes.push(4);
    bytes.push(2);
    assert_eq!(read_columns(&bytes).err(), Some(ContainerFormatError::BadFlag));
}

#[test]
fn zero_columns_with_rows_is_rejected() {
    let mut bytes = vec![0x43, 0x4f, 0x4c, 0x42, 0x01];
    bytes.extend_from_slice(&0u64.to_le_bytes());
    bytes.extend_from_slice(&5u64.to_le_bytes());
    assert_eq!(read_columns(&bytes).err(), Some(ContainerFormatError::BadRowCount));
}

#[test]
fn values_are_little_endian_and_densely_packed() {
    let batch = Batch {
        schema: Schema {
            columns: vec![ColumnDesc { name: b"n".to_vec(), ty: LogicalType::UInt16, nullable: false }],
        },
        columns: vec![TypedColumn { values: ColumnValues::UInt16(vec![0x1234, 1]), validity: None }],
    };
    let bytes = encode_batch(&batch);
    // marker(4) + version(1) + ncols(8) + namelen(8) + name(1) + tag(1)
    // + nullable(1) + nrows(8) = 32 bytes of header before the values
    assert_eq!(&bytes[32..36], &[0x34, 0x12, 0x01, 0x00]);
    assert_eq!(bytes.len(), 36);
}
