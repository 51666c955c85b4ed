//! Logical-type codec behaviour: exact tags, round trips, and rejections.

use lance::datatypes::{DataType, DataTypeExt, LogicalType, TimeUnit};
use lance::schema::Field;

fn roundtrip(dt: DataType) {
    let lt = LogicalType::try_from(&dt).unwrap();
    let back = DataType::try_from(&lt).unwrap();
    assert_eq!(dt, back);
}

#[test]
fn primitive_tags_are_exact() {
    let cases = [
        (DataType::Null, "null"),
        (DataType::Boolean, "bool"),
        (DataType::Int8, "int8"),
        (DataType::UInt64, "uint64"),
        (DataType::Float16, "halffloat"),
        (DataType::Float32, "float"),
        (DataType::Float64, "double"),
        (DataType::Utf8, "string"),
        (DataType::Binary, "binary"),
        (DataType::LargeUtf8, "large_string"),
        (DataType::LargeBinary, "large_binary"),
        (DataType::Date32, "date32:day"),
        (DataType::Date64, "date64:ms"),
    ];
    for (dt, tag) in cases {
        let lt = LogicalType::try_from(&dt).unwrap();
        assert_eq!(lt.as_str(), tag);
    }
}

#[test]
fn primitive_round_trips() {
    roundtrip(DataType::Null);
    roundtrip(DataType::Boolean);
    roundtrip(DataType::Int8);
    roundtrip(DataType::Int16);
    roundtrip(DataType::Int32);
    roundtrip(DataType::Int64);
    roundtrip(DataType::UInt8);
    roundtrip(DataType::UInt16);
    roundtrip(DataType::UInt32);
    roundtrip(DataType::UInt64);
    roundtrip(DataType::Float16);
    roundtrip(DataType::Float32);
    roundtrip(DataType::Float64);
    roundtrip(DataType::Utf8);
    roundtrip(DataType::Binary);
    roundtrip(DataType::LargeUtf8);
    roundtrip(DataType::LargeBinary);
    roundtrip(DataType::Date32);
    roundtrip(DataType::Date64);
}

#[test]
fn temporal_round_trips() {
    roundtrip(DataType::Time32(TimeUnit::Second));
    roundtrip(DataType::Time32(TimeUnit::Millisecond));
    roundtrip(DataType::Time64(TimeUnit::Microsecond));
    roundtrip(DataType::Time64(TimeUnit::Nanosecond));
    roundtrip(DataType::Duration(TimeUnit::Second));
    roundtrip(DataType::Duration(TimeUnit::Millisecond));
    roundtrip(DataType::Duration(TimeUnit::Microsecond));
    roundtrip(DataType::Duration(TimeUnit::Nanosecond));
    roundtrip(DataType::Timestamp(TimeUnit::Second, None));
    roundtrip(DataType::Timestamp(
        TimeUnit::Nanosecond,
        Some("America/New_York".to_string()),
    ));
}

#[test]
fn timestamp_tag_shape() {
    let dt = DataType::Timestamp(TimeUnit::Microsecond, None);
    let lt = LogicalType::try_from(&dt).unwrap();
    assert_eq!(lt.as_str(), "timestamp:us:-");
    let dt2 = DataType::Timestamp(TimeUnit::Second, Some("UTC".to_string()));
    let lt2 = LogicalType::try_from(&dt2).unwrap();
    assert_eq!(lt2.as_str(), "timestamp:s:UTC");
}

#[test]
fn decimal_round_trips() {
    roundtrip(DataType::Decimal128(38, 10));
    roundtrip(DataType::Decimal128(5, -2));
    roundtrip(DataType::Decimal256(76, 0));
    let lt = LogicalType::try_from(&DataType::Decimal128(38, 10)).unwrap();
    assert_eq!(lt.as_str(), "decimal:128:38:10");
}

#[test]
fn fixed_size_round_trips() {
    roundtrip(DataType::FixedSizeBinary(16));
    roundtrip(DataType::FixedSizeList(Box::new(DataType::Float32), 8));
    let lt =
        LogicalType::try_from(&DataType::FixedSizeList(Box::new(DataType::Float32), 8)).unwrap();
    assert_eq!(lt.as_str(), "fixed_size_list:float:8");
}

#[test]
fn dictionary_round_trips() {
    roundtrip(DataType::Dictionary(
        Box::new(DataType::UInt8),
        Box::new(DataType::Utf8),
    ));
    let lt = LogicalType::try_from(&DataType::Dictionary(
        Box::new(DataType::UInt8),
        Box::new(DataType::Utf8),
    ))
    .unwrap();
    assert_eq!(lt.as_str(), "dict:string:uint8:false");
}

#[test]
fn unknown_tags_are_schema_errors() {
    for bad in ["lists", "int7", "decimal:64:5:2", "timestamp:x:-", "fixed_size_list:float", ""] {
        let lt = LogicalType::from(bad);
        let r = DataType::try_from(&lt);
        assert!(matches!(r, Err(lance::error::Error::Schema(_))), "{bad}");
    }
}

#[test]
fn nesting_tags() {
    let lt = LogicalType::from("list");
    assert!(lt.is_list());
    assert!(!lt.is_large_list());
    assert!(LogicalType::from("list.struct").is_list());
    assert!(LogicalType::from("large_list").is_large_list());
    assert!(LogicalType::from("large_list.struct").is_large_list());
    assert!(LogicalType::from("struct").is_struct());
    assert!(!LogicalType::from("struct").is_list());
}

#[test]
fn byte_widths() {
    assert_eq!(DataType::Int8.byte_width(), 1);
    assert_eq!(DataType::Int64.byte_width(), 8);
    assert_eq!(DataType::Decimal256(76, 0).byte_width(), 32);
    assert_eq!(DataType::FixedSizeBinary(9).byte_width(), 9);
    assert_eq!(
        DataType::FixedSizeList(Box::new(DataType::Float32), 8).byte_width(),
        32
    );
    assert!(DataType::Utf8.is_binary_like());
    assert!(!DataType::Int32.is_binary_like());
    assert!(DataType::Boolean.is_fixed_stride());
    assert!(!DataType::Utf8.is_fixed_stride());
    assert!(DataType::Dictionary(Box::new(DataType::UInt8), Box::new(DataType::Utf8))
        .is_dictionary());
    assert!(DataType::Struct.is_struct());
}

#[test]
fn field_tree_types() {
    let f = Field::try_new("l".to_string(), &DataType::List(Box::new(DataType::Int32)), false)
        .unwrap();
    assert_eq!(f.data_type().unwrap(), DataType::List(Box::new(DataType::Int32)));
    let s = Field::new_struct(
        "s".to_string(),
        vec![Field::try_new("a".to_string(), &DataType::Int64, true).unwrap()],
        true,
    );
    assert_eq!(s.data_type().unwrap(), DataType::Struct);
    assert_eq!(s.children.len(), 1);
}
