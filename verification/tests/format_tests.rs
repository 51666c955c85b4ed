//! Tail-format behaviour: footer, metadata, page table and the manifest
//! round trip.

use lance::format::{read_metadata_offset, write_footer, Metadata, PageInfo, PageTable};
use lance::manifest::{read_manifest, write_manifest, Manifest};
use lance::reader::read_metadata;
use lance::schema::{Dictionary, Field, Schema};
use lance::datatypes::LogicalType;
use lance::params::ReadBatchParams;

fn sample_manifest() -> Manifest {
    let fields = vec![
        Field {
            id: 0,
            name: "outer".to_string(),
            logical_type: LogicalType::from("struct"),
            nullable: true,
            children: vec![
                Field {
                    id: 1,
                    name: "li".to_string(),
                    logical_type: LogicalType::from("list"),
                    nullable: true,
                    children: vec![Field {
                        id: 2,
                        name: "item".to_string(),
                        logical_type: LogicalType::from("int32"),
                        nullable: true,
                        children: vec![],
                        dictionary: None,
                    }],
                    dictionary: None,
                },
                Field {
                    id: 3,
                    name: "d".to_string(),
                    logical_type: LogicalType::from("dict:string:uint8:false"),
                    nullable: false,
                    children: vec![],
                    dictionary: Some(Dictionary { offset: 40, length: 7, values: None }),
                },
            ],
            dictionary: None,
        },
        Field {
            id: 4,
            name: "plain".to_string(),
            logical_type: LogicalType::from("double"),
            nullable: false,
            children: vec![],
            dictionary: None,
        },
    ];
    Manifest {
        schema: Schema {
            fields,
            metadata: vec![("origin".to_string(), "unit".to_string())],
        },
        version: 3,
    }
}

fn assert_fields_equal(a: &Field, b: &Field) {
    assert_eq!(a.id, b.id);
    assert_eq!(a.name, b.name);
    assert_eq!(a.logical_type.as_str(), b.logical_type.as_str());
    assert_eq!(a.nullable, b.nullable);
    match (&a.dictionary, &b.dictionary) {
        (None, None) => {},
        (Some(x), Some(y)) => {
            assert_eq!(x.offset, y.offset);
            assert_eq!(x.length, y.length);
        },
        _ => panic!("dictionary presence differs"),
    }
    assert_eq!(a.children.len(), b.children.len());
    for (ca, cb) in a.children.iter().zip(b.children.iter()) {
        assert_fields_equal(ca, cb);
    }
}

#[test]
fn manifest_round_trip_ignores_prefix() {
    for prefix_len in [0usize, 1, 1000] {
        let mut file: Vec<u8> = (0..prefix_len).map(|i| (i % 251) as u8).collect();
        let m = sample_manifest();
        let pos = write_manifest(&mut file, &m).unwrap();
        assert_eq!(pos, prefix_len);
        let back = read_manifest(&file).unwrap();
        assert_eq!(back.version, 3);
        assert_eq!(back.schema.metadata, m.schema.metadata);
        assert_eq!(back.schema.fields.len(), m.schema.fields.len());
        for (a, b) in back.schema.fields.iter().zip(m.schema.fields.iter()) {
            assert_fields_equal(a, b);
        }
    }
}

#[test]
fn manifest_rejects_length_mismatch() {
    let mut file: Vec<u8> = Vec::new();
    let m = sample_manifest();
    write_manifest(&mut file, &m).unwrap();
    // Corrupt the declared length.
    file[0] ^= 0x01;
    assert!(matches!(read_manifest(&file), Err(lance::error::Error::IO(_))));
}

#[test]
fn footer_round_trip() {
    let mut file: Vec<u8> = vec![9, 9, 9];
    write_footer(&mut file, 3);
    let pos = read_metadata_offset(&file).unwrap();
    assert_eq!(pos, 3);
    let short: Vec<u8> = vec![1, 2, 3];
    assert!(matches!(read_metadata_offset(&short), Err(lance::error::Error::IO(_))));
    let mut bad = file.clone();
    let n = bad.len();
    bad[n - 1] = 0;
    assert!(matches!(read_metadata_offset(&bad), Err(lance::error::Error::IO(_))));
}

#[test]
fn metadata_round_trip() {
    let m = Metadata {
        batch_offsets: vec![0, 10, 25, 100],
        page_table_position: 4096,
        manifest_position: Some(777),
    };
    let mut buf: Vec<u8> = vec![0xAB; 5];
    m.write(&mut buf);
    let back = read_metadata(&buf, 5).unwrap();
    assert_eq!(back.batch_offsets, vec![0, 10, 25, 100]);
    assert_eq!(back.page_table_position, 4096);
    assert_eq!(back.manifest_position, Some(777));
    assert_eq!(back.num_batches(), 3);
    assert_eq!(back.get_batch_length(1), Some(15));
    assert_eq!(back.get_batch_length(3), None);
    assert_eq!(back.get_offset(2), Some(25));
    assert_eq!(back.len(), 100);
    assert!(!back.is_empty());
}

#[test]
fn metadata_rejects_unsorted_offsets() {
    let m = Metadata {
        batch_offsets: vec![0, 20, 10],
        page_table_position: 0,
        manifest_position: None,
    };
    let mut buf: Vec<u8> = Vec::new();
    m.write(&mut buf);
    assert!(matches!(read_metadata(&buf, 0), Err(lance::error::Error::IO(_))));
}

#[test]
fn page_table_round_trip_and_lookup() {
    let pages: Vec<PageInfo> = (0..6)
        .map(|i| PageInfo { position: 100 * i as u64, length: i as u64 })
        .collect();
    let table = PageTable { num_columns: 2, num_batches: 3, pages };
    let mut buf: Vec<u8> = vec![7; 11];
    table.write(&mut buf);
    let back = PageTable::load(&buf, 11, 2, 3).unwrap();
    // Column-major: cell (col, batch) sits at col * num_batches + batch.
    assert_eq!(back.get(1, 2), Some(PageInfo { position: 500, length: 5 }));
    assert_eq!(back.get(0, 0), Some(PageInfo { position: 0, length: 0 }));
    assert_eq!(back.get(2, 0), None);
    assert_eq!(back.get(0, 3), None);
    assert_eq!(back.get(-1, 0), None);
    assert!(matches!(
        PageTable::load(&buf, 11, 4, 9),
        Err(lance::error::Error::IO(_))
    ));
}

#[test]
fn params_row_counts() {
    assert_eq!(ReadBatchParams::RangeFull.row_count(10), 10);
    assert_eq!(ReadBatchParams::Range(3, 7).row_count(10), 4);
    assert_eq!(ReadBatchParams::RangeTo(4).row_count(10), 4);
    assert_eq!(ReadBatchParams::RangeFrom(6).row_count(10), 4);
    assert_eq!(ReadBatchParams::Indices(vec![1, 5, 9]).row_count(10), 3);
    assert!(ReadBatchParams::Range(0, 11).check_in_bounds(10) == false);
    assert!(ReadBatchParams::Indices(vec![1, 5, 9]).check_in_bounds(10));
}
