//! End-to-end reader behaviour over hand-assembled file images.

use lance::array::ArrayData;
use lance::datatypes::LogicalType;
use lance::format::{Metadata, PageInfo, PageTable};
use lance::manifest::{write_body, Manifest};
use lance::params::ReadBatchParams;
use lance::reader::FileReader;
use lance::schema::{Dictionary, Field, Schema};

fn leaf(id: i32, name: &str, tag: &str, nullable: bool) -> Field {
    Field {
        id,
        name: name.to_string(),
        logical_type: LogicalType::from(tag),
        nullable,
        children: vec![],
        dictionary: None,
    }
}

/// Append a page of little-endian i64 values; returns (position, length).
fn write_i64_page(file: &mut Vec<u8>, vals: &[i64]) -> PageInfo {
    let position = file.len() as u64;
    for v in vals {
        file.extend_from_slice(&v.to_le_bytes());
    }
    PageInfo { position, length: vals.len() as u64 }
}

fn write_f32_page(file: &mut Vec<u8>, vals: &[f32]) -> PageInfo {
    let position = file.len() as u64;
    for v in vals {
        file.extend_from_slice(&v.to_le_bytes());
    }
    PageInfo { position, length: vals.len() as u64 }
}

fn write_i32_page(file: &mut Vec<u8>, vals: &[i32]) -> PageInfo {
    let position = file.len() as u64;
    for v in vals {
        file.extend_from_slice(&v.to_le_bytes());
    }
    PageInfo { position, length: vals.len() as u64 }
}

fn write_u8_page(file: &mut Vec<u8>, vals: &[u8]) -> PageInfo {
    let position = file.len() as u64;
    file.extend_from_slice(vals);
    PageInfo { position, length: vals.len() as u64 }
}

/// Append a binary page: value bytes first, then the absolute 32-bit
/// offsets array.  The page points at the offsets; length is the row count.
fn write_utf8_page(file: &mut Vec<u8>, vals: &[&str]) -> PageInfo {
    let mut offs: Vec<i32> = Vec::new();
    offs.push(file.len() as i32);
    for v in vals {
        file.extend_from_slice(v.as_bytes());
        offs.push(file.len() as i32);
    }
    let position = file.len() as u64;
    for o in &offs {
        file.extend_from_slice(&o.to_le_bytes());
    }
    PageInfo { position, length: vals.len() as u64 }
}

/// Finish a data file: manifest body, page table, metadata, footer.
fn finish_file(
    file: &mut Vec<u8>,
    schema_fields: Vec<Field>,
    num_columns: usize,
    pages: Vec<PageInfo>,
    batch_offsets: Vec<i32>,
) {
    let manifest = Manifest {
        schema: Schema { fields: schema_fields, metadata: vec![] },
        version: 1,
    };
    let mpos = file.len() as u64;
    let mut body: Vec<u8> = Vec::new();
    write_body(&mut body, &manifest).unwrap();
    file.extend_from_slice(&(body.len() as u32).to_le_bytes());
    file.extend_from_slice(&body);
    let table = PageTable {
        num_columns,
        num_batches: batch_offsets.len() - 1,
        pages,
    };
    let ptp = file.len() as u64;
    table.write(file);
    let metadata = Metadata {
        batch_offsets,
        page_table_position: ptp,
        manifest_position: Some(mpos),
    };
    let metadata_pos = file.len() as u64;
    metadata.write(file);
    lance::format::write_footer(file, metadata_pos);
}

fn i64_column(batch: &lance::batch::RecordBatch, col: usize) -> Vec<i64> {
    match batch.column(col) {
        ArrayData::Fixed { width, values } => {
            assert_eq!(*width, 8);
            values.chunks(8).map(|c| i64::from_le_bytes(c.try_into().unwrap())).collect()
        },
        other => panic!("expected a fixed column, got {other:?}"),
    }
}

fn u64_column(batch: &lance::batch::RecordBatch, col: usize) -> Vec<u64> {
    match batch.column(col) {
        ArrayData::Fixed { width, values } => {
            assert_eq!(*width, 8);
            values.chunks(8).map(|c| u64::from_le_bytes(c.try_into().unwrap())).collect()
        },
        other => panic!("expected a fixed column, got {other:?}"),
    }
}

/// Ten batches of ten (i64, f32) rows.
fn build_two_column_file() -> Vec<u8> {
    let mut file: Vec<u8> = Vec::new();
    let mut i_pages: Vec<PageInfo> = Vec::new();
    let mut f_pages: Vec<PageInfo> = Vec::new();
    for b in 0..10i64 {
        let vals: Vec<i64> = (b * 10..b * 10 + 10).collect();
        i_pages.push(write_i64_page(&mut file, &vals));
        let fvals: Vec<f32> = vals.iter().map(|v| *v as f32).collect();
        f_pages.push(write_f32_page(&mut file, &fvals));
    }
    let mut pages = i_pages;
    pages.extend(f_pages);
    let fields = vec![leaf(0, "i", "int64", true), leaf(1, "f", "float", false)];
    let offsets: Vec<i32> = (0..=10).map(|b| b * 10).collect();
    finish_file(&mut file, fields, 2, pages, offsets);
    file
}

#[test]
fn read_with_row_id_formula() {
    let file = build_two_column_file();
    let fragment: u64 = 123;
    let mut reader = FileReader::try_new_with_fragment(file, fragment, None).unwrap();
    reader.with_row_id(true);
    assert_eq!(reader.num_batches(), 10);
    assert_eq!(reader.len(), 100);
    assert_eq!(reader.num_rows_in_batch(3), 10);
    assert!(!reader.is_empty());
    let schema = Schema {
        fields: vec![leaf(0, "i", "int64", true), leaf(1, "f", "float", false)],
        metadata: vec![],
    };
    for b in 0..10i32 {
        let batch = reader.read_batch(b, &ReadBatchParams::RangeFull, &schema).unwrap();
        assert_eq!(batch.num_rows(), 10);
        assert_eq!(batch.num_columns(), 3);
        let ids = u64_column(&batch, 2);
        let start = (fragment << 32) + 10 * b as u64;
        let expect: Vec<u64> = (start..start + 10).collect();
        assert_eq!(ids, expect);
        let ivals = i64_column(&batch, 0);
        let iexpect: Vec<i64> = (b as i64 * 10..b as i64 * 10 + 10).collect();
        assert_eq!(ivals, iexpect);
    }
}

#[test]
fn read_range_crosses_batches() {
    let file = build_two_column_file();
    let reader = FileReader::try_new(file).unwrap();
    let schema = Schema { fields: vec![leaf(0, "i", "int64", true)], metadata: vec![] };
    let batch = reader.read_range(7, 25, &schema).unwrap();
    assert_eq!(batch.num_rows(), 18);
    assert_eq!(i64_column(&batch, 0), (7..25).collect::<Vec<i64>>());
    assert!(batch.column_by_name("i").is_some());
    assert!(batch.column_by_name("missing").is_none());
}

#[test]
fn take_preserves_order_across_batches() {
    let file = build_two_column_file();
    let reader = FileReader::try_new(file).unwrap();
    let schema = Schema { fields: vec![leaf(0, "i", "int64", true)], metadata: vec![] };
    let batch = reader.take(&[1, 15, 20, 25, 30, 48, 90], &schema).unwrap();
    assert_eq!(i64_column(&batch, 0), vec![1, 15, 20, 25, 30, 48, 90]);
}

#[test]
fn params_equivalence_on_a_batch() {
    let file = build_two_column_file();
    let reader = FileReader::try_new(file).unwrap();
    let schema = Schema { fields: vec![leaf(0, "i", "int64", true)], metadata: vec![] };
    let full = reader.read_batch(4, &ReadBatchParams::RangeFull, &schema).unwrap();
    let ranged = reader.read_batch(4, &ReadBatchParams::Range(0, 10), &schema).unwrap();
    assert_eq!(i64_column(&full, 0), i64_column(&ranged, 0));
}

#[test]
fn null_array_lengths_and_bounds() {
    let mut file: Vec<u8> = Vec::new();
    let i_page = write_i64_page(&mut file, &(0..100).collect::<Vec<i64>>());
    // A null page occupies no bytes; only its length matters.
    let n_page = PageInfo { position: 0, length: 100 };
    let fields = vec![leaf(0, "i", "int64", false), leaf(1, "n", "null", true)];
    finish_file(&mut file, fields, 2, vec![i_page, n_page], vec![0, 100]);
    let reader = FileReader::try_new(file).unwrap();
    let schema = Schema { fields: vec![leaf(1, "n", "null", true)], metadata: vec![] };

    let cases: Vec<(ReadBatchParams, usize)> = vec![
        (ReadBatchParams::RangeFull, 100),
        (ReadBatchParams::Range(10, 25), 15),
        (ReadBatchParams::RangeFrom(60), 40),
        (ReadBatchParams::RangeTo(25), 25),
        (ReadBatchParams::Indices(vec![1, 9, 30, 72]), 4),
    ];
    for (params, expect) in cases {
        let batch = reader.read_batch(0, &params, &schema).unwrap();
        match batch.column(0) {
            ArrayData::Null { len } => assert_eq!(*len, expect),
            other => panic!("expected a null column, got {other:?}"),
        }
    }

    // Out-of-range requests fail with IO and return nothing.
    let bad = reader.read_batch(0, &ReadBatchParams::Indices(vec![1, 9, 30, 72, 100]), &schema);
    assert!(matches!(bad, Err(lance::error::Error::IO(_))));
    let bad2 = reader.read_batch(0, &ReadBatchParams::RangeTo(107), &schema);
    assert!(matches!(bad2, Err(lance::error::Error::IO(_))));
}

#[test]
fn take_lists_yields_selected_groups() {
    // One list<int32> column: ten lists of ten values over one batch.
    let mut file: Vec<u8> = Vec::new();
    let values: Vec<i32> = (0..100).collect();
    let child_page = write_i32_page(&mut file, &values);
    let offs: Vec<i32> = (0..=10).map(|i| i * 10).collect();
    let off_page_raw = write_i32_page(&mut file, &offs);
    // A list page's length counts its offsets (rows + 1).
    let list_page = PageInfo { position: off_page_raw.position, length: 11 };
    fn list_field() -> Field {
        Field {
            id: 0,
            name: "l".to_string(),
            logical_type: LogicalType::from("list"),
            nullable: false,
            children: vec![
                Field {
                    id: 1,
                    name: "item".to_string(),
                    logical_type: LogicalType::from("int32"),
                    nullable: true,
                    children: vec![],
                    dictionary: None,
                },
            ],
            dictionary: None,
        }
    }
    finish_file(&mut file, vec![list_field()], 2, vec![list_page, child_page], vec![0, 10]);
    let reader = FileReader::try_new(file).unwrap();
    let schema = Schema { fields: vec![list_field()], metadata: vec![] };
    let batch = reader.take(&[1, 3, 5, 9], &schema).unwrap();
    match batch.column(0) {
        ArrayData::List { large, offsets, values } => {
            assert!(!*large);
            assert_eq!(offsets, &vec![0usize, 10, 20, 30, 40]);
            match &**values {
                ArrayData::Fixed { width, values } => {
                    assert_eq!(*width, 4);
                    let got: Vec<i32> = values
                        .chunks(4)
                        .map(|c| i32::from_le_bytes(c.try_into().unwrap()))
                        .collect();
                    let mut expect: Vec<i32> = Vec::new();
                    for g in [1, 3, 5, 9] {
                        expect.extend(g * 10..g * 10 + 10);
                    }
                    assert_eq!(got, expect);
                },
                other => panic!("expected fixed values, got {other:?}"),
            }
        },
        other => panic!("expected a list column, got {other:?}"),
    }
}

#[test]
fn list_offsets_are_rebased() {
    // The same list file read over a sub-range: offsets start at zero and
    // end at the returned value count.
    let mut file: Vec<u8> = Vec::new();
    let values: Vec<i32> = (0..100).collect();
    let child_page = write_i32_page(&mut file, &values);
    let offs: Vec<i32> = (0..=10).map(|i| i * 10).collect();
    let off_page_raw = write_i32_page(&mut file, &offs);
    let list_page = PageInfo { position: off_page_raw.position, length: 11 };
    fn list_field() -> Field {
        Field {
            id: 0,
            name: "l".to_string(),
            logical_type: LogicalType::from("list"),
            nullable: false,
            children: vec![
                Field {
                    id: 1,
                    name: "item".to_string(),
                    logical_type: LogicalType::from("int32"),
                    nullable: true,
                    children: vec![],
                    dictionary: None,
                },
            ],
            dictionary: None,
        }
    }
    finish_file(&mut file, vec![list_field()], 2, vec![list_page, child_page], vec![0, 10]);
    let reader = FileReader::try_new(file).unwrap();
    let schema = Schema { fields: vec![list_field()], metadata: vec![] };
    let batch = reader.read_batch(0, &ReadBatchParams::Range(3, 6), &schema).unwrap();
    match batch.column(0) {
        ArrayData::List { offsets, values, .. } => {
            assert_eq!(offsets[0], 0);
            match &**values {
                ArrayData::Fixed { values, .. } => {
                    assert_eq!(*offsets.last().unwrap() * 4, values.len());
                    let got: Vec<i32> = values
                        .chunks(4)
                        .map(|c| i32::from_le_bytes(c.try_into().unwrap()))
                        .collect();
                    assert_eq!(got, (30..60).collect::<Vec<i32>>());
                },
                other => panic!("expected fixed values, got {other:?}"),
            }
        },
        other => panic!("expected a list column, got {other:?}"),
    }
}

#[test]
fn take_with_dictionary_column() {
    // Ten batches of a uint8 -> utf8 dictionary column.
    let mut file: Vec<u8> = Vec::new();
    let dict_page = write_utf8_page(&mut file, &["a", "b", "c", "d", "e", "f", "g"]);
    let mut pages: Vec<PageInfo> = Vec::new();
    for b in 0..10u8 {
        let keys: Vec<u8> = (0..10).map(|j| ((b as i64 * 10 + j) % 7) as u8).collect();
        pages.push(write_u8_page(&mut file, &keys));
    }
    let dict_field = |dp: &PageInfo| Field {
        id: 0,
        name: "d".to_string(),
        logical_type: LogicalType::from("dict:string:uint8:false"),
        nullable: false,
        children: vec![],
        dictionary: Some(Dictionary {
            offset: dp.position as usize,
            length: dp.length as usize,
            values: None,
        }),
    };
    let offsets: Vec<i32> = (0..=10).map(|b| b * 10).collect();
    finish_file(&mut file, vec![dict_field(&dict_page)], 1, pages, offsets);
    let reader = FileReader::try_new(file).unwrap();
    // The reader's own schema carries the hydrated dictionary values.
    let batch = reader.take(&[1, 15, 20, 25, 30, 48, 90], reader.schema()).unwrap();
    match batch.column(0) {
        ArrayData::Dict { indices, values } => {
            match &**indices {
                ArrayData::Fixed { width, values } => {
                    assert_eq!(*width, 1);
                    assert_eq!(values, &vec![1u8, 1, 6, 4, 2, 6, 6]);
                },
                other => panic!("expected fixed indices, got {other:?}"),
            }
            match &**values {
                ArrayData::Binary { offsets, values, .. } => {
                    assert_eq!(offsets, &vec![0usize, 1, 2, 3, 4, 5, 6, 7]);
                    assert_eq!(values, &b"abcdefg".to_vec());
                },
                other => panic!("expected binary dictionary values, got {other:?}"),
            }
        },
        other => panic!("expected a dictionary column, got {other:?}"),
    }
}

#[test]
fn struct_column_slices_rows() {
    // A struct of (utf8, int32) over one batch of three rows; the middle
    // row alone comes back from a sub-range read.
    let mut file: Vec<u8> = Vec::new();
    let s_page = write_utf8_page(&mut file, &["aa", "", "b"]);
    let i_page = write_i32_page(&mut file, &[7, 8, 9]);
    fn struct_field() -> Field {
        Field {
            id: 0,
            name: "s".to_string(),
            logical_type: LogicalType::from("struct"),
            nullable: true,
            children: vec![
                Field {
                    id: 1,
                    name: "str".to_string(),
                    logical_type: LogicalType::from("string"),
                    nullable: false,
                    children: vec![],
                    dictionary: None,
                },
                Field {
                    id: 2,
                    name: "num".to_string(),
                    logical_type: LogicalType::from("int32"),
                    nullable: false,
                    children: vec![],
                    dictionary: None,
                },
            ],
            dictionary: None,
        }
    }
    // Columns 0..=2; the struct itself has no page, so give it an empty one.
    let pages = vec![PageInfo { position: 0, length: 3 }, s_page, i_page];
    finish_file(&mut file, vec![struct_field()], 3, pages, vec![0, 3]);
    let reader = FileReader::try_new(file).unwrap();
    let schema = Schema { fields: vec![struct_field()], metadata: vec![] };
    let batch = reader.read_batch(0, &ReadBatchParams::Range(1, 2), &schema).unwrap();
    assert_eq!(batch.num_rows(), 1);
    match batch.column(0) {
        ArrayData::Struct { len, children } => {
            assert_eq!(*len, 1);
            match &children[0] {
                ArrayData::Binary { offsets, values, .. } => {
                    assert_eq!(offsets, &vec![0usize, 0]);
                    assert_eq!(values.len(), 0);
                },
                other => panic!("expected a binary child, got {other:?}"),
            }
            match &children[1] {
                ArrayData::Fixed { values, .. } => {
                    assert_eq!(values, &8i32.to_le_bytes().to_vec());
                },
                other => panic!("expected a fixed child, got {other:?}"),
            }
        },
        other => panic!("expected a struct column, got {other:?}"),
    }
}

#[test]
fn magic_mismatch_is_io_error() {
    let file = vec![0u8; 64];
    let r = FileReader::try_new(file);
    assert!(matches!(r, Err(lance::error::Error::IO(_))));
}

#[test]
fn misaligned_struct_members_are_arrow_errors() {
    // Two struct members whose pages disagree on the row count.
    let mut file: Vec<u8> = Vec::new();
    let a_page = write_i32_page(&mut file, &[1, 2, 3]);
    let b_page = write_i32_page(&mut file, &[1, 2]);
    fn struct_field() -> Field {
        Field {
            id: 0,
            name: "s".to_string(),
            logical_type: LogicalType::from("struct"),
            nullable: true,
            children: vec![
                Field {
                    id: 1,
                    name: "a".to_string(),
                    logical_type: LogicalType::from("int32"),
                    nullable: false,
                    children: vec![],
                    dictionary: None,
                },
                Field {
                    id: 2,
                    name: "b".to_string(),
                    logical_type: LogicalType::from("int32"),
                    nullable: false,
                    children: vec![],
                    dictionary: None,
                },
            ],
            dictionary: None,
        }
    }
    let pages = vec![PageInfo { position: 0, length: 3 }, a_page, b_page];
    finish_file(&mut file, vec![struct_field()], 3, pages, vec![0, 3]);
    let reader = FileReader::try_new(file).unwrap();
    let schema = Schema { fields: vec![struct_field()], metadata: vec![] };
    let r = reader.read_batch(0, &ReadBatchParams::RangeFull, &schema);
    assert!(matches!(r, Err(lance::error::Error::Arrow(_))));
}

#[test]
fn row_id_packs_fragment_and_offset() {
    assert_eq!(lance::reader::compute_row_id(0, 0), 0);
    assert_eq!(lance::reader::compute_row_id(1, 0), 1 << 32);
    assert_eq!(lance::reader::compute_row_id(123, 45), (123u64 << 32) + 45);
}

#[test]
fn fixed_size_list_pages_read_as_blocks() {
    // A fixed_size_list:float:2 column: width 8 bytes per row.
    let mut file: Vec<u8> = Vec::new();
    let vals: Vec<f32> = (0..8).map(|v| v as f32).collect();
    let page = {
        let position = file.len() as u64;
        for v in &vals {
            file.extend_from_slice(&v.to_le_bytes());
        }
        PageInfo { position, length: 4 }
    };
    let fields = vec![leaf(0, "v", "fixed_size_list:float:2", false)];
    finish_file(&mut file, fields, 1, vec![page], vec![0, 4]);
    let reader = FileReader::try_new(file).unwrap();
    let schema = Schema {
        fields: vec![leaf(0, "v", "fixed_size_list:float:2", false)],
        metadata: vec![],
    };
    let batch = reader.read_batch(0, &ReadBatchParams::Range(1, 3), &schema).unwrap();
    match batch.column(0) {
        ArrayData::Fixed { width, values } => {
            assert_eq!(*width, 8);
            let got: Vec<f32> = values
                .chunks(4)
                .map(|c| f32::from_le_bytes(c.try_into().unwrap()))
                .collect();
            assert_eq!(got, vec![2.0, 3.0, 4.0, 5.0]);
        },
        other => panic!("expected a fixed column, got {other:?}"),
    }
}

#[test]
fn row_ids_under_every_selection_shape() {
    let file = build_two_column_file();
    let fragment: u64 = 7;
    let mut reader = FileReader::try_new_with_fragment(file, fragment, None).unwrap();
    reader.with_row_id(true);
    let schema = Schema { fields: vec![leaf(0, "i", "int64", true)], metadata: vec![] };
    let base = (fragment << 32) + 30;

    let b = reader.read_batch(3, &ReadBatchParams::Range(2, 5), &schema).unwrap();
    assert_eq!(u64_column(&b, 1), vec![base + 2, base + 3, base + 4]);

    let b = reader.read_batch(3, &ReadBatchParams::RangeTo(4), &schema).unwrap();
    assert_eq!(u64_column(&b, 1), vec![base, base + 1, base + 2, base + 3]);

    let b = reader.read_batch(3, &ReadBatchParams::RangeFrom(6), &schema).unwrap();
    assert_eq!(u64_column(&b, 1), vec![base + 6, base + 7, base + 8, base + 9]);

    let b = reader
        .read_batch(3, &ReadBatchParams::Indices(vec![0, 4, 9]), &schema)
        .unwrap();
    assert_eq!(u64_column(&b, 1), vec![base, base + 4, base + 9]);
}
