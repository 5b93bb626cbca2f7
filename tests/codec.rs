use pcd_codec::ascii::{encode_ascii, parse_cell};
use pcd_codec::binary::{chunk_bounds, decode_binary, decode_binary_par, encode_binary, join_row_ranges};
use pcd_codec::block::{Column, PointBlock};
use pcd_codec::compressed::{decode_compressed, encode_compressed, split_column_major};
use pcd_codec::error::PcdError;
use pcd_codec::header::{parse_header, write_header, DataFormat};
use pcd_codec::io::{build_block, encode_pcd, read_from_buffer};
use pcd_codec::kind::ValueKind;
use pcd_codec::layout::derive_layout;
use pcd_codec::text::{parse_integer, push_decimal};

fn xyz_header(data: &str) -> Vec<u8> {
    format!(
        "# .PCD v0.7\nVERSION 0.7\nFIELDS x y z\nSIZE 4 4 4\nTYPE F F F\nCOUNT 1 1 1\nWIDTH 2\nHEIGHT 1\nVIEWPOINT 0 0 0 1 0 0 0\nPOINTS 2\nDATA {}\n",
        data
    )
    .into_bytes()
}

fn f32_column(c: &Column) -> Vec<f32> {
    c.bytes()
        .chunks_exact(4)
        .map(|b| f32::from_le_bytes([b[0], b[1], b[2], b[3]]))
        .collect()
}

fn f32_bytes(v: &[f32]) -> Vec<u8> {
    v.iter().flat_map(|x| x.to_le_bytes()).collect()
}

fn vp() -> Vec<Vec<u8>> {
    ["0", "0", "0", "1", "0", "0", "0"].iter().map(|s| s.as_bytes().to_vec()).collect()
}

fn mixed_block() -> PointBlock {
    let names = vec![b"a".to_vec(), b"b".to_vec(), b"c".to_vec(), b"d".to_vec()];
    let cols = vec![
        Column { kind: ValueKind::U8, data: vec![1, 2, 255] },
        Column { kind: ValueKind::I16, data: [-2i16, 300, -32768].iter().flat_map(|x| x.to_le_bytes()).collect() },
        Column { kind: ValueKind::U32, data: [7u32, 4294967295, 0].iter().flat_map(|x| x.to_le_bytes()).collect() },
        Column { kind: ValueKind::I32, data: [-1i32, 2147483647, -2147483648].iter().flat_map(|x| x.to_le_bytes()).collect() },
    ];
    build_block(names, cols).unwrap()
}

#[test]
fn ascii_example_decodes_to_columns() {
    let mut file = xyz_header("ascii");
    file.extend_from_slice(b"1.0 2.0 3.0\n4.0 5.0 6.0\n");
    let read = read_from_buffer(&file, 1).unwrap();
    assert_eq!(read.meta.points, 2);
    assert_eq!(read.block.schema().clone(), vec![b"x".to_vec(), b"y".to_vec(), b"z".to_vec()]);
    let parsed: Vec<Vec<f32>> = read
        .float_tokens
        .iter()
        .map(|col| col.iter().map(|t| std::str::from_utf8(t).unwrap().parse::<f32>().unwrap()).collect())
        .collect();
    assert_eq!(parsed, vec![vec![1.0, 4.0], vec![2.0, 5.0], vec![3.0, 6.0]]);
}

#[test]
fn binary_example_decodes_to_columns() {
    let mut file = xyz_header("binary");
    file.extend_from_slice(&f32_bytes(&[1.0, 2.0, 3.0, 4.0, 5.0, 6.0]));
    let read = read_from_buffer(&file, 4).unwrap();
    let b = &read.block;
    assert_eq!(f32_column(b.get_column(b"x").unwrap()), vec![1.0, 4.0]);
    assert_eq!(f32_column(b.get_column(b"y").unwrap()), vec![2.0, 5.0]);
    assert_eq!(f32_column(b.get_column(b"z").unwrap()), vec![3.0, 6.0]);
    assert!(b.get_column(b"w").is_none());
}

#[test]
fn binary_truncated_payload_fails() {
    let (h, _) = parse_header(&xyz_header("binary")).unwrap();
    let layout = derive_layout(&h).unwrap();
    let payload = vec![0u8; 23];
    match decode_binary(&payload, &layout, 2) {
        Err(e) => assert_eq!(e, PcdError::TruncatedData(24, 23)),
        Ok(_) => panic!("decoded a truncated payload"),
    }
}

#[test]
fn compressed_length_mismatch_fails_first() {
    let (h, _) = parse_header(&xyz_header("binary_compressed")).unwrap();
    let layout = derive_layout(&h).unwrap();
    let mut payload = Vec::new();
    payload.extend_from_slice(&3u32.to_le_bytes());
    payload.extend_from_slice(&20u32.to_le_bytes());
    payload.extend_from_slice(&[0xff, 0xff, 0xff]);
    match decode_compressed(&payload, &layout, 2) {
        Err(e) => assert_eq!(e, PcdError::Decompression(24, 20)),
        Ok(_) => panic!("accepted a wrong uncompressed length"),
    }
}

#[test]
fn count_expands_into_scalar_columns() {
    let text = b"VERSION 0.7\nFIELDS id normal\nSIZE 4 4\nTYPE U F\nCOUNT 1 3\nWIDTH 2\nHEIGHT 1\nVIEWPOINT 0 0 0 1 0 0 0\nPOINTS 2\nDATA binary\n";
    let (h, start) = parse_header(text).unwrap();
    assert_eq!(start, text.len());
    let layout = derive_layout(&h).unwrap();
    assert_eq!(layout.stride, 16);
    let names: Vec<Vec<u8>> = layout.fields.iter().map(|f| f.name.clone()).collect();
    assert_eq!(names, vec![b"id".to_vec(), b"normal_0".to_vec(), b"normal_1".to_vec(), b"normal_2".to_vec()]);
    let offsets: Vec<usize> = layout.fields.iter().map(|f| f.offset).collect();
    assert_eq!(offsets, vec![0, 4, 8, 12]);
    let mut file = text.to_vec();
    file.extend_from_slice(&[0u8; 32]);
    let read = read_from_buffer(&file, 2).unwrap();
    for j in 0..4 {
        assert_eq!(read.block.get_column_by_index(j).unwrap().len(), 2);
    }
}

#[test]
fn write_rejects_columns_of_different_lengths() {
    let names = vec![b"a".to_vec(), b"b".to_vec()];
    let cols = vec![
        Column { kind: ValueKind::F32, data: f32_bytes(&[1.0, 2.0, 3.0]) },
        Column { kind: ValueKind::F32, data: f32_bytes(&[1.0, 2.0]) },
    ];
    match build_block(names, cols) {
        Err(e) => assert_eq!(e, PcdError::LengthMismatch(1, 3, 2)),
        Ok(_) => panic!("accepted columns of different lengths"),
    }
}

#[test]
fn write_rejects_partial_elements() {
    let names = vec![b"a".to_vec()];
    let cols = vec![Column { kind: ValueKind::U16, data: vec![1, 2, 3] }];
    assert!(matches!(build_block(names, cols), Err(PcdError::TypeMismatch(0))));
}

#[test]
fn binary_round_trip() {
    let b = mixed_block();
    let file = encode_pcd(&b, DataFormat::Binary, &vp(), &Vec::new()).unwrap();
    let read = read_from_buffer(&file, 3).unwrap();
    for j in 0..4 {
        assert_eq!(read.block.get_column_by_index(j).unwrap().bytes(), b.get_column_by_index(j).unwrap().bytes());
        assert_eq!(read.block.get_column_by_index(j).unwrap().kind(), b.get_column_by_index(j).unwrap().kind());
    }
    assert_eq!(read.block.schema(), b.schema());
}

#[test]
fn compressed_round_trip() {
    let b = mixed_block();
    let file = encode_pcd(&b, DataFormat::BinaryCompressed, &vp(), &Vec::new()).unwrap();
    let read = read_from_buffer(&file, 1).unwrap();
    for j in 0..4 {
        assert_eq!(read.block.get_column_by_index(j).unwrap().bytes(), b.get_column_by_index(j).unwrap().bytes());
    }
}

#[test]
fn compressed_block_is_framed_literal_runs() {
    let names = vec![b"v".to_vec()];
    let cols = vec![Column { kind: ValueKind::U8, data: vec![7u8; 1000] }];
    let b = build_block(names, cols).unwrap();
    let enc = encode_compressed(&b).unwrap();
    let packed = u32::from_le_bytes([enc[0], enc[1], enc[2], enc[3]]) as usize;
    let raw = u32::from_le_bytes([enc[4], enc[5], enc[6], enc[7]]) as usize;
    assert_eq!(raw, 1000);
    assert_eq!(packed, 1000 + 32);
    assert_eq!(enc[8], 31);
    assert_eq!(enc.len(), 8 + packed);
    let text = b"VERSION 0.7\nFIELDS v\nSIZE 1\nTYPE U\nCOUNT 1\nWIDTH 1000\nHEIGHT 1\nVIEWPOINT 0 0 0 1 0 0 0\nPOINTS 1000\nDATA binary_compressed\n";
    let (h, _) = parse_header(text).unwrap();
    let layout = derive_layout(&h).unwrap();
    let back = decode_compressed(&enc, &layout, 1000).unwrap();
    assert_eq!(back.get_column_by_index(0).unwrap().bytes(), &vec![7u8; 1000]);
}

#[test]
fn compressed_round_trip_of_incompressible_data() {
    let names = vec![b"v".to_vec()];
    let data: Vec<u8> = (0..70u8).map(|i| i.wrapping_mul(37).wrapping_add(11)).collect();
    let cols = vec![Column { kind: ValueKind::U8, data: data.clone() }];
    let b = build_block(names, cols).unwrap();
    let file = encode_pcd(&b, DataFormat::BinaryCompressed, &vp(), &Vec::new()).unwrap();
    let read = read_from_buffer(&file, 1).unwrap();
    assert_eq!(read.block.get_column_by_index(0).unwrap().bytes(), &data);
}

#[test]
fn compressed_round_trip_of_empty_block() {
    let names = vec![b"v".to_vec()];
    let cols = vec![Column { kind: ValueKind::F64, data: Vec::new() }];
    let b = build_block(names, cols).unwrap();
    let file = encode_pcd(&b, DataFormat::BinaryCompressed, &vp(), &Vec::new()).unwrap();
    let read = read_from_buffer(&file, 1).unwrap();
    assert_eq!(read.block.len(), 0);
    assert_eq!(read.block.get_column_by_index(0).unwrap().len(), 0);
}

#[test]
fn ascii_round_trip_of_integers_and_floats() {
    let mut b = mixed_block();
    let float_col = vec![0.1f32, -2.5e-7, 3.0e20];
    let names = vec![b"a".to_vec(), b"f".to_vec()];
    let cols = vec![
        Column { kind: ValueKind::I8, data: vec![0x80, 0x7f, 0x00] },
        Column { kind: ValueKind::F32, data: f32_bytes(&float_col) },
    ];
    let fb = build_block(names, cols).unwrap();
    let text: Vec<Vec<Vec<u8>>> = vec![
        Vec::new(),
        float_col.iter().map(|v| format!("{}", v).into_bytes()).collect(),
    ];
    let file = encode_pcd(&fb, DataFormat::Ascii, &vp(), &text).unwrap();
    let mut read = read_from_buffer(&file, 1).unwrap();
    assert_eq!(read.block.get_column_by_index(0).unwrap().bytes(), &vec![0x80, 0x7f, 0x00]);
    let parsed: Vec<f32> = read.float_tokens[1]
        .iter()
        .map(|t| std::str::from_utf8(t).unwrap().parse::<f32>().unwrap())
        .collect();
    assert_eq!(parsed, float_col);
    read.block.set_column(1, f32_bytes(&parsed)).unwrap();
    assert_eq!(read.block.get_column_by_index(1).unwrap().bytes(), fb.get_column_by_index(1).unwrap().bytes());

    let out = encode_ascii(&b, &Vec::new()).unwrap();
    assert_eq!(
        String::from_utf8(out.clone()).unwrap(),
        "1 -2 7 -1\n2 300 4294967295 2147483647\n255 -32768 0 -2147483648\n"
    );
    b.set_column(0, vec![9, 9, 9]).unwrap();
    assert_eq!(b.get_column_by_index(0).unwrap().bytes(), &vec![9u8, 9, 9]);
}

#[test]
fn worker_count_does_not_change_binary_output() {
    let b = mixed_block();
    let payload = encode_binary(&b);
    let text = b"VERSION 0.7\nFIELDS a b c d\nSIZE 1 2 4 4\nTYPE U I U I\nCOUNT 1 1 1 1\nWIDTH 3\nHEIGHT 1\nVIEWPOINT 0 0 0 1 0 0 0\nPOINTS 3\nDATA binary\n";
    let (h, _) = parse_header(text).unwrap();
    let layout = derive_layout(&h).unwrap();
    let one = decode_binary_par(&payload, &layout, 3, 1).unwrap();
    for workers in [0usize, 2, 3, 8] {
        let many = decode_binary_par(&payload, &layout, 3, workers).unwrap();
        for j in 0..4 {
            assert_eq!(many.get_column_by_index(j).unwrap().bytes(), one.get_column_by_index(j).unwrap().bytes());
        }
    }
}

#[test]
fn chunk_bounds_cover_rows() {
    assert_eq!(chunk_bounds(10, 3), vec![0, 4, 8, 10]);
    assert_eq!(chunk_bounds(0, 4), vec![0]);
    assert_eq!(chunk_bounds(3, 8), vec![0, 1, 2, 3]);
    assert_eq!(chunk_bounds(5, 0), vec![0, 5]);
}

#[test]
fn header_errors() {
    let bad_order = b"VERSION 0.7\nSIZE 4\n";
    assert!(matches!(parse_header(bad_order), Err(PcdError::Header(2))));
    let bad_type = b"VERSION 0.7\nFIELDS x\nSIZE 4\nTYPE Q\n";
    assert!(matches!(parse_header(bad_type), Err(PcdError::Header(4))));
    let bad_arity = b"VERSION 0.7\nFIELDS x y\nSIZE 4\n";
    assert!(matches!(parse_header(bad_arity), Err(PcdError::Header(3))));
    let bad_data = b"VERSION 0.7\nFIELDS x\nSIZE 4\nTYPE F\nCOUNT 1\nWIDTH 1\nHEIGHT 1\nVIEWPOINT 0 0 0 1 0 0 0\nPOINTS 1\nDATA gzip\n";
    assert!(matches!(parse_header(bad_data), Err(PcdError::Header(10))));
    assert!(matches!(parse_header(b""), Err(PcdError::Header(_))));
}

#[test]
fn layout_error_on_unsupported_size() {
    let text = b"VERSION 0.7\nFIELDS x y\nSIZE 4 3\nTYPE F U\nCOUNT 1 1\nWIDTH 1\nHEIGHT 1\nVIEWPOINT 0 0 0 1 0 0 0\nPOINTS 1\nDATA binary\n";
    let (h, _) = parse_header(text).unwrap();
    assert!(matches!(derive_layout(&h), Err(PcdError::Layout(1))));
}

#[test]
fn ascii_decode_errors() {
    let mut file = xyz_header("ascii");
    file.extend_from_slice(b"1 2 3\n4 5\n");
    assert!(matches!(read_from_buffer(&file, 1), Err(PcdError::Decode(1, 2))));
    let mut short = xyz_header("ascii");
    short.extend_from_slice(b"1 2 3\n");
    assert!(matches!(read_from_buffer(&short, 1), Err(PcdError::Decode(1, 0))));
    let text = b"VERSION 0.7\nFIELDS a\nSIZE 1\nTYPE U\nCOUNT 1\nWIDTH 1\nHEIGHT 1\nVIEWPOINT 0 0 0 1 0 0 0\nPOINTS 1\nDATA ascii\n256\n";
    assert!(matches!(read_from_buffer(text, 1), Err(PcdError::Decode(0, 0))));
}

#[test]
fn header_written_then_parsed() {
    let b = mixed_block();
    let file = encode_pcd(&b, DataFormat::Binary, &vp(), &Vec::new()).unwrap();
    let (h, start) = parse_header(&file).unwrap();
    assert_eq!(h.fields, vec![b"a".to_vec(), b"b".to_vec(), b"c".to_vec(), b"d".to_vec()]);
    assert_eq!(h.sizes, vec![1, 2, 4, 4]);
    assert_eq!(h.types, b"UIUI".to_vec());
    assert_eq!(h.counts, vec![1, 1, 1, 1]);
    assert_eq!(h.points, 3);
    assert_eq!(h.width, 3);
    assert_eq!(h.height, 1);
    assert_eq!(h.data, DataFormat::Binary);
    assert_eq!(file.len() - start, 3 * 11);
    let text = write_header(&h);
    assert_eq!(&file[..start], &text[..]);
    assert!(String::from_utf8(text).unwrap().starts_with("VERSION 0.7\nFIELDS a b c d\nSIZE 1 2 4 4\nTYPE U I U I\n"));
}

#[test]
fn ascii_requires_text_for_float_columns() {
    let names = vec![b"f".to_vec()];
    let cols = vec![Column { kind: ValueKind::F64, data: vec![0u8; 16] }];
    let b = build_block(names, cols).unwrap();
    assert!(matches!(encode_ascii(&b, &Vec::new()), Err(PcdError::LengthMismatch(0, 2, 0))));
}

#[test]
fn integer_parsing_and_formatting() {
    assert_eq!(parse_integer(b"-128", 128, 127), Some(-128));
    assert_eq!(parse_integer(b"+12", 0, 255), Some(12));
    assert_eq!(parse_integer(b"-1", 0, 255), None);
    assert_eq!(parse_integer(b"1x", 0, 255), None);
    assert_eq!(parse_integer(b"", 0, 255), None);
    let mut out = Vec::new();
    push_decimal(9051, &mut out);
    assert_eq!(out, b"9051".to_vec());
    let mut cell = Vec::new();
    assert!(parse_cell(b"-2", ValueKind::I16, &mut cell));
    assert_eq!(cell, vec![0xfe, 0xff]);
    assert!(!parse_cell(b"70000", ValueKind::U16, &mut cell));
}

#[test]
fn new_block_is_zero_filled() {
    let schema = vec![(b"a".to_vec(), ValueKind::U16), (b"b".to_vec(), ValueKind::F64)];
    let b = PointBlock::new(&schema, 3);
    assert_eq!(b.len(), 3);
    assert_eq!(b.get_column(b"a").unwrap().bytes(), &vec![0u8; 6]);
    assert_eq!(b.get_column_by_index(1).unwrap().bytes(), &vec![0u8; 24]);
    assert!(b.get_column_by_index(2).is_none());
    let (h, _) = parse_header(&xyz_header("binary_compressed")).unwrap();
    let layout = derive_layout(&h).unwrap();
    let scratch: Vec<u8> = (0..24u8).collect();
    let split = split_column_major(&scratch, &layout, 2);
    assert_eq!(split.get_column(b"y").unwrap().bytes(), &(8..16u8).collect::<Vec<u8>>());
}

#[test]
fn ascii_tolerates_tabs_runs_of_spaces_and_crlf() {
    let text = b"VERSION 0.7\r\n\r\n# comment\nFIELDS a b\nSIZE 2 1\nTYPE I U\nCOUNT 1 1\nWIDTH 2\nHEIGHT 1\nVIEWPOINT 0 0 0 1 0 0 0\nPOINTS 2\nDATA ascii\n\t-7   200\r\n  +3\t0\n";
    let read = read_from_buffer(text, 1).unwrap();
    assert_eq!(read.block.get_column(b"a").unwrap().bytes(), &vec![0xf9, 0xff, 0x03, 0x00]);
    assert_eq!(read.block.get_column(b"b").unwrap().bytes(), &vec![200u8, 0]);
    assert_eq!(read.float_tokens[0], vec![b"-7".to_vec(), b"+3".to_vec()]);
}

#[test]
fn duplicate_physical_names_are_a_layout_error() {
    let text = b"VERSION 0.7\nFIELDS n n_1\nSIZE 4 4\nTYPE F F\nCOUNT 2 1\nWIDTH 1\nHEIGHT 1\nVIEWPOINT 0 0 0 1 0 0 0\nPOINTS 1\nDATA binary\n";
    let (h, _) = parse_header(text).unwrap();
    assert!(matches!(derive_layout(&h), Err(PcdError::Layout(_))));
}

#[test]
fn viewpoint_values_must_be_numbers() {
    let text = b"VERSION 0.7\nFIELDS x\nSIZE 4\nTYPE F\nCOUNT 1\nWIDTH 1\nHEIGHT 1\nVIEWPOINT 0 0 zero 1 0 0 0\nPOINTS 1\nDATA binary\n";
    assert!(matches!(parse_header(text), Err(PcdError::Header(8))));
    let ok = b"VERSION 0.7\nFIELDS x\nSIZE 4\nTYPE F\nCOUNT 1\nWIDTH 1\nHEIGHT 1\nVIEWPOINT -1.5e3 0 0 1 0 0 0\nPOINTS 1\nDATA binary\n";
    assert!(parse_header(ok).is_ok());
}

#[test]
fn oversized_compressed_block_is_rejected() {
    let text = b"VERSION 0.7\nFIELDS v\nSIZE 1\nTYPE U\nCOUNT 1\nWIDTH 1\nHEIGHT 1\nVIEWPOINT 0 0 0 1 0 0 0\nPOINTS 3000000000\nDATA binary_compressed\n";
    let (h, _) = parse_header(text).unwrap();
    let layout = derive_layout(&h).unwrap();
    let mut payload = Vec::new();
    payload.extend_from_slice(&2u32.to_le_bytes());
    payload.extend_from_slice(&3000000000u32.to_le_bytes());
    payload.extend_from_slice(&[0x00, 0x07]);
    assert!(matches!(decode_compressed(&payload, &layout, 3000000000), Err(PcdError::Decompression(3000000000, 0))));
}

#[test]
fn length_and_type_errors_name_the_column() {
    let names = vec![b"a".to_vec(), b"b".to_vec(), b"c".to_vec()];
    let cols = vec![
        Column { kind: ValueKind::U16, data: vec![0; 4] },
        Column { kind: ValueKind::U8, data: vec![0; 2] },
        Column { kind: ValueKind::U32, data: vec![0; 5] },
    ];
    assert!(matches!(build_block(names, cols), Err(PcdError::TypeMismatch(2))));
}

#[test]
fn row_ranges_join_into_the_whole_decode() {
    let b = mixed_block();
    let payload = encode_binary(&b);
    let text = b"VERSION 0.7\nFIELDS a b c d\nSIZE 1 2 4 4\nTYPE U I U I\nCOUNT 1 1 1 1\nWIDTH 3\nHEIGHT 1\nVIEWPOINT 0 0 0 1 0 0 0\nPOINTS 3\nDATA binary\n";
    let (h, _) = parse_header(text).unwrap();
    let layout = derive_layout(&h).unwrap();
    let bounds = chunk_bounds(3, 2);
    let parts: Vec<PointBlock> = bounds
        .windows(2)
        .map(|w| decode_binary(&payload[w[0] * 11..w[1] * 11], &layout, w[1] - w[0]).unwrap())
        .collect();
    let joined = join_row_ranges(&payload, &layout, 3, &bounds, &parts);
    for j in 0..4 {
        assert_eq!(joined.get_column_by_index(j).unwrap().bytes(), b.get_column_by_index(j).unwrap().bytes());
    }
    assert_eq!(joined.len(), 3);
}
