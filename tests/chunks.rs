use qoi_decoder::chunks::{
    parse_all_chunks, parse_chunks, parse_stream_chunks, parse_diff, parse_index, parse_luma, parse_rgb, parse_rgba,
    parse_run, DiffChunk, IndexChunk, LumaChunk, RGBAChunk, RGBChunk, RunChunk, CHUNK,
};
use qoi_decoder::error::DecodeError;

#[test]
fn test_rgb() {
    let bytes = [0xFE, 0x11, 0x05, 0x13];
    let chunk = CHUNK::RGBChunk(RGBChunk {
        r: 0x11,
        g: 0x05,
        b: 0x13,
    });

    let result = parse_rgb(&bytes).unwrap();
    assert_eq!(result.1, chunk);
}

#[test]
fn test_rgba() {
    let bytes = [0xFF, 0xFF, 0x12, 0x07, 0x10];
    let chunk = CHUNK::RGBAChunk(RGBAChunk {
        r: 0xFF,
        g: 0x12,
        b: 0x07,
        a: 0x10,
    });

    let result = parse_rgba(&bytes).unwrap();
    assert_eq!(result.1, chunk);
}

#[test]
fn test_index() {
    let bytes = [0b00101010];
    let chunk = CHUNK::IndexChunk(IndexChunk { index: 42 });

    let result = parse_index(&bytes).unwrap();
    assert_eq!(result.1, chunk);
}

#[test]
fn test_diff() {
    let bytes = [0b01110100];
    let chunk = CHUNK::DiffChunk(DiffChunk {
        dr: 3,
        dg: 1,
        db: 0,
    });

    let result = parse_diff(&bytes).unwrap();
    assert_eq!(result.1, chunk);
}

#[test]
fn test_luma() {
    let bytes = [0b10011010, 0b10010110];
    let chunk = CHUNK::LumaChunk(LumaChunk {
        dg: 0b011010,
        dr_dg: 0b1001,
        db_dg: 0b0110,
    });

    let result = parse_luma(&bytes).unwrap();
    assert_eq!(result.1, chunk);
}

#[test]
fn test_run() {
    let bytes = [0b11011010];
    let chunk = CHUNK::RunChunk(RunChunk { run: 0b011010 });

    let result = parse_run(&bytes).unwrap();
    assert_eq!(result.1, chunk);
}

#[test]
fn parsers_return_the_bytes_after_the_chunk() {
    let bytes = [0xFE, 1, 2, 3, 0x42, 0x43];
    let (rest, _) = parse_rgb(&bytes).unwrap();
    assert_eq!(rest, &[0x42, 0x43][..]);
    let bytes = [0b10011010, 0b10010110, 0x07];
    let (rest, _) = parse_luma(&bytes).unwrap();
    assert_eq!(rest, &[0x07][..]);
}

#[test]
fn parsers_refuse_other_tags() {
    assert_eq!(parse_rgb(&[0xFF, 1, 2, 3]), Err(DecodeError::UnknownChunkTag));
    assert_eq!(parse_rgba(&[0xFE, 1, 2, 3, 4]), Err(DecodeError::UnknownChunkTag));
    assert_eq!(parse_index(&[0b01000000]), Err(DecodeError::UnknownChunkTag));
    assert_eq!(parse_diff(&[0b10000000, 0]), Err(DecodeError::UnknownChunkTag));
    assert_eq!(parse_luma(&[0b11000000, 0]), Err(DecodeError::UnknownChunkTag));
    assert_eq!(parse_run(&[0b00000000]), Err(DecodeError::UnknownChunkTag));
}

#[test]
fn parsers_report_empty_input_as_truncated() {
    let empty: [u8; 0] = [];
    assert_eq!(parse_rgb(&empty), Err(DecodeError::Truncated));
    assert_eq!(parse_index(&empty), Err(DecodeError::Truncated));
    assert_eq!(parse_chunks(&empty), Err(DecodeError::Truncated));
}

#[test]
fn full_byte_tags_take_priority_over_runs() {
    let (rest, chunk) = parse_chunks(&[0xFE, 0x11, 0x05, 0x13]).unwrap();
    assert!(rest.is_empty());
    assert_eq!(chunk, CHUNK::RGBChunk(RGBChunk { r: 0x11, g: 0x05, b: 0x13 }));
    let (_, chunk) = parse_chunks(&[0xFF, 0xFF, 0x12, 0x07, 0x10]).unwrap();
    assert_eq!(chunk, CHUNK::RGBAChunk(RGBAChunk { r: 0xFF, g: 0x12, b: 0x07, a: 0x10 }));
    let (_, chunk) = parse_chunks(&[0b11111101]).unwrap();
    assert_eq!(chunk, CHUNK::RunChunk(RunChunk { run: 61 }));
}

#[test]
fn parse_chunks_dispatches_on_two_bit_tags() {
    let (_, chunk) = parse_chunks(&[0b00101010]).unwrap();
    assert_eq!(chunk, CHUNK::IndexChunk(IndexChunk { index: 42 }));
    let (_, chunk) = parse_chunks(&[0b01110100]).unwrap();
    assert_eq!(chunk, CHUNK::DiffChunk(DiffChunk { dr: 3, dg: 1, db: 0 }));
    let (_, chunk) = parse_chunks(&[0b10011010, 0b10010110]).unwrap();
    assert_eq!(chunk, CHUNK::LumaChunk(LumaChunk { dg: 0b011010, dr_dg: 0b1001, db_dg: 0b0110 }));
    let (_, chunk) = parse_chunks(&[0b11011010]).unwrap();
    assert_eq!(chunk, CHUNK::RunChunk(RunChunk { run: 0b011010 }));
}

#[test]
fn truncated_chunks_are_reported() {
    assert_eq!(parse_chunks(&[0xFE]), Err(DecodeError::Truncated));
    assert_eq!(parse_chunks(&[0xFE, 1]), Err(DecodeError::Truncated));
    assert_eq!(parse_chunks(&[0xFE, 1, 2]), Err(DecodeError::Truncated));
    assert_eq!(parse_chunks(&[0xFF, 1, 2, 3]), Err(DecodeError::Truncated));
    assert_eq!(parse_chunks(&[0b10000000]), Err(DecodeError::Truncated));
    assert_eq!(parse_luma(&[0b10000000]), Err(DecodeError::Truncated));
    assert_eq!(parse_rgba(&[0xFF, 1]), Err(DecodeError::Truncated));
}

#[test]
fn stream_cut_inside_a_chunk_is_truncated() {
    let full = [0b00000001, 0xFF, 1, 2, 3, 4, 0b10100000, 0x88];
    let cs = parse_all_chunks(&full).unwrap();
    assert_eq!(cs.len(), 3);
    for cut in [2usize, 3, 4, 5, 7] {
        assert_eq!(parse_all_chunks(&full[..cut]), Err(DecodeError::Truncated));
    }
    assert_eq!(parse_all_chunks(&full[..1]).unwrap().len(), 1);
    assert_eq!(parse_all_chunks(&full[..6]).unwrap().len(), 2);
}

#[test]
fn parse_all_chunks_keeps_order() {
    let bytes = [0b11000000, 0xFE, 9, 8, 7, 0b01101010, 0b00000101];
    let cs = parse_all_chunks(&bytes).unwrap();
    assert_eq!(
        cs,
        vec![
            CHUNK::RunChunk(RunChunk { run: 0 }),
            CHUNK::RGBChunk(RGBChunk { r: 9, g: 8, b: 7 }),
            CHUNK::DiffChunk(DiffChunk { dr: 2, dg: 2, db: 2 }),
            CHUNK::IndexChunk(IndexChunk { index: 5 }),
        ]
    );
    let empty: [u8; 0] = [];
    assert_eq!(parse_all_chunks(&empty), Ok(vec![]));
}

#[test]
fn end_marker_counts_only_at_a_chunk_boundary() {
    let marker = [0, 0, 0, 0, 0, 0, 0, 1];
    assert_eq!(parse_stream_chunks(&marker), Ok(vec![]));
    let mut bytes = vec![0b11000011];
    bytes.extend_from_slice(&marker);
    assert_eq!(parse_stream_chunks(&bytes), Ok(vec![CHUNK::RunChunk(RunChunk { run: 3 })]));
    let inside = [0xFE, 0, 0, 0, 0, 0, 0, 0, 1];
    let cs = parse_stream_chunks(&inside).unwrap();
    assert_eq!(cs.len(), 6);
    assert_eq!(cs[0], CHUNK::RGBChunk(RGBChunk { r: 0, g: 0, b: 0 }));
    assert_eq!(cs[5], CHUNK::IndexChunk(IndexChunk { index: 1 }));
    assert_eq!(parse_stream_chunks(&[0xFE, 0, 0, 0, 1]).unwrap().len(), 2);
    assert_eq!(parse_stream_chunks(&[0xFF, 0, 0, 0]), Err(DecodeError::Truncated));
}
