use qoi_decoder::chunks::{
    DiffChunk, IndexChunk, LumaChunk, RGBAChunk, RGBChunk, RunChunk, CHUNK,
};
use qoi_decoder::decode::{decode_image, reconstruct};
use qoi_decoder::error::DecodeError;
use qoi_decoder::header::{parse_header, QOIHeader};
use image::Rgba;
use qoi_decoder::pixel::{hash, RgbaPixel};
use qoi_decoder::raster::to_image;

fn px(r: u8, g: u8, b: u8, a: u8) -> RgbaPixel {
    RgbaPixel { r, g, b, a }
}

fn header(width: u32, height: u32) -> QOIHeader {
    QOIHeader { width, height, channels: 4, colorspace: 0 }
}

fn stream(width: u32, height: u32, body: &[u8], marker: bool) -> Vec<u8> {
    let mut v = b"qoif".to_vec();
    v.extend_from_slice(&width.to_be_bytes());
    v.extend_from_slice(&height.to_be_bytes());
    v.push(4);
    v.push(1);
    v.extend_from_slice(body);
    if marker {
        v.extend_from_slice(&[0, 0, 0, 0, 0, 0, 0, 1]);
    }
    v
}

#[test]
fn hash_of_zero_pixel_is_zero() {
    assert_eq!(hash(&px(0, 0, 0, 0)), 0);
}

#[test]
fn hash_exact_values() {
    assert_eq!(hash(&px(1, 2, 3, 4)), 14);
    assert_eq!(hash(&px(0, 0, 0, 255)), 53);
    assert_eq!(hash(&px(255, 255, 255, 255)), 38);
    for v in [0u8, 17, 100, 200, 255] {
        assert!(hash(&px(v, v / 2, v / 3, v)) < 64);
    }
}

#[test]
fn header_fields_are_big_endian() {
    let bytes = stream(0x0102_0304, 7, &[0xAA], false);
    let (rest, h) = parse_header(&bytes).unwrap();
    assert_eq!(h, QOIHeader { width: 0x0102_0304, height: 7, channels: 4, colorspace: 1 });
    assert_eq!(rest, &[0xAA][..]);
}

#[test]
fn header_errors() {
    let bytes = stream(1, 1, &[], false);
    let mut bad = bytes.clone();
    bad[3] = b'x';
    assert_eq!(parse_header(&bad).err(), Some(DecodeError::BadSignature));
    assert_eq!(parse_header(b"png").err(), Some(DecodeError::BadSignature));
    assert_eq!(parse_header(&bytes[..13]).err(), Some(DecodeError::Truncated));
    assert_eq!(parse_header(b"qo").err(), Some(DecodeError::Truncated));
    assert_eq!(parse_header(&bytes[..14]).unwrap().0.len(), 0);
}

#[test]
fn diff_from_previous_pixel() {
    let chunks = [
        CHUNK::RGBAChunk(RGBAChunk { r: 10, g: 10, b: 10, a: 255 }),
        CHUNK::DiffChunk(DiffChunk { dr: 3, dg: 1, db: 0 }),
    ];
    let grid = reconstruct(&header(2, 1), &chunks).unwrap();
    assert_eq!(grid.pixels, vec![px(10, 10, 10, 255), px(11, 9, 8, 255)]);
}

#[test]
fn diff_wraps_around() {
    let chunks = [CHUNK::DiffChunk(DiffChunk { dr: 0, dg: 2, db: 3 })];
    let grid = reconstruct(&header(1, 1), &chunks).unwrap();
    assert_eq!(grid.pixels, vec![px(254, 0, 1, 255)]);
}

#[test]
fn luma_relative_to_green() {
    let chunks = [
        CHUNK::RGBChunk(RGBChunk { r: 100, g: 100, b: 100 }),
        CHUNK::LumaChunk(LumaChunk { dg: 37, dr_dg: 9, db_dg: 6 }),
        CHUNK::LumaChunk(LumaChunk { dg: 0, dr_dg: 0, db_dg: 15 }),
    ];
    let grid = reconstruct(&header(3, 1), &chunks).unwrap();
    assert_eq!(grid.pixels[1], px(106, 105, 103, 255));
    assert_eq!(grid.pixels[2], px(66, 73, 78, 255));
}

#[test]
fn rgb_keeps_alpha_and_index_reads_cache() {
    let chunks = [
        CHUNK::RGBAChunk(RGBAChunk { r: 5, g: 6, b: 7, a: 128 }),
        CHUNK::RGBChunk(RGBChunk { r: 1, g: 2, b: 3 }),
        CHUNK::IndexChunk(IndexChunk { index: hash(&px(5, 6, 7, 128)) }),
        CHUNK::IndexChunk(IndexChunk { index: hash(&px(1, 2, 3, 128)) }),
    ];
    let grid = reconstruct(&header(4, 1), &chunks).unwrap();
    assert_eq!(
        grid.pixels,
        vec![px(5, 6, 7, 128), px(1, 2, 3, 128), px(5, 6, 7, 128), px(1, 2, 3, 128)]
    );
}

#[test]
fn empty_cache_slot_is_transparent_black() {
    let chunks = [CHUNK::IndexChunk(IndexChunk { index: 9 })];
    let grid = reconstruct(&header(1, 1), &chunks).unwrap();
    assert_eq!(grid.pixels, vec![px(0, 0, 0, 0)]);
}

#[test]
fn run_of_one_repeats_initial_pixel() {
    let chunks = [CHUNK::RunChunk(RunChunk { run: 0 })];
    let grid = reconstruct(&header(1, 1), &chunks).unwrap();
    assert_eq!(grid.pixels, vec![px(0, 0, 0, 255)]);
}

#[test]
fn run_of_sixty_two_leaves_cache_alone() {
    let slot = hash(&px(0, 0, 0, 255));
    let chunks = [
        CHUNK::RunChunk(RunChunk { run: 61 }),
        CHUNK::IndexChunk(IndexChunk { index: slot }),
    ];
    let grid = reconstruct(&header(63, 1), &chunks).unwrap();
    assert_eq!(grid.pixels.len(), 63);
    assert!(grid.pixels[..62].iter().all(|p| *p == px(0, 0, 0, 255)));
    assert_eq!(grid.pixels[62], px(0, 0, 0, 0));
    let short = reconstruct(&header(61, 1), &chunks[..1]);
    assert_eq!(short.err(), Some(DecodeError::BufferOverrun));
}

#[test]
fn too_few_pixels_is_incomplete() {
    let chunks = [CHUNK::RGBChunk(RGBChunk { r: 1, g: 1, b: 1 })];
    assert_eq!(reconstruct(&header(2, 2), &chunks).err(), Some(DecodeError::IncompleteImage));
    assert_eq!(reconstruct(&header(1, 1), &[]).err(), Some(DecodeError::IncompleteImage));
}

#[test]
fn too_many_pixels_is_overrun() {
    let chunks = [
        CHUNK::RGBChunk(RGBChunk { r: 1, g: 1, b: 1 }),
        CHUNK::RGBChunk(RGBChunk { r: 2, g: 2, b: 2 }),
    ];
    assert_eq!(reconstruct(&header(1, 1), &chunks).err(), Some(DecodeError::BufferOverrun));
    assert_eq!(reconstruct(&header(0, 5), &chunks).err(), Some(DecodeError::BufferOverrun));
    assert!(reconstruct(&header(0, 5), &[]).unwrap().pixels.is_empty());
}

#[test]
fn decode_whole_stream_row_major() {
    let body = [0xFE, 1, 2, 3, 0xFE, 4, 5, 6, 0b11000010, 0b01111111];
    let bytes = stream(3, 2, &body, true);
    let grid = decode_image(&bytes).unwrap();
    assert_eq!((grid.width, grid.height), (3, 2));
    assert_eq!(grid.get(0, 0), px(1, 2, 3, 255));
    assert_eq!(grid.get(0, 1), px(4, 5, 6, 255));
    assert_eq!(grid.get(0, 2), px(4, 5, 6, 255));
    assert_eq!(grid.get(1, 0), px(4, 5, 6, 255));
    assert_eq!(grid.get(1, 1), px(4, 5, 6, 255));
    assert_eq!(grid.get(1, 2), px(5, 6, 7, 255));
}

#[test]
fn decode_without_end_marker() {
    let bytes = stream(1, 2, &[0xFE, 9, 9, 9, 0b11000000], false);
    let grid = decode_image(&bytes).unwrap();
    assert_eq!(grid.pixels, vec![px(9, 9, 9, 255), px(9, 9, 9, 255)]);
}

#[test]
fn decode_twice_gives_same_grid() {
    let bytes = stream(2, 2, &[0xFF, 1, 2, 3, 4, 0b11000010], true);
    let a = decode_image(&bytes).unwrap();
    let b = decode_image(&bytes).unwrap();
    assert_eq!(a.pixels, b.pixels);
    assert_eq!((a.width, a.height), (b.width, b.height));
}

#[test]
fn decode_reports_each_error() {
    assert_eq!(decode_image(b"qoix").err(), Some(DecodeError::BadSignature));
    assert_eq!(decode_image(b"qoif\0\0").err(), Some(DecodeError::Truncated));
    let cut = stream(1, 1, &[0xFF, 1, 2], false);
    assert_eq!(decode_image(&cut).err(), Some(DecodeError::Truncated));
    let short = stream(2, 1, &[0xFE, 1, 2, 3], true);
    assert_eq!(decode_image(&short).err(), Some(DecodeError::IncompleteImage));
    let long = stream(1, 1, &[0xFE, 1, 2, 3, 0b11000000], true);
    assert_eq!(decode_image(&long).err(), Some(DecodeError::BufferOverrun));
}

#[test]
fn image_buffer_puts_columns_on_x_and_rows_on_y() {
    let body = [0xFE, 1, 2, 3, 0xFE, 4, 5, 6, 0b11000010, 0b01111111];
    let bytes = stream(3, 2, &body, true);
    let grid = decode_image(&bytes).unwrap();
    let img = to_image(&grid).unwrap().buffer;
    assert_eq!(img.dimensions(), (3, 2));
    assert_eq!(*img.get_pixel(0, 0), Rgba([1, 2, 3, 255]));
    assert_eq!(*img.get_pixel(1, 0), Rgba([4, 5, 6, 255]));
    assert_eq!(*img.get_pixel(0, 1), Rgba([4, 5, 6, 255]));
    assert_eq!(*img.get_pixel(2, 1), Rgba([5, 6, 7, 255]));
}

#[test]
fn image_buffer_of_empty_grid() {
    let grid = reconstruct(&header(0, 0), &[]).unwrap();
    let img = to_image(&grid).unwrap().buffer;
    assert_eq!(img.dimensions(), (0, 0));
}

#[test]
fn marker_bytes_inside_a_chunk_are_chunk_data() {
    let body = [0xFE, 0, 0, 0, 0, 0, 0, 0, 1];
    let grid = decode_image(&stream(6, 1, &body, false)).unwrap();
    assert_eq!(
        grid.pixels,
        vec![
            px(0, 0, 0, 255),
            px(0, 0, 0, 0),
            px(0, 0, 0, 0),
            px(0, 0, 0, 0),
            px(0, 0, 0, 0),
            px(0, 0, 0, 0),
        ]
    );
    assert_eq!(decode_image(&stream(10, 1, &body, false)).err(), Some(DecodeError::IncompleteImage));
    assert_eq!(decode_image(&stream(1, 1, &body, false)).err(), Some(DecodeError::BufferOverrun));
}
