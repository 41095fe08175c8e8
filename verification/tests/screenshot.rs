use vector_beam::binary32::Binary32;
use vector_beam::screenshot::{
    interval, padded_bytes_per_row, picture, read_back_size, step_time, steps, strip_padding,
    EncodingFailed,
};

fn b(x: f32) -> Binary32 {
    Binary32 { bits: x.to_bits() }
}

#[test]
fn five_time_constants_are_replayed() {
    let dt = 1.0f32 / 60.0;
    for persistence in [0.1f32, 0.003, 0.25, 1.0, 7.77, 1e-30] {
        let expected = ((persistence * 5.0 / dt).ceil() as u32).max(1);
        assert_eq!(steps(b(persistence)), expected);
    }
    assert_eq!(steps(b(0.1)), 30);
    assert_eq!(steps(b(0.0)), 1);
    assert_eq!(steps(b(-1.0)), 1);
    assert_eq!(steps(b(f32::NAN)), 1);
    assert_eq!(steps(b(f32::INFINITY)), u32::MAX);
    assert_eq!(interval(), b(dt));
}

#[test]
fn the_replay_ends_on_time() {
    let dt = 1.0f32 / 60.0;
    assert_eq!(step_time(b(2.6), 30, 29), b(2.6));
    assert_eq!(step_time(b(-0.0), 1, 0), b(-0.0));
    for i in 0..30u32 {
        assert_eq!(step_time(b(2.6), 30, i), b(2.6 - (29 - i) as f32 * dt));
    }
}

#[test]
fn rows_are_padded_to_256_bytes() {
    assert_eq!(padded_bytes_per_row(0), 0);
    assert_eq!(padded_bytes_per_row(1), 256);
    assert_eq!(padded_bytes_per_row(64), 256);
    assert_eq!(padded_bytes_per_row(65), 512);
    assert_eq!(padded_bytes_per_row(1280), 5120);
    assert_eq!(read_back_size(1280, 960), Some(5120 * 960));
    assert_eq!(read_back_size(65, 0), Some(0));
    assert_eq!(read_back_size(1 << 20, 1 << 10), None);
    assert_eq!(read_back_size(u32::MAX, 0), None);
}

/// Rows of `width` pixels as they are read back, with padding of another value.
fn mapped(width: u32, height: u32) -> Vec<u8> {
    let padded = padded_bytes_per_row(width);
    let mut data = Vec::new();
    for row in 0..height {
        for i in 0..padded {
            data.push(if i < 4 * width { (row * 31 + i * 7) as u8 } else { 0xee });
        }
    }
    data
}

#[test]
fn padding_is_stripped() {
    let data = mapped(65, 3);
    let pixels = strip_padding(&data, 65, 3);
    assert_eq!(pixels.len(), 65 * 4 * 3);
    for row in 0..3 {
        assert_eq!(pixels[row * 260..(row + 1) * 260], data[row * 512..row * 512 + 260]);
    }
    assert!(strip_padding(&data, 0, 3).is_empty());
    assert!(strip_padding(&data, 65, 0).is_empty());
}

#[test]
fn the_file_decodes_to_the_picture() {
    let data = mapped(65, 3);
    let file = picture(&data, 65, 3).unwrap();
    let mut reader = png::Decoder::new(std::io::Cursor::new(file)).read_info().unwrap();
    let mut pixels = vec![0; reader.output_buffer_size().unwrap()];
    let info = reader.next_frame(&mut pixels).unwrap();
    assert_eq!((info.width, info.height), (65, 3));
    assert_eq!(info.color_type, png::ColorType::Rgba);
    assert_eq!(info.bit_depth, png::BitDepth::Eight);
    assert_eq!(pixels, strip_padding(&data, 65, 3));
}

#[test]
fn a_picture_without_pixels_is_refused() {
    assert_eq!(picture(&[], 0, 3), Err(EncodingFailed));
    assert_eq!(picture(&[], 65, 0), Err(EncodingFailed));
}
