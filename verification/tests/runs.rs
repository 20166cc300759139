//! Runs: the two chunk sizes, the longest run, and the end of the image.

use qoi::{decode, encode, Image};

fn image(pixels: Vec<u8>, width: u16, height: u16) -> Image {
    Image { pixels: pixels.into_boxed_slice(), width, height }
}

fn repeat(pixel: [u8; 4], count: usize) -> Vec<u8> {
    let mut out = Vec::with_capacity(4 * count);
    for _ in 0..count {
        out.extend_from_slice(&pixel);
    }
    out
}

fn chunks(stream: &[u8]) -> Vec<u8> {
    stream[12..stream.len() - 4].to_vec()
}

#[test]
fn run_of_32_fits_a_short_run() {
    let out = encode(image(repeat([0, 0, 0, 255], 32), 32, 1), 4).unwrap();
    assert_eq!(chunks(&out), vec![0x5f]);
}

#[test]
fn run_of_33_needs_a_long_run() {
    let out = encode(image(repeat([0, 0, 0, 255], 33), 33, 1), 4).unwrap();
    assert_eq!(chunks(&out), vec![0x60, 0x00]);
}

#[test]
fn run_boundary_behind_a_first_pixel() {
    let out = encode(image(repeat([7, 7, 7, 7], 33), 33, 1), 4).unwrap();
    assert_eq!(chunks(&out), vec![0xff, 7, 7, 7, 7, 0x5f]);
    let out = encode(image(repeat([7, 7, 7, 7], 34), 34, 1), 4).unwrap();
    assert_eq!(chunks(&out), vec![0xff, 7, 7, 7, 7, 0x60, 0x00]);
}

#[test]
fn longest_run_is_8224() {
    let out = encode(image(repeat([0, 0, 0, 255], 8224), 8224, 1), 4).unwrap();
    assert_eq!(chunks(&out), vec![0x7f, 0xff]);
    assert_eq!(out[4..12].to_vec(), vec![0x20, 0x20, 0x00, 0x01, 0, 0, 0, 6]);
}

#[test]
fn run_is_cut_at_8224() {
    let out = encode(image(repeat([0, 0, 0, 255], 8225), 8225, 1), 4).unwrap();
    assert_eq!(chunks(&out), vec![0x7f, 0xff, 0x40]);
    let out = encode(image(repeat([0, 0, 0, 255], 8300), 100, 83), 4).unwrap();
    assert_eq!(chunks(&out), vec![0x7f, 0xff, 0x60, 0x2b]);
    let out = encode(image(repeat([0, 0, 0, 255], 16449), 16449, 1), 4).unwrap();
    assert_eq!(chunks(&out), vec![0x7f, 0xff, 0x7f, 0xff, 0x40]);
}

#[test]
fn run_is_cut_at_8224_behind_a_first_pixel() {
    let pixels = repeat([5, 6, 7, 255], 8226);
    let out = encode(image(pixels.clone(), 8226, 1), 4).unwrap();
    assert_eq!(chunks(&out), vec![0xd4, 0xde, 0x7f, 0xff, 0x40]);
    assert_eq!(decode(&out, 4).unwrap().pixels.to_vec(), pixels);
}

#[test]
fn run_ends_with_the_image() {
    let mut pixels = repeat([1, 2, 3, 255], 1);
    pixels.extend(repeat([9, 9, 9, 255], 5));
    let out = encode(image(pixels, 6, 1), 4).unwrap();
    // diff16 (+1, +2, +3), diff16 (+8, +7, +6), then the four repeats
    assert_eq!(chunks(&out), vec![0xd0, 0x9a, 0xd7, 0xed, 0x43]);
}

#[test]
fn run_that_a_pixel_ends_comes_before_the_pixel() {
    let mut pixels = repeat([0, 0, 0, 255], 3);
    pixels.extend_from_slice(&[1, 1, 1, 255]);
    let out = encode(image(pixels, 2, 2), 4).unwrap();
    assert_eq!(chunks(&out), vec![0x42, 0xaa]);
}

#[test]
fn decoder_repeats_a_short_run() {
    let mut data = b"qoif".to_vec();
    data.extend_from_slice(&[0, 5, 0, 1, 0, 0, 0, 9]);
    data.extend_from_slice(&[0xfe, 1, 2, 3, 0x43, 0, 0, 0, 0]);
    let img = decode(&data, 3).unwrap();
    assert_eq!(img.pixels.to_vec(), vec![1, 2, 3, 1, 2, 3, 1, 2, 3, 1, 2, 3, 1, 2, 3]);
}

#[test]
fn decoder_repeats_the_longest_run() {
    let mut data = b"qoif".to_vec();
    data.extend_from_slice(&[0x20, 0x21, 0, 1, 0, 0, 0, 6]);
    data.extend_from_slice(&[0x7f, 0xff, 0, 0, 0, 0]);
    // 8224 times the start pixel from the run, then the blank pixel from
    // slot 0 of the table, which the first byte of the padding names.
    let img = decode(&data, 4).unwrap();
    assert_eq!(img.width, 8225);
    assert_eq!(img.height, 1);
    assert_eq!(img.pixels.len(), 4 * 8225);
    assert_eq!(img.pixels[..4 * 8224].to_vec(), repeat([0, 0, 0, 255], 8224));
    assert_eq!(img.pixels[4 * 8224..].to_vec(), vec![0, 0, 0, 0]);
}

#[test]
fn decoder_repeats_a_long_run_of_33() {
    let mut data = b"qoif".to_vec();
    data.extend_from_slice(&[0, 33, 0, 1, 0, 0, 0, 6]);
    data.extend_from_slice(&[0x60, 0x00, 0, 0, 0, 0]);
    let img = decode(&data, 4).unwrap();
    assert_eq!(img.pixels.to_vec(), repeat([0, 0, 0, 255], 33));
}
