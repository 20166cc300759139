//! Bundled pairs of pixels and streams that the codec has to match byte
//! for byte, in both directions.

use qoi::{decode, encode, Image};

const GRADIENT_PIXELS: [u8; 128] = [
    0, 0, 0, 255, 8, 0, 0, 255, 16, 0, 0, 255, 24, 0, 0, 255,
    32, 0, 0, 255, 40, 0, 0, 255, 48, 0, 0, 255, 56, 0, 0, 255,
    0, 16, 0, 255, 8, 16, 1, 255, 16, 16, 2, 255, 24, 16, 3, 255,
    32, 16, 4, 255, 40, 16, 5, 255, 48, 16, 6, 255, 56, 16, 7, 255,
    0, 32, 0, 255, 8, 32, 2, 255, 16, 32, 4, 255, 24, 32, 6, 255,
    32, 32, 8, 255, 40, 32, 10, 255, 48, 32, 12, 255, 56, 32, 14, 255,
    0, 48, 0, 255, 8, 48, 3, 255, 16, 48, 6, 255, 24, 48, 9, 255,
    32, 48, 12, 255, 40, 48, 15, 255, 48, 48, 18, 255, 56, 48, 21, 255,
];

const GRADIENT_STREAM: [u8; 84] = [
    113, 111, 105, 102, 0, 8, 0, 4, 0, 0, 0, 72, 64, 215, 119, 215,
    119, 215, 119, 215, 119, 215, 119, 215, 119, 215, 119, 252, 0, 16, 215, 120,
    215, 120, 215, 120, 215, 120, 215, 120, 215, 120, 215, 120, 254, 0, 32, 0,
    215, 121, 215, 121, 215, 121, 215, 121, 215, 121, 215, 121, 215, 121, 254, 0,
    48, 0, 215, 122, 215, 122, 215, 122, 215, 122, 215, 122, 215, 122, 215, 122,
    0, 0, 0, 0,
];

const STRIPES_PIXELS: [u8; 144] = [
    200, 30, 30, 255, 200, 30, 30, 255, 30, 30, 200, 255, 30, 30, 200, 255,
    200, 30, 30, 255, 200, 30, 30, 255, 30, 30, 200, 255, 30, 30, 200, 255,
    200, 30, 30, 255, 200, 30, 30, 255, 30, 30, 200, 255, 30, 30, 200, 255,
    200, 30, 30, 255, 200, 30, 30, 255, 30, 30, 200, 255, 30, 30, 200, 255,
    200, 30, 30, 255, 200, 30, 30, 255, 30, 30, 200, 255, 30, 30, 200, 255,
    200, 30, 30, 255, 200, 30, 30, 255, 30, 30, 200, 255, 30, 30, 200, 255,
    200, 30, 30, 255, 200, 30, 30, 255, 30, 30, 200, 255, 30, 30, 200, 255,
    200, 30, 30, 255, 200, 30, 30, 255, 30, 30, 200, 255, 30, 30, 200, 255,
    200, 30, 30, 255, 200, 30, 30, 255, 30, 30, 200, 255, 30, 30, 200, 255,
];

const STRIPES_STREAM: [u8; 89] = [
    113, 111, 105, 102, 0, 6, 0, 6, 0, 0, 0, 77, 254, 200, 30, 30,
    64, 250, 30, 200, 64, 250, 200, 30, 64, 250, 30, 200, 64, 250, 200, 30,
    64, 250, 30, 200, 64, 250, 200, 30, 64, 250, 30, 200, 64, 250, 200, 30,
    64, 250, 30, 200, 64, 250, 200, 30, 64, 250, 30, 200, 64, 250, 200, 30,
    64, 250, 30, 200, 64, 250, 200, 30, 64, 250, 30, 200, 64, 250, 200, 30,
    64, 250, 30, 200, 64, 0, 0, 0, 0,
];

const FADE_PIXELS: [u8; 100] = [
    90, 90, 90, 0, 90, 90, 90, 10, 90, 90, 90, 20, 90, 90, 90, 30,
    90, 90, 90, 40, 90, 90, 90, 50, 90, 90, 90, 60, 90, 90, 90, 70,
    90, 90, 90, 80, 90, 90, 90, 90, 90, 90, 90, 100, 90, 90, 90, 110,
    90, 90, 90, 120, 90, 90, 90, 130, 90, 90, 90, 140, 90, 90, 90, 150,
    90, 90, 90, 160, 90, 90, 90, 170, 90, 90, 90, 180, 90, 90, 90, 190,
    90, 90, 90, 200, 90, 90, 90, 210, 90, 90, 90, 220, 90, 90, 90, 230,
    90, 90, 90, 240,
];

const FADE_STREAM: [u8; 93] = [
    113, 111, 105, 102, 0, 5, 0, 5, 0, 0, 0, 81, 255, 90, 90, 90,
    0, 231, 189, 249, 231, 189, 249, 231, 189, 249, 231, 189, 249, 231, 189, 249,
    231, 189, 249, 231, 189, 249, 231, 189, 249, 231, 189, 249, 231, 189, 249, 231,
    189, 249, 231, 189, 249, 231, 189, 249, 231, 189, 249, 231, 189, 249, 231, 189,
    249, 231, 189, 249, 231, 189, 249, 231, 189, 249, 231, 189, 249, 231, 189, 249,
    231, 189, 249, 231, 189, 249, 231, 189, 249, 0, 0, 0, 0,
];

const FLAT_PIXELS: [u8; 252] = [
    0, 0, 0, 255, 0, 0, 0, 255, 0, 0, 0, 255, 0, 0, 0, 255,
    0, 0, 0, 255, 0, 0, 0, 255, 0, 0, 0, 255, 0, 0, 0, 255,
    0, 0, 0, 255, 0, 0, 0, 255, 0, 0, 0, 255, 0, 0, 0, 255,
    0, 0, 0, 255, 0, 0, 0, 255, 0, 0, 0, 255, 0, 0, 0, 255,
    0, 0, 0, 255, 0, 0, 0, 255, 0, 0, 0, 255, 0, 0, 0, 255,
    0, 0, 0, 255, 0, 0, 0, 255, 0, 0, 0, 255, 0, 0, 0, 255,
    0, 0, 0, 255, 0, 0, 0, 255, 0, 0, 0, 255, 0, 0, 0, 255,
    0, 0, 0, 255, 0, 0, 0, 255, 0, 0, 0, 255, 0, 0, 0, 255,
    0, 0, 0, 255, 0, 0, 0, 255, 0, 0, 0, 255, 0, 0, 0, 255,
    0, 0, 0, 255, 0, 0, 0, 255, 0, 0, 0, 255, 0, 0, 0, 255,
    0, 0, 0, 255, 0, 0, 0, 255, 0, 0, 0, 255, 0, 0, 0, 255,
    0, 0, 0, 255, 0, 0, 0, 255, 0, 0, 0, 255, 0, 0, 0, 255,
    0, 0, 0, 255, 0, 0, 0, 255, 0, 0, 0, 255, 0, 0, 0, 255,
    0, 0, 0, 255, 0, 0, 0, 255, 0, 0, 0, 255, 0, 0, 0, 255,
    0, 0, 0, 255, 0, 0, 0, 255, 0, 0, 0, 255, 0, 0, 0, 255,
    0, 0, 0, 255, 0, 0, 0, 255, 0, 0, 0, 255,
];

const FLAT_STREAM: [u8; 18] = [
    113, 111, 105, 102, 0, 9, 0, 7, 0, 0, 0, 6, 96, 30, 0, 0,
    0, 0,
];

const NOISE_PIXELS: [u8; 84] = [
    165, 77, 202, 24, 37, 48, 187, 29, 109, 19, 44, 222, 214, 35, 123, 46,
    217, 30, 63, 114, 31, 203, 25, 113, 23, 68, 148, 214, 73, 60, 157, 92,
    52, 96, 190, 49, 32, 30, 105, 254, 218, 160, 238, 232, 185, 153, 127, 92,
    124, 41, 153, 253, 175, 229, 147, 37, 60, 214, 84, 175, 77, 250, 215, 20,
    39, 160, 174, 179, 254, 233, 35, 47, 138, 242, 33, 31, 158, 228, 145, 197,
    177, 11, 236, 181,
];

const NOISE_STREAM: [u8; 121] = [
    113, 111, 105, 102, 0, 7, 0, 3, 0, 0, 0, 109, 255, 165, 77, 202,
    24, 255, 37, 48, 187, 29, 255, 109, 19, 44, 222, 255, 214, 35, 123, 46,
    255, 217, 30, 63, 114, 255, 31, 203, 25, 113, 255, 23, 68, 148, 214, 255,
    73, 60, 157, 92, 255, 52, 96, 190, 49, 255, 32, 30, 105, 254, 255, 218,
    160, 238, 232, 255, 185, 153, 127, 92, 255, 124, 41, 153, 253, 255, 175, 229,
    147, 37, 255, 60, 214, 84, 175, 255, 77, 250, 215, 20, 255, 39, 160, 174,
    179, 255, 254, 233, 35, 47, 255, 138, 242, 33, 31, 255, 158, 228, 145, 197,
    255, 177, 11, 236, 181, 0, 0, 0, 0,
];

const SHADES_PIXELS: [u8; 80] = [
    100, 100, 100, 255, 101, 100, 99, 255, 103, 100, 98, 255, 98, 100, 97, 255,
    109, 100, 96, 255, 86, 100, 95, 252, 116, 100, 94, 252, 83, 100, 93, 252,
    140, 100, 92, 252, 100, 100, 91, 252, 100, 100, 100, 255, 102, 100, 99, 255,
    106, 100, 98, 255, 96, 100, 97, 255, 118, 100, 96, 255, 72, 100, 95, 252,
    132, 100, 94, 252, 66, 100, 93, 252, 180, 100, 92, 252, 100, 100, 91, 252,
];

const SHADES_STREAM: [u8; 65] = [
    113, 111, 105, 102, 0, 10, 0, 2, 0, 0, 0, 53, 254, 100, 100, 100,
    164, 180, 202, 118, 218, 118, 251, 86, 95, 252, 250, 116, 94, 250, 83, 93,
    250, 140, 92, 250, 100, 91, 27, 180, 211, 118, 197, 118, 250, 118, 96, 251,
    72, 95, 252, 250, 132, 94, 250, 66, 93, 250, 180, 92, 39, 0, 0, 0,
    0,
];

fn fixtures() -> Vec<(u16, u16, Vec<u8>, Vec<u8>)> {
    vec![
        (8, 4, GRADIENT_PIXELS.to_vec(), GRADIENT_STREAM.to_vec()),
        (6, 6, STRIPES_PIXELS.to_vec(), STRIPES_STREAM.to_vec()),
        (5, 5, FADE_PIXELS.to_vec(), FADE_STREAM.to_vec()),
        (9, 7, FLAT_PIXELS.to_vec(), FLAT_STREAM.to_vec()),
        (7, 3, NOISE_PIXELS.to_vec(), NOISE_STREAM.to_vec()),
        (10, 2, SHADES_PIXELS.to_vec(), SHADES_STREAM.to_vec()),
    ]
}

#[test]
fn decode_all() {
    for (width, height, pixels, stream) in fixtures() {
        let img = decode(&stream, 4).unwrap();
        assert_eq!(img.width, width);
        assert_eq!(img.height, height);
        assert_eq!(img.pixels.to_vec(), pixels);
    }
}

#[test]
fn encode_all() {
    for (width, height, pixels, stream) in fixtures() {
        let img = Image { width, height, pixels: pixels.into_boxed_slice() };
        let ours = encode(img, 4).unwrap();
        assert_eq!(ours, stream.into_boxed_slice());
    }
}

#[test]
fn roundtrip_all() {
    for (_, _, _, stream) in fixtures() {
        let img = decode(&stream, 4).unwrap();
        let ours = encode(img, 4).unwrap();
        assert_eq!(ours, stream.into_boxed_slice());
    }
}
