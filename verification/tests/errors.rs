//! Inputs that the codec turns down, and inputs at the edge that it takes.

use qoi::header::Header;
use qoi::{decode, encode, Error, Image};

fn image(pixels: &[u8], width: u16, height: u16) -> Image {
    Image { pixels: pixels.to_vec().into_boxed_slice(), width, height }
}

fn stream(width: u16, height: u16, size: u32, body: &[u8]) -> Vec<u8> {
    let mut out = b"qoif".to_vec();
    out.extend_from_slice(&width.to_be_bytes());
    out.extend_from_slice(&height.to_be_bytes());
    out.extend_from_slice(&size.to_be_bytes());
    out.extend_from_slice(body);
    out
}

#[test]
fn encode_rejects_zero_width() {
    assert_eq!(encode(image(&[0, 0, 0, 255], 0, 1), 4).err(), Some(Error::InvalidArgument));
}

#[test]
fn encode_rejects_zero_height() {
    assert_eq!(encode(image(&[0, 0, 0, 255], 1, 0), 4).err(), Some(Error::InvalidArgument));
}

#[test]
fn encode_rejects_other_channel_counts() {
    let pixels = [0u8; 64];
    for channels in [0, 1, 2, 5, 6, 255, u32::MAX] {
        assert_eq!(encode(image(&pixels, 2, 2), channels).err(), Some(Error::InvalidArgument));
    }
    assert!(encode(image(&pixels, 2, 2), 3).is_ok());
    assert!(encode(image(&pixels, 2, 2), 4).is_ok());
}

#[test]
fn encode_rejects_a_short_buffer() {
    assert_eq!(encode(image(&[0; 15], 2, 2), 4).err(), Some(Error::InvalidArgument));
    assert_eq!(encode(image(&[0; 11], 2, 2), 3).err(), Some(Error::InvalidArgument));
    assert_eq!(encode(image(&[], 1, 1), 3).err(), Some(Error::InvalidArgument));
    assert!(encode(image(&[0; 16], 2, 2), 4).is_ok());
    assert!(encode(image(&[0; 12], 2, 2), 3).is_ok());
}

#[test]
fn encode_rejects_a_buffer_far_too_short_for_the_largest_image() {
    assert_eq!(encode(image(&[0; 16], 65535, 65535), 4).err(), Some(Error::InvalidArgument));
}

#[test]
fn encode_ignores_samples_beyond_the_image() {
    let exact = encode(image(&[1, 2, 3, 4], 1, 1), 4).unwrap();
    let longer = encode(image(&[1, 2, 3, 4, 9, 9, 9, 9, 9], 1, 1), 4).unwrap();
    assert_eq!(exact, longer);
    assert_eq!(longer.to_vec(), stream(1, 1, 9, &[0xff, 1, 2, 3, 4, 0, 0, 0, 0]));
}

#[test]
fn decode_rejects_wrong_magic() {
    let good = stream(1, 1, 5, &[0x40, 0, 0, 0, 0]);
    assert!(decode(&good, 4).is_ok());
    for at in 0..4 {
        let mut bad = good.clone();
        bad[at] ^= 0x20;
        assert_eq!(decode(&bad, 4).err(), Some(Error::InvalidArgument));
    }
}

#[test]
fn decode_rejects_zero_dimensions() {
    assert_eq!(
        decode(&stream(0, 1, 5, &[0x40, 0, 0, 0, 0]), 4).err(),
        Some(Error::InvalidArgument)
    );
    assert_eq!(
        decode(&stream(1, 0, 5, &[0x40, 0, 0, 0, 0]), 4).err(),
        Some(Error::InvalidArgument)
    );
    assert_eq!(
        decode(&stream(0, 0, 5, &[0x40, 0, 0, 0, 0]), 4).err(),
        Some(Error::InvalidArgument)
    );
}

#[test]
fn decode_rejects_a_mismatched_size_field() {
    let body = [0x40, 0, 0, 0, 0];
    for size in [0, 4, 6, 17, 0x0500_0000, u32::MAX] {
        assert_eq!(decode(&stream(1, 1, size, &body), 4).err(), Some(Error::InvalidArgument));
    }
    assert!(decode(&stream(1, 1, 5, &body), 4).is_ok());
}

#[test]
fn decode_rejects_other_channel_counts() {
    let good = stream(1, 1, 5, &[0x40, 0, 0, 0, 0]);
    for channels in [0, 1, 2, 5, u32::MAX] {
        assert_eq!(decode(&good, channels).err(), Some(Error::InvalidArgument));
    }
}

#[test]
fn decode_rejects_less_than_a_header() {
    let good = stream(1, 1, 5, &[0x40, 0, 0, 0, 0]);
    for len in 0..12 {
        assert_eq!(decode(&good[..len], 4).err(), Some(Error::InvalidArgument));
    }
}

#[test]
fn decode_reports_a_stream_that_ends_too_early() {
    // two pixels announced, chunks for one
    assert_eq!(decode(&stream(2, 1, 1, &[0x40]), 4).err(), Some(Error::Truncated));
    // a header and nothing else
    assert_eq!(decode(&stream(1, 1, 0, &[]), 4).err(), Some(Error::Truncated));
    // chunks cut in the middle
    assert_eq!(decode(&stream(1, 1, 1, &[0x60]), 4).err(), Some(Error::Truncated));
    assert_eq!(decode(&stream(1, 1, 1, &[0xc0]), 4).err(), Some(Error::Truncated));
    assert_eq!(decode(&stream(1, 1, 2, &[0xe0, 0]), 4).err(), Some(Error::Truncated));
    assert_eq!(decode(&stream(1, 1, 2, &[0xff, 1]), 4).err(), Some(Error::Truncated));
    assert_eq!(decode(&stream(1, 1, 4, &[0xff, 1, 2, 3]), 4).err(), Some(Error::Truncated));
}

#[test]
fn decode_reports_truncation_of_an_encoded_image() {
    let pixels = [1, 2, 3, 4, 50, 60, 70, 80, 90, 100, 110, 120];
    let full = encode(image(&pixels, 3, 1), 4).unwrap();
    // fifteen bytes of chunks: cut anywhere inside them, with the size
    // field set to what is left, the stream ends too early
    assert_eq!(full.len(), 12 + 15 + 4);
    for keep in 0..15 {
        let mut cut = full[..12 + keep].to_vec();
        cut[8..12].copy_from_slice(&(keep as u32).to_be_bytes());
        assert_eq!(decode(&cut, 4).err(), Some(Error::Truncated));
    }
}

#[test]
fn decode_checks_the_header_before_the_chunks() {
    // too short for its pixels and with a wrong size: the header decides
    assert_eq!(decode(&stream(2, 1, 7, &[0x40]), 4).err(), Some(Error::InvalidArgument));
}

#[test]
fn decode_does_not_ask_for_padding() {
    let img = decode(&stream(1, 1, 1, &[0x40]), 4).unwrap();
    assert_eq!(img.pixels.to_vec(), vec![0, 0, 0, 255]);
}

#[test]
fn decode_reads_on_into_the_padding_where_the_chunks_fall_short() {
    // The second pixel is told by the first byte of the padding, which
    // names slot 0 of the table.
    let img = decode(&stream(2, 1, 5, &[0x40, 0, 0, 0, 0]), 4).unwrap();
    assert_eq!(img.pixels.to_vec(), vec![0, 0, 0, 255, 0, 0, 0, 0]);
}

#[test]
fn decode_does_not_look_at_what_follows_the_last_chunk() {
    let img = decode(&stream(1, 1, 7, &[0x40, 1, 2, 3, 4, 5, 6]), 4).unwrap();
    assert_eq!(img.pixels.to_vec(), vec![0, 0, 0, 255]);
}

#[test]
fn header_is_written_big_endian() {
    let mut out = vec![7];
    Header { width: 0x0102, height: 0x0304, size: 0x0506_0708 }.write(&mut out);
    assert_eq!(out, vec![7, 0x71, 0x6f, 0x69, 0x66, 1, 2, 3, 4, 5, 6, 7, 8]);
}

#[test]
fn header_is_read_back() {
    let data = [0x71, 0x6f, 0x69, 0x66, 1, 2, 3, 4, 5, 6, 7, 8, 99];
    assert_eq!(
        Header::read(&data),
        Some(Header { width: 0x0102, height: 0x0304, size: 0x0506_0708 })
    );
    assert_eq!(
        Header::read(&data[..12]),
        Some(Header { width: 0x0102, height: 0x0304, size: 0x0506_0708 })
    );
    assert_eq!(Header::read(&data[..11]), None);
    let mut bad = data;
    bad[3] = 0x67;
    assert_eq!(Header::read(&bad), None);
}

#[test]
fn header_takes_the_largest_fields() {
    let mut out = Vec::new();
    let header = Header { width: 65535, height: 65535, size: u32::MAX };
    header.write(&mut out);
    assert_eq!(out[4..].to_vec(), vec![0xff; 8]);
    assert_eq!(Header::read(&out), Some(header));
}
