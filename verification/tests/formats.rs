use std::io::Write;

use rinha::index_file::IndexImage;
use rinha::vectors::{encode_vectors_data, VectorsData};
use rinha::wire::{read_bool, read_u32, FormatError};

fn row(seed: u32) -> [u32; 14] {
    let mut r = [0u32; 14];
    for (j, x) in r.iter_mut().enumerate() {
        *x = seed.wrapping_mul(2654435761).wrapping_add(j as u32 * 7919);
    }
    r
}

#[test]
fn read_u32_is_little_endian_and_moves_on() {
    let bytes = [0x78u8, 0x56, 0x34, 0x12, 0, 0, 0x80, 0x3f];
    let mut pos = 0usize;
    assert_eq!(read_u32(&bytes, &mut pos), 0x1234_5678);
    assert_eq!(pos, 4);
    assert_eq!(f32::from_bits(read_u32(&bytes, &mut pos)), 1.0);
    assert_eq!(pos, 8);
}

#[test]
fn read_bool_treats_any_nonzero_byte_as_true() {
    let bytes = [0u8, 1, 7];
    let mut pos = 0usize;
    assert_eq!(read_bool(&bytes, &mut pos), Some(false));
    assert_eq!(read_bool(&bytes, &mut pos), Some(true));
    assert_eq!(read_bool(&bytes, &mut pos), Some(true));
    assert_eq!(read_bool(&bytes, &mut pos), None);
    assert_eq!(pos, 3);
}

#[test]
fn raw_file_layout_is_exact() {
    let vectors = vec![row(1)];
    let labels = vec![1u8];
    let bytes = encode_vectors_data(&vectors, &labels);
    assert_eq!(&bytes[0..9], b"rinha2026");
    assert_eq!(&bytes[9..13], &1u32.to_le_bytes());
    assert_eq!(&bytes[13..17], &14u32.to_le_bytes());
    assert_eq!(&bytes[17..21], &vectors[0][0].to_le_bytes());
    assert_eq!(bytes.len(), 17 + 56 + 1);
    assert_eq!(bytes[73], 1);
}

#[test]
fn raw_file_round_trips() {
    let vectors = vec![row(1), row(2), row(3)];
    let labels = vec![1u8, 0, 5];
    let bytes = encode_vectors_data(&vectors, &labels);
    let data = VectorsData::from_bytes(&bytes);
    assert_eq!(data.vectors, vectors);
    assert_eq!(data.labels, vec![true, false, true]);
}

#[test]
fn raw_file_keeps_float_bits() {
    let mut r = [0u32; 14];
    r[0] = 0.25f32.to_bits();
    r[13] = (-3.5f32).to_bits();
    let bytes = encode_vectors_data(&vec![r], &vec![0]);
    let data = VectorsData::from_bytes(&bytes);
    assert_eq!(f32::from_bits(data.vectors[0][0]), 0.25);
    assert_eq!(f32::from_bits(data.vectors[0][13]), -3.5);
}

#[test]
fn raw_file_errors() {
    assert_eq!(VectorsData::check(b"rinha"), Some(FormatError::Truncated));
    assert_eq!(VectorsData::check(b"rinha2025xxxxxxxx"), Some(FormatError::BadMagic));
    assert_eq!(VectorsData::check(b"rinha2026\x00\x00"), Some(FormatError::Truncated));
    let mut bad_dim = b"rinha2026".to_vec();
    bad_dim.extend_from_slice(&0u32.to_le_bytes());
    bad_dim.extend_from_slice(&13u32.to_le_bytes());
    assert_eq!(VectorsData::check(&bad_dim), Some(FormatError::BadDimension));
    let mut bytes = encode_vectors_data(&vec![row(4), row(5)], &vec![0, 1]);
    assert_eq!(VectorsData::check(&bytes), None);
    bytes.pop();
    assert_eq!(VectorsData::check(&bytes), Some(FormatError::Truncated));
}

#[test]
fn raw_file_ignores_trailing_bytes_and_allows_empty() {
    let mut bytes = encode_vectors_data(&vec![], &vec![]);
    bytes.extend_from_slice(b"tail");
    assert_eq!(VectorsData::check(&bytes), None);
    let data = VectorsData::from_bytes(&bytes);
    assert!(data.vectors.is_empty() && data.labels.is_empty());
}

fn sample_image() -> IndexImage {
    IndexImage {
        centroids: vec![row(10), row(11)],
        offsets: vec![0, 1, 3],
        vectors: vec![row(20), row(21), row(22)],
        labels: vec![0, 1, 1],
    }
}

#[test]
fn index_file_layout_is_exact() {
    let img = sample_image();
    let bytes = img.to_bytes();
    assert_eq!(&bytes[0..4], b"rivf");
    assert_eq!(&bytes[4..8], &3u32.to_le_bytes());
    assert_eq!(&bytes[8..12], &2u32.to_le_bytes());
    assert_eq!(&bytes[12..16], &14u32.to_le_bytes());
    let offsets_at = 16 + 56 * 2;
    assert_eq!(&bytes[offsets_at + 8..offsets_at + 12], &3u32.to_le_bytes());
    assert_eq!(bytes.len(), 20 + 60 * 2 + 57 * 3);
    assert_eq!(&bytes[bytes.len() - 3..], &[0, 1, 1]);
}

#[test]
fn index_file_round_trips() {
    let img = sample_image();
    let back = IndexImage::from_bytes(&img.to_bytes());
    assert_eq!(back.centroids, img.centroids);
    assert_eq!(back.offsets, img.offsets);
    assert_eq!(back.vectors, img.vectors);
    assert_eq!(back.labels, img.labels);
}

#[test]
fn compressed_index_round_trips() {
    let img = sample_image();
    let compressed = img.compress();
    assert_ne!(compressed, img.to_bytes());
    assert_eq!(&compressed[0..2], &[0x1f, 0x8b]);
    let raw = IndexImage::decompress(&compressed).unwrap();
    assert_eq!(IndexImage::check(&raw), None);
    let back = IndexImage::from_bytes(&raw);
    assert_eq!(back.centroids, img.centroids);
    assert_eq!(back.offsets, img.offsets);
    assert_eq!(back.vectors, img.vectors);
    assert_eq!(back.labels, img.labels);
}

fn gzip(data: &[u8]) -> Vec<u8> {
    let mut encoder = flate2::write::GzEncoder::new(Vec::new(), flate2::Compression::fast());
    encoder.write_all(data).unwrap();
    encoder.finish().unwrap()
}

#[test]
fn index_load_errors() {
    assert_eq!(IndexImage::decompress(b"not gzip at all"), None);
    let empty = IndexImage { centroids: vec![], offsets: vec![0], vectors: vec![], labels: vec![] };
    let raw = IndexImage::decompress(&empty.compress()).unwrap();
    assert_eq!(IndexImage::check(&raw), None);
    let img = sample_image();
    let mut raw = img.to_bytes();
    raw[0] = b'x';
    assert_eq!(IndexImage::check(&raw), Some(FormatError::BadMagic));
    assert_eq!(IndexImage::decompress(&gzip(&raw)).unwrap(), raw);
    let mut raw = img.to_bytes();
    raw[12] = 15;
    assert_eq!(IndexImage::check(&raw), Some(FormatError::BadDimension));
    let raw = img.to_bytes();
    assert_eq!(IndexImage::check(&raw[..raw.len() - 1]), Some(FormatError::Truncated));
    assert_eq!(IndexImage::check(&raw[..10]), Some(FormatError::Truncated));
    assert_eq!(IndexImage::check(b"ri"), Some(FormatError::Truncated));
    assert_eq!(IndexImage::check(&raw), None);
}
