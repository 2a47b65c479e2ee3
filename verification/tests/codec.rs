use netpbm::{FormatKind, HostByteOrder, Image, ImageError};

fn bits(values: &[f32]) -> Vec<u32> {
    values.iter().map(|v| v.to_bits()).collect()
}

fn file_bytes(header: &str, values: &[f32], little: bool) -> Vec<u8> {
    let mut v = header.as_bytes().to_vec();
    for f in values {
        let b = f.to_bits();
        if little {
            v.extend_from_slice(&b.to_le_bytes());
        } else {
            v.extend_from_slice(&b.to_be_bytes());
        }
    }
    v
}

fn sample_image() -> Image {
    Image {
        width: 2,
        height: 1,
        iters: Some(3),
        little: true,
        scale_mag: vec![49, 46, 48],
        data: bits(&[0.5, 1.0, 0.25, -2.0, 0.125, 3.5]),
    }
}

#[test]
fn round_trip_little_endian() {
    let img = sample_image();
    let out = img.encode(HostByteOrder::Little);
    let back = Image::decode(&out).unwrap();
    assert_eq!(back.width, 2);
    assert_eq!(back.height, 1);
    assert_eq!(back.iteration_count(), Some(3));
    assert_eq!(back.scale_magnitude(), &vec![49, 46, 48]);
    assert!(back.is_le());
    assert_eq!(back.pixels(), &bits(&[0.5, 1.0, 0.25, -2.0, 0.125, 3.5]));
}

#[test]
fn round_trip_big_endian() {
    let img = sample_image();
    let out = img.encode(HostByteOrder::Big);
    let back = Image::decode(&out).unwrap();
    assert_eq!(back.width, 2);
    assert_eq!(back.height, 1);
    assert_eq!(back.iteration_count(), Some(3));
    assert!(back.is_be());
    assert_eq!(back.pixels(), &bits(&[0.5, 1.0, 0.25, -2.0, 0.125, 3.5]));
}

#[test]
fn endianness_self_description() {
    // The same image written in either byte order decodes to the same
    // pixels: the sign of the scale tells the reader how to combine the
    // payload bytes.
    let img = sample_image();
    let little = Image::decode(&img.encode(HostByteOrder::Little)).unwrap();
    let big = Image::decode(&img.encode(HostByteOrder::Big)).unwrap();
    assert_ne!(img.encode(HostByteOrder::Little), img.encode(HostByteOrder::Big));
    assert_eq!(little.pixels(), big.pixels());
}

#[test]
fn round_trip_without_iteration_count() {
    let mut img = sample_image();
    img.iters = None;
    let out = img.encode(HostByteOrder::Little);
    assert!(!out.windows(2).any(|w| w == [35, 62]), "no #> line expected");
    let back = Image::decode(&out).unwrap();
    assert_eq!(back.iteration_count(), None);
    assert_eq!(back.pixels(), img.pixels());
}

#[test]
fn round_trip_of_empty_image() {
    let img = Image::new();
    let back = Image::decode(&img.encode(HostByteOrder::Little)).unwrap();
    assert!(back.is_empty());
    assert_eq!(back.width, 0);
    assert_eq!(back.height, 0);
}

#[test]
fn encode_writes_header_and_little_endian_payload() {
    let img = Image {
        width: 1,
        height: 1,
        iters: Some(2),
        little: true,
        scale_mag: vec![49, 46, 48],
        data: bits(&[0.5, 1.5, 0.25]),
    };
    let out = img.encode(HostByteOrder::Little);
    let mut expected = b"PF\n#> 2\n1 1 -1.0\n".to_vec();
    for v in [0.5f32, 1.5, 0.25] {
        expected.extend_from_slice(&v.to_bits().to_le_bytes());
    }
    assert_eq!(out, expected);
}

#[test]
fn encode_preserves_scale_magnitude_spelling() {
    let mut img = sample_image();
    img.scale_mag = b"2.75e1".to_vec();
    let back = Image::decode(&img.encode(HostByteOrder::Big)).unwrap();
    assert_eq!(back.scale_magnitude(), &b"2.75e1".to_vec());
}

#[test]
fn decode_skips_comments_and_honours_iteration_tag() {
    let bytes = file_bytes(
        "PF\n# a free comment\n#> 7\n# another\n1 1 -1.0\n",
        &[0.25, 0.5, 0.75],
        true,
    );
    let img = Image::decode(&bytes).unwrap();
    assert_eq!(img.width, 1);
    assert_eq!(img.height, 1);
    assert_eq!(img.iteration_count(), Some(7));
    assert_eq!(img.pixels(), &bits(&[0.25, 0.5, 0.75]));
}

#[test]
fn decode_reads_big_endian_payload_on_positive_scale() {
    let bytes = file_bytes("PF\n1 1 1.0\n", &[1.0, 2.0, 3.0], false);
    let img = Image::decode(&bytes).unwrap();
    assert!(img.is_be());
    assert_eq!(img.pixels(), &bits(&[1.0, 2.0, 3.0]));
}

#[test]
fn bad_magic_rejected() {
    let bytes = file_bytes("P3\n1 1 -1.0\n", &[1.0, 2.0, 3.0], true);
    assert_eq!(
        Image::decode(&bytes),
        Err(ImageError::FormatError(FormatKind::BadMagic))
    );
    let empty: Vec<u8> = Vec::new();
    assert_eq!(
        Image::decode(&empty),
        Err(ImageError::FormatError(FormatKind::BadMagic))
    );
}

#[test]
fn missing_metadata_rejected() {
    // a dimension token missing
    let bytes = file_bytes("PF\n1 1\n", &[1.0, 2.0, 3.0], true);
    assert_eq!(
        Image::decode(&bytes),
        Err(ImageError::FormatError(FormatKind::MissingMetadata))
    );
    // no dimension line at all
    let bytes = b"PF\n".to_vec();
    assert_eq!(
        Image::decode(&bytes),
        Err(ImageError::FormatError(FormatKind::MissingMetadata))
    );
    // an unparsable width
    let bytes = file_bytes("PF\nx 1 -1.0\n", &[1.0, 2.0, 3.0], true);
    assert_eq!(
        Image::decode(&bytes),
        Err(ImageError::FormatError(FormatKind::MissingMetadata))
    );
    // an unparsable scale
    let bytes = file_bytes("PF\n1 1 -1.0.0\n", &[1.0, 2.0, 3.0], true);
    assert_eq!(
        Image::decode(&bytes),
        Err(ImageError::FormatError(FormatKind::MissingMetadata))
    );
}

#[test]
fn truncated_payload_rejected() {
    let mut bytes = file_bytes("PF\n2 2 -1.0\n", &[1.0, 2.0, 3.0], true);
    // 2 x 2 pixels demand 12 floats; only 3 are present
    assert_eq!(Image::decode(&bytes), Err(ImageError::TruncatedPayload));
    bytes.pop();
    assert_eq!(Image::decode(&bytes), Err(ImageError::TruncatedPayload));
}

#[test]
fn trailing_bytes_are_ignored() {
    let mut bytes = file_bytes("PF\n1 1 -1.0\n", &[1.0, 2.0, 3.0], true);
    bytes.extend_from_slice(&[0xde, 0xad]);
    let img = Image::decode(&bytes).unwrap();
    assert_eq!(img.pixels(), &bits(&[1.0, 2.0, 3.0]));
}

#[test]
fn malformed_iteration_tag_leaves_count_unspecified() {
    let bytes = file_bytes("PF\n#> soon\n1 1 -1.0\n", &[1.0, 2.0, 3.0], true);
    let img = Image::decode(&bytes).unwrap();
    assert_eq!(img.iteration_count(), None);
}

#[test]
fn later_iteration_tag_wins() {
    let bytes = file_bytes("PF\n#> 2\n#> 5\n1 1 -1.0\n", &[1.0, 2.0, 3.0], true);
    let img = Image::decode(&bytes).unwrap();
    assert_eq!(img.iteration_count(), Some(5));
}

#[test]
fn plus_signed_scale_reads_as_big_endian() {
    let bytes = file_bytes("PF\n1 1 +2.5\n", &[4.0, 5.0, 6.0], false);
    let img = Image::decode(&bytes).unwrap();
    assert!(img.is_be());
    assert_eq!(img.scale_magnitude(), &b"2.5".to_vec());
    assert_eq!(img.pixels(), &bits(&[4.0, 5.0, 6.0]));
}

#[test]
fn exponent_form_scale_accepted() {
    let bytes = file_bytes("PF\n1 1 -1e2\n", &[4.0, 5.0, 6.0], true);
    let img = Image::decode(&bytes).unwrap();
    assert!(img.is_le());
    assert_eq!(img.scale_magnitude(), &b"1e2".to_vec());
}

#[test]
fn carriage_return_line_endings_accepted() {
    let bytes = file_bytes("PF\r\n#> 2\r\n1 1 -1.0\r\n", &[1.0, 2.0, 3.0], true);
    let img = Image::decode(&bytes).unwrap();
    assert_eq!(img.width, 1);
    assert_eq!(img.iteration_count(), Some(2));
    assert_eq!(img.pixels(), &bits(&[1.0, 2.0, 3.0]));
}

#[test]
fn new_image_is_empty() {
    let img = Image::new();
    assert!(img.is_empty());
    assert_eq!(img.size(), 0);
    assert_eq!(img.iteration_count(), None);
    assert_eq!(img.scale_magnitude(), &b"1.0".to_vec());
}
