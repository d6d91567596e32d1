use nn_from_scratch::idx::{check_same_count, parse_images, parse_labels, read_u32, IdxError};

fn header(magic: u32, dims: &[u32]) -> Vec<u8> {
    let mut bytes = magic.to_be_bytes().to_vec();
    for d in dims {
        bytes.extend_from_slice(&d.to_be_bytes());
    }
    bytes
}

#[test]
fn read_u32_is_big_endian() {
    let bytes = [0x00, 0x00, 0x08, 0x03, 0x12, 0x34, 0x56, 0x78];
    assert_eq!(read_u32(&bytes, 0), 0x0000_0803);
    assert_eq!(read_u32(&bytes, 4), 0x1234_5678);
    assert_eq!(read_u32(&bytes, 2), 0x0803_1234);
}

#[test]
fn images_are_cut_row_by_row() {
    let mut bytes = header(0x803, &[2, 2, 3]);
    bytes.extend_from_slice(&[0, 1, 2, 3, 4, 5, 255, 254, 253, 252, 251, 250]);
    let images = parse_images(&bytes).unwrap();
    assert_eq!(images.len(), 2);
    assert_eq!(images[0], vec![0, 1, 2, 3, 4, 5]);
    assert_eq!(images[1], vec![255, 254, 253, 252, 251, 250]);
}

#[test]
fn an_image_file_may_hold_no_images() {
    let bytes = header(0x803, &[0, 28, 28]);
    assert_eq!(parse_images(&bytes), Ok(vec![]));
}

#[test]
fn short_image_files_are_rejected() {
    assert_eq!(parse_images(&[0, 0, 8, 3]), Err(IdxError::TooShort));
    assert_eq!(parse_images(&[]), Err(IdxError::TooShort));
}

#[test]
fn image_magic_is_checked() {
    let bytes = header(0x801, &[0, 28, 28]);
    assert_eq!(
        parse_images(&bytes),
        Err(IdxError::BadMagic { expected: 0x803, actual: 0x801 })
    );
}

#[test]
fn image_file_length_must_match_the_header() {
    let mut bytes = header(0x803, &[2, 2, 2]);
    bytes.extend_from_slice(&[1, 2, 3, 4, 5, 6, 7]);
    assert_eq!(
        parse_images(&bytes),
        Err(IdxError::ImageSizeMismatch { count: 2, rows: 2, cols: 2, found: 23 })
    );
}

#[test]
fn huge_headers_do_not_overflow() {
    let bytes = header(0x803, &[u32::MAX, u32::MAX, u32::MAX]);
    assert_eq!(
        parse_images(&bytes),
        Err(IdxError::ImageSizeMismatch {
            count: u32::MAX,
            rows: u32::MAX,
            cols: u32::MAX,
            found: 16
        })
    );
}

#[test]
fn labels_are_read_after_the_header() {
    let mut bytes = header(0x801, &[4]);
    bytes.extend_from_slice(&[5, 0, 4, 9]);
    assert_eq!(parse_labels(&bytes), Ok(vec![5, 0, 4, 9]));
}

#[test]
fn label_errors_come_in_order() {
    assert_eq!(parse_labels(&[0, 0, 8, 1, 0, 0]), Err(IdxError::TooShort));
    let bytes = header(0x803, &[0]);
    assert_eq!(
        parse_labels(&bytes),
        Err(IdxError::BadMagic { expected: 0x801, actual: 0x803 })
    );
    let mut bytes = header(0x801, &[3]);
    bytes.extend_from_slice(&[1, 2]);
    assert_eq!(
        parse_labels(&bytes),
        Err(IdxError::LabelSizeMismatch { count: 3, found: 10 })
    );
}

#[test]
fn the_first_label_that_is_not_a_digit_is_reported() {
    let mut bytes = header(0x801, &[5]);
    bytes.extend_from_slice(&[3, 10, 7, 200, 1]);
    assert_eq!(parse_labels(&bytes), Err(IdxError::NotADigit { label: 10 }));
}

#[test]
fn image_and_label_counts_must_agree() {
    assert_eq!(check_same_count(60_000, 60_000), Ok(()));
    assert_eq!(
        check_same_count(60_000, 10_000),
        Err(IdxError::CountMismatch { images: 60_000, labels: 10_000 })
    );
}
