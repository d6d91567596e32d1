//! The IDX file format in which MNIST is distributed.
//!
//! An IDX file is a short big-endian header followed by raw bytes:
//!
//!   images file            labels file
//!   ------------------     ------------------
//!   magic  0x00000803      magic  0x00000801
//!   count                  count
//!   rows                   one u8 label per image
//!   cols
//!   one u8 per pixel
//!
//! The magic number encodes the element type (0x08, unsigned byte) and the
//! number of dimensions (3 for images, 1 for labels).
//!
//! Everything here works on the bytes of a file; reading the file, and
//! scaling pixels into floats, is left to the caller.
use vstd::prelude::*;

verus! {

/// The magic number of an IDX file of unsigned-byte images (3 dimensions).
pub const IMAGE_MAGIC: u32 = 0x0000_0803;

/// The magic number of an IDX file of unsigned-byte labels (1 dimension).
pub const LABEL_MAGIC: u32 = 0x0000_0801;

/// Why a byte buffer is not a well-formed IDX file.
#[derive(Debug, Clone, Copy, PartialEq, Eq, Structural)]
pub enum IdxError {
    /// Shorter than the fixed-size header.
    TooShort,
    /// The header does not start with the expected magic number.
    BadMagic { expected: u32, actual: u32 },
    /// The length of an image file disagrees with the header.
    ImageSizeMismatch { count: u32, rows: u32, cols: u32, found: usize },
    /// The length of a label file disagrees with the header.
    LabelSizeMismatch { count: u32, found: usize },
    /// A label that is not a digit 0-9.
    NotADigit { label: u8 },
    /// An image file and a label file that describe different numbers of
    /// samples.
    CountMismatch { images: usize, labels: usize },
}

/// The big-endian u32 stored at `offset`.
pub open spec fn be_u32(bytes: Seq<u8>, offset: int) -> u32 {
    (bytes[offset] as int * 0x100_0000 + bytes[offset + 1] as int * 0x1_0000
        + bytes[offset + 2] as int * 0x100 + bytes[offset + 3] as int) as u32
}

/// The number of bytes an image file with this header must have.
pub open spec fn image_file_len(count: u32, rows: u32, cols: u32) -> int {
    16 + count as int * (rows as int * cols as int)
}

/// The `i`-th image of a well-formed image file: `rows * cols` bytes.
pub open spec fn image_at(bytes: Seq<u8>, pixels: int, i: int) -> Seq<u8> {
    bytes.subrange(16 + i * pixels, 16 + i * pixels + pixels)
}

/// The header of an image file announces zero pixels per image, and the
/// file is exactly a header long. No image could be cut out of it.
pub open spec fn degenerate_image_file(bytes: Seq<u8>) -> bool {
    &&& bytes.len() == 16
    &&& be_u32(bytes, 0) == IMAGE_MAGIC
    &&& be_u32(bytes, 8) as int * be_u32(bytes, 12) as int == 0
}

/// What an image file holds: one sequence of pixels per image, or the first
/// thing wrong with it.
pub open spec fn images_outcome(bytes: Seq<u8>) -> Result<Seq<Seq<u8>>, IdxError> {
    if bytes.len() < 16 {
        Err(IdxError::TooShort)
    } else if be_u32(bytes, 0) != IMAGE_MAGIC {
        Err(IdxError::BadMagic { expected: IMAGE_MAGIC, actual: be_u32(bytes, 0) })
    } else {
        let count = be_u32(bytes, 4);
        let rows = be_u32(bytes, 8);
        let cols = be_u32(bytes, 12);
        if bytes.len() != image_file_len(count, rows, cols) {
            Err(
                IdxError::ImageSizeMismatch {
                    count,
                    rows,
                    cols,
                    found: bytes.len() as usize,
                },
            )
        } else {
            let pixels = rows as int * cols as int;
            Ok(Seq::new(count as nat, |i: int| image_at(bytes, pixels, i)))
        }
    }
}

/// The first label of `labels` that is not a digit, if any.
pub open spec fn first_non_digit(labels: Seq<u8>) -> Option<u8>
    decreases labels.len(),
{
    if labels.len() == 0 {
        None
    } else if labels[0] > 9 {
        Some(labels[0])
    } else {
        first_non_digit(labels.drop_first())
    }
}

/// What a label file holds: its labels, or the first thing wrong with it.
pub open spec fn labels_outcome(bytes: Seq<u8>) -> Result<Seq<u8>, IdxError> {
    if bytes.len() < 8 {
        Err(IdxError::TooShort)
    } else if be_u32(bytes, 0) != LABEL_MAGIC {
        Err(IdxError::BadMagic { expected: LABEL_MAGIC, actual: be_u32(bytes, 0) })
    } else if bytes.len() != 8 + be_u32(bytes, 4) {
        Err(IdxError::LabelSizeMismatch { count: be_u32(bytes, 4), found: bytes.len() as usize })
    } else {
        match first_non_digit(bytes.subrange(8, bytes.len() as int)) {
            Some(label) => Err(IdxError::NotADigit { label }),
            None => Ok(bytes.subrange(8, bytes.len() as int)),
        }
    }
}

/// The view of a parsed image file, image by image.
pub open spec fn images_view(r: Result<Vec<Vec<u8>>, IdxError>) -> Result<Seq<Seq<u8>>, IdxError> {
    match r {
        Ok(images) => Ok(images@.map_values(|image: Vec<u8>| image@)),
        Err(e) => Err(e),
    }
}

/// The view of a parsed label file.
pub open spec fn labels_view(r: Result<Vec<u8>, IdxError>) -> Result<Seq<u8>, IdxError> {
    match r {
        Ok(labels) => Ok(labels@),
        Err(e) => Err(e),
    }
}

/// A header field is its four bytes read most significant first.
pub proof fn lemma_header_field_is_big_endian(bytes: Seq<u8>, offset: int)
    requires
        0 <= offset,
        offset + 4 <= bytes.len(),
    ensures
        be_u32(bytes, offset) as int == bytes[offset] as int * 0x100_0000 + bytes[offset + 1] as int
            * 0x1_0000 + bytes[offset + 2] as int * 0x100 + bytes[offset + 3] as int,
{
}

/// Cutting an accepted image file: the header is 16 bytes, the file holds
/// `count` runs of `rows * cols` bytes after it, and image `i` is the
/// `i`-th run, byte for byte.
pub proof fn lemma_accepted_images_are_consecutive_runs(bytes: Seq<u8>)
    requires
        images_outcome(bytes) is Ok,
    ensures
        ({
            let images = images_outcome(bytes)->Ok_0;
            let count = bytes[4] as int * 0x100_0000 + bytes[5] as int * 0x1_0000 + bytes[6] as int
                * 0x100 + bytes[7] as int;
            let rows = bytes[8] as int * 0x100_0000 + bytes[9] as int * 0x1_0000 + bytes[10] as int
                * 0x100 + bytes[11] as int;
            let cols = bytes[12] as int * 0x100_0000 + bytes[13] as int * 0x1_0000 + bytes[14] as int
                * 0x100 + bytes[15] as int;
            &&& bytes.len() >= 16
            &&& bytes[0] == 0 && bytes[1] == 0 && bytes[2] == 8 && bytes[3] == 3
            &&& bytes.len() == 16 + count * (rows * cols)
            &&& images.len() == count
            &&& forall|i: int| 0 <= i < count ==> #[trigger] images[i].len() == rows * cols
            &&& forall|i: int, j: int|
                0 <= i < count && 0 <= j < rows * cols ==> #[trigger] images[i][j] == bytes[16 + i
                    * (rows * cols) + j]
        }),
{
    let count = be_u32(bytes, 4) as int;
    let rows = be_u32(bytes, 8) as int;
    let cols = be_u32(bytes, 12) as int;
    lemma_header_field_is_big_endian(bytes, 0);
    lemma_header_field_is_big_endian(bytes, 4);
    lemma_header_field_is_big_endian(bytes, 8);
    lemma_header_field_is_big_endian(bytes, 12);
    let b0 = bytes[0];
    let b1 = bytes[1];
    let b2 = bytes[2];
    let b3 = bytes[3];
    assert(b0 == 0 && b1 == 0 && b2 == 8 && b3 == 3) by (nonlinear_arith)
        requires
            b0 as int * 0x100_0000 + b1 as int * 0x1_0000 + b2 as int * 0x100 + b3 as int == 0x803,
            b0 < 256,
            b1 < 256,
            b2 < 256,
            b3 < 256,
    ;
    let images = images_outcome(bytes)->Ok_0;
    assert forall|i: int| 0 <= i < count implies #[trigger] images[i].len() == rows * cols by {
        assert(0 <= i * (rows * cols) && i * (rows * cols) + rows * cols <= count * (rows * cols))
            by (nonlinear_arith)
            requires
                0 <= i < count,
                rows * cols >= 0,
        ;
    }
    assert forall|i: int, j: int| 0 <= i < count && 0 <= j < rows * cols implies #[trigger] images[i][j]
        == bytes[16 + i * (rows * cols) + j] by {
        assert(0 <= i * (rows * cols) && i * (rows * cols) + rows * cols <= count * (rows * cols))
            by (nonlinear_arith)
            requires
                0 <= i < count,
                rows * cols >= 0,
        ;
    }
}

/// An accepted label file: the header is 8 bytes, the label magic and a
/// count equal to the number of bytes that follow, every following byte is
/// a digit, and the labels are exactly those bytes in order.
pub proof fn lemma_accepted_labels_are_the_body(bytes: Seq<u8>)
    requires
        labels_outcome(bytes) is Ok,
    ensures
        ({
            let labels = labels_outcome(bytes)->Ok_0;
            &&& bytes.len() >= 8
            &&& bytes[0] == 0 && bytes[1] == 0 && bytes[2] == 8 && bytes[3] == 1
            &&& bytes.len() == 8 + (bytes[4] as int * 0x100_0000 + bytes[5] as int * 0x1_0000
                + bytes[6] as int * 0x100 + bytes[7] as int)
            &&& labels.len() == bytes.len() - 8
            &&& forall|i: int| 0 <= i < labels.len() ==> #[trigger] labels[i] == bytes[8 + i]
            &&& forall|i: int| 0 <= i < labels.len() ==> #[trigger] labels[i] <= 9
        }),
{
    lemma_header_field_is_big_endian(bytes, 0);
    lemma_header_field_is_big_endian(bytes, 4);
    let b0 = bytes[0];
    let b1 = bytes[1];
    let b2 = bytes[2];
    let b3 = bytes[3];
    assert(b0 == 0 && b1 == 0 && b2 == 8 && b3 == 1) by (nonlinear_arith)
        requires
            b0 as int * 0x100_0000 + b1 as int * 0x1_0000 + b2 as int * 0x100 + b3 as int == 0x801,
            b0 < 256,
            b1 < 256,
            b2 < 256,
            b3 < 256,
    ;
    let body = bytes.subrange(8, bytes.len() as int);
    lemma_no_non_digit_means_all_digits(body);
}

/// A sequence with no label above 9 holds only digits.
pub proof fn lemma_no_non_digit_means_all_digits(labels: Seq<u8>)
    requires
        first_non_digit(labels) is None,
    ensures
        forall|i: int| 0 <= i < labels.len() ==> #[trigger] labels[i] <= 9,
    decreases labels.len(),
{
    if labels.len() > 0 {
        lemma_no_non_digit_means_all_digits(labels.drop_first());
        assert forall|i: int| 0 <= i < labels.len() implies #[trigger] labels[i] <= 9 by {
            if i > 0 {
                assert(labels[i] == labels.drop_first()[i - 1]);
            }
        }
    }
}

/// Read a big-endian u32 from a byte slice.
pub fn read_u32(bytes: &[u8], offset: usize) -> (value: u32)
    requires
        offset + 4 <= bytes@.len(),
    ensures
        value == be_u32(bytes@, offset as int),
        value as int == bytes@[offset as int] as int * 0x100_0000 + bytes@[offset + 1] as int
            * 0x1_0000 + bytes@[offset + 2] as int * 0x100 + bytes@[offset + 3] as int,
{
    let b0 = bytes[offset] as u32;
    let b1 = bytes[offset + 1] as u32;
    let b2 = bytes[offset + 2] as u32;
    let b3 = bytes[offset + 3] as u32;
    b0 * 0x100_0000 + b1 * 0x1_0000 + b2 * 0x100 + b3
}

/// Parse an IDX image file into one vector of raw pixels per image.
///
/// A file whose header announces zero pixels per image and that holds
/// nothing but that header has no images to cut, and is not accepted.
pub fn parse_images(bytes: &[u8]) -> (images: Result<Vec<Vec<u8>>, IdxError>)
    requires
        !degenerate_image_file(bytes@),
    ensures
        images_view(images) == images_outcome(bytes@),
        images matches Ok(v) ==> {
            &&& v@.len() == be_u32(bytes@, 4)
            &&& forall|i: int|
                0 <= i < v@.len() ==> #[trigger] v@[i]@.len() == be_u32(bytes@, 8) as int
                    * be_u32(bytes@, 12) as int
            &&& forall|i: int, j: int|
                0 <= i < v@.len() && 0 <= j < be_u32(bytes@, 8) as int * be_u32(bytes@, 12) as int
                    ==> #[trigger] v@[i]@[j] == bytes@[16 + i * (be_u32(bytes@, 8) as int
                    * be_u32(bytes@, 12) as int) + j]
        },
{
    if bytes.len() < 16 {
        return Err(IdxError::TooShort);
    }
    let magic = read_u32(bytes, 0);
    if magic != IMAGE_MAGIC {
        return Err(IdxError::BadMagic { expected: IMAGE_MAGIC, actual: magic });
    }
    let count = read_u32(bytes, 4);
    let rows = read_u32(bytes, 8);
    let cols = read_u32(bytes, 12);
    assert(count as int * (rows as int * cols as int) <= 0xffff_ffffu64 as int * (
    0xffff_ffffu64 as int * 0xffff_ffffu64 as int)) by (nonlinear_arith)
        requires
            count <= 0xffff_ffffu32,
            rows <= 0xffff_ffffu32,
            cols <= 0xffff_ffffu32,
    ;
    assert(rows as int * cols as int <= 0xffff_ffffu64 as int * 0xffff_ffffu64 as int)
        by (nonlinear_arith)
        requires
            rows <= 0xffff_ffffu32,
            cols <= 0xffff_ffffu32,
    ;
    let pixels_wide: u64 = rows as u64 * cols as u64;
    let expected: u128 = 16 + count as u128 * (pixels_wide as u128);
    if bytes.len() as u128 != expected {
        return Err(IdxError::ImageSizeMismatch { count, rows, cols, found: bytes.len() });
    }
    let ghost pixels_int = rows as int * cols as int;
    let mut images: Vec<Vec<u8>> = Vec::new();
    if count == 0 {
        proof {
            assert(images@.map_values(|image: Vec<u8>| image@) =~= Seq::new(
                count as nat,
                |i: int| image_at(bytes@, pixels_int, i),
            ));
        }
        return Ok(images);
    }
    assert(pixels_wide as int <= count as int * pixels_wide as int) by (nonlinear_arith)
        requires
            count >= 1,
    ;
    let pixels = pixels_wide as usize;
    let count = count as usize;
    let mut start: usize = 16;
    let mut i: usize = 0;
    while i < count
        invariant
            bytes@.len() == 16 + count * pixels,
            pixels == pixels_int,
            i <= count,
            start == 16 + i * pixels,
            images@.len() == i,
            forall|k: int| 0 <= k < i ==> #[trigger] images@[k]@ == image_at(bytes@, pixels_int, k),
        decreases count - i,
    {
        assert(start + pixels <= bytes@.len()) by (nonlinear_arith)
            requires
                start == 16 + i * pixels,
                i < count,
                bytes@.len() == 16 + count * pixels,
        ;
        assert(start + pixels <= bytes.len());
        let mut image: Vec<u8> = Vec::new();
        let mut j: usize = 0;
        while j < pixels
            invariant
                start + pixels <= bytes.len(),
                j <= pixels,
                image@ == bytes@.subrange(start as int, start + j),
            decreases pixels - j,
        {
            image.push(bytes[start + j]);
            j += 1;
            assert(image@ =~= bytes@.subrange(start as int, start + j));
        }
        images.push(image);
        assert((i + 1) * pixels == i * pixels + pixels) by (nonlinear_arith);
        start = start + pixels;
        i += 1;
    }
    proof {
        assert(images@.map_values(|image: Vec<u8>| image@) =~= Seq::new(
            count as nat,
            |i: int| image_at(bytes@, pixels_int, i),
        ));
        assert forall|k: int| 0 <= k < images@.len() implies #[trigger] images@[k]@.len()
            == pixels_int by {
            assert(images@[k]@ == image_at(bytes@, pixels_int, k));
            assert(0 <= k * pixels_int && k * pixels_int + pixels_int <= count * pixels_int)
                by (nonlinear_arith)
                requires
                    0 <= k < count,
                    pixels_int >= 0,
            ;
        }
        assert forall|k: int, j: int| 0 <= k < images@.len() && 0 <= j < pixels_int implies
            #[trigger] images@[k]@[j] == bytes@[16 + k * pixels_int + j] by {
            assert(images@[k]@ == image_at(bytes@, pixels_int, k));
            assert(0 <= k * pixels_int && k * pixels_int + pixels_int <= count * pixels_int)
                by (nonlinear_arith)
                requires
                    0 <= k < count,
                    pixels_int >= 0,
            ;
        }
    }
    Ok(images)
}

/// Parse an IDX label file, accepting only the digits 0-9.
pub fn parse_labels(bytes: &[u8]) -> (labels: Result<Vec<u8>, IdxError>)
    ensures
        labels_view(labels) == labels_outcome(bytes@),
        labels matches Ok(v) ==> {
            &&& v@.len() == be_u32(bytes@, 4)
            &&& v@.len() == bytes@.len() - 8
            &&& forall|i: int| 0 <= i < v@.len() ==> #[trigger] v@[i] <= 9
            &&& forall|i: int| 0 <= i < v@.len() ==> #[trigger] v@[i] == bytes@[8 + i]
        },
{
    if bytes.len() < 8 {
        return Err(IdxError::TooShort);
    }
    let magic = read_u32(bytes, 0);
    if magic != LABEL_MAGIC {
        return Err(IdxError::BadMagic { expected: LABEL_MAGIC, actual: magic });
    }
    let count = read_u32(bytes, 4);
    if bytes.len() as u64 != 8 + count as u64 {
        return Err(IdxError::LabelSizeMismatch { count, found: bytes.len() });
    }
    let ghost all = bytes@.subrange(8, bytes@.len() as int);
    let mut labels: Vec<u8> = Vec::new();
    let mut i: usize = 8;
    while i < bytes.len()
        invariant
            8 <= i <= bytes@.len(),
            be_u32(bytes@, 0) == LABEL_MAGIC,
            bytes@.len() == 8 + be_u32(bytes@, 4),
            all == bytes@.subrange(8, bytes@.len() as int),
            labels@ == bytes@.subrange(8, i as int),
            forall|k: int| 8 <= k < i ==> bytes@[k] <= 9,
            first_non_digit(all) == first_non_digit(bytes@.subrange(i as int, bytes@.len() as int)),
        decreases bytes@.len() - i,
    {
        let label = bytes[i];
        assert(bytes@.subrange(i as int, bytes@.len() as int).drop_first() =~= bytes@.subrange(
            i + 1,
            bytes@.len() as int,
        ));
        if label > 9 {
            assert(bytes@.subrange(i as int, bytes@.len() as int)[0] == label);
            return Err(IdxError::NotADigit { label });
        }
        labels.push(label);
        i += 1;
        assert(labels@ =~= bytes@.subrange(8, i as int));
    }
    assert(first_non_digit(bytes@.subrange(i as int, bytes@.len() as int)) == None::<u8>);
    Ok(labels)
}

/// Pair an image file with a label file: they must describe the same
/// number of samples.
pub fn check_same_count(images: usize, labels: usize) -> (r: Result<(), IdxError>)
    ensures
        r == (if images == labels {
            Ok(())
        } else {
            Err(IdxError::CountMismatch { images, labels })
        }),
{
    if images != labels {
        return Err(IdxError::CountMismatch { images, labels });
    }
    Ok(())
}

} // verus!
