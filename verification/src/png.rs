//! Pictures as PNG files in memory.
use vstd::endian::{endianness, Endian};
use vstd::prelude::*;

use crate::indexed::Picture;

verus! {

/// Why a picture could not be encoded or decoded.
#[verifier::external_type_specification]
#[verifier::external_body]
pub struct ExImageError(image::ImageError);

/// The bytes of the pixels of the PNG file `png`, row after row, on a machine of the given byte
/// order and with addresses of so many bits, or nothing where `png` is not such a file. The byte
/// order matters for channels of more than one byte only, and the width of addresses for more
/// pixels than they reach.
pub uninterp spec fn png_decoded(png: Seq<u8>, little_endian: bool, address_bits: u32) -> Option<
    Seq<u8>,
>;

/// The PNG file of a picture.
pub uninterp spec fn png_encoded(width: u32, height: u32, pixels: Seq<u8>) -> Seq<u8>;

/// What a PNG file holds on this machine.
pub open spec fn png_pixels(png: Seq<u8>) -> Option<Seq<u8>> {
    png_decoded(png, endianness() == Endian::Little, usize::BITS)
}

/// Decodes a PNG file of any size by `image::ImageReader::decode` and hands out its buffer by
/// `image::DynamicImage::into_bytes`. The result depends on the bytes of the file, on the byte
/// order of the machine and on the width of its addresses alone.
#[verifier::external_body]
pub(crate) fn decode_png(png: Vec<u8>) -> (r: Result<Vec<u8>, image::ImageError>)
    ensures
        match r {
            Ok(pixels) => png_decoded(png@, endianness() == Endian::Little, usize::BITS) == Some(
                pixels@,
            ),
            Err(_) => png_decoded(png@, endianness() == Endian::Little, usize::BITS) is None,
        },
{
    let mut reader = image::ImageReader::new(std::io::Cursor::new(png));
    reader.set_format(image::ImageFormat::Png);
    reader.no_limits();
    Ok(reader.decode()?.into_bytes())
}

/// The bytes of all the rows of a picture, each with one more that says how it is filtered.
pub open spec fn filtered_bytes(width: u32, height: u32) -> int {
    (4 * width + 1) * height
}

/// How long the file of a picture is at most. What would take more is stored as it is, in blocks
/// of nearly 64 KiB with five bytes of their own each; the rest is headers and checksums.
pub open spec fn file_limit(width: u32, height: u32) -> int {
    filtered_bytes(width, height) + filtered_bytes(width, height) / 1000 + 100
}

/// Filtering adds at most a byte to every four.
pub proof fn lemma_filtered_bytes(picture: &Picture)
    requires
        picture.encodable(),
    ensures
        filtered_bytes(picture.width, picture.height) == picture.data@.len() + picture.height,
        4 * filtered_bytes(picture.width, picture.height) <= 5 * picture.data@.len(),
{
    assert((4 * picture.width + 1) * picture.height == 4 * (picture.width * picture.height)
        + picture.height) by (nonlinear_arith);
    assert(picture.height <= picture.width * picture.height) by (nonlinear_arith)
        requires
            0 < picture.width,
    ;
}

/// Encodes a picture by `image::DynamicImage::write_to`, which fails on a picture without pixels
/// only. The file depends on the picture alone, is not longer than `file_limit`, and decodes to
/// the pixels that went in, whatever the byte order. A row must be short enough for the encoder,
/// which counts runs of zeros in 32 bits.
#[verifier::external_body]
pub(crate) fn encode_png(picture: Picture) -> (r: Vec<u8>)
    requires
        picture.encodable(),
    ensures
        r@ == png_encoded(picture.width, picture.height, picture.data@),
        r@.len() <= file_limit(picture.width, picture.height),
        forall|little_endian: bool| #[trigger]
            png_decoded(r@, little_endian, usize::BITS) == Some(picture.data@),
{
    let buffer = image::ImageBuffer::from_raw(picture.width, picture.height, picture.data);
    let mut cursor = std::io::Cursor::new(Vec::new());
    let encoded = image::DynamicImage::ImageRgba8(buffer.unwrap()).write_to(
        &mut cursor,
        image::ImageFormat::Png,
    );
    encoded.unwrap();
    cursor.into_inner()
}

} // verus!
