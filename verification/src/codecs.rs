//! Decompression and image encoding, as outside crates do them.

use std::io::Read;

use vstd::prelude::*;

use crate::text::decimal;

verus! {

/// What a pixel is made of: one byte of brightness, or one byte each of red,
/// green and blue.
#[derive(Clone, Copy, Debug, PartialEq, Eq, Structural)]
pub enum PixelFormat {
    Gray,
    Rgb,
}

impl PixelFormat {
    /// How many bytes a pixel takes.
    pub open spec fn components(self) -> int {
        match self {
            PixelFormat::Gray => 1,
            PixelFormat::Rgb => 3,
        }
    }
}

/// What compressed bytes stand for, where they can be decompressed, and else what the
/// decoder says of them.
pub uninterp spec fn inflated(bytes: Seq<u8>) -> Result<Seq<u8>, Seq<char>>;

/// Decompressed bytes, or a text, by their contents.
pub open spec fn data_view(data: Result<Vec<u8>, String>) -> Result<Seq<u8>, Seq<char>> {
    match data {
        Ok(raw) => Ok(raw@),
        Err(text) => Err(text@),
    }
}

/// `flate2::read::ZlibDecoder`, read to the end: what the bytes stand for as
/// zlib-compressed data, or the text of the error where they are no such data.
#[verifier::external_body]
pub(crate) fn inflate(bytes: &[u8]) -> (r: Result<Vec<u8>, String>)
    ensures
        data_view(r) == inflated(bytes@),
{
    let mut data = Vec::new();
    match flate2::read::ZlibDecoder::new(bytes).read_to_end(&mut data) {
        Ok(_) => Ok(data),
        Err(e) => Err(e.to_string()),
    }
}

/// The JPEG file for an image given by its pixels, row by row.
pub uninterp spec fn jpeg(
    pixels: Seq<u8>,
    width: u32,
    height: u32,
    format: PixelFormat,
    quality: u8,
) -> Seq<u8>;

/// Whether a JPEG file can hold an image of this size.
pub open spec fn encodable(width: u32, height: u32) -> bool {
    1 <= width <= 65535 && 1 <= height <= 65535
}

/// What the encoder says of an image of a size that a JPEG file cannot hold.
pub open spec fn size_error(width: u32, height: u32) -> Seq<char> {
    "Format error encoding Jpeg:\nInvalid image size ("@ + decimal(width as nat) + " x "@ + decimal(
        height as nat,
    ) + ") to encode as JPEG: width and height must be >= 1 and <= 65535"@
}

/// `image::codecs::jpeg::JpegEncoder`, with the given quality: the JPEG file for an
/// image. There is none exactly where a side of the image has no pixels or more
/// than 65535, and the text of the error then says so. The encoder panics where there are
/// more or fewer pixels than the image has.
#[verifier::external_body]
pub(crate) fn encode_jpeg(
    pixels: &[u8],
    width: u32,
    height: u32,
    format: PixelFormat,
    quality: u8,
) -> (r: Result<Vec<u8>, String>)
    requires
        pixels@.len() == width * height * format.components(),
    ensures
        match r {
            Ok(file) => encodable(width, height) && file@ == jpeg(
                pixels@,
                width,
                height,
                format,
                quality,
            ),
            Err(text) => !encodable(width, height) && text@ == size_error(width, height),
        },
{
    let color = match format {
        PixelFormat::Gray => image::ColorType::L8,
        PixelFormat::Rgb => image::ColorType::Rgb8,
    };
    let mut file = Vec::new();
    let mut encoder = image::codecs::jpeg::JpegEncoder::new_with_quality(&mut file, quality);
    match encoder.encode(pixels, width, height, color.into()) {
        Ok(()) => Ok(file),
        Err(e) => Err(e.to_string()),
    }
}

} // verus!
