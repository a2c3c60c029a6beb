//! The images that a document embeds.

use lopdf::{Dictionary, Document, Object, Stream};
use vstd::prelude::*;
use vstd::string::StringSliceAdditionalSpecFns;

use crate::codecs::{
    data_view, encodable, encode_jpeg, inflate, inflated, jpeg, size_error, PixelFormat,
};
use crate::pdf::{
    dictionary_at, dictionary_value, document_value, entry, get, get_dictionary, get_object, look,
    object_at, object_value, stream_content, stream_dict, stream_parts, ObjectId, ObjectRef,
    PdfValue,
};
use crate::text::{copy_bytes, decimal, decimal_text, same_bytes};
use crate::tiff::{build_tiff, tiff};

verus! {

/// The kind of file that an image is written to.
#[derive(Clone, Copy, Debug, PartialEq, Eq, Structural)]
pub enum ImageFormat {
    Jpg,
    Jp2,
    Tif,
}

/// Why an image could not be converted.
#[derive(Debug)]
pub enum ImageError {
    MissingWidth,
    MissingHeight,
    MissingColorSpace,
    /// The image is in the four colours of print.
    Cmyk,
    /// The image is in the colour space with this name.
    UnsupportedColorSpace(Vec<u8>),
    /// A colour takes this many bits.
    UnsupportedBitsPerComponent(u8),
    /// The data cannot be decompressed; the decoder says this of it.
    CorruptData(String),
    /// There are fewer bytes than the image takes.
    DataTooShort { found: usize, expected: u128 },
    /// There are more bytes than the image takes.
    DataTooLong { found: usize, expected: u128 },
    /// The image cannot be encoded; the encoder says this of it.
    CannotEncode(String),
}

/// Why an image could not be converted.
#[verifier::ext_equal]
pub enum ImageErrorView {
    MissingWidth,
    MissingHeight,
    MissingColorSpace,
    Cmyk,
    UnsupportedColorSpace(Seq<u8>),
    UnsupportedBitsPerComponent(u8),
    CorruptData(Seq<char>),
    DataTooShort { found: int, expected: int },
    DataTooLong { found: int, expected: int },
    CannotEncode(Seq<char>),
}

impl View for ImageError {
    type V = ImageErrorView;

    open spec fn view(&self) -> ImageErrorView {
        match self {
            ImageError::MissingWidth => ImageErrorView::MissingWidth,
            ImageError::MissingHeight => ImageErrorView::MissingHeight,
            ImageError::MissingColorSpace => ImageErrorView::MissingColorSpace,
            ImageError::Cmyk => ImageErrorView::Cmyk,
            ImageError::UnsupportedColorSpace(name) => ImageErrorView::UnsupportedColorSpace(
                name@,
            ),
            ImageError::UnsupportedBitsPerComponent(bits) =>
                ImageErrorView::UnsupportedBitsPerComponent(*bits),
            ImageError::CorruptData(text) => ImageErrorView::CorruptData(text@),
            ImageError::DataTooShort { found, expected } => ImageErrorView::DataTooShort {
                found: *found as int,
                expected: *expected as int,
            },
            ImageError::DataTooLong { found, expected } => ImageErrorView::DataTooLong {
                found: *found as int,
                expected: *expected as int,
            },
            ImageError::CannotEncode(text) => ImageErrorView::CannotEncode(text@),
        }
    }
}

impl ImageErrorView {
    /// The error as a text, for an image of the named kind, whose colour space is
    /// written as given.
    pub open spec fn text(self, kind: Seq<char>, color_space: Seq<char>) -> Seq<char> {
        match self {
            ImageErrorView::MissingWidth => kind + " image missing /Width"@,
            ImageErrorView::MissingHeight => kind + " image missing /Height"@,
            ImageErrorView::MissingColorSpace => "missing /ColorSpace"@,
            ImageErrorView::Cmyk => "CMYK not supported"@,
            ImageErrorView::UnsupportedColorSpace(_) => "unsupported colorspace "@ + color_space,
            ImageErrorView::UnsupportedBitsPerComponent(bits) => "unsupported BitsPerComponent="@
                + decimal(bits as nat),
            ImageErrorView::CorruptData(text) => text,
            ImageErrorView::DataTooShort { found, expected } => "decompressed data too short: "@
                + decimal(found as nat) + " < "@ + decimal(expected as nat),
            ImageErrorView::DataTooLong { found, expected } => "decompressed data too long: "@
                + decimal(found as nat) + " > "@ + decimal(expected as nat),
            ImageErrorView::CannotEncode(text) => text,
        }
    }
}

impl ImageError {
    /// The error as a text, for an image of the named kind, whose colour space is
    /// written as given.
    pub fn message(&self, kind: &str, color_space: &str) -> (r: String)
        ensures
            r@ == self@.text(kind@, color_space@),
    {
        match self {
            ImageError::MissingWidth => kind.to_owned().concat(" image missing /Width"),
            ImageError::MissingHeight => kind.to_owned().concat(" image missing /Height"),
            ImageError::MissingColorSpace => "missing /ColorSpace".to_owned(),
            ImageError::Cmyk => "CMYK not supported".to_owned(),
            ImageError::UnsupportedColorSpace(_) => "unsupported colorspace ".to_owned().concat(
                color_space,
            ),
            ImageError::UnsupportedBitsPerComponent(bits) =>
                "unsupported BitsPerComponent=".to_owned().concat(
                decimal_text(*bits as u128).as_str(),
            ),
            ImageError::CorruptData(text) => text.clone(),
            ImageError::DataTooShort { found, expected } =>
                "decompressed data too short: ".to_owned().concat(
                decimal_text(*found as u128).as_str(),
            ).concat(" < ").concat(decimal_text(*expected).as_str()),
            ImageError::DataTooLong { found, expected } =>
                "decompressed data too long: ".to_owned().concat(
                decimal_text(*found as u128).as_str(),
            ).concat(" > ").concat(decimal_text(*expected).as_str()),
            ImageError::CannotEncode(text) => text.clone(),
        }
    }
}

/// Whether a result is the one described, the error taken by its view.
pub open spec fn bytes_agree(
    r: Result<Vec<u8>, ImageError>,
    described: Result<Seq<u8>, ImageErrorView>,
) -> bool {
    match r {
        Ok(bytes) => described == Ok::<_, ImageErrorView>(bytes@),
        Err(e) => described == Err::<Seq<u8>, _>(e@),
    }
}

/// The dictionary under a key, given there or by a reference.
pub open spec fn entry_dict(
    objects: Map<ObjectId, PdfValue>,
    d: Seq<(Seq<u8>, PdfValue)>,
    key: Seq<u8>,
) -> Option<Seq<(Seq<u8>, PdfValue)>> {
    match entry(d, key) {
        Some(PdfValue::Dictionary(found)) => Some(found),
        Some(PdfValue::Reference(id)) => dictionary_at(objects, id),
        _ => None,
    }
}

/// The dictionary under a key, given there or by a reference.
pub fn dict_entry_as_dict<'a>(doc: &'a Document, dict: &'a Dictionary, key: &[u8]) -> (r: Option<
    &'a Dictionary,
>)
    ensures
        match r {
            Some(found) => entry_dict(
                document_value(*doc).objects,
                dictionary_value(*dict),
                key@,
            ) == Some(dictionary_value(*found)),
            None => entry_dict(
                document_value(*doc).objects,
                dictionary_value(*dict),
                key@,
            ) is None,
        },
{
    match get(dict, key) {
        Some(object) => match look(object) {
            ObjectRef::Dictionary(d) => Some(d),
            ObjectRef::Reference(id) => get_dictionary(doc, id),
            _ => None,
        },
        None => None,
    }
}

/// Whether a stream with this dictionary is an image.
pub open spec fn is_image(d: Seq<(Seq<u8>, PdfValue)>) -> bool {
    entry(d, "Subtype".spec_bytes()) == Some(PdfValue::Name("Image".spec_bytes()))
}

/// Whether a stream with this dictionary is an image.
pub fn is_image_xobject(dict: &Dictionary) -> (r: bool)
    ensures
        r == is_image(dictionary_value(*dict)),
{
    match get(dict, "Subtype".as_bytes()) {
        Some(object) => match look(object) {
            ObjectRef::Name(name) => same_bytes(name.as_slice(), "Image".as_bytes()),
            _ => false,
        },
        None => false,
    }
}

/// The names among the values, in their order.
pub open spec fn names_among(values: Seq<PdfValue>) -> Seq<Seq<u8>>
    decreases values.len(),
{
    if values.len() == 0 {
        seq![]
    } else {
        let before = names_among(values.drop_last());
        match values.last() {
            PdfValue::Name(name) => before.push(name),
            _ => before,
        }
    }
}

/// The names of the filters that a stream has passed through, in their order.
pub open spec fn filter_chain(d: Seq<(Seq<u8>, PdfValue)>) -> Seq<Seq<u8>> {
    match entry(d, "Filter".spec_bytes()) {
        Some(PdfValue::Name(name)) => seq![name],
        Some(PdfValue::Array(values)) => names_among(values),
        _ => seq![],
    }
}

/// The contents of byte vectors.
pub open spec fn views(chain: Seq<Vec<u8>>) -> Seq<Seq<u8>> {
    chain.map_values(|name: Vec<u8>| name@)
}

/// The names of the filters that a stream has passed through, in their order. A
/// stream without filters, or with something else in their place, has none.
pub fn read_filter_chain(dict: &Dictionary) -> (chain: Vec<Vec<u8>>)
    ensures
        views(chain@) == filter_chain(dictionary_value(*dict)),
{
    let mut chain: Vec<Vec<u8>> = Vec::new();
    assert(views(chain@) =~= seq![]);
    match get(dict, "Filter".as_bytes()) {
        Some(object) => match look(object) {
            ObjectRef::Name(name) => {
                chain.push(copy_bytes(name));
                assert(views(chain@) =~= seq![name@]);
            },
            ObjectRef::Array(items) => {
                let ghost values = items@.map_values(|o: Object| object_value(o));
                let mut i: usize = 0;
                assert(values.take(0) =~= seq![]);
                while i < items.len()
                    invariant
                        i <= items@.len(),
                        values == items@.map_values(|o: Object| object_value(o)),
                        views(chain@) == names_among(values.take(i as int)),
                    decreases items.len() - i,
                {
                    proof {
                        assert(values.take(i + 1).drop_last() =~= values.take(i as int));
                        assert(values.take(i + 1).last() == object_value(items@[i as int]));
                    }
                    let ghost before = views(chain@);
                    match look(&items[i]) {
                        ObjectRef::Name(name) => {
                            chain.push(copy_bytes(name));
                            assert(views(chain@) =~= before.push(name@));
                        },
                        _ => {},
                    }
                    i += 1;
                }
                assert(values.take(i as int) =~= values);
            },
            _ => {},
        },
        None => {},
    }
    chain
}

/// The integer under a key.
pub open spec fn entry_int(d: Seq<(Seq<u8>, PdfValue)>, key: Seq<u8>) -> Option<i64> {
    match entry(d, key) {
        Some(PdfValue::Integer(n)) => Some(n),
        _ => None,
    }
}

/// The integer under a key.
fn get_int(dict: &Dictionary, key: &[u8]) -> (r: Option<i64>)
    ensures
        r == entry_int(dictionary_value(*dict), key@),
{
    match get(dict, key) {
        Some(object) => match look(object) {
            ObjectRef::Integer(n) => Some(n),
            _ => None,
        },
        None => None,
    }
}

/// An integer cut down to 32 bits.
pub open spec fn low_u32(n: i64) -> u32 {
    n as u32
}

/// An integer cut down to 8 bits.
pub open spec fn low_u8(n: i64) -> u8 {
    n as u8
}

/// The parameters of fax encoding: those of the first filter, where there are
/// several.
pub open spec fn decode_params(
    objects: Map<ObjectId, PdfValue>,
    d: Seq<(Seq<u8>, PdfValue)>,
) -> Option<Seq<(Seq<u8>, PdfValue)>> {
    match entry(d, "DecodeParms".spec_bytes()) {
        Some(PdfValue::Dictionary(found)) => Some(found),
        Some(PdfValue::Reference(id)) => dictionary_at(objects, id),
        Some(PdfValue::Array(values)) => if values.len() == 0 {
            None
        } else {
            match values[0] {
                PdfValue::Dictionary(found) => Some(found),
                PdfValue::Reference(id) => dictionary_at(objects, id),
                _ => None,
            }
        },
        _ => None,
    }
}

/// The parameter `K` of fax encoding, and whether a set bit is black.
pub open spec fn ccitt_params(
    objects: Map<ObjectId, PdfValue>,
    d: Seq<(Seq<u8>, PdfValue)>,
) -> (i64, bool) {
    match decode_params(objects, d) {
        Some(params) => (
            match entry_int(params, "K".spec_bytes()) {
                Some(k) => k,
                None => 0,
            },
            entry(params, "BlackIs1".spec_bytes()) == Some(PdfValue::Boolean(true)),
        ),
        None => (0, false),
    }
}

/// The parameter `K` of fax encoding, 0 where it is not given, and whether a set
/// bit is black, as it is not where nothing is said.
pub fn read_ccitt_decode_params(doc: &Document, image_dict: &Dictionary) -> (r: (i64, bool))
    ensures
        r == ccitt_params(document_value(*doc).objects, dictionary_value(*image_dict)),
{
    let params = match get(image_dict, "DecodeParms".as_bytes()) {
        Some(object) => match look(object) {
            ObjectRef::Dictionary(d) => Some(d),
            ObjectRef::Reference(id) => get_dictionary(doc, id),
            ObjectRef::Array(items) => if items.len() == 0 {
                None
            } else {
                match look(&items[0]) {
                    ObjectRef::Dictionary(d) => Some(d),
                    ObjectRef::Reference(id) => get_dictionary(doc, id),
                    _ => None,
                }
            },
            _ => None,
        },
        None => None,
    };
    match params {
        Some(dict) => {
            let k: i64 = match get_int(dict, "K".as_bytes()) {
                Some(k) => k,
                None => 0,
            };
            let black_is_1 = match get(dict, "BlackIs1".as_bytes()) {
                Some(object) => match look(object) {
                    ObjectRef::Boolean(b) => b,
                    _ => false,
                },
                None => false,
            };
            (k, black_is_1)
        },
        None => (0, false),
    }
}

/// The TIFF file for a fax-encoded image.
pub open spec fn ccitt_tiff(
    objects: Map<ObjectId, PdfValue>,
    d: Seq<(Seq<u8>, PdfValue)>,
    content: Seq<u8>,
) -> Result<Seq<u8>, ImageErrorView> {
    match (entry_int(d, "Width".spec_bytes()), entry_int(d, "Height".spec_bytes())) {
        (None, _) => Err(ImageErrorView::MissingWidth),
        (_, None) => Err(ImageErrorView::MissingHeight),
        (Some(width), Some(height)) => {
            let (k, black_is_1) = ccitt_params(objects, d);
            let compression = if k < 0 {
                4u16
            } else {
                3u16
            };
            let photometric = if black_is_1 {
                0u16
            } else {
                1u16
            };
            Ok(tiff(low_u32(width), low_u32(height), compression, photometric, content))
        },
    }
}

/// Wraps fax-encoded image data in a TIFF file. Where `K` is negative the data is
/// taken to be encoded by group 4, and else by group 3.
pub fn wrap_ccitt_in_tiff(doc: &Document, stream: &Stream) -> (r: Result<Vec<u8>, ImageError>)
    ensures
        bytes_agree(
            r,
            ccitt_tiff(
                document_value(*doc).objects,
                stream_dict(*stream),
                stream_content(*stream),
            ),
        ),
{
    let (dict, content) = stream_parts(stream);
    let width: u32 = match get_int(dict, "Width".as_bytes()) {
        Some(width) => #[verifier::truncate] (width as u32),
        None => return Err(ImageError::MissingWidth),
    };
    let height: u32 = match get_int(dict, "Height".as_bytes()) {
        Some(height) => #[verifier::truncate] (height as u32),
        None => return Err(ImageError::MissingHeight),
    };
    let (k, black_is_1) = read_ccitt_decode_params(doc, dict);
    let compression: u16 = if k < 0 {
        4
    } else {
        3
    };
    let photometric: u16 = if black_is_1 {
        0
    } else {
        1
    };
    Ok(build_tiff(width, height, compression, photometric, content.as_slice()))
}

/// The name that stands first in a colour space given by several values.
pub open spec fn first_name(objects: Map<ObjectId, PdfValue>, values: Seq<PdfValue>) -> Option<
    Seq<u8>,
> {
    if values.len() == 0 {
        None
    } else {
        match values[0] {
            PdfValue::Name(name) => Some(name),
            PdfValue::Reference(id) => match object_at(objects, id) {
                Some(PdfValue::Name(name)) => Some(name),
                _ => None,
            },
            _ => None,
        }
    }
}

/// The number of colours that the profile of a colour space has: 3 where it does
/// not say; `None` where there is no profile.
pub open spec fn profile_colors(
    objects: Map<ObjectId, PdfValue>,
    values: Seq<PdfValue>,
) -> Option<i64> {
    if values.len() < 2 {
        None
    } else {
        match values[1] {
            PdfValue::Reference(id) => match object_at(objects, id) {
                Some(PdfValue::Stream(d, _)) => match entry_int(d, "N".spec_bytes()) {
                    Some(n) => Some(n),
                    None => Some(3),
                },
                _ => None,
            },
            _ => None,
        }
    }
}

/// Whether a colour space given by several values goes by the name that stands first:
/// those of devices do, and indexed ones.
pub open spec fn is_plain_space(name: Seq<u8>) -> bool {
    name == "DeviceGray".spec_bytes() || name == "DeviceRGB".spec_bytes() || name
        == "DeviceCMYK".spec_bytes() || name == "Indexed".spec_bytes()
}

/// The name of a colour space given by several values: that of the device for one
/// with a profile, the name that stands first for one that goes by it, and red, green
/// and blue for any other.
pub open spec fn array_color_space(
    objects: Map<ObjectId, PdfValue>,
    values: Seq<PdfValue>,
) -> Seq<u8> {
    match first_name(objects, values) {
        Some(name) => if is_plain_space(name) {
            name
        } else if name == "ICCBased".spec_bytes() && profile_colors(objects, values) == Some(1i64) {
            "DeviceGray".spec_bytes()
        } else {
            "DeviceRGB".spec_bytes()
        },
        None => "DeviceRGB".spec_bytes(),
    }
}

/// The name of the colour space of an image; `None` where it has none. One that is
/// not understood is taken to be red, green and blue.
pub open spec fn color_space(
    objects: Map<ObjectId, PdfValue>,
    d: Seq<(Seq<u8>, PdfValue)>,
) -> Option<Seq<u8>> {
    match entry(d, "ColorSpace".spec_bytes()) {
        Some(value) => {
            let target = match value {
                PdfValue::Reference(id) => object_at(objects, id),
                _ => Some(value),
            };
            match target {
                Some(PdfValue::Name(name)) => Some(name),
                Some(PdfValue::Array(values)) => Some(array_color_space(objects, values)),
                _ => Some("DeviceRGB".spec_bytes()),
            }
        },
        None => None,
    }
}

/// The bytes of a text.
fn bytes_of(text: &str) -> (r: Vec<u8>)
    ensures
        r@ == text.spec_bytes(),
{
    let mut r: Vec<u8> = Vec::new();
    r.extend_from_slice(text.as_bytes());
    assert(r@ =~= text.spec_bytes());
    r
}

/// Whether a colour space given by several values goes by the name that stands first.
fn goes_by_name(name: &[u8]) -> (r: bool)
    ensures
        r == is_plain_space(name@),
{
    same_bytes(name, "DeviceGray".as_bytes()) || same_bytes(name, "DeviceRGB".as_bytes())
        || same_bytes(name, "DeviceCMYK".as_bytes()) || same_bytes(name, "Indexed".as_bytes())
}

/// The name of a colour space given by several values.
fn read_array_color_space(doc: &Document, items: &Vec<Object>) -> (r: Vec<u8>)
    ensures
        r@ == array_color_space(
            document_value(*doc).objects,
            items@.map_values(|o: Object| object_value(o)),
        ),
{
    if items.len() == 0 {
        return bytes_of("DeviceRGB");
    }
    let first = match look(&items[0]) {
        ObjectRef::Name(name) => copy_bytes(name),
        ObjectRef::Reference(id) => match get_object(doc, id) {
            Some(object) => match look(object) {
                ObjectRef::Name(name) => copy_bytes(name),
                _ => return bytes_of("DeviceRGB"),
            },
            None => return bytes_of("DeviceRGB"),
        },
        _ => return bytes_of("DeviceRGB"),
    };
    if goes_by_name(first.as_slice()) {
        return first;
    }
    if items.len() >= 2 && same_bytes(first.as_slice(), "ICCBased".as_bytes()) {
        match look(&items[1]) {
            ObjectRef::Reference(id) => match get_object(doc, id) {
                Some(object) => match look(object) {
                    ObjectRef::Stream(profile) => match get_int(
                        stream_parts(profile).0,
                        "N".as_bytes(),
                    ) {
                        Some(n) => if n == 1 {
                            return bytes_of("DeviceGray");
                        },
                        None => {},
                    },
                    _ => {},
                },
                None => {},
            },
            _ => {},
        }
    }
    bytes_of("DeviceRGB")
}

/// Reads the name of the colour space of an image.
pub fn read_colorspace_name(doc: &Document, image_dict: &Dictionary) -> (r: Result<
    Vec<u8>,
    ImageError,
>)
    ensures
        match color_space(document_value(*doc).objects, dictionary_value(*image_dict)) {
            Some(name) => r matches Ok(found) && found@ == name,
            None => r matches Err(e) && e@ == ImageErrorView::MissingColorSpace,
        },
{
    let object = match get(image_dict, "ColorSpace".as_bytes()) {
        Some(object) => object,
        None => return Err(ImageError::MissingColorSpace),
    };
    let target = match look(object) {
        ObjectRef::Reference(id) => get_object(doc, id),
        _ => Some(object),
    };
    match target {
        Some(found) => match look(found) {
            ObjectRef::Name(name) => Ok(copy_bytes(name)),
            ObjectRef::Array(items) => Ok(read_array_color_space(doc, items)),
            _ => Ok(bytes_of("DeviceRGB")),
        },
        None => Ok(bytes_of("DeviceRGB")),
    }
}

/// The quality at which images are encoded.
pub const JPEG_QUALITY: u8 = 92;

/// What the pixels of an image in the named colour space are made of.
pub open spec fn pixel_format(name: Seq<u8>) -> Result<PixelFormat, ImageErrorView> {
    if name == "DeviceGray".spec_bytes() {
        Ok(PixelFormat::Gray)
    } else if name == "DeviceRGB".spec_bytes() {
        Ok(PixelFormat::Rgb)
    } else if name == "DeviceCMYK".spec_bytes() {
        Err(ImageErrorView::Cmyk)
    } else {
        Err(ImageErrorView::UnsupportedColorSpace(name))
    }
}

/// What the pixels of an image in the named colour space are made of.
pub fn pixel_format_of(name: Vec<u8>) -> (r: Result<PixelFormat, ImageError>)
    ensures
        match r {
            Ok(format) => pixel_format(name@) == Ok::<_, ImageErrorView>(format),
            Err(e) => pixel_format(name@) == Err::<PixelFormat, _>(e@),
        },
{
    if same_bytes(name.as_slice(), "DeviceGray".as_bytes()) {
        Ok(PixelFormat::Gray)
    } else if same_bytes(name.as_slice(), "DeviceRGB".as_bytes()) {
        Ok(PixelFormat::Rgb)
    } else if same_bytes(name.as_slice(), "DeviceCMYK".as_bytes()) {
        Err(ImageError::Cmyk)
    } else {
        Err(ImageError::UnsupportedColorSpace(name))
    }
}

/// The pixels of an image of the given size, out of what decompressing gives.
pub open spec fn pixels_of(
    width: u32,
    height: u32,
    format: PixelFormat,
    data: Result<Seq<u8>, Seq<char>>,
) -> Result<Seq<u8>, ImageErrorView> {
    let expected = width * height * format.components();
    match data {
        Ok(raw) => if raw.len() < expected {
            Err(ImageErrorView::DataTooShort { found: raw.len() as int, expected })
        } else if raw.len() > expected {
            Err(ImageErrorView::DataTooLong { found: raw.len() as int, expected })
        } else {
            Ok(raw)
        },
        Err(text) => Err(ImageErrorView::CorruptData(text)),
    }
}

/// The pixels of an image of the given size, out of what decompressing gives: there have
/// to be as many bytes as the image takes.
pub fn check_pixels(
    width: u32,
    height: u32,
    format: PixelFormat,
    data: Result<Vec<u8>, String>,
) -> (r: Result<Vec<u8>, ImageError>)
    ensures
        bytes_agree(r, pixels_of(width, height, format, data_view(data))),
{
    let raw = match data {
        Ok(raw) => raw,
        Err(text) => return Err(ImageError::CorruptData(text)),
    };
    let components: u128 = match format {
        PixelFormat::Gray => 1,
        PixelFormat::Rgb => 3,
    };
    assert(width * height <= u32::MAX * u32::MAX) by (nonlinear_arith)
        requires
            0 <= width <= u32::MAX,
            0 <= height <= u32::MAX,
    ;
    let expected: u128 = width as u128 * height as u128 * components;
    let found: usize = raw.len();
    if (found as u128) < expected {
        Err(ImageError::DataTooShort { found, expected })
    } else if found as u128 > expected {
        Err(ImageError::DataTooLong { found, expected })
    } else {
        Ok(raw)
    }
}

/// The JPEG file for an image whose data is compressed pixels.
pub open spec fn flate_jpeg(
    objects: Map<ObjectId, PdfValue>,
    d: Seq<(Seq<u8>, PdfValue)>,
    content: Seq<u8>,
) -> Result<Seq<u8>, ImageErrorView> {
    match (
        entry_int(d, "Width".spec_bytes()),
        entry_int(d, "Height".spec_bytes()),
        color_space(objects, d),
    ) {
        (None, _, _) => Err(ImageErrorView::MissingWidth),
        (_, None, _) => Err(ImageErrorView::MissingHeight),
        (_, _, None) => Err(ImageErrorView::MissingColorSpace),
        (Some(w), Some(h), Some(name)) => {
            let width = low_u32(w);
            let height = low_u32(h);
            let bits = match entry_int(d, "BitsPerComponent".spec_bytes()) {
                Some(bits) => low_u8(bits),
                None => 8u8,
            };
            match pixel_format(name) {
                Ok(format) => if bits != 8 {
                    Err(ImageErrorView::UnsupportedBitsPerComponent(bits))
                } else {
                    match pixels_of(width, height, format, inflated(content)) {
                        Ok(pixels) => if encodable(width, height) {
                            Ok(jpeg(pixels, width, height, format, JPEG_QUALITY))
                        } else {
                            Err(ImageErrorView::CannotEncode(size_error(width, height)))
                        },
                        Err(e) => Err(e),
                    }
                },
                Err(e) => Err(e),
            }
        },
    }
}

/// Decompresses the pixels of an image and encodes them anew. The image has to be
/// in shades of gray or in red, green and blue, with eight bits for each.
pub fn decode_flate_to_jpeg(doc: &Document, stream: &Stream) -> (r: Result<Vec<u8>, ImageError>)
    ensures
        bytes_agree(
            r,
            flate_jpeg(
                document_value(*doc).objects,
                stream_dict(*stream),
                stream_content(*stream),
            ),
        ),
{
    let (dict, content) = stream_parts(stream);
    let width: u32 = match get_int(dict, "Width".as_bytes()) {
        Some(width) => #[verifier::truncate] (width as u32),
        None => return Err(ImageError::MissingWidth),
    };
    let height: u32 = match get_int(dict, "Height".as_bytes()) {
        Some(height) => #[verifier::truncate] (height as u32),
        None => return Err(ImageError::MissingHeight),
    };
    let bits: u8 = match get_int(dict, "BitsPerComponent".as_bytes()) {
        Some(bits) => #[verifier::truncate] (bits as u8),
        None => 8,
    };
    let name = match read_colorspace_name(doc, dict) {
        Ok(name) => name,
        Err(e) => return Err(e),
    };
    let format = match pixel_format_of(name) {
        Ok(format) => format,
        Err(e) => return Err(e),
    };
    if bits != 8 {
        return Err(ImageError::UnsupportedBitsPerComponent(bits));
    }
    let pixels = match check_pixels(width, height, format, inflate(content.as_slice())) {
        Ok(pixels) => pixels,
        Err(e) => return Err(e),
    };
    match encode_jpeg(pixels.as_slice(), width, height, format, JPEG_QUALITY) {
        Ok(file) => Ok(file),
        Err(text) => Err(ImageError::CannotEncode(text)),
    }
}

/// A result agrees with a description exactly if both are bytes, and the same ones, or both are
/// errors, and the same one.
pub proof fn law_agreeing_results_are_the_same(
    r: Result<Vec<u8>, ImageError>,
    described: Result<Seq<u8>, ImageErrorView>,
)
    ensures
        bytes_agree(r, described) <==> match (r, described) {
            (Ok(bytes), Ok(same)) => bytes@ == same,
            (Err(e), Err(same)) => e@ == same,
            _ => false,
        },
{
}

/// An error names the kind of the image where a side is missing, its colour space where that is
/// not supported, and numbers where they are wrong; what a decoder or an encoder says is told as
/// it is.
pub proof fn law_image_errors_are_told(
    kind: Seq<char>,
    space: Seq<char>,
    name: Seq<u8>,
    bits: u8,
    said: Seq<char>,
    found: nat,
    expected: nat,
)
    ensures
        ImageErrorView::MissingWidth.text(kind, space) == kind + " image missing /Width"@,
        ImageErrorView::MissingHeight.text(kind, space) == kind + " image missing /Height"@,
        ImageErrorView::UnsupportedColorSpace(name).text(kind, space) == "unsupported colorspace "@
            + space,
        ImageErrorView::UnsupportedBitsPerComponent(bits).text(kind, space)
            == "unsupported BitsPerComponent="@ + decimal(bits as nat),
        ImageErrorView::CorruptData(said).text(kind, space) == said,
        ImageErrorView::CannotEncode(said).text(kind, space) == said,
        ({
            let short = ImageErrorView::DataTooShort {
                found: found as int,
                expected: expected as int,
            };
            let long = ImageErrorView::DataTooLong {
                found: found as int,
                expected: expected as int,
            };
            &&& short.text(kind, space) == "decompressed data too short: "@ + decimal(found)
                + " < "@ + decimal(expected)
            &&& long.text(kind, space) == "decompressed data too long: "@ + decimal(found) + " > "@
                + decimal(expected)
        }),
{
}

/// An integer that is cut down to 32 or 8 bits is the remainder by as many values as these have,
/// whatever its sign.
pub proof fn law_integers_are_cut_to_their_lowest_bits(n: i64)
    ensures
        low_u32(n) as int == n as int % 0x1_0000_0000,
        low_u8(n) as int == n as int % 256,
        0 <= n <= u32::MAX ==> low_u32(n) == n,
        0 <= n <= u8::MAX ==> low_u8(n) == n,
{
    let wide = n as u64;
    assert(n as u32 == wide as u32) by (bit_vector)
        requires
            wide == n as u64,
    ;
    assert(n as u8 == wide as u8) by (bit_vector)
        requires
            wide == n as u64,
    ;
    assert(wide as u32 == wide % 0x1_0000_0000) by (bit_vector);
    assert(wide as u8 == wide % 256) by (bit_vector);
    assert(n < 0 ==> wide == n + 0x1_0000_0000_0000_0000) by (bit_vector)
        requires
            wide == n as u64,
    ;
}

/// The names of filters are described one by one, by their bytes.
pub proof fn law_filters_are_described_by_their_bytes(chain: Seq<Vec<u8>>, i: int)
    ensures
        views(chain).len() == chain.len(),
        0 <= i < chain.len() ==> views(chain)[i] == chain[i]@,
{
}

} // verus!
