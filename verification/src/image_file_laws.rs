//! What the files of images hold, by what the document says of the images.

use vstd::prelude::*;
use vstd::string::StringSliceAdditionalSpecFns;

use crate::codecs::{inflated, jpeg, PixelFormat};
use crate::image_scan::{image_of, page_xobjects, SkipReasonView};
use crate::images::{
    ccitt_params, ccitt_tiff, color_space, entry_dict, filter_chain, flate_jpeg,
    law_integers_are_cut_to_their_lowest_bits, low_u32, names_among, ImageErrorView, ImageFormat,
};
use crate::pdf::{dictionary_at, entry, object_at, ObjectId, PdfValue};
use crate::tiff::{law_tiff_directory_is_read_back, read16, read32};

verus! {

/// Different texts have different bytes.
proof fn lemma_texts_differ(a: &str, b: &str)
    requires
        a@ != b@,
    ensures
        a.spec_bytes() != b.spec_bytes(),
{
    vstd::utf8::encode_utf8_decode_utf8(a@);
    vstd::utf8::encode_utf8_decode_utf8(b@);
}

/// The file of a fax image tells of it what its dictionary and its parameters say, be these
/// given in place, by a reference, or first in an array. The compression (tag 0x0103) is that of
/// group 4 exactly where `K` is negative, whatever else they say. The photometric interpretation
/// (tag 0x0106) is 0 exactly where `BlackIs1` is true, whatever else they say. The data of the
/// image follows unchanged.
pub proof fn law_fax_files_follow_the_parameters(
    objects: Map<ObjectId, PdfValue>,
    d: Seq<(Seq<u8>, PdfValue)>,
    content: Seq<u8>,
    width: i64,
    height: i64,
    values: Seq<PdfValue>,
    id: ObjectId,
    params: Seq<(Seq<u8>, PdfValue)>,
)
    requires
        content.len() <= u32::MAX,
        entry(d, "Width".spec_bytes()) == Some(PdfValue::Integer(width)),
        entry(d, "Height".spec_bytes()) == Some(PdfValue::Integer(height)),
        ({
            let given = entry(d, "DecodeParms".spec_bytes());
            ||| given == Some(PdfValue::Dictionary(params))
            ||| given == Some(PdfValue::Reference(id)) && dictionary_at(objects, id) == Some(params)
            ||| given == Some(PdfValue::Array(values)) && values.len() > 0 && (values[0]
                == PdfValue::Dictionary(params) || values[0] == PdfValue::Reference(id)
                && dictionary_at(objects, id) == Some(params))
        }),
    ensures
        ccitt_params(objects, d).0 == match entry(params, "K".spec_bytes()) {
            Some(PdfValue::Integer(k)) => k,
            _ => 0i64,
        },
        ccitt_params(objects, d).1 <==> entry(params, "BlackIs1".spec_bytes()) == Some(
            PdfValue::Boolean(true),
        ),
        ccitt_tiff(objects, d, content) matches Ok(file) && {
            &&& read16(file, 46) == 0x0103
            &&& read32(file, 54) == if entry(params, "K".spec_bytes()) matches Some(
                PdfValue::Integer(k),
            ) && k < 0 {
                4int
            } else {
                3int
            }
            &&& read16(file, 58) == 0x0106
            &&& read32(file, 66) == if entry(params, "BlackIs1".spec_bytes()) == Some(
                PdfValue::Boolean(true),
            ) {
                0int
            } else {
                1int
            }
            &&& read16(file, 10) == 0x0100
            &&& read32(file, 18) == width as int % 0x1_0000_0000
            &&& read16(file, 22) == 0x0101
            &&& read32(file, 30) == height as int % 0x1_0000_0000
            &&& file.subrange(122, file.len() as int) == content
        },
{
    law_integers_are_cut_to_their_lowest_bits(width);
    law_integers_are_cut_to_their_lowest_bits(height);
    let compression = if entry(params, "K".spec_bytes()) matches Some(PdfValue::Integer(k)) && k
        < 0 {
        4u16
    } else {
        3u16
    };
    let photometric = if entry(params, "BlackIs1".spec_bytes()) == Some(PdfValue::Boolean(true)) {
        0u16
    } else {
        1u16
    };
    law_tiff_directory_is_read_back(
        width as u32,
        height as u32,
        compression,
        photometric,
        content,
    );
}

/// A fax image without parameters is taken to be encoded by group 3, and its set bits to be
/// white.
pub proof fn law_fax_files_without_parameters(
    objects: Map<ObjectId, PdfValue>,
    d: Seq<(Seq<u8>, PdfValue)>,
    content: Seq<u8>,
    width: i64,
    height: i64,
)
    requires
        content.len() <= u32::MAX,
        entry(d, "Width".spec_bytes()) == Some(PdfValue::Integer(width)),
        entry(d, "Height".spec_bytes()) == Some(PdfValue::Integer(height)),
        match entry(d, "DecodeParms".spec_bytes()) {
            None => true,
            Some(PdfValue::Dictionary(_)) => false,
            Some(PdfValue::Reference(id)) => dictionary_at(objects, id) is None,
            Some(PdfValue::Array(values)) => values.len() == 0 || match values[0] {
                PdfValue::Dictionary(_) => false,
                PdfValue::Reference(id) => dictionary_at(objects, id) is None,
                _ => true,
            },
            Some(_) => true,
        },
    ensures
        ccitt_params(objects, d) == (0i64, false),
        ccitt_tiff(objects, d, content) matches Ok(file) && {
            &&& read16(file, 46) == 0x0103 && read32(file, 54) == 3
            &&& read16(file, 58) == 0x0106 && read32(file, 66) == 1
            &&& file.subrange(122, file.len() as int) == content
        },
{
    law_tiff_directory_is_read_back(width as u32, height as u32, 3, 1, content);
}

/// A fax image has a file exactly if its width and its height are given as integers.
pub proof fn law_fax_files_need_the_size(
    objects: Map<ObjectId, PdfValue>,
    d: Seq<(Seq<u8>, PdfValue)>,
    content: Seq<u8>,
)
    ensures
        ({
            let wide = entry(d, "Width".spec_bytes()) matches Some(PdfValue::Integer(_));
            let high = entry(d, "Height".spec_bytes()) matches Some(PdfValue::Integer(_));
            let file = ccitt_tiff(objects, d, content);
            &&& file is Ok <==> wide && high
            &&& !wide ==> file == Err::<Seq<u8>, _>(ImageErrorView::MissingWidth)
            &&& wide && !high ==> file == Err::<Seq<u8>, _>(ImageErrorView::MissingHeight)
        }),
{
}

/// The filters of two runs of values are those of the first and then those of the second; a name
/// is a filter, and nothing else is.
pub proof fn law_only_names_are_filters(a: Seq<PdfValue>, b: Seq<PdfValue>, value: PdfValue)
    ensures
        names_among(a + b) == names_among(a) + names_among(b),
        names_among(seq![value]) == match value {
            PdfValue::Name(name) => seq![name],
            _ => seq![],
        },
    decreases b.len(),
{
    reveal_with_fuel(names_among, 2);
    assert(seq![value].drop_last() =~= seq![]);
    if b.len() > 0 {
        law_only_names_are_filters(a, b.drop_last(), value);
        assert((a + b).drop_last() =~= a + b.drop_last());
    } else {
        assert(a + b =~= a);
    }
}

/// An image with a single filter, be it given as a name or as the only name in an
/// array, goes by it. What is a JPEG or JPEG 2000 file already is written unchanged,
/// fax data is wrapped in a TIFF file, compressed pixels are encoded as a JPEG file,
/// and anything else is left out.
pub proof fn law_one_filter_decides_the_file(
    objects: Map<ObjectId, PdfValue>,
    d: Seq<(Seq<u8>, PdfValue)>,
    content: Seq<u8>,
    values: Seq<PdfValue>,
    filter: Seq<u8>,
)
    requires
        entry(d, "Filter".spec_bytes()) == Some(PdfValue::Name(filter)) || entry(
            d,
            "Filter".spec_bytes(),
        ) == Some(PdfValue::Array(values)) && names_among(values) == seq![filter],
    ensures
        ({
            let image = image_of(objects, d, content);
            &&& filter == "DCTDecode".spec_bytes() ==> image == Ok::<_, SkipReasonView>(
                (ImageFormat::Jpg, content),
            )
            &&& filter == "JPXDecode".spec_bytes() ==> image == Ok::<_, SkipReasonView>(
                (ImageFormat::Jp2, content),
            )
            &&& filter == "CCITTFaxDecode".spec_bytes() ==> match ccitt_tiff(objects, d, content) {
                Ok(file) => image == Ok::<_, SkipReasonView>((ImageFormat::Tif, file)),
                Err(e) => image == Err::<(ImageFormat, Seq<u8>), _>(SkipReasonView::CcittFailed(e)),
            }
            &&& filter == "FlateDecode".spec_bytes() ==> match flate_jpeg(objects, d, content) {
                Ok(file) => image == Ok::<_, SkipReasonView>((ImageFormat::Jpg, file)),
                Err(e) => image == Err::<(ImageFormat, Seq<u8>), _>(SkipReasonView::FlateFailed(e)),
            }
            &&& filter != "DCTDecode".spec_bytes() && filter != "JPXDecode".spec_bytes() && filter
                != "CCITTFaxDecode".spec_bytes() && filter != "FlateDecode".spec_bytes() ==> image
                == Err::<(ImageFormat, Seq<u8>), _>(SkipReasonView::UnsupportedFilter(filter))
        }),
{
    reveal_strlit("DCTDecode");
    reveal_strlit("JPXDecode");
    reveal_strlit("CCITTFaxDecode");
    reveal_strlit("FlateDecode");
    assert("DCTDecode"@[0] != "JPXDecode"@[0]);
    assert("DCTDecode"@[0] != "CCITTFaxDecode"@[0]);
    assert("DCTDecode"@[0] != "FlateDecode"@[0]);
    assert("JPXDecode"@[0] != "CCITTFaxDecode"@[0]);
    assert("JPXDecode"@[0] != "FlateDecode"@[0]);
    assert("CCITTFaxDecode"@[0] != "FlateDecode"@[0]);
    lemma_texts_differ("DCTDecode", "JPXDecode");
    lemma_texts_differ("DCTDecode", "CCITTFaxDecode");
    lemma_texts_differ("DCTDecode", "FlateDecode");
    lemma_texts_differ("JPXDecode", "CCITTFaxDecode");
    lemma_texts_differ("JPXDecode", "FlateDecode");
    lemma_texts_differ("CCITTFaxDecode", "FlateDecode");
    assert(filter_chain(d) =~= seq![filter]);
    assert(seq!["FlateDecode".spec_bytes(), "DCTDecode".spec_bytes()].len() == 2);
}

/// An image without a filter is left out, and so is one with several, with one exception: a JPEG
/// file that has been compressed once more is written decompressed, where that succeeds and gives
/// something.
pub proof fn law_several_filters_are_left_out(
    objects: Map<ObjectId, PdfValue>,
    d: Seq<(Seq<u8>, PdfValue)>,
    content: Seq<u8>,
    values: Seq<PdfValue>,
)
    requires
        entry(d, "Filter".spec_bytes()) == Some(PdfValue::Array(values)),
    ensures
        ({
            let names = names_among(values);
            let image = image_of(objects, d, content);
            let doubled = names.len() == 2 && names[0] == "FlateDecode".spec_bytes() && names[1]
                == "DCTDecode".spec_bytes() && (inflated(content) matches Ok(bytes) && bytes.len()
                > 0);
            &&& names.len() == 0 ==> image == Err::<(ImageFormat, Seq<u8>), _>(
                SkipReasonView::NoFilter,
            )
            &&& doubled ==> image == Ok::<_, SkipReasonView>(
                (ImageFormat::Jpg, inflated(content)->Ok_0),
            )
            &&& names.len() >= 2 && !doubled ==> image == Err::<(ImageFormat, Seq<u8>), _>(
                SkipReasonView::UnsupportedFilters(names),
            )
        }),
{
    let names = names_among(values);
    let twice = seq!["FlateDecode".spec_bytes(), "DCTDecode".spec_bytes()];
    assert(filter_chain(d) == names);
    if names.len() == 2 && names[0] == twice[0] && names[1] == twice[1] {
        assert(names =~= twice);
    }
}

/// An image whose filter is neither a name nor an array has no filter and is left out.
pub proof fn law_images_without_a_filter_are_left_out(
    objects: Map<ObjectId, PdfValue>,
    d: Seq<(Seq<u8>, PdfValue)>,
    content: Seq<u8>,
)
    requires
        match entry(d, "Filter".spec_bytes()) {
            Some(PdfValue::Name(_)) => false,
            Some(PdfValue::Array(_)) => false,
            _ => true,
        },
    ensures
        image_of(objects, d, content) == Err::<(ImageFormat, Seq<u8>), _>(SkipReasonView::NoFilter),
{
    assert(seq!["FlateDecode".spec_bytes(), "DCTDecode".spec_bytes()].len() == 2);
}

/// The colour space of an image is the one that is named, in place or by a reference, and there
/// is none where nothing is said.
pub proof fn law_color_spaces_by_name(
    objects: Map<ObjectId, PdfValue>,
    d: Seq<(Seq<u8>, PdfValue)>,
    id: ObjectId,
    name: Seq<u8>,
)
    ensures
        entry(d, "ColorSpace".spec_bytes()) is None <==> color_space(objects, d) is None,
        entry(d, "ColorSpace".spec_bytes()) == Some(PdfValue::Name(name)) ==> color_space(
            objects,
            d,
        ) == Some(name),
        entry(d, "ColorSpace".spec_bytes()) == Some(PdfValue::Reference(id)) && object_at(
            objects,
            id,
        ) == Some(PdfValue::Name(name)) ==> color_space(objects, d) == Some(name),
{
}

/// A colour space given by an array, in place or by a reference, goes by the name that stands
/// first, where that is one of a device or an indexed one. One with a profile of a single colour
/// is gray, and any other is red, green and blue.
pub proof fn law_color_spaces_by_array(
    objects: Map<ObjectId, PdfValue>,
    d: Seq<(Seq<u8>, PdfValue)>,
    values: Seq<PdfValue>,
    id: ObjectId,
    first_id: ObjectId,
    first: Seq<u8>,
)
    requires
        entry(d, "ColorSpace".spec_bytes()) == Some(PdfValue::Array(values)) || entry(
            d,
            "ColorSpace".spec_bytes(),
        ) == Some(PdfValue::Reference(id)) && object_at(objects, id) == Some(
            PdfValue::Array(values),
        ),
        values.len() > 0,
        values[0] == PdfValue::Name(first) || values[0] == PdfValue::Reference(first_id)
            && object_at(objects, first_id) == Some(PdfValue::Name(first)),
    ensures
        ({
            let plain = first == "DeviceGray".spec_bytes() || first == "DeviceRGB".spec_bytes()
                || first == "DeviceCMYK".spec_bytes() || first == "Indexed".spec_bytes();
            let single = first == "ICCBased".spec_bytes() && values.len() >= 2
                && (values[1] matches PdfValue::Reference(profile) && (object_at(
                objects,
                profile,
            ) matches Some(PdfValue::Stream(p, _)) && entry(p, "N".spec_bytes()) == Some(
                PdfValue::Integer(1),
            )));
            &&& plain ==> color_space(objects, d) == Some(first)
            &&& !plain && single ==> color_space(objects, d) == Some("DeviceGray".spec_bytes())
            &&& !plain && !single ==> color_space(objects, d) == Some("DeviceRGB".spec_bytes())
        }),
{
}

/// An image of compressed pixels, its width and height taken by their lowest 32 bits and the bits
/// for a colour by their lowest 8, has a file exactly if it is gray or in red, green and blue, with
/// eight bits for each colour, its data can be decompressed, there are exactly as many bytes as
/// the image takes, and no side has no pixels or more than 65535. The file then holds these
/// bytes, encoded at a quality of 92.
pub proof fn law_compressed_pixels_are_encoded(
    objects: Map<ObjectId, PdfValue>,
    d: Seq<(Seq<u8>, PdfValue)>,
    content: Seq<u8>,
    width: i64,
    height: i64,
    name: Seq<u8>,
    bits: i64,
)
    requires
        entry(d, "Width".spec_bytes()) == Some(PdfValue::Integer(width)),
        entry(d, "Height".spec_bytes()) == Some(PdfValue::Integer(height)),
        color_space(objects, d) == Some(name),
        match entry(d, "BitsPerComponent".spec_bytes()) {
            Some(PdfValue::Integer(n)) => n == bits,
            _ => bits == 8,
        },
    ensures
        ({
            let file = flate_jpeg(objects, d, content);
            let gray = name == "DeviceGray".spec_bytes();
            let color = name == "DeviceRGB".spec_bytes();
            let w = width as int % 0x1_0000_0000;
            let h = height as int % 0x1_0000_0000;
            let b = bits as int % 256;
            let bytes = if gray {
                w * h
            } else {
                3 * (w * h)
            };
            let known = (gray || color) && b == 8;
            let fits = 1 <= w <= 65535 && 1 <= h <= 65535;
            &&& file is Ok <==> known && fits && (inflated(content) matches Ok(raw) && raw.len()
                == bytes)
            &&& file matches Ok(written) ==> written == jpeg(
                inflated(content)->Ok_0,
                w as u32,
                h as u32,
                if gray {
                    PixelFormat::Gray
                } else {
                    PixelFormat::Rgb
                },
                92,
            )
            &&& name == "DeviceCMYK".spec_bytes() ==> file == Err::<Seq<u8>, _>(
                ImageErrorView::Cmyk,
            )
            &&& !gray && !color && name != "DeviceCMYK".spec_bytes() ==> file == Err::<Seq<u8>, _>(
                ImageErrorView::UnsupportedColorSpace(name),
            )
            &&& (gray || color) && b != 8 ==> file == Err::<Seq<u8>, _>(
                ImageErrorView::UnsupportedBitsPerComponent(b as u8),
            )
            &&& known ==> match inflated(content) {
                Ok(raw) => {
                    &&& raw.len() < bytes ==> file == Err::<Seq<u8>, _>(
                        ImageErrorView::DataTooShort { found: raw.len() as int, expected: bytes },
                    )
                    &&& raw.len() > bytes ==> file == Err::<Seq<u8>, _>(
                        ImageErrorView::DataTooLong { found: raw.len() as int, expected: bytes },
                    )
                },
                Err(text) => file == Err::<Seq<u8>, _>(ImageErrorView::CorruptData(text)),
            }
        }),
{
    reveal_strlit("DeviceGray");
    reveal_strlit("DeviceRGB");
    reveal_strlit("DeviceCMYK");
    assert("DeviceGray"@[6] != "DeviceRGB"@[6]);
    assert("DeviceGray"@[6] != "DeviceCMYK"@[6]);
    assert("DeviceRGB"@[6] != "DeviceCMYK"@[6]);
    lemma_texts_differ("DeviceGray", "DeviceRGB");
    lemma_texts_differ("DeviceGray", "DeviceCMYK");
    lemma_texts_differ("DeviceRGB", "DeviceCMYK");
    law_integers_are_cut_to_their_lowest_bits(width);
    law_integers_are_cut_to_their_lowest_bits(height);
    law_integers_are_cut_to_their_lowest_bits(bits);
    let pixels = low_u32(width) * low_u32(height);
    assert(low_u32(width) * low_u32(height) * 1 == pixels);
    assert(low_u32(width) * low_u32(height) * 3 == 3 * pixels);
}

/// An image of compressed pixels whose width, height or colour space is not given has no file.
pub proof fn law_compressed_pixels_need_the_size(
    objects: Map<ObjectId, PdfValue>,
    d: Seq<(Seq<u8>, PdfValue)>,
    content: Seq<u8>,
)
    ensures
        ({
            let wide = entry(d, "Width".spec_bytes()) matches Some(PdfValue::Integer(_));
            let high = entry(d, "Height".spec_bytes()) matches Some(PdfValue::Integer(_));
            let file = flate_jpeg(objects, d, content);
            &&& !wide ==> file == Err::<Seq<u8>, _>(ImageErrorView::MissingWidth)
            &&& wide && !high ==> file == Err::<Seq<u8>, _>(ImageErrorView::MissingHeight)
            &&& wide && high && entry(d, "ColorSpace".spec_bytes()) is None ==> file == Err::<
                Seq<u8>,
                _,
            >(ImageErrorView::MissingColorSpace)
        }),
{
}

/// The external objects of a page are those that its resources hold, each of the two given in
/// place or by a reference.
pub proof fn law_pages_use_their_resources(
    objects: Map<ObjectId, PdfValue>,
    page: ObjectId,
    d: Seq<(Seq<u8>, PdfValue)>,
    a: ObjectId,
    b: ObjectId,
    resources: Seq<(Seq<u8>, PdfValue)>,
    entries: Seq<(Seq<u8>, PdfValue)>,
)
    requires
        dictionary_at(objects, page) == Some(d),
        entry(d, "Resources".spec_bytes()) == Some(PdfValue::Dictionary(resources)) || entry(
            d,
            "Resources".spec_bytes(),
        ) == Some(PdfValue::Reference(a)) && dictionary_at(objects, a) == Some(resources),
        entry(resources, "XObject".spec_bytes()) == Some(PdfValue::Dictionary(entries)) || entry(
            resources,
            "XObject".spec_bytes(),
        ) == Some(PdfValue::Reference(b)) && dictionary_at(objects, b) == Some(entries),
    ensures
        page_xobjects(objects, page) == Some(entries),
{
}

/// A page that is no dictionary, or that has no resources, or whose resources hold no external
/// objects, uses none, whatever the pages around it hold.
pub proof fn law_pages_without_resources_use_nothing(
    objects: Map<ObjectId, PdfValue>,
    page: ObjectId,
    d: Seq<(Seq<u8>, PdfValue)>,
    resources: Seq<(Seq<u8>, PdfValue)>,
)
    ensures
        dictionary_at(objects, page) is None ==> page_xobjects(objects, page) is None,
        dictionary_at(objects, page) == Some(d) && match entry(d, "Resources".spec_bytes()) {
            Some(PdfValue::Dictionary(_)) => false,
            Some(PdfValue::Reference(id)) => dictionary_at(objects, id) is None,
            _ => true,
        } ==> page_xobjects(objects, page) is None,
        dictionary_at(objects, page) == Some(d) && entry(d, "Resources".spec_bytes()) == Some(
            PdfValue::Dictionary(resources),
        ) && match entry(resources, "XObject".spec_bytes()) {
            Some(PdfValue::Dictionary(_)) => false,
            Some(PdfValue::Reference(id)) => dictionary_at(objects, id) is None,
            _ => true,
        } ==> page_xobjects(objects, page) is None,
{
}

/// The dictionary under a key is the one that stands there, or the one that a reference there
/// leads to; anything else is none.
pub proof fn law_dictionaries_are_given_in_place_or_by_reference(
    objects: Map<ObjectId, PdfValue>,
    d: Seq<(Seq<u8>, PdfValue)>,
    key: Seq<u8>,
)
    ensures
        entry_dict(objects, d, key) is Some <==> (entry(d, key) matches Some(
            PdfValue::Dictionary(_),
        )) || (entry(d, key) matches Some(PdfValue::Reference(id)) && dictionary_at(
            objects,
            id,
        ) is Some),
        entry(d, key) matches Some(PdfValue::Dictionary(found)) ==> entry_dict(objects, d, key)
            == Some(found),
        entry(d, key) matches Some(PdfValue::Reference(id)) ==> entry_dict(objects, d, key)
            == dictionary_at(objects, id),
{
}

/// A colour space that is given, but neither by a name nor by an array that begins with one, is
/// taken to be red, green and blue.
pub proof fn law_unknown_color_spaces_are_red_green_and_blue(
    objects: Map<ObjectId, PdfValue>,
    d: Seq<(Seq<u8>, PdfValue)>,
    value: PdfValue,
)
    requires
        entry(d, "ColorSpace".spec_bytes()) == Some(value),
        ({
            let target = match value {
                PdfValue::Reference(id) => object_at(objects, id),
                _ => Some(value),
            };
            match target {
                Some(PdfValue::Name(_)) => false,
                Some(PdfValue::Array(values)) => values.len() == 0 || match values[0] {
                    PdfValue::Name(_) => false,
                    PdfValue::Reference(first) => !(object_at(objects, first) matches Some(
                        PdfValue::Name(_),
                    )),
                    _ => true,
                },
                _ => true,
            }
        }),
    ensures
        color_space(objects, d) == Some("DeviceRGB".spec_bytes()),
{
}

} // verus!
