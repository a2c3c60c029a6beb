use lopdf::{Dictionary, Document, Object, Stream};
use pdf_splitter::codecs::PixelFormat;
use pdf_splitter::image_scan::{
    choose_deflated_jpeg, extract_images, read_image, ImageEvent, ImageExtraction, ImageScan,
    ImageStep, SkipReason,
};
use pdf_splitter::images::{
    check_pixels, decode_flate_to_jpeg, is_image_xobject, pixel_format_of, read_ccitt_decode_params,
    read_colorspace_name, read_filter_chain, wrap_ccitt_in_tiff, ImageError, ImageFormat,
};
use pdf_splitter::page_tree::SplitError;
use pdf_splitter::tiff::{build_tiff, push_ifd_entry};
use std::io::Write;

fn name(text: &str) -> Object {
    Object::Name(text.as_bytes().to_vec())
}

fn deflate(data: &[u8]) -> Vec<u8> {
    let mut encoder =
        flate2::write::ZlibEncoder::new(Vec::new(), flate2::Compression::default());
    encoder.write_all(data).unwrap();
    encoder.finish().unwrap()
}

fn image_stream(entries: Vec<(&str, Object)>, content: Vec<u8>) -> Stream {
    let mut dict = Dictionary::from_iter(entries);
    dict.set("Subtype", name("Image"));
    Stream::new(dict, content)
}

fn pixel_stream(space: &str, width: i64, height: i64, data: &[u8]) -> Stream {
    image_stream(
        vec![
            ("Filter", name("FlateDecode")),
            ("Width", Object::Integer(width)),
            ("Height", Object::Integer(height)),
            ("BitsPerComponent", Object::Integer(8)),
            ("ColorSpace", name(space)),
        ],
        deflate(data),
    )
}

/// A document whose pages use the given images, each by its place.
fn document_with(images: Vec<Stream>, uses: &[&[usize]]) -> Document {
    let mut doc = Document::new();
    let ids: Vec<(u32, u16)> = images.into_iter().map(|s| doc.add_object(s)).collect();
    let mut pages = Vec::new();
    for used in uses {
        let mut xobjects = Dictionary::new();
        for (k, &at) in used.iter().enumerate() {
            xobjects.set(format!("Im{k}"), Object::Reference(ids[at]));
        }
        let mut resources = Dictionary::new();
        resources.set("XObject", Object::Dictionary(xobjects));
        pages.push(doc.add_object(Dictionary::from_iter(vec![
            ("Type", name("Page")),
            ("Resources", Object::Dictionary(resources)),
        ])));
    }
    let kids: Vec<Object> = pages.iter().map(|&id| Object::Reference(id)).collect();
    let root = doc.add_object(Dictionary::from_iter(vec![
        ("Type", name("Pages")),
        ("Kids", Object::Array(kids)),
        ("Count", Object::Integer(pages.len() as i64)),
    ]));
    let catalog = doc.add_object(Dictionary::from_iter(vec![
        ("Type", name("Catalog")),
        ("Pages", Object::Reference(root)),
    ]));
    doc.trailer.set("Root", Object::Reference(catalog));
    doc
}

#[test]
fn tiff_header_has_correct_magic_and_byte_order() {
    let doc = Document::new();
    let dict = Dictionary::from_iter(vec![
        ("Width", Object::Integer(100)),
        ("Height", Object::Integer(50)),
    ]);
    let stream = Stream::new(dict, vec![0xFFu8; 64]);
    let tiff = wrap_ccitt_in_tiff(&doc, &stream).unwrap();

    assert_eq!(&tiff[0..2], b"II", "Little-endian byte order");
    assert_eq!(&tiff[2..4], &42u16.to_le_bytes(), "TIFF magic");
    let expected_offset = 8 + 2 + 9 * 12 + 4;
    assert_eq!(&tiff[expected_offset..], &[0xFFu8; 64][..]);
}

#[test]
fn tiff_header_defaults_to_g3_when_no_decode_params() {
    let doc = Document::new();
    let dict = Dictionary::from_iter(vec![
        ("Width", Object::Integer(8)),
        ("Height", Object::Integer(4)),
    ]);
    let stream = Stream::new(dict, vec![0u8; 4]);
    let tiff = wrap_ccitt_in_tiff(&doc, &stream).unwrap();

    // Compression is the fourth entry; its value stands 8 bytes into it.
    let compression_value = u16::from_le_bytes([tiff[54], tiff[55]]);
    assert_eq!(compression_value, 3, "K defaults to 0 → G3");
}

#[test]
fn read_filter_chain_handles_single_and_multi() {
    let mut d = Dictionary::new();
    d.set("Filter", Object::Name(b"DCTDecode".to_vec()));
    assert_eq!(read_filter_chain(&d), vec![b"DCTDecode".to_vec()]);

    let mut d2 = Dictionary::new();
    d2.set("Filter", Object::Array(vec![Object::Name(b"JPXDecode".to_vec())]));
    assert_eq!(read_filter_chain(&d2), vec![b"JPXDecode".to_vec()]);

    let mut d3 = Dictionary::new();
    d3.set(
        "Filter",
        Object::Array(vec![
            Object::Name(b"ASCII85Decode".to_vec()),
            Object::Name(b"FlateDecode".to_vec()),
        ]),
    );
    assert_eq!(
        read_filter_chain(&d3),
        vec![b"ASCII85Decode".to_vec(), b"FlateDecode".to_vec()],
        "Multi-filter chain returned"
    );
}

#[test]
fn filter_chains_leave_out_what_is_no_name() {
    assert!(read_filter_chain(&Dictionary::new()).is_empty());
    let odd = Dictionary::from_iter(vec![("Filter", Object::Integer(3))]);
    assert!(read_filter_chain(&odd).is_empty());
    let mixed = Dictionary::from_iter(vec![(
        "Filter",
        Object::Array(vec![Object::Null, name("A"), Object::Integer(1), name("B")]),
    )]);
    assert_eq!(read_filter_chain(&mixed), vec![b"A".to_vec(), b"B".to_vec()]);
}

#[test]
fn images_are_told_by_their_subtype() {
    assert!(is_image_xobject(&Dictionary::from_iter(vec![("Subtype", name("Image"))])));
    assert!(!is_image_xobject(&Dictionary::from_iter(vec![("Subtype", name("Form"))])));
    assert!(!is_image_xobject(&Dictionary::new()));
}

#[test]
fn a_tiff_file_is_laid_out_as_its_directory_says() {
    let file = build_tiff(0x0102_0304, 5, 4, 0, &[7, 8, 9]);
    assert_eq!(file.len(), 122 + 3);
    let entry = |k: usize| &file[10 + 12 * k..22 + 12 * k];
    let tags: Vec<u16> = (0..9).map(|k| u16::from_le_bytes([entry(k)[0], entry(k)[1]])).collect();
    assert_eq!(tags, vec![0x100, 0x101, 0x102, 0x103, 0x106, 0x111, 0x115, 0x116, 0x117]);
    let value = |k: usize| u32::from_le_bytes(entry(k)[8..12].try_into().unwrap());
    let values: Vec<u32> = (0..9).map(value).collect();
    assert_eq!(values, vec![0x0102_0304, 5, 1, 4, 0, 122, 1, 5, 3]);
    assert_eq!(&file[118..122], &[0, 0, 0, 0]);
    assert_eq!(&file[122..], &[7, 8, 9]);
}

#[test]
fn directory_entries_are_little_endian() {
    let mut buf = vec![1u8];
    push_ifd_entry(&mut buf, 0x0102, 3, 0x0405_0607, 0x0809_0a0b);
    assert_eq!(buf, vec![1, 2, 1, 3, 0, 7, 6, 5, 4, 0x0b, 0x0a, 9, 8]);
}

#[test]
fn fax_parameters_come_from_wherever_they_stand() {
    let mut doc = Document::new();
    let params = Dictionary::from_iter(vec![
        ("K", Object::Integer(-1)),
        ("BlackIs1", Object::Boolean(true)),
    ]);
    let id = doc.add_object(params.clone());
    let with = |o: Object| Dictionary::from_iter(vec![("DecodeParms", o)]);
    for d in [
        with(Object::Dictionary(params.clone())),
        with(Object::Reference(id)),
        with(Object::Array(vec![Object::Dictionary(params.clone())])),
        with(Object::Array(vec![Object::Reference(id), Object::Null])),
    ] {
        assert_eq!(read_ccitt_decode_params(&doc, &d), (-1, true));
    }
    for d in [
        Dictionary::new(),
        with(Object::Null),
        with(Object::Array(vec![])),
        with(Object::Array(vec![Object::Null, Object::Dictionary(params)])),
        with(Object::Reference((999, 0))),
    ] {
        assert_eq!(read_ccitt_decode_params(&doc, &d), (0, false));
    }
}

#[test]
fn fax_images_follow_their_parameters() {
    let doc = Document::new();
    let stream = image_stream(
        vec![
            ("Width", Object::Integer(-1)),
            ("Height", Object::Integer(2)),
            (
                "DecodeParms",
                Object::Dictionary(Dictionary::from_iter(vec![
                    ("K", Object::Integer(-1)),
                    ("BlackIs1", Object::Boolean(true)),
                ])),
            ),
        ],
        vec![1, 2],
    );
    assert_eq!(
        wrap_ccitt_in_tiff(&doc, &stream).unwrap(),
        build_tiff(u32::MAX, 2, 4, 0, &[1, 2])
    );
}

#[test]
fn fax_images_need_a_size() {
    let doc = Document::new();
    let missing = wrap_ccitt_in_tiff(&doc, &image_stream(vec![], vec![])).unwrap_err();
    assert!(matches!(missing, ImageError::MissingWidth));
    assert_eq!(missing.message("CCITT", ""), "CCITT image missing /Width");
    let stream = image_stream(vec![("Width", Object::Integer(1))], vec![]);
    let missing = wrap_ccitt_in_tiff(&doc, &stream).unwrap_err();
    assert!(matches!(missing, ImageError::MissingHeight));
    assert_eq!(missing.message("CCITT", ""), "CCITT image missing /Height");
}

#[test]
fn color_spaces_are_read() {
    let mut doc = Document::new();
    let named = doc.add_object(name("DeviceGray"));
    let gray_profile =
        doc.add_object(Stream::new(Dictionary::from_iter(vec![("N", Object::Integer(1))]), vec![]));
    let color_profile =
        doc.add_object(Stream::new(Dictionary::from_iter(vec![("N", Object::Integer(4))]), vec![]));
    let silent_profile = doc.add_object(Stream::new(Dictionary::new(), vec![]));
    let icc = doc.add_object(name("ICCBased"));
    let array = doc.add_object(Object::Array(vec![name("Indexed"), Object::Null]));
    let read = |o: Object| {
        let d = Dictionary::from_iter(vec![("ColorSpace", o)]);
        String::from_utf8(read_colorspace_name(&doc, &d).unwrap()).unwrap()
    };
    assert_eq!(read(name("DeviceCMYK")), "DeviceCMYK");
    assert_eq!(read(Object::Reference(named)), "DeviceGray");
    let with = |id| Object::Array(vec![name("ICCBased"), Object::Reference(id)]);
    assert_eq!(read(with(gray_profile)), "DeviceGray");
    assert_eq!(read(with(color_profile)), "DeviceRGB");
    assert_eq!(read(with(silent_profile)), "DeviceRGB");
    assert_eq!(read(with(named)), "DeviceRGB");
    assert_eq!(read(Object::Array(vec![name("ICCBased")])), "DeviceRGB");
    assert_eq!(
        read(Object::Array(vec![Object::Reference(icc), Object::Reference(gray_profile)])),
        "DeviceGray"
    );
    assert_eq!(
        read(Object::Array(vec![name("Lab"), Object::Reference(gray_profile)])),
        "DeviceRGB"
    );
    let calibrated = vec![name("CalRGB"), Object::Dictionary(Dictionary::new())];
    assert_eq!(read(Object::Array(calibrated)), "DeviceRGB");
    for space in ["DeviceGray", "DeviceRGB", "DeviceCMYK", "Indexed"] {
        assert_eq!(read(Object::Array(vec![name(space)])), space);
    }
    assert_eq!(read(name("Lab")), "Lab");
    assert_eq!(read(Object::Reference(array)), "Indexed");
    assert_eq!(read(Object::Array(vec![])), "DeviceRGB");
    assert_eq!(read(Object::Array(vec![Object::Integer(1)])), "DeviceRGB");
    assert_eq!(read(Object::Array(vec![Object::Reference((999, 0))])), "DeviceRGB");
    assert_eq!(read(Object::Reference((999, 0))), "DeviceRGB");
    assert_eq!(read(Object::Integer(5)), "DeviceRGB");
    assert!(matches!(
        read_colorspace_name(&doc, &Dictionary::new()),
        Err(ImageError::MissingColorSpace)
    ));
}

#[test]
fn references_are_followed_only_so_far() {
    let mut doc = Document::new();
    let mut id = doc.add_object(name("DeviceGray"));
    for _ in 0..128 {
        id = doc.add_object(Object::Reference(id));
    }
    let read = |id| {
        let d = Dictionary::from_iter(vec![("ColorSpace", Object::Reference(id))]);
        read_colorspace_name(&doc, &d).unwrap()
    };
    assert_eq!(read(id), b"DeviceGray");
    let mut longer = doc.clone();
    let one_more = longer.add_object(Object::Reference(id));
    let d = Dictionary::from_iter(vec![("ColorSpace", Object::Reference(one_more))]);
    assert_eq!(read_colorspace_name(&longer, &d).unwrap(), b"DeviceRGB");
}

#[test]
fn pixel_formats_by_color_space() {
    assert!(matches!(pixel_format_of(b"DeviceGray".to_vec()), Ok(PixelFormat::Gray)));
    assert!(matches!(pixel_format_of(b"DeviceRGB".to_vec()), Ok(PixelFormat::Rgb)));
    assert!(matches!(pixel_format_of(b"DeviceCMYK".to_vec()), Err(ImageError::Cmyk)));
    match pixel_format_of(b"Lab".to_vec()) {
        Err(ImageError::UnsupportedColorSpace(found)) => assert_eq!(found, b"Lab"),
        _ => panic!("Lab is not supported"),
    }
}

#[test]
fn pixels_have_to_fill_the_image() {
    let bytes = |n: usize| Ok(vec![5u8; n]);
    assert_eq!(check_pixels(2, 3, PixelFormat::Gray, bytes(6)).unwrap(), vec![5u8; 6]);
    assert_eq!(check_pixels(2, 3, PixelFormat::Rgb, bytes(18)).unwrap().len(), 18);
    assert!(matches!(
        check_pixels(2, 3, PixelFormat::Rgb, bytes(17)),
        Err(ImageError::DataTooShort { found: 17, expected: 18 })
    ));
    assert!(matches!(
        check_pixels(2, 3, PixelFormat::Rgb, bytes(19)),
        Err(ImageError::DataTooLong { found: 19, expected: 18 })
    ));
    assert!(matches!(
        check_pixels(u32::MAX, u32::MAX, PixelFormat::Rgb, bytes(1)),
        Err(ImageError::DataTooShort { found: 1, expected: 55340232195358851075 })
    ));
    assert!(matches!(
        check_pixels(2, 3, PixelFormat::Gray, Err("torn".to_string())),
        Err(ImageError::CorruptData(text)) if text == "torn"
    ));
}

#[test]
fn gray_and_color_images_are_encoded_anew() {
    let doc = Document::new();
    let gray: Vec<u8> = (0..64).map(|i| (i * 4) as u8).collect();
    let file = decode_flate_to_jpeg(&doc, &pixel_stream("DeviceGray", 8, 8, &gray)).unwrap();
    assert_eq!(&file[..2], &[0xff, 0xd8]);
    let decoded = image::load_from_memory(&file).unwrap();
    assert_eq!((decoded.width(), decoded.height()), (8, 8));
    for (a, b) in decoded.to_luma8().as_raw().iter().zip(&gray) {
        assert!((*a as i32 - *b as i32).abs() < 12);
    }

    let red: Vec<u8> = [250, 10, 10].repeat(5 * 3);
    let file = decode_flate_to_jpeg(&doc, &pixel_stream("DeviceRGB", 5, 3, &red)).unwrap();
    let decoded = image::load_from_memory(&file).unwrap().to_rgb8();
    assert_eq!((decoded.width(), decoded.height()), (5, 3));
    let pixel = decoded.get_pixel(2, 1).0;
    assert!(pixel[0] > 230 && pixel[1] < 30 && pixel[2] < 30);
}

#[test]
fn images_that_cannot_be_encoded_say_why() {
    let doc = Document::new();
    let failure = |stream: Stream| {
        let e = decode_flate_to_jpeg(&doc, &stream).unwrap_err();
        e.message("Flate", "Lab")
    };
    assert_eq!(failure(image_stream(vec![], vec![])), "Flate image missing /Width");
    let half = vec![("Width", Object::Integer(1))];
    assert_eq!(failure(image_stream(half, vec![])), "Flate image missing /Height");
    let bare = vec![("Width", Object::Integer(1)), ("Height", Object::Integer(1))];
    assert_eq!(failure(image_stream(bare, vec![])), "missing /ColorSpace");
    assert_eq!(failure(pixel_stream("DeviceCMYK", 1, 1, &[0])), "CMYK not supported");
    assert_eq!(failure(pixel_stream("Lab", 1, 1, &[0])), "unsupported colorspace Lab");
    assert_eq!(
        failure(pixel_stream("DeviceRGB", 1, 1, &[0])),
        "decompressed data too short: 1 < 3"
    );
    assert_eq!(
        failure(pixel_stream("DeviceGray", 1, 1, &[0, 0])),
        "decompressed data too long: 2 > 1"
    );
    assert_eq!(
        failure(pixel_stream("DeviceGray", 0, 1, &[])),
        "Format error encoding Jpeg:\nInvalid image size (0 x 1) to encode as JPEG: \
         width and height must be >= 1 and <= 65535"
    );
    assert_eq!(
        failure(pixel_stream("DeviceGray", 65536, 1, &[0u8; 65536])),
        "Format error encoding Jpeg:\nInvalid image size (65536 x 1) to encode as JPEG: \
         width and height must be >= 1 and <= 65535"
    );
    let mut bits = pixel_stream("DeviceGray", 1, 1, &[0]);
    bits.dict.set("BitsPerComponent", Object::Integer(1));
    assert_eq!(failure(bits), "unsupported BitsPerComponent=1");
    let mut corrupt = pixel_stream("DeviceGray", 1, 1, &[0]);
    corrupt.content = vec![1, 2, 3];
    assert_eq!(failure(corrupt), "corrupt deflate stream");
    let mut torn = pixel_stream("DeviceGray", 1, 1, &[0]);
    torn.content.truncate(3);
    assert_eq!(failure(torn), "incomplete deflate stream");
}

#[test]
fn the_bits_default_to_eight_and_are_cut_down() {
    let doc = Document::new();
    let mut stream = pixel_stream("DeviceGray", 1, 1, &[9]);
    stream.dict.remove(b"BitsPerComponent");
    assert!(decode_flate_to_jpeg(&doc, &stream).is_ok());
    stream.dict.set("BitsPerComponent", Object::Integer(264));
    assert!(decode_flate_to_jpeg(&doc, &stream).is_ok());
}

#[test]
fn filters_decide_what_becomes_of_an_image() {
    let doc = Document::new();
    let with = |filter: Object, content: Vec<u8>| {
        let mut s = image_stream(
            vec![("Width", Object::Integer(2)), ("Height", Object::Integer(2))],
            content,
        );
        s.dict.set("Filter", filter);
        read_image(&doc, &s)
    };
    let pair = |a: &str, b: &str| Object::Array(vec![name(a), name(b)]);
    let both = || pair("FlateDecode", "DCTDecode");
    assert!(matches!(with(name("DCTDecode"), vec![1]), Ok((ImageFormat::Jpg, b)) if b == [1]));
    assert!(matches!(with(name("JPXDecode"), vec![2]), Ok((ImageFormat::Jp2, b)) if b == [2]));
    assert!(matches!(
        with(name("CCITTFaxDecode"), vec![3]),
        Ok((ImageFormat::Tif, b)) if b == build_tiff(2, 2, 3, 1, &[3])
    ));
    assert!(matches!(with(both(), deflate(b"jpeg")), Ok((ImageFormat::Jpg, b)) if b == b"jpeg"));
    assert!(matches!(with(both(), deflate(b"")), Err(SkipReason::UnsupportedFilters(c)) if c.len() == 2));
    assert!(matches!(with(both(), vec![0, 1]), Err(SkipReason::UnsupportedFilters(_))));
    assert!(matches!(
        with(pair("DCTDecode", "FlateDecode"), deflate(b"jpeg")),
        Err(SkipReason::UnsupportedFilters(_))
    ));
    assert!(matches!(with(Object::Array(vec![]), vec![]), Err(SkipReason::NoFilter)));
    assert!(matches!(
        with(name("LZWDecode"), vec![]),
        Err(SkipReason::UnsupportedFilter(f)) if f == b"LZWDecode"
    ));
    assert!(matches!(
        with(name("FlateDecode"), vec![]),
        Err(SkipReason::FlateFailed(ImageError::MissingColorSpace))
    ));
    let mut fax = image_stream(vec![("Filter", name("CCITTFaxDecode"))], vec![]);
    fax.dict.remove(b"Width");
    assert!(matches!(
        read_image(&doc, &fax),
        Err(SkipReason::CcittFailed(ImageError::MissingWidth))
    ));
}

#[test]
fn only_a_jpeg_in_compressed_form_is_taken_out() {
    let chain = vec![b"FlateDecode".to_vec(), b"DCTDecode".to_vec()];
    assert_eq!(choose_deflated_jpeg(&chain, Ok(vec![1])), Some(vec![1]));
    assert_eq!(choose_deflated_jpeg(&chain, Ok(vec![])), None);
    assert_eq!(choose_deflated_jpeg(&chain, Err(String::new())), None);
    let other = vec![b"DCTDecode".to_vec(), b"FlateDecode".to_vec()];
    assert_eq!(choose_deflated_jpeg(&other, Ok(vec![1])), None);
    assert_eq!(choose_deflated_jpeg(&chain[..1].to_vec(), Ok(vec![1])), None);
}

fn jpeg_stream(byte: u8) -> Stream {
    image_stream(vec![("Filter", name("DCTDecode"))], vec![byte])
}

fn told(events: &[ImageEvent]) -> Vec<(usize, Vec<u8>)> {
    events
        .iter()
        .map(|event| match event {
            ImageEvent::Image { number, bytes, .. } => (*number, bytes.clone()),
            ImageEvent::Skipped { .. } => (0, vec![]),
        })
        .collect()
}

#[test]
fn images_count_once_and_are_numbered() {
    let skipped = image_stream(vec![], vec![]);
    let form = Stream::new(Dictionary::from_iter(vec![("Subtype", name("Form"))]), vec![]);
    let doc = document_with(
        vec![jpeg_stream(1), jpeg_stream(2), skipped, form, jpeg_stream(3)],
        &[&[0, 2, 0], &[1, 0, 3, 2], &[], &[4, 1]],
    );
    let events = extract_images(&doc).unwrap();
    assert_eq!(
        told(&events),
        vec![(1, vec![1]), (0, vec![]), (2, vec![2]), (3, vec![3])]
    );
    assert!(matches!(
        &events[1],
        ImageEvent::Skipped { reason: SkipReason::NoFilter, .. }
    ));
}

#[test]
fn an_extraction_goes_page_by_page_and_can_be_stopped() {
    let doc = document_with(
        vec![jpeg_stream(1), jpeg_stream(2), jpeg_stream(3)],
        &[&[0], &[0, 1], &[2]],
    );
    for stop_at in 0..5 {
        let mut extraction = ImageExtraction::new(doc.clone()).ok().unwrap();
        assert_eq!(extraction.total_pages(), 3);
        let mut events = Vec::new();
        let mut stopped = false;
        for step in 0..6 {
            match extraction.advance(step == stop_at) {
                ImageStep::Page(more) => events.extend(more),
                ImageStep::Stopped => stopped = true,
                ImageStep::Finished => {}
            }
        }
        assert_eq!(stopped, stop_at < 3);
        assert_eq!(extraction.pages_done(), stop_at.min(3));
        let all = vec![(1, vec![1]), (2, vec![2]), (3, vec![3])];
        assert_eq!(told(&events), all[..stop_at.min(3)].to_vec());
    }
}

#[test]
fn resources_and_objects_by_reference_are_found() {
    let mut doc = document_with(vec![jpeg_stream(7)], &[&[0]]);
    let page = *doc.get_pages().get(&1).unwrap();
    let resources = doc.get_dictionary(page).unwrap().get(b"Resources").unwrap().clone();
    let moved = doc.add_object(resources);
    doc.get_object_mut(page).unwrap().as_dict_mut().unwrap().set("Resources", Object::Reference(moved));
    let mut scan = ImageScan::new();
    assert_eq!(told(&scan.scan_page(&doc, page)), vec![(1, vec![7])]);
    assert!(scan.scan_page(&doc, page).is_empty());
    assert!(scan.scan_page(&doc, (999, 0)).is_empty());
}

#[test]
fn documents_without_pages_have_no_images() {
    assert!(matches!(extract_images(&Document::new()), Err(SplitError::NoPages)));
    assert!(matches!(ImageExtraction::new(Document::new()), Err(SplitError::NoPages)));
}
