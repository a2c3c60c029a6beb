use lopdf::xref::XrefType;
use lopdf::{Dictionary, Document, Object, Stream};
use pdf_splitter::extract::extract_pages_to_bytes;
use pdf_splitter::page_tree::{page_count, SplitError};

fn document_of(num_pages: usize) -> Document {
    let mut doc = Document::new();
    let font_id = doc.add_object(Dictionary::from_iter(vec![
        ("Type", Object::Name(b"Font".to_vec())),
        ("Subtype", Object::Name(b"Type1".to_vec())),
        ("BaseFont", Object::Name(b"Times-Roman".to_vec())),
    ]));

    let mut page_ids = Vec::new();
    for i in 0..num_pages {
        let text = format!("Page {} content", i + 1);
        let content_id = doc.add_object(Stream::new(
            Dictionary::from_iter(vec![("Length", Object::Integer(text.len() as i64))]),
            text.into_bytes(),
        ));
        let page_id = doc.new_object_id();
        doc.objects.insert(
            page_id,
            Object::Dictionary(Dictionary::from_iter(vec![
                ("Type", Object::Name(b"Page".to_vec())),
                (
                    "MediaBox",
                    Object::Array(vec![
                        Object::Integer(0),
                        Object::Integer(0),
                        Object::Integer(612),
                        Object::Integer(792),
                    ]),
                ),
                ("Contents", Object::Reference(content_id)),
                (
                    "Resources",
                    Object::Dictionary(Dictionary::from_iter(vec![(
                        "Font",
                        Object::Dictionary(Dictionary::from_iter(vec![(
                            "F1",
                            Object::Reference(font_id),
                        )])),
                    )])),
                ),
            ])),
        );
        page_ids.push(page_id);
    }

    let kids: Vec<Object> = page_ids.iter().map(|&id| Object::Reference(id)).collect();
    let pages_id = doc.add_object(Dictionary::from_iter(vec![
        ("Type", Object::Name(b"Pages".to_vec())),
        ("Kids", Object::Array(kids)),
        ("Count", Object::Integer(page_ids.len() as i64)),
    ]));

    for &page_id in &page_ids {
        if let Some(Object::Dictionary(ref mut dict)) = doc.objects.get_mut(&page_id) {
            dict.set("Parent", Object::Reference(pages_id));
        }
    }

    let catalog_id = doc.add_object(Dictionary::from_iter(vec![
        ("Type", Object::Name(b"Catalog".to_vec())),
        ("Pages", Object::Reference(pages_id)),
    ]));
    doc.trailer.set("Root", Object::Reference(catalog_id));
    doc
}

fn tree_root(doc: &Document) -> (u32, u16) {
    let catalog = doc.trailer.get(b"Root").unwrap().as_reference().unwrap();
    doc.get_dictionary(catalog).unwrap().get(b"Pages").unwrap().as_reference().unwrap()
}

fn set_in_root(doc: &mut Document, key: &str, value: Object) {
    let root = tree_root(doc);
    doc.get_object_mut(root).unwrap().as_dict_mut().unwrap().set(key, value);
}

#[test]
fn test_extract_pages_to_file() {
    let doc = document_of(10);
    let bytes = extract_pages_to_bytes(&doc, &[2, 3, 4]).unwrap();

    let loaded = Document::load_mem(&bytes).unwrap();
    let pages = loaded.get_pages().len();
    assert_eq!(pages, 3, "Should have exactly 3 pages");
}

#[test]
fn test_extract_single_page() {
    let doc = document_of(10);
    let bytes = extract_pages_to_bytes(&doc, &[7]).unwrap();

    let loaded = Document::load_mem(&bytes).unwrap();
    assert_eq!(loaded.get_pages().len(), 1, "Should have 1 page");
}

#[test]
fn test_extract_bytes() {
    let doc = document_of(8);
    let bytes = extract_pages_to_bytes(&doc, &[0, 1]).unwrap();
    assert!(!bytes.is_empty(), "Bytes should not be empty");
    assert!(bytes.starts_with(b"%PDF-"), "Should be a PDF");
}

#[test]
fn extracted_pages_are_those_asked_for() {
    let doc = document_of(5);
    let bytes = extract_pages_to_bytes(&doc, &[3, 1]).unwrap();
    let loaded = Document::load_mem(&bytes).unwrap();
    let contents: Vec<Vec<u8>> =
        loaded.get_pages().values().map(|&id| loaded.get_page_content(id).unwrap()).collect();
    assert_eq!(contents.len(), 2);
    assert!(contents[0].starts_with(b"Page 2 content"));
    assert!(contents[1].starts_with(b"Page 4 content"));
}

#[test]
fn extracting_all_pages_still_prunes() {
    let mut doc = document_of(2);
    doc.add_object(Object::string_literal("nothing leads here"));
    let bytes = extract_pages_to_bytes(&doc, &[0, 1]).unwrap();
    assert!(!bytes.windows(13).any(|part| part == b"nothing leads"));
    let loaded = Document::load_mem(&bytes).unwrap();
    assert_eq!(loaded.get_pages().len(), 2);
}

#[test]
fn extracting_leaves_the_source_alone() {
    let doc = document_of(4);
    let before = format!("{:?}", doc.objects);
    extract_pages_to_bytes(&doc, &[0]).unwrap();
    assert_eq!(before, format!("{:?}", doc.objects));
    assert_eq!(page_count(&doc), Ok(4));
}

#[test]
fn pages_are_counted() {
    assert_eq!(page_count(&document_of(7)), Ok(7));
    assert_eq!(page_count(&Document::new()), Ok(0));
}

#[test]
fn a_page_tree_that_leads_round_in_a_circle_is_reported() {
    let mut doc = document_of(3);
    let root = tree_root(&doc);
    set_in_root(&mut doc, "Parent", Object::Reference(root));
    assert_eq!(extract_pages_to_bytes(&doc, &[0]), Err(SplitError::BrokenPageTree));
    // Nothing is taken out here, so nothing walks up the tree.
    assert!(extract_pages_to_bytes(&doc, &[0, 1, 2]).is_ok());
}

/// Moves the pages from `from` on below a node of their own, the last kid of the root.
fn group(doc: &mut Document, from: usize) -> (u32, u16) {
    let root = tree_root(doc);
    let pages: Vec<(u32, u16)> = doc.get_pages().into_values().collect();
    let kids = pages[from..].iter().map(|&id| Object::Reference(id)).collect();
    let node = doc.add_object(Dictionary::from_iter(vec![
        ("Type", Object::Name(b"Pages".to_vec())),
        ("Kids", Object::Array(kids)),
        ("Count", Object::Integer((pages.len() - from) as i64)),
        ("Parent", Object::Reference(root)),
    ]));
    for &id in &pages[from..] {
        doc.get_dictionary_mut(id).unwrap().set("Parent", Object::Reference(node));
    }
    let mut kids: Vec<Object> = pages[..from].iter().map(|&id| Object::Reference(id)).collect();
    kids.push(Object::Reference(node));
    set_in_root(doc, "Kids", Object::Array(kids));
    node
}

#[test]
fn a_kid_with_an_absurd_count_is_reported() {
    let mut doc = document_of(3);
    let node = group(&mut doc, 1);
    assert_eq!(page_count(&doc), Ok(3));
    doc.get_dictionary_mut(node).unwrap().set("Count", i64::MAX);
    assert_eq!(page_count(&doc), Err(SplitError::BrokenPageTree));
    assert_eq!(extract_pages_to_bytes(&doc, &[0]), Err(SplitError::BrokenPageTree));
    let limit = isize::MAX as i64 / 8192;
    doc.get_dictionary_mut(node).unwrap().set("Count", limit);
    // The page before the node counts too.
    assert_eq!(page_count(&doc), Err(SplitError::BrokenPageTree));
    doc.get_dictionary_mut(node).unwrap().set("Count", i64::MIN);
    assert_eq!(page_count(&doc), Ok(3));
}

#[test]
fn a_large_count_is_no_obstacle() {
    let mut doc = document_of(3);
    let node = group(&mut doc, 0);
    doc.get_dictionary_mut(node).unwrap().set("Count", 5_000_000_000_i64);
    assert_eq!(page_count(&doc), Ok(3));
    let bytes = extract_pages_to_bytes(&doc, &[1]).unwrap();
    assert_eq!(Document::load_mem(&bytes).unwrap().get_pages().len(), 1);
}

#[test]
fn a_count_by_reference_is_followed() {
    let mut doc = document_of(3);
    let node = group(&mut doc, 2);
    let count = doc.add_object(Object::Integer(i64::MAX));
    doc.get_dictionary_mut(node).unwrap().set("Count", Object::Reference(count));
    assert_eq!(page_count(&doc), Err(SplitError::BrokenPageTree));
}

#[test]
fn the_count_of_the_root_does_not_matter() {
    let mut doc = document_of(3);
    for count in [5_000_000_000, i64::MAX] {
        set_in_root(&mut doc, "Count", Object::Integer(count));
        assert_eq!(page_count(&doc), Ok(3));
        let bytes = extract_pages_to_bytes(&doc, &[0, 2]).unwrap();
        assert_eq!(Document::load_mem(&bytes).unwrap().get_pages().len(), 2);
    }
}

#[test]
fn nodes_that_nothing_leads_to_do_not_matter() {
    let mut doc = document_of(3);
    let page = *doc.get_pages().get(&1).unwrap();
    let kids = vec![Object::Reference(page), Object::Reference(page), Object::Reference((999, 0))];
    doc.add_object(Dictionary::from_iter(vec![
        ("Type", Object::Name(b"Pages".to_vec())),
        ("Kids", Object::Array(kids)),
        ("Count", Object::Integer(i64::MAX)),
    ]));
    assert_eq!(page_count(&doc), Ok(3));
    let bytes = extract_pages_to_bytes(&doc, &[1, 2]).unwrap();
    let loaded = Document::load_mem(&bytes).unwrap();
    let texts: Vec<Vec<u8>> =
        loaded.get_pages().into_values().map(|id| loaded.get_page_content(id).unwrap()).collect();
    let expected: Vec<Vec<u8>> = doc
        .get_pages()
        .into_values()
        .skip(1)
        .map(|id| doc.get_page_content(id).unwrap())
        .collect();
    assert_eq!(texts, expected);
}

#[test]
fn a_page_tree_whose_kids_lead_back_to_it_is_listed() {
    let mut doc = document_of(2);
    let root = tree_root(&doc);
    let node = group(&mut doc, 1);
    let page = *doc.get_pages().get(&2).unwrap();
    let kids = vec![Object::Reference(page), Object::Reference(root), Object::Reference(node)];
    doc.get_dictionary_mut(node).unwrap().set("Kids", Object::Array(kids));
    assert_eq!(page_count(&doc), Ok(doc.get_pages().len()));
}

#[test]
fn counts_are_counted_down_only_for_pages_below_them() {
    let mut doc = document_of(4);
    let node = group(&mut doc, 2);
    set_in_root(&mut doc, "Count", Object::Integer(i64::MIN + 2));
    doc.get_dictionary_mut(node).unwrap().set("Count", i64::MIN + 1);
    // One of two pages lies below the node, and both lie below the root.
    assert!(extract_pages_to_bytes(&doc, &[0, 2]).is_ok());
    assert_eq!(extract_pages_to_bytes(&doc, &[0, 1]), Err(SplitError::BrokenPageTree));
    assert_eq!(extract_pages_to_bytes(&doc, &[0]), Err(SplitError::BrokenPageTree));
    set_in_root(&mut doc, "Count", Object::Integer(i64::MIN + 1));
    assert_eq!(extract_pages_to_bytes(&doc, &[0, 2]), Err(SplitError::BrokenPageTree));
    assert!(extract_pages_to_bytes(&doc, &[0, 1, 2]).is_ok());
}

#[test]
fn a_document_without_free_object_numbers_is_reported() {
    let mut doc = document_of(2);
    for kind in [XrefType::CrossReferenceTable, XrefType::CrossReferenceStream] {
        doc.reference_table.cross_reference_type = kind;
        doc.max_id = u32::MAX;
        assert_eq!(extract_pages_to_bytes(&doc, &[0]), Err(SplitError::TooManyObjects));
    }
    doc.max_id = u32::MAX - 1;
    assert_eq!(extract_pages_to_bytes(&doc, &[0]), Err(SplitError::TooManyObjects));
    // The mark comes before the numbers.
    doc.binary_mark = vec![0x7f];
    assert_eq!(extract_pages_to_bytes(&doc, &[0]), Err(SplitError::InvalidBinaryMark));
}

#[test]
fn both_kinds_of_cross_reference_are_written() {
    let mut doc = document_of(3);
    for kind in [XrefType::CrossReferenceTable, XrefType::CrossReferenceStream] {
        doc.reference_table.cross_reference_type = kind;
        let bytes = extract_pages_to_bytes(&doc, &[0, 2]).unwrap();
        assert_eq!(Document::load_mem(&bytes).unwrap().get_pages().len(), 2);
    }
}

#[test]
fn the_order_of_indices_does_not_matter() {
    let doc = document_of(5);
    let once = extract_pages_to_bytes(&doc, &[1, 3, 4]).unwrap();
    assert_eq!(extract_pages_to_bytes(&doc, &[4, 1, 3, 1, 4]).unwrap(), once);
}

#[test]
fn an_invalid_binary_mark_is_reported() {
    let mut doc = document_of(2);
    doc.binary_mark = vec![0xff, 0x7f, 0xff, 0xff];
    assert_eq!(extract_pages_to_bytes(&doc, &[0]), Err(SplitError::InvalidBinaryMark));
    doc.binary_mark = vec![0x80];
    assert!(extract_pages_to_bytes(&doc, &[0]).is_ok());
}

#[test]
fn errors_have_messages() {
    assert_eq!(SplitError::NoPages.message(), "PDF has no pages");
    assert_eq!(
        SplitError::ZeroPagesPerChunk.message(),
        "pages_per_chunk must be greater than 0"
    );
    assert_eq!(SplitError::BrokenPageTree.message(), "PDF has a broken page tree");
    assert_eq!(SplitError::TooManyObjects.message(), "PDF has too many objects");
    assert_eq!(SplitError::InvalidBinaryMark.message(), "Invalid binary mark");
}
