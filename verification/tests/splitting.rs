use std::cell::Cell;

use lopdf::{Dictionary, Document, Object, Stream};
use pdf_splitter::chunks::Chunk;
use pdf_splitter::extract::extract_pages_to_bytes;
use pdf_splitter::page_split::{split_by_page_count, PageSplit};
use pdf_splitter::page_tree::SplitError;
use pdf_splitter::size_split::{
    find_fitting_end, find_fitting_end_with_control, split_by_size, SizeSplit, SplitStep,
};

fn uneven_document(num_pages: usize) -> Document {
    let mut doc = Document::new();
    let font_id = doc.add_object(Dictionary::from_iter(vec![
        ("Type", Object::Name(b"Font".to_vec())),
        ("Subtype", Object::Name(b"Type1".to_vec())),
        ("BaseFont", Object::Name(b"Times-Roman".to_vec())),
    ]));

    let mut page_ids = Vec::new();
    for i in 0..num_pages {
        let text = format!("Page {} content with enough text to fill varying sizes ", i + 1)
            .repeat(if i % 2 == 0 { 10 } else { 100 });
        let content_id = doc.add_object(Stream::new(
            Dictionary::from_iter(vec![("Length", Object::Integer(text.len() as i64))]),
            text.into_bytes(),
        ));
        let page_id = doc.new_object_id();
        doc.objects.insert(
            page_id,
            Object::Dictionary(Dictionary::from_iter(vec![
                ("Type", Object::Name(b"Page".to_vec())),
                (
                    "MediaBox",
                    Object::Array(vec![
                        Object::Integer(0),
                        Object::Integer(0),
                        Object::Integer(612),
                        Object::Integer(792),
                    ]),
                ),
                ("Contents", Object::Reference(content_id)),
                (
                    "Resources",
                    Object::Dictionary(Dictionary::from_iter(vec![(
                        "Font",
                        Object::Dictionary(Dictionary::from_iter(vec![(
                            "F1",
                            Object::Reference(font_id),
                        )])),
                    )])),
                ),
            ])),
        );
        page_ids.push(page_id);
    }

    let kids: Vec<Object> = page_ids.iter().map(|&id| Object::Reference(id)).collect();
    let pages_id = doc.add_object(Dictionary::from_iter(vec![
        ("Type", Object::Name(b"Pages".to_vec())),
        ("Kids", Object::Array(kids)),
        ("Count", Object::Integer(page_ids.len() as i64)),
    ]));

    for &page_id in &page_ids {
        if let Some(Object::Dictionary(ref mut dict)) = doc.objects.get_mut(&page_id) {
            dict.set("Parent", Object::Reference(pages_id));
        }
    }

    let catalog_id = doc.add_object(Dictionary::from_iter(vec![
        ("Type", Object::Name(b"Catalog".to_vec())),
        ("Pages", Object::Reference(pages_id)),
    ]));
    doc.trailer.set("Root", Object::Reference(catalog_id));
    doc
}

/// The sizes of what is left of a document as it shrinks page by page.
fn cumulative_sizes_of(doc: &Document) -> Vec<u64> {
    let total_pages = doc.get_pages().len();
    let mut cumulative = vec![0u64; total_pages + 1];
    let mut working = doc.clone();
    let mut buf = Vec::new();
    working.save_to(&mut buf).unwrap();
    cumulative[0] = buf.len() as u64;
    for i in 1..total_pages {
        working.delete_pages(&[1]);
        working.prune_objects();
        let mut buf = Vec::new();
        working.save_to(&mut buf).unwrap();
        cumulative[i] = buf.len() as u64;
    }
    cumulative
}

#[test]
fn test_cumulative_measurement_accuracy() {
    let doc = uneven_document(10);
    let total_pages = doc.get_pages().len();
    let cumulative = cumulative_sizes_of(&doc);

    let actual_single = extract_pages_to_bytes(&doc, &[0]).unwrap().len() as u64;
    let predicted_single = cumulative[0] - cumulative[1];
    let shared_overhead = actual_single.saturating_sub(predicted_single);
    assert!(shared_overhead > 0, "Shared overhead should be > 0, got {shared_overhead}");

    // All pages but the last: the shared objects and the page itself.
    for i in 0..total_pages - 1 {
        let predicted = shared_overhead + cumulative[i] - cumulative[i + 1];
        let actual = extract_pages_to_bytes(&doc, &[i]).unwrap().len() as u64;
        let diff = if predicted > actual { predicted - actual } else { actual - predicted };
        assert!(diff < 50, "Page {i}: predicted={predicted}, actual={actual}, diff={diff}");
    }

    // The last page: the shared objects are part of what was measured.
    {
        let actual = extract_pages_to_bytes(&doc, &[total_pages - 1]).unwrap().len() as u64;
        let diff = if cumulative[total_pages - 1] > actual {
            cumulative[total_pages - 1] - actual
        } else {
            actual - cumulative[total_pages - 1]
        };
        assert!(
            diff < 50,
            "Last page: predicted={}, actual={}, diff={}",
            cumulative[total_pages - 1],
            actual,
            diff
        );
    }

    let ranges: [(usize, usize, bool); 4] =
        [(0, 2, false), (1, 5, false), (3, 7, false), (2, 9, true)];
    for &(start, end, ends_at_last) in &ranges {
        let predicted = if ends_at_last {
            cumulative[start]
        } else {
            shared_overhead + cumulative[start] - cumulative[end + 1]
        };
        let indices: Vec<usize> = (start..=end).collect();
        let actual = extract_pages_to_bytes(&doc, &indices).unwrap().len() as u64;
        let diff = if predicted > actual { predicted - actual } else { actual - predicted };
        assert!(
            diff < 100,
            "Range [{start}..={end}]: predicted={predicted}, actual={actual}, diff={diff}"
        );
    }
}

#[test]
fn test_split_by_size_does_not_exceed_limit() {
    let mut doc = uneven_document(8);
    let mut saved = Vec::new();
    doc.save_to(&mut saved).unwrap();
    let doc = Document::load_mem(&saved).unwrap();

    // Pages are small and large in turn (~1KB / ~5.9KB). Two of them fit together.
    let max_size = 7000;
    let result = split_by_size(&doc, max_size);
    assert!(result.is_ok(), "split_by_size failed: {:?}", result.err());
    let chunks = result.unwrap();

    assert_eq!(chunks.len(), 4, "Expected 4 two-page chunks, got {}", chunks.len());

    for (i, chunk) in chunks.iter().enumerate() {
        let size = chunk.bytes.len() as u64;
        assert!(
            size <= max_size + 50,
            "Chunk {} ({}) size {} exceeds limit {}",
            i + 1,
            chunk.start,
            size,
            max_size
        );
    }
}

fn ranges_of(chunks: &[Chunk]) -> Vec<(usize, usize)> {
    chunks.iter().map(|c| (c.start, c.end)).collect()
}

#[test]
fn chunks_by_size_hold_every_page_once() {
    let doc = uneven_document(9);
    for max_size in [1, 900, 2500, 7000, 13500, 20000, 1 << 40] {
        let chunks = split_by_size(&doc, max_size).unwrap();
        let mut next = 0;
        for chunk in &chunks {
            assert_eq!(chunk.start, next);
            assert!(chunk.end > chunk.start);
            if chunk.end - chunk.start > 1 {
                assert!(chunk.bytes.len() as u64 <= max_size);
            }
            let indices: Vec<usize> = (chunk.start..chunk.end).collect();
            assert_eq!(chunk.bytes, extract_pages_to_bytes(&doc, &indices).unwrap());
            next = chunk.end;
        }
        assert_eq!(next, 9);
    }
}

#[test]
fn pages_over_the_limit_stand_alone() {
    let chunks = split_by_size(&uneven_document(3), 1).unwrap();
    assert_eq!(ranges_of(&chunks), vec![(0, 1), (1, 2), (2, 3)]);
    assert!(chunks.iter().all(|c| c.bytes.len() > 1));
}

#[test]
fn a_generous_limit_gives_a_single_chunk() {
    let chunks = split_by_size(&uneven_document(6), u64::MAX).unwrap();
    assert_eq!(ranges_of(&chunks), vec![(0, 6)]);
}

#[test]
fn steps_of_a_split_by_size_give_its_chunks() {
    for max_size in [1, 7000, 13000, 1 << 40] {
        let doc = uneven_document(7);
        let whole = split_by_size(&doc, max_size).unwrap();
        let mut split = SizeSplit::new(doc, max_size).ok().unwrap();
        assert_eq!(split.total_pages(), 7);
        let mut chunks = Vec::new();
        let mut measured = 0;
        loop {
            match split.advance(false) {
                SplitStep::Measured(count) => {
                    measured += 1;
                    assert_eq!(count, measured);
                    assert!(chunks.is_empty());
                }
                SplitStep::Narrowed => assert!(split.position() < 7),
                SplitStep::Cut(chunk) => {
                    assert_eq!(split.position(), chunk.end);
                    chunks.push(chunk);
                }
                SplitStep::Finished => break,
                SplitStep::Stopped => panic!("nobody stopped it"),
                SplitStep::Failed(e) => panic!("{}", e.message()),
            }
        }
        assert_eq!(measured, 7);
        assert_eq!(ranges_of(&chunks), ranges_of(&whole));
        for (a, b) in chunks.iter().zip(&whole) {
            assert_eq!(a.bytes, b.bytes);
        }
    }
}

#[test]
fn a_stopped_split_by_size_keeps_its_chunks() {
    let doc = uneven_document(8);
    let whole = split_by_size(&doc, 7000).unwrap();
    for stop_at in 0..30 {
        let mut split = SizeSplit::new(doc.clone(), 7000).ok().unwrap();
        let mut chunks = Vec::new();
        for step in 0..40 {
            match split.advance(step == stop_at) {
                SplitStep::Cut(chunk) => chunks.push(chunk),
                SplitStep::Failed(e) => panic!("{}", e.message()),
                _ => {}
            }
        }
        assert!(chunks.len() <= whole.len());
        assert_eq!(ranges_of(&chunks), ranges_of(&whole)[..chunks.len()].to_vec());
        if stop_at < 8 {
            assert!(chunks.is_empty());
        }
    }
}

#[test]
fn the_search_ends_at_the_longest_that_fits() {
    let doc = uneven_document(6);
    let sizes: Vec<u64> = (1..=6)
        .map(|end| {
            let indices: Vec<usize> = (0..end).collect();
            extract_pages_to_bytes(&doc, &indices).unwrap().len() as u64
        })
        .collect();
    for end in 1..=6 {
        assert_eq!(find_fitting_end(&doc, 0, 6, sizes[end - 1]), Ok(end));
    }
    assert_eq!(find_fitting_end(&doc, 0, 6, 1), Ok(1));
    assert_eq!(find_fitting_end(&doc, 4, 5, 1), Ok(5));
}

#[test]
fn a_search_can_be_stopped() {
    let doc = uneven_document(6);
    for max_size in [1, 3000, 9000, 1 << 20] {
        let end = find_fitting_end(&doc, 0, 6, max_size).unwrap();
        let search = find_fitting_end_with_control(&doc, 0, 6, max_size, || false);
        assert_eq!(search, Ok(Some(end)));
        assert_eq!(find_fitting_end_with_control(&doc, 0, 6, max_size, || true), Ok(None));
    }
    // Where there is nothing to search for, nothing is asked.
    assert_eq!(find_fitting_end_with_control(&doc, 4, 5, 1, || true), Ok(Some(5)));
    let asked = Cell::new(0);
    let later = || {
        asked.set(asked.get() + 1);
        asked.get() > 1
    };
    assert_eq!(find_fitting_end_with_control(&doc, 0, 6, 1, later), Ok(None));
    assert_eq!(asked.get(), 2);
}

#[test]
fn no_chunk_could_take_the_next_page() {
    let doc = uneven_document(8);
    for max_size in [7000, 8000, 14000] {
        let chunks = split_by_size(&doc, max_size).unwrap();
        for chunk in &chunks[..chunks.len() - 1] {
            let longer: Vec<usize> = (chunk.start..chunk.end + 1).collect();
            let bytes = extract_pages_to_bytes(&doc, &longer).unwrap();
            assert!(bytes.len() as u64 > max_size);
        }
    }
}

#[test]
fn the_count_of_the_root_does_not_stop_a_split() {
    let mut doc = uneven_document(5);
    let root = doc.catalog().unwrap().get(b"Pages").unwrap().as_reference().unwrap();
    doc.get_dictionary_mut(root).unwrap().set("Count", 5_000_000_000_i64);
    assert_eq!(ranges_of(&split_by_page_count(&doc, 2).unwrap()), vec![(0, 2), (2, 4), (4, 5)]);
    assert!(split_by_size(&doc, 1 << 20).is_ok());
}

#[test]
fn documents_without_pages_are_not_split() {
    assert!(matches!(split_by_size(&Document::new(), 10), Err(SplitError::NoPages)));
    assert!(matches!(split_by_page_count(&Document::new(), 0), Err(SplitError::NoPages)));
    assert!(matches!(SizeSplit::new(Document::new(), 10), Err(SplitError::NoPages)));
    assert!(matches!(PageSplit::new(Document::new(), 3), Err(SplitError::NoPages)));
}

#[test]
fn documents_that_cannot_be_measured_are_not_split() {
    let mut doc = uneven_document(3);
    doc.binary_mark = vec![0];
    assert!(matches!(split_by_size(&doc, 10), Err(SplitError::InvalidBinaryMark)));
    assert!(matches!(split_by_page_count(&doc, 2), Err(SplitError::InvalidBinaryMark)));
    let mut split = SizeSplit::new(doc, 10).ok().unwrap();
    assert!(matches!(split.advance(false), SplitStep::Failed(SplitError::InvalidBinaryMark)));
    assert!(matches!(split.advance(false), SplitStep::Finished));
}

#[test]
fn chunks_by_page_count_have_that_many_pages() {
    let doc = uneven_document(10);
    let chunks = split_by_page_count(&doc, 4).unwrap();
    assert_eq!(ranges_of(&chunks), vec![(0, 4), (4, 8), (8, 10)]);
    for chunk in &chunks {
        let loaded = Document::load_mem(&chunk.bytes).unwrap();
        assert_eq!(loaded.get_pages().len(), chunk.end - chunk.start);
        let first = *loaded.get_pages().values().next().unwrap();
        let expected = format!("Page {} content", chunk.start + 1);
        assert!(loaded.get_page_content(first).unwrap().starts_with(expected.as_bytes()));
    }
}

#[test]
fn page_counts_at_the_edges() {
    let doc = uneven_document(5);
    assert!(matches!(split_by_page_count(&doc, 0), Err(SplitError::ZeroPagesPerChunk)));
    assert_eq!(ranges_of(&split_by_page_count(&doc, 5).unwrap()), vec![(0, 5)]);
    assert_eq!(ranges_of(&split_by_page_count(&doc, usize::MAX).unwrap()), vec![(0, 5)]);
    assert_eq!(split_by_page_count(&doc, 1).unwrap().len(), 5);
}

#[test]
fn a_stopped_split_by_page_count_keeps_its_chunks() {
    let doc = uneven_document(7);
    let whole = split_by_page_count(&doc, 3).unwrap();
    for stop_at in 0..5 {
        let mut split = PageSplit::new(doc.clone(), 3).ok().unwrap();
        assert_eq!(split.total_pages(), 7);
        let mut chunks = Vec::new();
        let mut stopped = false;
        for step in 0..6 {
            match split.advance(step == stop_at) {
                SplitStep::Cut(chunk) => chunks.push(chunk),
                SplitStep::Stopped => stopped = true,
                SplitStep::Finished => {}
                _ => panic!("no such step"),
            }
        }
        assert_eq!(stopped, stop_at < 3);
        assert_eq!(chunks.len(), stop_at.min(3));
        for (a, b) in chunks.iter().zip(&whole) {
            assert_eq!((a.start, a.end, &a.bytes), (b.start, b.end, &b.bytes));
        }
    }
}

#[test]
fn a_split_by_page_count_fails_where_pages_vanish() {
    // A page that stands three times in the tree vanishes three times.
    let mut doc = uneven_document(1);
    let page = *doc.get_pages().get(&1).unwrap();
    let catalog = doc.trailer.get(b"Root").unwrap().as_reference().unwrap();
    let root = doc.get_dictionary(catalog).unwrap().get(b"Pages").unwrap().as_reference().unwrap();
    doc.get_object_mut(root)
        .unwrap()
        .as_dict_mut()
        .unwrap()
        .set("Kids", Object::Array(vec![Object::Reference(page); 3]));
    let mut split = PageSplit::new(doc, 1).ok().unwrap();
    assert_eq!(split.total_pages(), 3);
    assert!(matches!(split.advance(false), SplitStep::Cut(_)));
    assert!(matches!(split.advance(false), SplitStep::Cut(_)));
    assert!(matches!(split.advance(false), SplitStep::Failed(SplitError::BrokenPageTree)));
    assert!(matches!(split.advance(false), SplitStep::Finished));
}

/// The same document with its pages three levels deep, three to a node.
fn deep_document(num_pages: usize) -> Document {
    let mut doc = uneven_document(num_pages);
    let pages: Vec<(u32, u16)> = doc.get_pages().into_values().collect();
    let root = doc.catalog().unwrap().get(b"Pages").unwrap().as_reference().unwrap();
    let mut nodes = Vec::new();
    for group in pages.chunks(3) {
        let kids: Vec<Object> = group.iter().map(|&id| Object::Reference(id)).collect();
        let node = doc.add_object(Dictionary::from_iter(vec![
            ("Type", Object::Name(b"Pages".to_vec())),
            ("Kids", Object::Array(kids)),
            ("Count", Object::Integer(group.len() as i64)),
            ("Parent", Object::Reference(root)),
        ]));
        for id in group {
            doc.get_dictionary_mut(*id).unwrap().set("Parent", Object::Reference(node));
        }
        nodes.push(Object::Reference(node));
    }
    let list = doc.add_object(Object::Array(nodes));
    doc.get_dictionary_mut(root).unwrap().set("Kids", Object::Reference(list));
    doc
}

/// The content of each page, in the order of the pages.
fn contents_of(doc: &Document) -> Vec<Vec<u8>> {
    doc.get_pages().into_values().map(|id| doc.get_page_content(id).unwrap()).collect()
}

#[test]
fn chunks_have_just_their_pages() {
    let doc = deep_document(10);
    let all = contents_of(&doc);
    assert_eq!(all.len(), 10);
    let by_size = split_by_size(&doc, 8000).unwrap();
    let by_count = split_by_page_count(&doc, 4).unwrap();
    for chunk in by_size.iter().chain(&by_count) {
        let loaded = Document::load_mem(&chunk.bytes).unwrap();
        assert_eq!(contents_of(&loaded), all[chunk.start..chunk.end].to_vec());
    }
    assert_eq!(ranges_of(&by_count), vec![(0, 4), (4, 8), (8, 10)]);
    assert!(by_size.len() > 1);

    let bytes = extract_pages_to_bytes(&doc, &[7, 2, 2, 5]).unwrap();
    let picked = contents_of(&Document::load_mem(&bytes).unwrap());
    assert_eq!(picked, vec![all[2].clone(), all[5].clone(), all[7].clone()]);
}
