use lopdf::{Dictionary, Document, Object, Stream};
use pdf_splitter::page_tree::SplitError;
use pdf_splitter::size_text::{chunk_info_str, format_size};
use pdf_splitter::text::{
    count_visible_chars, decimal_padded_text, decimal_text, same_bytes, same_text,
};
use pdf_splitter::text_stats::{
    analyze_text_stats, classify_pdf, estimate_avg_chars_per_page, text_stats, Average,
    PdfTextStats,
};

fn float_size(n: u64) -> String {
    let mut size = n as f64;
    for unit in ["B", "KB", "MB"] {
        if size < 1024.0 {
            return format!("{:.1} {}", size, unit);
        }
        size /= 1024.0;
    }
    format!("{:.1} GB", size)
}

#[test]
fn sizes_are_written_in_their_units() {
    assert_eq!(format_size(0), "0.0 B");
    assert_eq!(format_size(1023), "1023.0 B");
    assert_eq!(format_size(1024), "1.0 KB");
    assert_eq!(format_size(1536), "1.5 KB");
    assert_eq!(format_size(1048575), "1024.0 KB");
    assert_eq!(format_size(1048576), "1.0 MB");
    assert_eq!(format_size(50 * 1024 * 1024), "50.0 MB");
    assert_eq!(format_size(1 << 30), "1.0 GB");
    assert_eq!(format_size(u64::MAX), "17179869184.0 GB");
}

#[test]
fn sizes_are_rounded_as_doubles_are() {
    let mut values: Vec<u64> = (0..5000).collect();
    for shift in 0..64u32 {
        let base = 1u64 << shift;
        for d in 0..300u64 {
            values.push(base.wrapping_add(d));
            values.push(base.wrapping_sub(d));
            values.push(base.wrapping_mul(2 * d + 1));
        }
    }
    for j in 0..2000u64 {
        // Halves of a tenth of a gigabyte, and what lies next to them.
        let half = (1u64 << 53) + (2 * j + 1) * (1 << 28);
        for d in 0..3 {
            values.push(half + d);
            values.push(half - d);
        }
        values.push((2 * j + 1) * 256);
        values.push((2 * j + 1) * 256 * 1024);
    }
    let mut state = 88172645463325252u64;
    for _ in 0..20000 {
        state ^= state << 13;
        state ^= state >> 7;
        state ^= state << 17;
        values.push(state);
        values.push(state >> (state % 64));
    }
    for n in values {
        assert_eq!(format_size(n), float_size(n), "size {n}");
    }
}

#[test]
fn numbers_are_written_in_decimal() {
    assert_eq!(decimal_text(0), "0");
    assert_eq!(decimal_text(1234567890), "1234567890");
    assert_eq!(decimal_text(u128::MAX), format!("{}", u128::MAX));
    for n in [0u128, 7, 10, 42, 99, 100, 999, 1000, 12345] {
        assert_eq!(decimal_padded_text(n), format!("{:03}", n));
    }
}

#[test]
fn bytes_and_texts_are_compared() {
    assert!(same_bytes(b"abc", b"abc"));
    assert!(!same_bytes(b"abc", b"abd"));
    assert!(!same_bytes(b"abc", b"ab"));
    assert!(same_bytes(b"", b""));
    assert!(same_text("第 1 页", "第 1 页"));
    assert!(!same_text("a", "ab"));
    assert!(!same_text("a", "b"));
}

#[test]
fn chunks_are_described() {
    let average = Average { chars: 250, pages: 5 };
    assert_eq!(
        chunk_info_str("book_part1.pdf", 0, 12, 1536, "扫描版", &average),
        "  book_part1.pdf (第 1-12 页, 1.5 KB, 扫描版, 平均50字/页)"
    );
    let average = Average { chars: 5, pages: 2 };
    assert_eq!(
        chunk_info_str("书_part3.pdf", 7, 8, 3, "电子版", &average),
        "  书_part3.pdf (第 8 页, 3.0 B, 电子版, 平均2字/页)"
    );
    for (chars, pages) in [(7, 2), (1, 3), (2, 3), (1234, 5), (0, 4)] {
        let text = chunk_info_str("x", 0, 1, 0, "y", &Average { chars, pages });
        let expected = format!("平均{:.0}字/页)", chars as f64 / pages as f64);
        assert!(text.ends_with(&expected), "{text} {expected}");
    }
    let none = chunk_info_str("x", 0, 1, 0, "y", &Average { chars: 0, pages: 0 });
    assert!(none.ends_with("平均0字/页)"));
}

#[test]
fn white_space_does_not_count() {
    assert_eq!(count_visible_chars(""), 0);
    assert_eq!(count_visible_chars(" a\tb\n\u{3000}文\u{a0}"), 3);
}

#[test]
fn white_space_is_what_unicode_says() {
    let mut white = Vec::new();
    for c in '\0'..=char::MAX {
        if count_visible_chars(&c.to_string()) == 0 {
            white.push(c as u32);
        }
    }
    let expected: Vec<u32> = (0x9..=0xd)
        .chain([0x20, 0x85, 0xa0, 0x1680])
        .chain(0x2000..=0x200a)
        .chain([0x2028, 0x2029, 0x202f, 0x205f, 0x3000])
        .collect();
    assert_eq!(white, expected);
}

#[test]
fn documents_are_classified_by_their_average() {
    assert_eq!(classify_pdf(&Average { chars: 100, pages: 1 }), "电子版");
    assert_eq!(classify_pdf(&Average { chars: 99, pages: 1 }), "扫描版");
    assert_eq!(classify_pdf(&Average { chars: 299, pages: 3 }), "扫描版");
    assert_eq!(classify_pdf(&Average { chars: 300, pages: 3 }), "电子版");
    assert_eq!(classify_pdf(&Average { chars: 0, pages: 0 }), "扫描版");
    assert_eq!(classify_pdf(&Average { chars: 5, pages: 0 }), "扫描版");
    assert_eq!(classify_pdf(&Average { chars: usize::MAX, pages: usize::MAX }), "扫描版");
    for chars in 0..1000usize {
        for pages in 1..10usize {
            let electronic = chars as f64 / pages as f64 >= 100.0;
            let kind = classify_pdf(&Average { chars, pages });
            assert_eq!(kind, if electronic { "电子版" } else { "扫描版" });
        }
    }
}

fn some(text: &str) -> Option<String> {
    Some(text.to_string())
}

#[test]
fn statistics_come_from_the_texts() {
    let stats = |chars, pages| PdfTextStats {
        total_chars: chars,
        avg_chars_per_page: Average { chars, pages },
    };
    assert_eq!(text_stats(4, &some("a b"), &some("abc d")), stats(4, 4));
    assert_eq!(text_stats(4, &some(" \n"), &some("abc d")), stats(0, 4));
    assert_eq!(text_stats(4, &None, &some("abc d")), stats(0, 4));
    assert_eq!(text_stats(4, &some("a"), &None), stats(0, 4));
}

fn written_document(texts: &[&str]) -> Document {
    let mut doc = Document::new();
    let font = doc.add_object(Dictionary::from_iter(vec![
        ("Type", Object::Name(b"Font".to_vec())),
        ("Subtype", Object::Name(b"Type1".to_vec())),
        ("BaseFont", Object::Name(b"Courier".to_vec())),
        ("Encoding", Object::Name(b"WinAnsiEncoding".to_vec())),
    ]));
    let fonts = Dictionary::from_iter(vec![("F1", Object::Reference(font))]);
    let resources = Dictionary::from_iter(vec![("Font", Object::Dictionary(fonts))]);
    let mut kids = Vec::new();
    for text in texts {
        let content = format!("BT /F1 12 Tf ({text}) Tj ET");
        let content = doc.add_object(Stream::new(Dictionary::new(), content.into_bytes()));
        kids.push(Object::Reference(doc.add_object(Dictionary::from_iter(vec![
            ("Type", Object::Name(b"Page".to_vec())),
            ("Contents", Object::Reference(content)),
            ("Resources", Object::Dictionary(resources.clone())),
        ]))));
    }
    let count = kids.len() as i64;
    let root = doc.add_object(Dictionary::from_iter(vec![
        ("Type", Object::Name(b"Pages".to_vec())),
        ("Kids", Object::Array(kids)),
        ("Count", Object::Integer(count)),
    ]));
    let catalog = doc.add_object(Dictionary::from_iter(vec![
        ("Type", Object::Name(b"Catalog".to_vec())),
        ("Pages", Object::Reference(root)),
    ]));
    doc.trailer.set("Root", Object::Reference(catalog));
    doc
}

#[test]
fn text_is_counted_by_what_is_read() {
    let doc = written_document(&["ab", "", "cde", "f", "", "", "ghi jk"]);
    let read = |numbers: Vec<u32>| doc.extract_text(&numbers).ok();
    let stats = analyze_text_stats(&doc, read).unwrap();
    assert_eq!(stats.total_chars, 11);
    assert_eq!(stats.avg_chars_per_page, Average { chars: 11, pages: 7 });
    // Of the pages 1, 2, 4, 5 and 7.
    let average = estimate_avg_chars_per_page(&doc, read).unwrap();
    assert_eq!(average, Average { chars: 8, pages: 5 });
}

#[test]
fn a_blank_sample_spares_the_rest() {
    // Pages 1, 3, 5, 7 and 9 are sampled, and the tenth is not.
    let doc = written_document(&["", "", "", "", "", "", "", "", "", "text"]);
    let asked = std::cell::RefCell::new(Vec::new());
    let read = |numbers: Vec<u32>| {
        asked.borrow_mut().push(numbers.clone());
        doc.extract_text(&numbers).ok()
    };
    let stats = analyze_text_stats(&doc, &read).unwrap();
    assert_eq!(stats.total_chars, 0);
    assert_eq!(stats.avg_chars_per_page, Average { chars: 0, pages: 10 });
    assert_eq!(*asked.borrow(), vec![vec![1, 3, 5, 7, 9]]);
}

#[test]
fn samples_span_the_document() {
    for (pages, expected) in [
        (1, vec![1]),
        (2, vec![1, 2]),
        (5, vec![1, 2, 3, 4, 5]),
        (6, vec![1, 2, 3, 4, 6]),
        (11, vec![1, 3, 6, 8, 11]),
    ] {
        let doc = written_document(&vec!["x"; pages]);
        let asked = std::cell::RefCell::new(Vec::new());
        let read = |numbers: Vec<u32>| {
            asked.borrow_mut().push(numbers);
            None
        };
        let average = estimate_avg_chars_per_page(&doc, read).unwrap();
        assert_eq!(average, Average { chars: 0, pages: expected.len() });
        assert_eq!(*asked.borrow(), vec![expected]);
    }
}

#[test]
fn documents_without_pages_have_no_text() {
    let doc = Document::new();
    let read = |_: Vec<u32>| -> Option<String> { panic!("there is nothing to read") };
    assert_eq!(analyze_text_stats(&doc, read).unwrap().total_chars, 0);
    assert_eq!(estimate_avg_chars_per_page(&doc, read), Ok(Average { chars: 0, pages: 0 }));
}

#[test]
fn broken_documents_are_not_read() {
    let mut doc = written_document(&["x"]);
    let catalog = doc.trailer.get(b"Root").unwrap().as_reference().unwrap();
    let root = doc.get_dictionary(catalog).unwrap().get(b"Pages").unwrap().as_reference().unwrap();
    let node = doc.add_object(Dictionary::from_iter(vec![
        ("Type", Object::Name(b"Pages".to_vec())),
        ("Kids", Object::Array(vec![])),
        ("Count", Object::Integer(i64::MAX)),
    ]));
    let kids = vec![Object::Reference(node)];
    doc.get_object_mut(root).unwrap().as_dict_mut().unwrap().set("Kids", Object::Array(kids));
    let read = |_: Vec<u32>| -> Option<String> { panic!("there is nothing to read") };
    assert_eq!(analyze_text_stats(&doc, read), Err(SplitError::BrokenPageTree));
    assert_eq!(estimate_avg_chars_per_page(&doc, read), Err(SplitError::BrokenPageTree));
}
