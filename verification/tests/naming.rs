use pdf_splitter::collect::{collect_pdf_files, collect_pdfs_from_inputs, FoundFile, PathPart};
use pdf_splitter::files::{
    contains, image_file_name, is_pdf, is_pdf_candidate, part_file_name, truncate_file_name,
};
use pdf_splitter::images::ImageFormat;
use pdf_splitter::locale::{
    count_non_lang_args, detect_language, init_locale, language_of_value, load_saved_locale,
    parse_lang_arg, windows_ui_language,
};

#[test]
fn pdf_files_are_told_by_their_extension() {
    for extension in ["pdf", "PDF", "Pdf", "pDf"] {
        assert!(is_pdf(Some(extension)));
    }
    for extension in ["", "pd", "pdff", "txt", "ｐｄｆ", "pdf "] {
        assert!(!is_pdf(Some(extension)));
    }
    assert!(!is_pdf(None));
}

#[test]
fn chunks_are_not_offered() {
    assert!(is_pdf_candidate(Some("pdf"), "book"));
    assert!(!is_pdf_candidate(Some("txt"), "book"));
    assert!(!is_pdf_candidate(Some("pdf"), "book_part1"));
    assert!(!is_pdf_candidate(Some("pdf"), "_part"));
    assert!(!is_pdf_candidate(Some("pdf"), "my_particular"));
    assert!(is_pdf_candidate(Some("pdf"), "part1"));
    assert!(is_pdf_candidate(Some("pdf"), "_PART1"));
    for part in [1, 2, 10, 4000000000] {
        let name = part_file_name("任意", part);
        assert!(!is_pdf_candidate(Some("pdf"), name.strip_suffix(".pdf").unwrap()));
    }
}

#[test]
fn parts_of_texts_are_found() {
    for (text, part) in
        [("", ""), ("abc", ""), ("abc", "abc"), ("abc", "bc"), ("aab", "ab"), ("页第页", "第")]
    {
        assert!(contains(text, part));
        assert_eq!(contains(text, part), text.contains(part));
    }
    for (text, part) in [("", "a"), ("ab", "abc"), ("abab", "aa"), ("_par", "_part")] {
        assert!(!contains(text, part));
    }
}

#[test]
fn files_for_chunks_and_images_have_names() {
    assert_eq!(part_file_name("book", 1), "book_part1.pdf");
    assert_eq!(part_file_name("", 12), "_part12.pdf");
    assert_eq!(image_file_name("book", 1, ImageFormat::Jpg), "book_001.jpg");
    assert_eq!(image_file_name("book", 42, ImageFormat::Jp2), "book_042.jp2");
    assert_eq!(image_file_name("book", 1234, ImageFormat::Tif), "book_1234.tif");
}

#[test]
fn names_of_files_differ() {
    let mut names: Vec<String> = (1..=1200u32).map(|n| part_file_name("a1", n)).collect();
    for n in 1..=1200usize {
        names.push(image_file_name("a1", n, ImageFormat::Jpg));
    }
    let count = names.len();
    names.sort();
    names.dedup();
    assert_eq!(names.len(), count);
}

#[test]
fn long_names_are_cut_down() {
    assert_eq!(truncate_file_name("short.pdf", "short", Some("pdf"), 24), "short.pdf");
    assert_eq!(truncate_file_name("abcdef.pdf", "abcdef", Some("pdf"), 6), "abcdef.pdf");
    assert_eq!(truncate_file_name("abcdefg.pdf", "abcdefg", Some("pdf"), 6), "abcdef....pdf");
    assert_eq!(truncate_file_name("abcdefg", "abcdefg", None, 3), "abc...");
    assert_eq!(truncate_file_name("abcdefg.", "abcdefg", Some(""), 3), "abc...");
    assert_eq!(truncate_file_name("文件名很长.pdf", "文件名很长", Some("pdf"), 2), "文件....pdf");
}

fn found(path: &str) -> FoundFile {
    let file_name = path.rsplit('/').next().unwrap();
    let (stem, extension) = match file_name.rsplit_once('.') {
        Some((stem, extension)) => (stem.to_string(), Some(extension.to_string())),
        None => (file_name.to_string(), None),
    };
    let parts = path
        .split('/')
        .map(|part| match part {
            "" => PathPart { rank: 1, name: vec![] },
            ".." => PathPart { rank: 3, name: vec![] },
            _ => PathPart { rank: 4, name: part.as_bytes().to_vec() },
        })
        .collect();
    FoundFile { parts, stem, extension }
}

#[test]
fn files_are_sorted_and_each_is_taken_once() {
    let paths =
        ["b/x.pdf", "a-b/x.pdf", "a/z.PDF", "a/y.txt", "b/x.pdf", "a/y_part1.pdf", "/c.pdf", "a"];
    let files: Vec<FoundFile> = paths.iter().map(|p| found(p)).collect();
    let chosen: Vec<&str> = collect_pdf_files(&files).into_iter().map(|i| paths[i]).collect();
    assert_eq!(chosen, vec!["/c.pdf", "a/y_part1.pdf", "a/z.PDF", "a-b/x.pdf", "b/x.pdf"]);
    assert!(collect_pdf_files(&files).contains(&0));
    let offered: Vec<&str> =
        collect_pdfs_from_inputs(&files).into_iter().map(|i| paths[i]).collect();
    assert_eq!(offered, vec!["/c.pdf", "a/z.PDF", "a-b/x.pdf", "b/x.pdf"]);
    assert!(collect_pdf_files(&vec![]).is_empty());
}

#[test]
fn paths_are_ordered_as_the_system_orders_them() {
    let mut paths = vec![
        "b.pdf", "a/b.pdf", "a.pdf", "a b/c.pdf", "a/a/a.pdf", "../z.pdf", "/r.pdf", "a/b/c.pdf",
        "ä.pdf", "a-.pdf", "A.pdf",
    ];
    let files: Vec<FoundFile> = paths.iter().map(|p| found(p)).collect();
    let chosen: Vec<&str> = collect_pdf_files(&files).into_iter().map(|i| paths[i]).collect();
    paths.sort_by(|a, b| std::path::Path::new(a).cmp(std::path::Path::new(b)));
    assert_eq!(chosen, paths);
}

fn args(words: &[&str]) -> Vec<String> {
    words.iter().map(|w| w.to_string()).collect()
}

#[test]
fn the_language_option_is_read() {
    assert_eq!(parse_lang_arg(&args(&["exe"])), None);
    assert_eq!(parse_lang_arg(&args(&["exe", "--lang", "zh"])), Some("zh"));
    assert_eq!(parse_lang_arg(&args(&["exe", "-l", "cn", "x.pdf"])), Some("zh"));
    assert_eq!(parse_lang_arg(&args(&["exe", "-l", "chinese"])), Some("zh"));
    assert_eq!(parse_lang_arg(&args(&["-l", "en"])), Some("en"));
    assert_eq!(parse_lang_arg(&args(&["-l", "english"])), Some("en"));
    assert_eq!(parse_lang_arg(&args(&["exe", "--lang", "fr", "--lang", "en"])), Some("en"));
    assert_eq!(parse_lang_arg(&args(&["exe", "--lang", "-l", "zh"])), Some("zh"));
    assert_eq!(parse_lang_arg(&args(&["exe", "--lang"])), None);
    assert_eq!(parse_lang_arg(&args(&["exe", "--lang", "ZH"])), None);
}

#[test]
fn the_language_option_does_not_count() {
    assert_eq!(count_non_lang_args(&args(&[])), 0);
    assert_eq!(count_non_lang_args(&args(&["exe"])), 1);
    assert_eq!(count_non_lang_args(&args(&["exe", "--lang", "zh"])), 1);
    assert_eq!(count_non_lang_args(&args(&["exe", "a.pdf", "-l", "zh", "b.pdf"])), 3);
    assert_eq!(count_non_lang_args(&args(&["exe", "-l"])), 1);
    assert_eq!(count_non_lang_args(&args(&["exe", "-l", "-l", "x"])), 2);
}

#[test]
fn the_saved_language_is_read_back() {
    assert_eq!(load_saved_locale(Some("zh")), Some("zh"));
    assert_eq!(load_saved_locale(Some(" en\r\n")), Some("en"));
    assert_eq!(load_saved_locale(Some("\u{3000}zh\t")), Some("zh"));
    for text in ["", " ", "fr", "ZH", "z h", "zhen", "e"] {
        assert_eq!(load_saved_locale(Some(text)), None);
    }
    assert_eq!(load_saved_locale(None), None);
}

#[test]
fn the_language_of_the_system_is_detected() {
    let values = |v: &[Option<&str>]| -> Vec<Option<String>> {
        v.iter().map(|x| x.map(str::to_string)).collect()
    };
    assert_eq!(detect_language(None, &values(&[Some("zh_CN.UTF-8"), None, None])), "zh");
    assert_eq!(detect_language(None, &values(&[Some("ZH"), None, None])), "zh");
    assert_eq!(detect_language(None, &values(&[Some("C"), Some("zh"), None])), "en");
    assert_eq!(detect_language(None, &values(&[Some(""), None, Some("Zh_TW")])), "zh");
    assert_eq!(detect_language(None, &values(&[None, None, None])), "en");
    assert_eq!(detect_language(Some(0x0804), &values(&[Some("en")])), "zh");
    assert_eq!(detect_language(Some(0x0409), &values(&[Some("zh")])), "en");
    assert_eq!(language_of_value("zh"), Some("zh"));
    assert_eq!(language_of_value("z"), Some("en"));
    assert_eq!(language_of_value(""), None);
    assert_eq!(windows_ui_language(0x0404), "zh");
    assert_eq!(windows_ui_language(0x0411), "en");
    assert_eq!(init_locale(Some("en\n"), Some(0x0804), &values(&[])), "en");
    assert_eq!(init_locale(Some("?"), Some(0x0804), &values(&[])), "zh");
    assert_eq!(init_locale(None, None, &values(&[Some("zh")])), "zh");
}
