use book_parser::epub::{entry_path, find_opf_path, opf_dir, read_spine};
use book_parser::parse::{
    epub_chapter, epub_sections, extract_paragraphs_from_xhtml, extract_title_from_xhtml,
    input_kind, parse_fb2, txt_sections, ChapterPattern, Fb2Stop, InputError, InputKind,
    DEFAULT_CHAPTER_PATTERN,
};
use book_parser::xml::{gather_text, read_events, xml_events, XmlEvent};

fn pattern(p: &str) -> ChapterPattern {
    match ChapterPattern::new(p) {
        Ok(p) => p,
        Err(e) => panic!("pattern refused: {}", e.message),
    }
}

#[test]
fn input_kinds() {
    assert!(matches!(input_kind(Some("txt"), true), Ok(InputKind::Txt)));
    assert!(matches!(input_kind(Some("txt"), false), Ok(InputKind::Txt)));
    assert!(matches!(input_kind(Some("fb2"), false), Ok(InputKind::Fb2)));
    assert!(matches!(input_kind(Some("epub"), false), Ok(InputKind::Epub)));
    assert!(matches!(input_kind(Some("fb2"), true), Err(InputError::PatternNotApplicable)));
    assert!(matches!(input_kind(Some("epub"), true), Err(InputError::PatternNotApplicable)));
    assert!(matches!(input_kind(Some("pdf"), false), Err(InputError::Unsupported)));
    assert!(matches!(input_kind(Some("TXT"), false), Err(InputError::Unsupported)));
    assert!(matches!(input_kind(None, false), Err(InputError::NoExtension)));
}

#[test]
fn chapter_patterns() {
    let p = pattern(DEFAULT_CHAPTER_PATTERN);
    assert!(p.is_match("Глава 12. Начало"));
    assert!(!p.is_match("  Глава 12"));
    assert!(!p.is_match("Глава двенадцать"));
    assert!(ChapterPattern::new("(unclosed").is_err());
    let q = pattern("Chapter");
    assert!(q.is_match("The Chapter 3"));
}

#[test]
fn txt_book_splits_at_headings() {
    let text = "Preface\nГлава 1\nline a\n\n  line b  \nГлава 2: Title\nmore\r\n";
    let (sections, complete) = txt_sections(text, &pattern(DEFAULT_CHAPTER_PATTERN));
    assert!(complete);
    assert_eq!(sections, vec![
        (1, "# Глава 1\n\nline a\n\nline b\n".to_string()),
        (2, "# Глава 2: Title\n\nmore\n".to_string()),
    ]);
}

#[test]
fn txt_heading_without_digits_is_text() {
    let text = "Chapter 3\nx\nChapter three\ny\n";
    let (sections, complete) = txt_sections(text, &pattern("^Chapter"));
    assert!(complete);
    assert_eq!(sections, vec![(3, "# Chapter 3\n\nx\n\nChapter three\n\ny\n".to_string())]);
}

#[test]
fn txt_without_headings_has_no_sections() {
    let (sections, complete) = txt_sections("just text\n", &pattern(DEFAULT_CHAPTER_PATTERN));
    assert!(complete);
    assert!(sections.is_empty());
}

#[test]
fn txt_heading_number_too_large_stops() {
    let text = "Глава 1\nx\nГлава 99999999999\ny\n";
    let (sections, complete) = txt_sections(text, &pattern(DEFAULT_CHAPTER_PATTERN));
    assert!(!complete);
    assert_eq!(sections, vec![(1, "# Глава 1\n\nx\n".to_string())]);
}

const FB2: &str = "<?xml version=\"1.0\" encoding=\"utf-8\"?>
<FictionBook><description><title-info><book-title>B 1</book-title></title-info></description>
<body><title><p>Book 9</p></title>
<section><title><p>Глава 1</p></title><p>Первый абзац.</p><p>Второй.</p>
<section><p>nested</p></section></section>
<section><title><p>Без номера</p></title><p>skip</p></section>
<section><title><p>Глава 3</p><p>Подзаголовок 5</p></title><p>Третий &amp; конец</p><empty-line/><p>  </p></section>
</body></FictionBook>
";

#[test]
fn fb2_book_sections() {
    let (sections, stop, _pos) = parse_fb2(FB2);
    assert!(matches!(stop, Some(Fb2Stop::End)));
    assert_eq!(sections, vec![
        (1, "# Глава 1\n\nПервый абзац.\n\nВторой.\n\nnested\n".to_string()),
        (3, "# Глава 3Подзаголовок 5\n\nТретий &amp; конец\n".to_string()),
    ]);
}

#[test]
fn fb2_malformed_keeps_earlier_sections() {
    let text = "<FictionBook><body><section><title><p>1</p></title><p>a</p></section><section></body></FictionBook>";
    let (sections, stop, _pos) = parse_fb2(text);
    assert_eq!(sections, vec![(1, "# 1\n\na\n".to_string())]);
    assert!(matches!(stop, Some(Fb2Stop::Malformed(_))));
}

#[test]
fn fb2_title_number_too_large() {
    let text = "<FictionBook><body><section><title><p>Глава 99999999999</p></title><p>a</p></section></body></FictionBook>";
    let (sections, stop, _pos) = parse_fb2(text);
    assert!(sections.is_empty());
    assert!(matches!(stop, Some(Fb2Stop::NumberTooLarge)));
}

#[test]
fn xml_events_gather_text() {
    let (events, _) = xml_events("<p>  a &amp; b <i>c</i>\n</p>");
    let texts: Vec<String> = events.iter().filter_map(|e| match e {
        XmlEvent::Text(t) => Some(t.clone()),
        _ => None,
    }).collect();
    assert_eq!(texts, vec!["a &amp; b".to_string(), "c".to_string()]);
    assert!(matches!(events.last(), Some(XmlEvent::Eof)));
}

const CHAPTER: &str = "<?xml version=\"1.0\"?>
<html><head><title>ignored</title></head><body>
<h2>  </h2>
<h1> Глава 4 </h1>
<p> Первый <b>жирный</b> </p>
<p>   </p>
<div><p>Второй</p></div>
</body></html>";

#[test]
fn xhtml_paragraphs_and_title() {
    assert_eq!(extract_paragraphs_from_xhtml(CHAPTER), vec!["Первыйжирный".to_string(), "Второй".to_string()]);
    assert_eq!(extract_title_from_xhtml(CHAPTER), Some("Глава 4".to_string()));
    assert_eq!(extract_title_from_xhtml("<p>x</p>"), None);
    assert!(extract_paragraphs_from_xhtml("<div>no paragraphs</div>").is_empty());
}

#[test]
fn epub_chapter_markdown() {
    assert_eq!(epub_chapter(CHAPTER), Some("# Глава 4\n\nПервыйжирный\n\nВторой\n".to_string()));
    assert_eq!(epub_chapter("<html><body><h1>Only a title</h1></body></html>"), None);
    assert_eq!(epub_chapter("<p>untitled</p>"), Some("\nuntitled\n".to_string()));
}

#[test]
fn epub_sections_are_numbered_in_reading_order() {
    let chapters = vec![
        Some("<p>one</p>".to_string()),
        None,
        Some("<h1>Cover</h1>".to_string()),
        Some("<h1>T</h1><p>two</p>".to_string()),
    ];
    assert_eq!(epub_sections(&chapters), vec![
        (1, "\none\n".to_string()),
        (2, "# T\n\ntwo\n".to_string()),
    ]);
    assert!(epub_sections(&vec![]).is_empty());
}

#[test]
fn container_names_the_package_document() {
    let c = "<rootfiles><rootfile full-path=\"OEBPS/content.opf\" media-type=\"x\"/></rootfiles>";
    assert_eq!(find_opf_path(c), Some("OEBPS/content.opf".to_string()));
    assert_eq!(find_opf_path("full-path=\".opf\" full-path=\"a.opf\""), Some("a.opf".to_string()));
    assert_eq!(find_opf_path("full-path=\"book.xml\""), None);
    assert_eq!(find_opf_path("full-path=\"b.opf"), None);
    assert_eq!(find_opf_path(""), None);
}

#[test]
fn spine_gives_reading_order() {
    let opf = "<manifest>
<item id=\"c2\" href=\"text/ch2.xhtml\" media-type=\"application/xhtml+xml\"/>
<item href=\"text/ch1.xhtml\" id=\"c1\" media-type=\"application/xhtml+xml\"/>
<item id=\"c1\" href=\"text/ch1b.xhtml\"/>
<item id=\"css\" href=\"style.css\"/>
</manifest>
<spine>
<itemref idref=\"c1\"/>
<itemref idref=\"missing\"/>
<itemref linear=\"yes\" idref=\"c2\"/>
</spine>";
    assert_eq!(read_spine(opf), vec!["text/ch1b.xhtml".to_string(), "text/ch2.xhtml".to_string()]);
}

#[test]
fn chapter_paths_in_the_archive() {
    assert_eq!(opf_dir("OEBPS/content.opf"), "OEBPS");
    assert_eq!(opf_dir("a/b/content.opf"), "a/b");
    assert_eq!(opf_dir("a//content.opf"), "a");
    assert_eq!(opf_dir("content.opf"), "");
    assert_eq!(entry_path("OEBPS", "text/ch1.xhtml"), "OEBPS/text/ch1.xhtml");
    assert_eq!(entry_path("", "ch1.xhtml"), "ch1.xhtml");
}

#[test]
fn raw_events_end_with_the_document() {
    let (raw, _) = read_events("<a>x &amp; y</a>");
    assert!(matches!(raw.last(), Some(XmlEvent::Eof)));
    let refs = raw.iter().filter(|e| matches!(e, XmlEvent::Ref(_))).count();
    assert_eq!(refs, 1);
    let gathered = gather_text(&raw);
    let texts: Vec<String> = gathered.iter().filter_map(|e| match e {
        XmlEvent::Text(t) => Some(t.clone()),
        _ => None,
    }).collect();
    assert_eq!(texts, vec!["x &amp; y".to_string()]);
    let (bad, _) = read_events("<a><b></a>");
    assert!(matches!(bad.last(), Some(XmlEvent::Error(_))));
    assert_eq!(bad.iter().filter(|e| matches!(e, XmlEvent::Error(_) | XmlEvent::Eof)).count(), 1);
}
