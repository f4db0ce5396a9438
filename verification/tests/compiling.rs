use book_parser::compile::{
    markdown_book, md_to_xhtml, nav_document, opf_document, output_ext, output_file_name,
    output_range, EPUB_CONTAINER, EPUB_MIMETYPE,
};
use book_parser::epub::{find_opf_path, read_spine};
use book_parser::pages::PageRange;
use book_parser::parse::{extract_paragraphs_from_xhtml, extract_title_from_xhtml};

const XHTML_HEAD: &str = "<?xml version=\"1.0\" encoding=\"utf-8\"?>\n<html xmlns=\"http://www.w3.org/1999/xhtml\">\n<head><title></title></head>\n<body>\n";

#[test]
fn output_extensions() {
    assert_eq!(output_ext("epub"), Some("epub"));
    assert_eq!(output_ext("md"), Some("md"));
    assert_eq!(output_ext("markdown"), Some("md"));
    assert_eq!(output_ext("pdf"), None);
    assert_eq!(output_ext("EPUB"), None);
}

#[test]
fn output_names_carry_the_selection() {
    let r = output_range(&[3, 4, 5], 10);
    assert_eq!(output_file_name("book", &r, "epub"), "book_3..=5.epub");
    let r = output_range(&[1, 2, 3], 3);
    assert!(r.is_all());
    assert_eq!(output_file_name("book", &r, "md"), "book.md");
    let r = output_range(&[2, 9], 10);
    assert_eq!(output_file_name("b", &r, "md"), "b_[2,9].md");
    assert_eq!(output_file_name("b", &PageRange::all(), "epub"), "b.epub");
}

#[test]
fn xhtml_of_a_titled_section() {
    let x = md_to_xhtml("# Title\n\nHello & <world>\n", 3);
    assert_eq!(x, format!("{XHTML_HEAD}<h1>Title</h1>\n<p>Hello &amp; &lt;world&gt;</p>\n</body>\n</html>\n"));
}

#[test]
fn xhtml_of_an_untitled_section() {
    let x = md_to_xhtml("first\n  \n\"q\"\n#  \n", 5);
    assert_eq!(x, format!("{XHTML_HEAD}<h2>Page 5</h2>\n<p>first</p>\n<p>&quot;q&quot;</p>\n</body>\n</html>\n"));
}

#[test]
fn xhtml_reads_back_with_the_epub_reader() {
    let x = md_to_xhtml("# Kapitel 2\n\neins\n\nzwei\n", 2);
    assert_eq!(extract_paragraphs_from_xhtml(&x), vec!["eins".to_string(), "zwei".to_string()]);
    assert_eq!(extract_title_from_xhtml(&x), Some("Kapitel 2".to_string()));
    let y = md_to_xhtml("x\n", 8);
    assert_eq!(extract_title_from_xhtml(&y), Some("Page 8".to_string()));
}

#[test]
fn package_document_lists_sections() {
    let opf = opf_document(&[1, 2]);
    assert!(opf.contains("<item id=\"s1\" href=\"section_1.xhtml\" media-type=\"application/xhtml+xml\"/>\n<item id=\"s2\" href=\"section_2.xhtml\" media-type=\"application/xhtml+xml\"/>\n</manifest>\n<spine>\n<itemref idref=\"s1\"/>\n<itemref idref=\"s2\"/>\n</spine>\n</package>\n"));
    assert!(opf.starts_with("<?xml version=\"1.0\" encoding=\"utf-8\"?>\n<package xmlns=\"http://www.idpf.org/2007/opf\""));
}

#[test]
fn compiled_epub_structure_reads_back() {
    assert_eq!(EPUB_MIMETYPE, "application/epub+zip");
    assert_eq!(find_opf_path(EPUB_CONTAINER), Some("OEBPS/content.opf".to_string()));
    let opf = opf_document(&[7, 3, 12]);
    assert_eq!(read_spine(&opf), vec!["section_7.xhtml", "section_3.xhtml", "section_12.xhtml"]);
    assert_eq!(read_spine(&opf_document(&[])), Vec::<String>::new());
}

#[test]
fn navigation_document() {
    let nav = nav_document(&vec![(1, Some("A & B".to_string())), (2, None)]);
    assert!(nav.starts_with("<?xml version=\"1.0\" encoding=\"utf-8\"?>\n<html xmlns=\"http://www.w3.org/1999/xhtml\" xmlns:epub=\"http://www.idpf.org/2007/ops\">\n<head><title>Navigation</title></head>\n<body>\n<nav epub:type=\"toc\">\n<ol>\n"));
    assert!(nav.ends_with("<ol>\n<li><a href=\"section_1.xhtml\">A &amp; B</a></li>\n<li><a href=\"section_2.xhtml\">Page 2</a></li>\n</ol>\n</nav>\n</body>\n</html>\n"));
}

#[test]
fn markdown_book_joins_sections() {
    let book = markdown_book(&vec![(1, "# T\n\nx\n".to_string()), (2, "y\n".to_string())]);
    assert_eq!(book, "# T\n\nx\n\n## Page 2\n\ny\n");
    assert_eq!(markdown_book(&vec![(4, "z\n".to_string())]), "## Page 4\n\nz\n");
    assert_eq!(markdown_book(&vec![]), "");
}
