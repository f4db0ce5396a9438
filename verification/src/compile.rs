//! Assembling a book's sections into one EPUB or markdown file.
use vstd::prelude::*;

use crate::pages::{PageRange, label_spec};
use crate::section::{
    section_views, escape_xml_chars, escape_xml_spec, first_heading, heading_text, md_title,
    lemma_escape_xml_shape,
};
use crate::text::{
    append_chars, chars_of, decimal, is_digit, lemma_decimal, lines, lines_of, matches_at, push_decimal, slice_chars,
    starts_with, string_of, trim, trim_chars, views,
};

verus! {

/// The file extension for an output format (`epub`, or `md` for `md` and `markdown`).
pub open spec fn output_ext_spec(format: Seq<char>) -> Option<Seq<char>> {
    if format == "epub"@ {
        Some("epub"@)
    } else if format == "md"@ || format == "markdown"@ {
        Some("md"@)
    } else {
        None
    }
}

fn same_as(v: &Vec<char>, lit: &str) -> (b: bool)
    ensures
        b == (v@ == lit@),
{
    let w = chars_of(lit);
    if v.len() != w.len() {
        return false;
    }
    assert(v@.skip(0) =~= v@);
    let m = matches_at(v, 0, &w);
    assert(m ==> v@.take(w.len() as int) =~= v@);
    m
}

/// The extension of the output file for a format, `None` for an unsupported format.
pub fn output_ext(format: &str) -> (r: Option<&'static str>)
    ensures
        match output_ext_spec(format@) {
            None => r is None,
            Some(e) => r matches Some(x) && x@ == e,
        },
{
    let v = chars_of(format);
    if same_as(&v, "epub") {
        Some("epub")
    } else if same_as(&v, "md") || same_as(&v, "markdown") {
        Some("md")
    } else {
        None
    }
}

/// The sections a book is compiled from, when the stage it comes from has fewer sections
/// than were parsed: exactly those; otherwise every section.
pub fn output_range(stage_nums: &[u32], parsed_count: usize) -> (r: PageRange)
    ensures
        stage_nums@.len() < parsed_count ==> r@ == Some(stage_nums@.to_set()),
        stage_nums@.len() >= parsed_count ==> r@ is None,
{
    if stage_nums.len() < parsed_count {
        PageRange::from_sorted(stage_nums)
    } else {
        PageRange::all()
    }
}

/// The name of the output file: book name, selection label, extension.
pub fn output_file_name(name: &str, range: &PageRange, ext: &str) -> (r: String)
    ensures
        r@ == name@ + label_spec(range@) + seq!['.'] + ext@,
{
    let label = range.label();
    let ghost lab = label_spec(range@);
    assert(label@ == lab);
    let mut v = chars_of(name);
    append_chars(&mut v, &chars_of(label.as_str()));
    v.push('.');
    append_chars(&mut v, &chars_of(ext));
    assert(v@ =~= name@ + lab + seq!['.'] + ext@);
    string_of(&v)
}

// ---------------------------------------------------------------------------
// A section as XHTML
// ---------------------------------------------------------------------------

pub open spec fn xhtml_head() -> Seq<char> {
    "<?xml version=\"1.0\" encoding=\"utf-8\"?>\n<html xmlns=\"http://www.w3.org/1999/xhtml\">\n<head><title></title></head>\n<body>\n"@
}

pub open spec fn xhtml_tail() -> Seq<char> {
    "</body>\n</html>\n"@
}

/// One markdown line as XHTML: a nonblank `# ` heading as `<h1>`, another nonblank line as
/// `<p>`, escaped; nothing for the rest.
pub open spec fn xhtml_line(l: Seq<char>) -> Seq<char> {
    if starts_with(l, seq!['#', ' ']) {
        let t = trim(l.skip(2));
        if t.len() > 0 {
            "<h1>"@ + escape_xml_spec(t) + "</h1>\n"@
        } else {
            seq![]
        }
    } else if trim(l).len() > 0 {
        "<p>"@ + escape_xml_spec(l) + "</p>\n"@
    } else {
        seq![]
    }
}

pub open spec fn xhtml_lines(ls: Seq<Seq<char>>) -> Seq<char>
    decreases ls.len(),
{
    if ls.len() == 0 {
        seq![]
    } else {
        xhtml_lines(ls.drop_last()) + xhtml_line(ls.last())
    }
}

/// The XHTML page of a section; a section without a title gets a `Page N` heading.
pub open spec fn md_to_xhtml_spec(md: Seq<char>, page_num: u32) -> Seq<char> {
    let ls = lines(md);
    let page_heading = if first_heading(ls) is None {
        "<h2>Page "@ + decimal(page_num as nat) + "</h2>\n"@
    } else {
        seq![]
    };
    xhtml_head() + page_heading + xhtml_lines(ls) + xhtml_tail()
}

/// The XHTML of one markdown line.
fn xhtml_line_exec(l: &Vec<char>) -> (out: Vec<char>)
    ensures
        out@ == xhtml_line(l@),
{
    let hash = vec!['#', ' '];
    assert(l@.skip(0) =~= l@);
    assert(hash@ =~= seq!['#', ' ']);
    if matches_at(l, 0, &hash) {
        let rest = slice_chars(l, 2, l.len());
        assert(rest@ =~= l@.skip(2));
        let t = trim_chars(&rest);
        if t.len() > 0 {
            let mut out = chars_of("<h1>");
            append_chars(&mut out, &escape_xml_chars(&t));
            append_chars(&mut out, &chars_of("</h1>\n"));
            out
        } else {
            Vec::new()
        }
    } else {
        let t = trim_chars(l);
        if t.len() > 0 {
            let mut out = chars_of("<p>");
            append_chars(&mut out, &escape_xml_chars(l));
            append_chars(&mut out, &chars_of("</p>\n"));
            out
        } else {
            Vec::new()
        }
    }
}

/// A markdown section as an XHTML page: `# ` headings become `<h1>`, other nonblank lines
/// `<p>`; a section without a title gets an `<h2>Page N</h2>` heading first.
pub fn md_to_xhtml(md: &str, page_num: u32) -> (out: String)
    ensures
        out@ == md_to_xhtml_spec(md@, page_num),
{
    let v = chars_of(md);
    let ls = lines_of(&v);
    let mut out = chars_of("<?xml version=\"1.0\" encoding=\"utf-8\"?>\n<html xmlns=\"http://www.w3.org/1999/xhtml\">\n<head><title></title></head>\n<body>\n");
    let ghost head = out@;
    if md_title(md).is_none() {
        append_chars(&mut out, &chars_of("<h2>Page "));
        push_decimal(&mut out, page_num as u64);
        append_chars(&mut out, &chars_of("</h2>\n"));
    }
    let ghost start = out@;
    assert(start =~= head + if first_heading(lines(md@)) is None {
        "<h2>Page "@ + decimal(page_num as nat) + "</h2>\n"@
    } else {
        seq![]
    });
    let mut i: usize = 0;
    while i < ls.len()
        invariant
            i <= ls.len(),
            out@ == start + xhtml_lines(views(ls@).take(i as int)),
        decreases ls.len() - i,
    {
        let piece = xhtml_line_exec(&ls[i]);
        append_chars(&mut out, &piece);
        assert(views(ls@).take(i + 1).drop_last() =~= views(ls@).take(i as int));
        assert(views(ls@).take(i + 1).last() == ls@[i as int]@);
        assert(out@ =~= start + xhtml_lines(views(ls@).take(i + 1)));
        i = i + 1;
    }
    assert(views(ls@).take(ls.len() as int) =~= views(ls@));
    append_chars(&mut out, &chars_of("</body>\n</html>\n"));
    string_of(&out)
}

// ---------------------------------------------------------------------------
// The EPUB package
// ---------------------------------------------------------------------------

/// The content of the `mimetype` entry of an EPUB.
pub const EPUB_MIMETYPE: &'static str = "application/epub+zip";

/// The `META-INF/container.xml` entry: the package document is `OEBPS/content.opf`.
pub const EPUB_CONTAINER: &'static str = "<?xml version=\"1.0\" encoding=\"utf-8\"?>\n<container version=\"1.0\" xmlns=\"urn:oasis:names:tc:opendocument:xmlns:container\">\n<rootfiles>\n<rootfile full-path=\"OEBPS/content.opf\" media-type=\"application/oebps-package+xml\"/>\n</rootfiles>\n</container>\n";

pub open spec fn opf_head() -> Seq<char> {
    "<?xml version=\"1.0\" encoding=\"utf-8\"?>\n<package xmlns=\"http://www.idpf.org/2007/opf\" version=\"3.0\" unique-identifier=\"uid\">\n<metadata xmlns:dc=\"http://purl.org/dc/elements/1.1/\">\n<dc:identifier id=\"uid\">process-book-output</dc:identifier>\n<dc:title>Translated Book</dc:title>\n<dc:language>de</dc:language>\n<meta property=\"dcterms:modified\">2025-01-01T00:00:00Z</meta>\n</metadata>\n<manifest>\n<item id=\"nav\" href=\"nav.xhtml\" media-type=\"application/xhtml+xml\" properties=\"nav\"/>\n"@
}

pub open spec fn manifest_item(num: u32) -> Seq<char> {
    "<item id=\"s"@ + decimal(num as nat) + "\" href=\"section_"@ + decimal(num as nat)
        + ".xhtml\" media-type=\"application/xhtml+xml\"/>\n"@
}

pub open spec fn spine_item(num: u32) -> Seq<char> {
    "<itemref idref=\"s"@ + decimal(num as nat) + "\"/>\n"@
}

pub open spec fn concat_map(nums: Seq<u32>, f: spec_fn(u32) -> Seq<char>) -> Seq<char>
    decreases nums.len(),
{
    if nums.len() == 0 {
        seq![]
    } else {
        concat_map(nums.drop_last(), f) + f(nums.last())
    }
}

/// The package document: a manifest item and a spine entry for each section, in order.
pub open spec fn opf_spec(nums: Seq<u32>) -> Seq<char> {
    opf_head() + concat_map(nums, |n: u32| manifest_item(n)) + "</manifest>\n<spine>\n"@
        + concat_map(nums, |n: u32| spine_item(n)) + "</spine>\n</package>\n"@
}

fn push_manifest_item(out: &mut Vec<char>, num: u32)
    ensures
        final(out)@ == old(out)@ + manifest_item(num),
{
    append_chars(out, &chars_of("<item id=\"s"));
    push_decimal(out, num as u64);
    append_chars(out, &chars_of("\" href=\"section_"));
    push_decimal(out, num as u64);
    append_chars(out, &chars_of(".xhtml\" media-type=\"application/xhtml+xml\"/>\n"));
    assert(final(out)@ =~= old(out)@ + manifest_item(num));
}

fn push_spine_item(out: &mut Vec<char>, num: u32)
    ensures
        final(out)@ == old(out)@ + spine_item(num),
{
    append_chars(out, &chars_of("<itemref idref=\"s"));
    push_decimal(out, num as u64);
    append_chars(out, &chars_of("\"/>\n"));
    assert(final(out)@ =~= old(out)@ + spine_item(num));
}

/// The EPUB package document (`OEBPS/content.opf`) for the sections numbered `nums`.
pub fn opf_document(nums: &[u32]) -> (out: String)
    ensures
        out@ == opf_spec(nums@),
{
    let mut out = chars_of("<?xml version=\"1.0\" encoding=\"utf-8\"?>\n<package xmlns=\"http://www.idpf.org/2007/opf\" version=\"3.0\" unique-identifier=\"uid\">\n<metadata xmlns:dc=\"http://purl.org/dc/elements/1.1/\">\n<dc:identifier id=\"uid\">process-book-output</dc:identifier>\n<dc:title>Translated Book</dc:title>\n<dc:language>de</dc:language>\n<meta property=\"dcterms:modified\">2025-01-01T00:00:00Z</meta>\n</metadata>\n<manifest>\n<item id=\"nav\" href=\"nav.xhtml\" media-type=\"application/xhtml+xml\" properties=\"nav\"/>\n");
    let ghost head = out@;
    let mut i: usize = 0;
    while i < nums.len()
        invariant
            i <= nums.len(),
            out@ == head + concat_map(nums@.take(i as int), |n: u32| manifest_item(n)),
        decreases nums.len() - i,
    {
        push_manifest_item(&mut out, nums[i]);
        assert(nums@.take(i + 1).drop_last() =~= nums@.take(i as int));
        i = i + 1;
    }
    assert(nums@.take(nums.len() as int) =~= nums@);
    append_chars(&mut out, &chars_of("</manifest>\n<spine>\n"));
    let ghost mid = out@;
    let mut j: usize = 0;
    while j < nums.len()
        invariant
            j <= nums.len(),
            out@ == mid + concat_map(nums@.take(j as int), |n: u32| spine_item(n)),
        decreases nums.len() - j,
    {
        push_spine_item(&mut out, nums[j]);
        assert(nums@.take(j + 1).drop_last() =~= nums@.take(j as int));
        j = j + 1;
    }
    append_chars(&mut out, &chars_of("</spine>\n</package>\n"));
    string_of(&out)
}

pub open spec fn nav_head() -> Seq<char> {
    "<?xml version=\"1.0\" encoding=\"utf-8\"?>\n<html xmlns=\"http://www.w3.org/1999/xhtml\" xmlns:epub=\"http://www.idpf.org/2007/ops\">\n<head><title>Navigation</title></head>\n<body>\n<nav epub:type=\"toc\">\n<ol>\n"@
}

/// The title of a section in the table of contents: its own, or `Page N`.
pub open spec fn nav_title(num: u32, title: Option<Seq<char>>) -> Seq<char> {
    match title {
        Some(t) => t,
        None => "Page "@ + decimal(num as nat),
    }
}

pub open spec fn nav_entry(num: u32, title: Option<Seq<char>>) -> Seq<char> {
    "<li><a href=\"section_"@ + decimal(num as nat) + ".xhtml\">"@ + escape_xml_spec(
        nav_title(num, title),
    ) + "</a></li>\n"@
}

pub open spec fn title_views(es: Seq<(u32, Option<String>)>) -> Seq<(u32, Option<Seq<char>>)> {
    es.map_values(
        |e: (u32, Option<String>)|
            (
                e.0,
                match e.1 {
                    Some(s) => Some(s@),
                    None => None,
                },
            ),
    )
}

pub open spec fn nav_entries(es: Seq<(u32, Option<Seq<char>>)>) -> Seq<char>
    decreases es.len(),
{
    if es.len() == 0 {
        seq![]
    } else {
        nav_entries(es.drop_last()) + nav_entry(es.last().0, es.last().1)
    }
}

/// A section added to the navigation document gets its link last in the table of
/// contents: to its own page file, titled by its title (escaped), or, when it has none, by
/// `Page N` with N its own number, the number of its file.
pub proof fn lemma_nav_link(es: Seq<(u32, Option<Seq<char>>)>, n: u32, title: Option<Seq<char>>)
    ensures
        nav_spec(es.push((n, title))) == nav_head() + nav_entries(es) + "<li><a href=\"section_"@
            + decimal(n as nat) + ".xhtml\">"@ + match title {
            Some(t) => escape_xml_spec(t),
            None => "Page "@ + decimal(n as nat),
        } + "</a></li>\n"@ + "</ol>\n</nav>\n</body>\n</html>\n"@,
{
    let all = es.push((n, title));
    assert(all.drop_last() =~= es);
    assert(all.last() == (n, title));
    if title is None {
        reveal_strlit("Page ");
        let p = "Page "@ + decimal(n as nat);
        lemma_decimal(n as nat);
        assert(p =~= seq!['P', 'a', 'g', 'e', ' '] + decimal(n as nat));
        assert forall|k: int| 0 <= k < p.len() implies p[k] != '&' && p[k] != '<' && p[k] != '>'
            && p[k] != '"' by {
            if k >= 5 {
                assert(p[k] == decimal(n as nat)[k - 5]);
                assert(is_digit(decimal(n as nat)[k - 5]));
            }
        }
        lemma_escape_xml_shape(p);
    }
}

/// The navigation document: one link per section, titled by the section's title.
pub open spec fn nav_spec(es: Seq<(u32, Option<Seq<char>>)>) -> Seq<char> {
    nav_head() + nav_entries(es) + "</ol>\n</nav>\n</body>\n</html>\n"@
}

/// The EPUB navigation document (`OEBPS/nav.xhtml`) for sections with their titles.
pub fn nav_document(entries: &Vec<(u32, Option<String>)>) -> (out: String)
    ensures
        out@ == nav_spec(title_views(entries@)),
{
    let mut out = chars_of("<?xml version=\"1.0\" encoding=\"utf-8\"?>\n<html xmlns=\"http://www.w3.org/1999/xhtml\" xmlns:epub=\"http://www.idpf.org/2007/ops\">\n<head><title>Navigation</title></head>\n<body>\n<nav epub:type=\"toc\">\n<ol>\n");
    let ghost head = out@;
    let ghost es = title_views(entries@);
    let mut i: usize = 0;
    while i < entries.len()
        invariant
            i <= entries.len(),
            es == title_views(entries@),
            out@ == head + nav_entries(es.take(i as int)),
        decreases entries.len() - i,
    {
        let num = entries[i].0;
        let title: Vec<char> = match &entries[i].1 {
            Some(t) => chars_of(t.as_str()),
            None => {
                let mut p = chars_of("Page ");
                push_decimal(&mut p, num as u64);
                p
            },
        };
        assert(title@ == nav_title(num, es[i as int].1));
        let ghost before = out@;
        append_chars(&mut out, &chars_of("<li><a href=\"section_"));
        push_decimal(&mut out, num as u64);
        append_chars(&mut out, &chars_of(".xhtml\">"));
        append_chars(&mut out, &escape_xml_chars(&title));
        append_chars(&mut out, &chars_of("</a></li>\n"));
        assert(out@ =~= before + nav_entry(num, es[i as int].1));
        assert(es.take(i + 1).drop_last() =~= es.take(i as int));
        i = i + 1;
    }
    assert(es.take(entries.len() as int) =~= es);
    append_chars(&mut out, &chars_of("</ol>\n</nav>\n</body>\n</html>\n"));
    string_of(&out)
}

// ---------------------------------------------------------------------------
// The markdown book
// ---------------------------------------------------------------------------

/// One section in the markdown book: a blank line before every section but the first, and
/// a `## Page N` heading for a section without a title.
pub open spec fn markdown_part(first: bool, num: u32, md: Seq<char>) -> Seq<char> {
    (if first {
        seq![]
    } else {
        seq!['\n']
    }) + (if first_heading(lines(md)) is None {
        "## Page "@ + decimal(num as nat) + "\n\n"@
    } else {
        seq![]
    }) + md
}

pub open spec fn markdown_parts(es: Seq<(u32, Seq<char>)>) -> Seq<char>
    decreases es.len(),
{
    if es.len() == 0 {
        seq![]
    } else {
        markdown_parts(es.drop_last()) + markdown_part(es.len() == 1, es.last().0, es.last().1)
    }
}

/// The whole book as one markdown file, from its sections in order.
pub fn markdown_book(sections: &Vec<(u32, String)>) -> (out: String)
    ensures
        out@ == markdown_parts(section_views(sections@)),
{
    let ghost es = section_views(sections@);
    let mut out: Vec<char> = Vec::new();
    let mut i: usize = 0;
    while i < sections.len()
        invariant
            i <= sections.len(),
            es == section_views(sections@),
            out@ == markdown_parts(es.take(i as int)),
        decreases sections.len() - i,
    {
        let ghost before = out@;
        if i > 0 {
            out.push('\n');
        }
        let md = sections[i].1.as_str();
        if md_title(md).is_none() {
            append_chars(&mut out, &chars_of("## Page "));
            push_decimal(&mut out, sections[i].0 as u64);
            append_chars(&mut out, &chars_of("\n\n"));
        }
        append_chars(&mut out, &chars_of(md));
        assert(es.take(i + 1).drop_last() =~= es.take(i as int));
        assert(out@ =~= before + markdown_part(i == 0, sections@[i as int].0, sections@[i as int].1@));
        i = i + 1;
    }
    assert(es.take(sections.len() as int) =~= es);
    string_of(&out)
}

} // verus!
