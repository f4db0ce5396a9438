use std::path::PathBuf;

use book_parser::section::{
    annotate_fail_record, decode_entities, escape_xml, fail_file, fail_info, fail_number,
    first_unexpected_stage, md_title, md_to_plaintext, numbered_name, paragraphs_to_md,
    parse_fail_record, rebuild_section, section_file, shell_escape, sort_by_number,
    translate_fail_record, trimmed_nonempty, FailInfo, FailRecordError, Stage,
};

#[test]
fn stage_directories() {
    assert_eq!(Stage::Raw.dir_name(), "sections");
    assert_eq!(Stage::Translated.dir_name(), "sections_translated");
    assert_eq!(Stage::Annotated.dir_name(), "sections_annotated");
    assert_eq!(Stage::Raw.fail_dir_name(), None);
    assert_eq!(Stage::Translated.fail_dir_name(), Some("failed_translate"));
    assert_eq!(Stage::Annotated.fail_dir_name(), Some("failed_annotate"));
}

#[test]
fn resolve_latest_prefers_highest_nonempty_stage() {
    let (s, v) = Stage::resolve_latest(vec![3u32], vec![1, 2], vec![1, 2, 3]);
    assert_eq!(s, Stage::Annotated);
    assert_eq!(v, vec![3]);
    let (s, v) = Stage::resolve_latest(Vec::<u32>::new(), vec![1, 2], vec![1, 2, 3]);
    assert_eq!(s, Stage::Translated);
    assert_eq!(v, vec![1, 2]);
    let (s, v) = Stage::resolve_latest(Vec::<u32>::new(), Vec::new(), vec![1, 2, 3]);
    assert_eq!(s, Stage::Raw);
    assert_eq!(v, vec![1, 2, 3]);
}

#[test]
fn paragraphs_to_md_with_title() {
    let md = paragraphs_to_md(Some("Chapter 1"), &["  first  ", "", "   ", "second"]);
    assert_eq!(md, "# Chapter 1\n\nfirst\n\nsecond\n");
}

#[test]
fn paragraphs_to_md_without_title_or_paragraphs() {
    assert_eq!(paragraphs_to_md(None, &[]), "");
    assert_eq!(paragraphs_to_md(None, &["a"]), "\na\n");
}

#[test]
fn md_title_finds_first_nonblank_heading() {
    assert_eq!(md_title("text\n#  \n# Real title  \n# Other\n"), Some("Real title".to_string()));
    assert_eq!(md_title("## not a title\nplain\n"), None);
    assert_eq!(md_title(""), None);
}

#[test]
fn title_reads_back_from_section() {
    let md = paragraphs_to_md(Some("  Глава 7 \r"), &["text"]);
    assert_eq!(md_title(&md), Some("Глава 7".to_string()));
}

#[test]
fn md_to_plaintext_drops_titles_and_blank_lines() {
    let md = "# Title\n\nfirst line\n   \n## sub\nsecond\n";
    assert_eq!(md_to_plaintext(md), "first line\n## sub\nsecond\n");
}

#[test]
fn plaintext_reads_back_paragraphs() {
    let md = paragraphs_to_md(Some("T"), &["  one ", "", "two", "three  "]);
    assert_eq!(md_to_plaintext(&md), "one\ntwo\nthree\n");
}

#[test]
fn rebuild_section_keeps_title() {
    let source = "# Kapitel\n\nalt\n";
    assert_eq!(rebuild_section(source, "neu\n\nzwei"), "# Kapitel\n\nneu\n\nzwei\n");
    assert_eq!(rebuild_section("no title\n", "x"), "\nx\n");
}

#[test]
fn decode_entities_decodes_amp_first() {
    assert_eq!(decode_entities("&lt;p&gt; &amp;amp; &quot;q&quot; &apos;a&apos;"), "<p> &amp; \"q\" 'a'");
    assert_eq!(decode_entities("plain"), "plain");
}

#[test]
fn escape_xml_escapes_four_characters() {
    assert_eq!(escape_xml("a<b>&\"c'"), "a&lt;b&gt;&amp;&quot;c'");
    assert_eq!(escape_xml(""), "");
}

#[test]
fn shell_escape_quotes_when_needed() {
    assert_eq!(shell_escape("abc123"), "abc123");
    assert_eq!(shell_escape("de"), "de");
    assert_eq!(shell_escape("it's"), "'it'\\''s'");
    assert_eq!(shell_escape("a b"), "'a b'");
    assert_eq!(shell_escape("Über"), "'Über'");
    assert_eq!(shell_escape(""), "");
}

#[test]
fn trimmed_nonempty_values() {
    assert_eq!(trimmed_nonempty("  de \n"), Some("de".to_string()));
    assert_eq!(trimmed_nonempty(" \n\t"), None);
}

#[test]
fn numbered_names() {
    assert_eq!(numbered_name("section_12.md", "section_", ".md"), Some(12));
    assert_eq!(numbered_name("section_12.txt", "section_", ".md"), None);
    assert_eq!(numbered_name("other_12.md", "section_", ".md"), None);
    assert_eq!(numbered_name("section_.md", "section_", ".md"), None);
    assert_eq!(numbered_name("section_99999999999.md", "section_", ".md"), None);
    assert_eq!(numbered_name("section_7b8.md", "section_", ".md"), Some(7));
}

#[test]
fn section_file_names_read_back() {
    assert_eq!(section_file(0), "section_0.md");
    assert_eq!(section_file(4294967295), "section_4294967295.md");
    for n in [0u32, 1, 9, 10, 517, u32::MAX] {
        assert_eq!(numbered_name(&section_file(n), "section_", ".md"), Some(n));
        assert_eq!(fail_number(&fail_file(n)), Some(n));
    }
    assert_eq!(fail_file(3), "section_3.fail");
}

#[test]
fn fail_numbers() {
    assert_eq!(fail_number("section_5.fail"), Some(5));
    assert_eq!(fail_number("xsection_5.fail"), Some(5));
    assert_eq!(fail_number("section_.fail"), None);
    assert_eq!(fail_number("section_5.md"), None);
    assert_eq!(fail_number("page_5.fail"), None);
}

#[test]
fn fail_records() {
    let rec = translate_fail_record("de");
    assert_eq!(rec, "translate\nlanguage=de\n");
    let info = fail_info("section_42.fail", &rec, PathBuf::new()).ok().unwrap();
    assert_eq!((info.num, info.stage.as_str(), info.setting("language")), (42, "translate", Some("de")));
    let rec = annotate_fail_record("de", "3000");
    assert_eq!(rec, "annotate\nlanguage=de\nwlimit=3000\n");
    let (stage, settings) = parse_fail_record(&rec).unwrap();
    assert_eq!(stage, "annotate");
    assert_eq!(settings, vec![("language".to_string(), "de".to_string()), ("wlimit".to_string(), "3000".to_string())]);
    assert_eq!(parse_fail_record(""), None);
    let (stage, settings) = parse_fail_record("translate\nno setting\nk=v=w\r\n").unwrap();
    assert_eq!(stage, "translate");
    assert_eq!(settings, vec![("k".to_string(), "v=w".to_string())]);
}

#[test]
fn fail_info_reads_annotate_record_back() {
    let rec = annotate_fail_record("pt-BR", "1=2");
    let info = fail_info("section_9.fail", &rec, PathBuf::from("/x/section_9.fail")).ok().unwrap();
    assert_eq!(info.num, 9);
    assert_eq!(info.stage, "annotate");
    assert_eq!(info.setting("language"), Some("pt-BR"));
    assert_eq!(info.setting("wlimit"), Some("1=2"));
    assert_eq!(info.setting("missing"), None);
    assert_eq!(info.path, PathBuf::from("/x/section_9.fail"));
}

#[test]
fn fail_info_errors() {
    assert!(matches!(fail_info("notes.fail", "annotate\n", PathBuf::new()), Err(FailRecordError::NoSectionNumber)));
    assert!(matches!(fail_info("section_1.fail", "", PathBuf::new()), Err(FailRecordError::Empty)));
}

#[test]
fn setting_takes_first_of_repeated_keys() {
    let info = FailInfo {
        num: 1,
        stage: "annotate".to_string(),
        settings: vec![("k".to_string(), "a".to_string()), ("k".to_string(), "b".to_string())],
        path: PathBuf::new(),
    };
    assert_eq!(info.setting("k"), Some("a"));
}

#[test]
fn unexpected_stage_is_found() {
    let mk = |stage: &str| FailInfo { num: 1, stage: stage.to_string(), settings: vec![], path: PathBuf::new() };
    let fails = vec![mk("annotate"), mk("translate"), mk("x")];
    assert_eq!(first_unexpected_stage(&fails, "annotate"), Some(1));
    assert_eq!(first_unexpected_stage(&vec![mk("annotate"), mk("annotate")], "annotate"), None);
    assert_eq!(first_unexpected_stage(&vec![], "annotate"), None);
}

#[test]
fn sort_by_number_is_stable() {
    let v = vec![(3u32, "a"), (1, "b"), (3, "c"), (2, "d"), (1, "e")];
    assert_eq!(sort_by_number(v), vec![(1, "b"), (1, "e"), (2, "d"), (3, "a"), (3, "c")]);
    assert_eq!(sort_by_number(Vec::<(u32, ())>::new()), vec![]);
}

#[test]
fn plaintext_of_plaintext_is_the_same() {
    let md = "# T\n\n  one  \n\n# not text\ntwo\n   \nthree";
    let p = md_to_plaintext(md);
    assert_eq!(p, "  one  \ntwo\nthree\n");
    assert_eq!(md_to_plaintext(&p), p);
    assert_eq!(md_to_plaintext(""), "");
}

#[test]
fn escaped_xml_has_no_markup_characters() {
    let e = escape_xml("a<b & \"c\">");
    assert_eq!(e, "a&lt;b &amp; &quot;c&quot;&gt;");
    assert!(!e.contains('<') && !e.contains('>') && !e.contains('"'));
    assert_eq!(escape_xml("plain text, 'quoted'"), "plain text, 'quoted'");
    // Every `&` begins an entity, even where the text held entities already.
    let e = escape_xml("&amp; & &lt;");
    assert_eq!(e, "&amp;amp; &amp; &amp;lt;");
    for (i, _) in e.match_indices('&') {
        let rest = &e[i..];
        assert!(rest.starts_with("&amp;") || rest.starts_with("&lt;") || rest.starts_with("&gt;") || rest.starts_with("&quot;"));
    }
}

#[test]
fn decoding_undoes_escaping() {
    let s = "<b> \"x\" 'y' > <";
    assert_eq!(decode_entities(&escape_xml(s)), s);
    assert_eq!(decode_entities("plain 'text'"), "plain 'text'");
    assert_eq!(decode_entities("&lt;b&gt; &quot;x&quot; &apos;y&apos; &amp;"), "<b> \"x\" 'y' &");
}

#[test]
fn shell_words_read_back() {
    assert_eq!(shell_escape("abc123"), "abc123");
    assert_eq!(shell_escape("it's here"), "'it'\\''s here'");
    assert_eq!(shell_escape("'"), "''\\'''");
}
