use book_parser::load::{
    chapter_starts, levenshtein_distance, scrape_title, titled_page, titles_differ,
    block_kind, book_name_from_url, classify_response, content_blocks, contiguous_cut, first_gap, format_block,
    page_markdown, page_url, pages_to_load, parse_load_url, pending_sections, scrape_blocks,
    url_range_underflows, BlockKind, LoadUrlError, PageElement, PageQueue, ResponseKind,
    ScrapeError, Throttle, CF_FALLBACK_PARALLEL, CF_FALLBACK_TIMEOUT_SECS,
};

fn url_ok(url: &str) -> (String, u32, u32) {
    assert!(!url_range_underflows(url));
    match parse_load_url(url) {
        Ok(x) => x,
        Err(_) => panic!("refused: {url}"),
    }
}

#[test]
fn load_urls_with_ranges() {
    assert_eq!(
        url_ok("https://lightnovelworld.org/novel/shadow-slave/chapter/1..=2980/"),
        ("https://lightnovelworld.org/novel/shadow-slave/chapter/{}/".to_string(), 1, 2980)
    );
    assert_eq!(url_ok("https://example.com/b/123/read#t1..100"), ("https://example.com/b/123/read#t{}".to_string(), 1, 99));
    assert_eq!(url_ok("https://site.com/novel/foo/ch-1..=500"), ("https://site.com/novel/foo/ch-{}".to_string(), 1, 500));
    assert_eq!(url_ok("x/ab12..=12"), ("x/ab{}".to_string(), 12, 12));
}

#[test]
fn load_url_errors() {
    assert!(matches!(parse_load_url("https://x.com/a"), Err(LoadUrlError::NoRange)));
    assert!(matches!(parse_load_url("https://x.com/1..5//"), Err(LoadUrlError::NoRange)));
    assert!(matches!(parse_load_url("https://x.com/..5"), Err(LoadUrlError::NoRange)));
    assert!(matches!(parse_load_url("https://x.com/5..=3"), Err(LoadUrlError::EmptyRange)));
    assert!(matches!(parse_load_url("https://x.com/5..5"), Err(LoadUrlError::EmptyRange)));
    assert!(matches!(parse_load_url("x/99999999999..=1"), Err(LoadUrlError::InvalidNumber)));
    assert!(matches!(parse_load_url("https://x.com/a/١..٥"), Err(LoadUrlError::InvalidNumber)));
    assert!(url_range_underflows("x/3..0"));
    assert!(!url_range_underflows("x/3..=0"));
    assert!(matches!(parse_load_url("x/3..=0"), Err(LoadUrlError::EmptyRange)));
}

#[test]
fn page_urls() {
    assert_eq!(page_url("https://x/chapter/{}/", 7), "https://x/chapter/7/");
    assert_eq!(page_url("a{}b{}", 10), "a10b10");
    assert_eq!(page_url("none", 1), "none");
}

#[test]
fn book_names_from_urls() {
    assert_eq!(book_name_from_url("https://lightnovelworld.org/novel/shadow-slave/chapter/1..=2980/"), "novel_shadow-slave_chapter");
    assert_eq!(book_name_from_url("https://example.com/b/123/read#t1..100"), "b_123_read");
    assert_eq!(book_name_from_url("https://example.com/"), "book");
    assert_eq!(book_name_from_url("http://h/x?y=1..2"), "x");
    assert_eq!(book_name_from_url("ftp://h//a//b"), "h_a_b");
    // Ranges written with the digits of another script are stripped too.
    assert_eq!(book_name_from_url("https://x.com/a/١..٥"), "a");
    assert_eq!(book_name_from_url("https://x.com/a/१..=९/"), "a");
}

#[test]
fn gaps_and_pages_to_load() {
    assert_eq!(first_gap(1, 5, &[1, 2, 4, 5]), Some(3));
    assert_eq!(first_gap(1, 3, &[3, 2, 1]), None);
    assert_eq!(first_gap(4, 4, &[]), Some(4));
    // Once the pages after the gap are gone, the same gap is found again.
    assert_eq!(first_gap(1, 6, &[1, 2, 4, 6]), Some(3));
    assert_eq!(first_gap(1, 6, &[1, 2]), Some(3));
    assert_eq!(first_gap(1, 6, &[2, 1]), Some(3));
    // The pages after the gap are discarded; a second pass discards nothing more.
    assert_eq!(contiguous_cut(1, 6, &[1, 2, 4, 6, 9]), (Some(3), vec![4, 6]));
    assert_eq!(contiguous_cut(1, 6, &[1, 2, 9]), (Some(3), vec![]));
    assert_eq!(contiguous_cut(1, 3, &[3, 1, 2]), (None, vec![]));
    assert_eq!(pages_to_load(1, 5, &[2, 4], false), (vec![1, 3, 5], 2));
    assert_eq!(pages_to_load(1, 5, &[2, 4], true), (vec![1, 2, 3, 4, 5], 0));
    assert_eq!(pending_sections(&vec![3, 1, 2], &[2], false), (vec![3, 1], 1));
    assert_eq!(pending_sections(&vec![3, 1, 2], &[2], true), (vec![3, 1, 2], 0));
}

#[test]
fn throttle_clamps_once() {
    let mut t = Throttle::new(16, 0);
    assert_eq!(t.effective_parallel(), 16);
    assert_eq!(t.effective_timeout_secs(), 0);
    assert!(t.trip_cloudflare_throttle());
    assert_eq!(t.effective_parallel(), CF_FALLBACK_PARALLEL);
    assert_eq!(t.effective_timeout_secs(), CF_FALLBACK_TIMEOUT_SECS);
    assert!(!t.trip_cloudflare_throttle());
    assert_eq!(t.effective_parallel(), 4);
    assert_eq!(t.effective_timeout_secs(), 1);
    let mut u = Throttle::new(0, 5);
    assert_eq!(u.effective_parallel(), 1);
    assert!(u.trip_cloudflare_throttle());
    assert_eq!(u.effective_parallel(), 1);
    assert_eq!(u.effective_timeout_secs(), 5);
    let mut w = Throttle::new(2, 0);
    assert!(w.trip_cloudflare_throttle());
    assert_eq!(w.effective_parallel(), 2);
}

#[test]
fn page_queue_requeues_in_front() {
    let mut q = PageQueue::new(vec![1, 2, 3, 4, 5, 6, 7]);
    assert_eq!(q.next_chunk(3), vec![1, 2, 3]);
    q.requeue(vec![2, 3]);
    assert_eq!(q.pages, vec![2, 3, 4, 5, 6, 7]);
    let c = q.next_chunk(2);
    q.requeue(c);
    assert_eq!(q.pages, vec![2, 3, 4, 5, 6, 7]);
    assert_eq!(q.next_chunk(10), vec![2, 3, 4, 5, 6, 7]);
    assert!(q.is_empty());
}

#[test]
fn blocks_from_elements() {
    assert!(matches!(block_kind("p", false), BlockKind::Paragraph));
    assert!(matches!(block_kind("h3", true), BlockKind::Heading(3)));
    assert!(matches!(block_kind("div", true), BlockKind::Subtitle));
    assert!(matches!(block_kind("div", false), BlockKind::Other));
    assert!(matches!(block_kind("h7", false), BlockKind::Other));
    assert_eq!(format_block(&BlockKind::Heading(2), "T"), Some("## T".to_string()));
    assert_eq!(format_block(&BlockKind::Heading(6), "T"), Some("###### T".to_string()));
    assert_eq!(format_block(&BlockKind::Subtitle, "* * *"), Some("#### * * *".to_string()));
    assert_eq!(format_block(&BlockKind::Subtitle, "***"), None);
    assert_eq!(format_block(&BlockKind::Paragraph, ""), None);
    assert_eq!(format_block(&BlockKind::Other, "x"), None);
    let el = |tag: &str, text: &str, subtitle: bool| PageElement { tag: tag.to_string(), text: text.to_string(), subtitle };
    let blocks = content_blocks(&vec![
        el("p", "  a  ", false),
        el("h1", "T", false),
        el("div", " * * * ", true),
        el("div", "x", false),
        el("span", "y", false),
        el("p", " ", false),
    ]);
    assert_eq!(blocks, vec!["a".to_string(), "# T".to_string(), "#### * * *".to_string()]);
}

#[test]
fn page_markdown_decodes_and_splits_lines() {
    assert_eq!(page_markdown(&vec!["a".to_string(), "# T &amp; U".to_string()]), "\na\n\n# T & U\n");
    assert_eq!(page_markdown(&vec![]), "");
}

const PAGE: &str = "<html><body><nav><p>menu</p></nav><div id=\"c\"><h2>Title</h2><p>one</p><p> </p><div class=\"subtitle\">* * *</div><p>two &amp; <b>three</b></p></div></body></html>";

#[test]
fn scraping_a_page() {
    let sel = vec!["#missing".to_string(), "#c".to_string()];
    let blocks = match scrape_blocks(PAGE, &sel) {
        Ok(b) => b,
        Err(_) => panic!("page not read"),
    };
    assert_eq!(blocks, vec!["## Title".to_string(), "one".to_string(), "#### * * *".to_string(), "two & three".to_string()]);
    assert_eq!(page_markdown(&blocks), "\n## Title\n\none\n\n#### * * *\n\ntwo & three\n");
}

#[test]
fn first_matching_container_wins() {
    let page = "<div class=\"a\"><p>first</p></div><div class=\"b\"><p>second</p></div><div class=\"a\"><p>third</p></div>";
    let sel = vec![".b".to_string(), ".a".to_string()];
    assert_eq!(scrape_blocks(page, &sel).ok(), Some(vec!["second".to_string()]));
    let sel = vec![".a".to_string(), ".b".to_string()];
    assert_eq!(scrape_blocks(page, &sel).ok(), Some(vec!["first".to_string()]));
    assert_eq!(scrape_title(page, "p"), Ok(Some("first".to_string())));
}

#[test]
fn scraping_errors() {
    assert!(matches!(scrape_blocks(PAGE, &vec!["###".to_string()]), Err(ScrapeError::InvalidSelector { index: 0, .. })));
    assert!(matches!(scrape_blocks(PAGE, &vec!["#c".to_string(), "[".to_string()]), Err(ScrapeError::InvalidSelector { index: 1, .. })));
    assert!(matches!(scrape_blocks(PAGE, &vec!["#nothing".to_string()]), Err(ScrapeError::NoContainer)));
    assert!(matches!(scrape_blocks("<div id=\"c\"><span>x</span></div>", &vec!["#c".to_string()]), Err(ScrapeError::NoContent)));
}

#[test]
fn responses() {
    assert_eq!(classify_response(503, Some("cloudflare")), ResponseKind::Throttled);
    assert_eq!(classify_response(503, Some("CloudFlare")), ResponseKind::Throttled);
    assert_eq!(classify_response(503, Some("nginx")), ResponseKind::Failed);
    assert_eq!(classify_response(503, None), ResponseKind::Failed);
    assert_eq!(classify_response(404, Some("cloudflare")), ResponseKind::Failed);
    assert_eq!(classify_response(200, None), ResponseKind::Success);
    assert_eq!(classify_response(299, None), ResponseKind::Success);
    assert_eq!(classify_response(300, None), ResponseKind::Failed);
}

#[test]
fn page_urls_replace_the_range() {
    let (t, s, e) = url_ok("https://x.org/novel/chapter/1..=50/");
    assert_eq!((s, e), (1, 50));
    assert_eq!(page_url(&t, 1), "https://x.org/novel/chapter/1/");
    assert_eq!(page_url(&t, 50), "https://x.org/novel/chapter/50/");
    let (t, _, _) = url_ok("https://x.org/read?p=10..12");
    assert_eq!(page_url(&t, 11), "https://x.org/read?p=11");
}

#[test]
fn levenshtein_distances() {
    assert_eq!(levenshtein_distance("kitten", "sitting"), 3);
    assert_eq!(levenshtein_distance("", "abc"), 3);
    assert_eq!(levenshtein_distance("abc", ""), 3);
    assert_eq!(levenshtein_distance("flaw", "lawn"), 2);
    assert_eq!(levenshtein_distance("Глава 1", "Глава 2"), 1);
    assert_eq!(levenshtein_distance("same", "same"), 0);
}

#[test]
fn titles_differing_by_more_than_a_quarter() {
    assert!(!titles_differ("Chapter 1: Start", "Chapter 2: Start"));
    assert!(titles_differ("Chapter 1", "Prologue"));
    assert!(!titles_differ("", ""));
    assert!(titles_differ("a", ""));
    assert!(!titles_differ("abcd", "abce"));
    assert!(titles_differ("abc", "abd"));
}

#[test]
fn chapters_start_where_titles_change() {
    let t = |s: &str| Some(s.to_string());
    let titles = vec![t("Chapter 1: The Beginning"), t("Chapter 2: The Beginning"), None, t("Interlude"), t("Interlude"), t("Chapter 3: The Beginning")];
    assert_eq!(chapter_starts(&titles), vec![true, false, false, true, false, true]);
    assert_eq!(chapter_starts(&vec![None, t("x")]), vec![false, true]);
    assert_eq!(titled_page("\na\n", "T"), "# T\n\na\n");
}

#[test]
fn page_titles() {
    let page = "<html><body><h1 class=\"chapter-title\">  Chapter 7 </h1><h1 class=\"chapter-title\">Other</h1><p class=\"t\"> </p></body></html>";
    assert_eq!(scrape_title(page, "h1.chapter-title"), Ok(Some("Chapter 7".to_string())));
    assert_eq!(scrape_title(page, "h2"), Ok(None));
    assert_eq!(scrape_title(page, "p.t"), Ok(None));
    assert!(scrape_title(page, "###").is_err());
}
