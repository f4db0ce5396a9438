//! Splitting a book file (`.txt`, `.fb2` or `.epub`) into numbered sections.
use regex::Regex;
use vstd::prelude::*;

use crate::section::{
    first_digit_run, lemma_first_digit_run_of, section_md, section_md_chars, section_views,
};
use crate::xml::{
    document_events, event_view, event_views, gathered, ref_chars, ref_text, xml_events, EventView,
    XmlEvent,
};
use crate::text::{
    append_chars, trim, trim_chars,
    chars_of, is_digit, is_digit_exec, lemma_digit_prefix_len_at, lines, lines_of,
    parse_u32, parse_u32_spec, slice_chars, string_of, views, decimal, lemma_decimal_u32,
};

verus! {

// ---------------------------------------------------------------------------
// The kind of input file
// ---------------------------------------------------------------------------

/// The format of a book file.
#[derive(Clone, Copy, Debug, PartialEq, Eq, Structural)]
pub enum InputKind {
    Txt,
    Fb2,
    Epub,
}

/// Why a book file was refused before reading it.
pub enum InputError {
    /// The file name has no extension.
    NoExtension,
    /// The extension is not `txt`, `fb2` or `epub`.
    Unsupported,
    /// A chapter pattern was given for a file that is not `.txt`.
    PatternNotApplicable,
}

/// The format of a book file by extension; a chapter pattern only applies to `.txt`.
pub open spec fn input_kind_spec(ext: Option<Seq<char>>, has_pattern: bool) -> Result<InputKind, InputError> {
    match ext {
        None => Err(InputError::NoExtension),
        Some(e) => if e == "txt"@ {
            Ok(InputKind::Txt)
        } else if e == "fb2"@ || e == "epub"@ {
            if has_pattern {
                Err(InputError::PatternNotApplicable)
            } else if e == "fb2"@ {
                Ok(InputKind::Fb2)
            } else {
                Ok(InputKind::Epub)
            }
        } else {
            Err(InputError::Unsupported)
        },
    }
}

fn is_lit(v: &Vec<char>, lit: &str) -> (b: bool)
    ensures
        b == (v@ == lit@),
{
    let w = chars_of(lit);
    if v.len() != w.len() {
        return false;
    }
    assert(v@.skip(0) =~= v@);
    let m = crate::text::matches_at(v, 0, &w);
    assert(m ==> v@.take(w.len() as int) =~= v@);
    m
}

pub fn input_kind(ext: Option<&str>, has_pattern: bool) -> (r: Result<InputKind, InputError>)
    ensures
        r == input_kind_spec(
            match ext {
                None => None,
                Some(e) => Some(e@),
            },
            has_pattern,
        ),
{
    match ext {
        None => Err(InputError::NoExtension),
        Some(e) => {
            let v = chars_of(e);
            if is_lit(&v, "txt") {
                Ok(InputKind::Txt)
            } else if is_lit(&v, "fb2") || is_lit(&v, "epub") {
                if has_pattern {
                    Err(InputError::PatternNotApplicable)
                } else if is_lit(&v, "fb2") {
                    Ok(InputKind::Fb2)
                } else {
                    Ok(InputKind::Epub)
                }
            } else {
                Err(InputError::Unsupported)
            }
        },
    }
}

/// The chapter heading pattern of `.txt` books when none is given.
pub const DEFAULT_CHAPTER_PATTERN: &'static str = "^Глава [0-9]+";

// ---------------------------------------------------------------------------
// Chapter headings by regular expression
// ---------------------------------------------------------------------------

#[verifier::external_type_specification]
#[verifier::external_body]
pub struct ExRegex(Regex);

#[verifier::external_type_specification]
#[verifier::external_body]
pub struct ExRegexError(regex::Error);

/// Whether the `regex` crate accepts a pattern.
pub uninterp spec fn regex_compiles(pattern: Seq<char>) -> bool;

/// Whether the `regex` crate finds a match of a pattern anywhere in a text.
pub uninterp spec fn regex_is_match(pattern: Seq<char>, text: Seq<char>) -> bool;

/// A compiled chapter heading pattern, with the pattern it was compiled from.
pub struct ChapterPattern {
    pattern: String,
    re: Regex,
}

impl View for ChapterPattern {
    type V = Seq<char>;

    closed spec fn view(&self) -> Seq<char> {
        self.pattern@
    }
}

/// `Regex::new`: compiles a pattern, kept together with it. It fails on a syntax error or a
/// pattern too large to compile; which patterns those are is named, not stated.
#[verifier::external_body]
fn compile_pattern(pattern: &str) -> (r: Result<ChapterPattern, regex::Error>)
    ensures
        r is Ok <==> regex_compiles(pattern@),
        r matches Ok(p) ==> p@ == pattern@,
{
    match Regex::new(pattern) {
        Ok(re) => Ok(ChapterPattern { pattern: pattern.to_string(), re }),
        Err(e) => Err(e),
    }
}

/// The message of a `regex::Error` (its `Display`); nothing is stated of its text.
#[verifier::external_body]
fn regex_error_message(e: &regex::Error) -> String {
    format!("{e}")
}

/// `Regex::is_match`: whether the pattern matches anywhere in the text. What it matches is
/// named by `regex_is_match`, not stated.
#[verifier::external_body]
fn pattern_matches(p: &ChapterPattern, text: &str) -> (b: bool)
    ensures
        b == regex_is_match(p@, text@),
{
    p.re.is_match(text)
}

/// A chapter pattern that does not compile, with the `regex` crate's message.
pub struct PatternError {
    pub message: String,
}

impl ChapterPattern {
    /// Compiles a chapter heading pattern.
    pub fn new(pattern: &str) -> (r: Result<ChapterPattern, PatternError>)
        ensures
            r is Ok <==> regex_compiles(pattern@),
            r matches Ok(p) ==> p@ == pattern@,
    {
        match compile_pattern(pattern) {
            Ok(p) => Ok(p),
            Err(e) => Err(PatternError { message: regex_error_message(&e) }),
        }
    }

    /// Whether a line is a chapter heading: the pattern matches somewhere in it.
    pub fn is_match(&self, line: &str) -> (b: bool)
        ensures
            b == regex_is_match(self@, line@),
    {
        pattern_matches(self, line)
    }
}

// ---------------------------------------------------------------------------
// `.txt` books: a section per chapter heading
// ---------------------------------------------------------------------------

/// Sections written so far, and the section being read: its number, its heading line and
/// its lines so far.
pub struct TxtState {
    pub done: Seq<(u32, Seq<char>)>,
    pub current: Option<(u32, Seq<char>, Seq<Seq<char>>)>,
}

/// The section being read, as markdown with its number, appended to those written.
pub open spec fn flush(st: TxtState) -> Seq<(u32, Seq<char>)> {
    match st.current {
        None => st.done,
        Some((n, t, ls)) => st.done.push((n, section_md(Some(t), ls))),
    }
}

/// A heading (a line the pattern matches that has digits) starts a section numbered by its
/// first run of digits, with the line as its title; other lines go to the current section,
/// and are dropped before the first heading.
pub open spec fn txt_step(st: TxtState, line: Seq<char>, heading: bool) -> TxtState {
    if heading && first_digit_run(line) is Some {
        TxtState {
            done: flush(st),
            current: Some((parse_u32_spec(first_digit_run(line)->0)->0, line, seq![])),
        }
    } else {
        TxtState {
            done: st.done,
            current: match st.current {
                None => None,
                Some((n, t, ls)) => Some((n, t, ls.push(line))),
            },
        }
    }
}

pub open spec fn txt_run(ls: Seq<Seq<char>>, hs: Seq<bool>) -> TxtState
    decreases ls.len(),
{
    if ls.len() == 0 {
        TxtState { done: seq![], current: None }
    } else {
        txt_step(txt_run(ls.drop_last(), hs.take(ls.len() - 1)), ls.last(), hs[ls.len() - 1])
    }
}

/// A heading is numbered by the whole number it holds: a heading line made of text without
/// digits, the decimal of `n`, then text that does not start with a digit, starts section
/// `n` titled by the line, after the section before it is closed.
pub proof fn lemma_heading_number(
    ls: Seq<Seq<char>>,
    hs: Seq<bool>,
    pre: Seq<char>,
    n: u32,
    post: Seq<char>,
)
    requires
        ls.len() > 0,
        hs.len() == ls.len(),
        hs.last(),
        ls.last() == pre + decimal(n as nat) + post,
        forall|k: int| 0 <= k < pre.len() ==> !is_digit(#[trigger] pre[k]),
        post.len() == 0 || !is_digit(post[0]),
    ensures
        txt_run(ls, hs).current == Some((n, ls.last(), Seq::<Seq<char>>::empty())),
        txt_run(ls, hs).done == flush(txt_run(ls.drop_last(), hs.drop_last())),
{
    lemma_first_digit_run_of(pre, n as nat, post);
    lemma_decimal_u32(n);
    assert(hs.take(ls.len() - 1) =~= hs.drop_last());
    assert(hs[ls.len() - 1] == hs.last());
}

/// A heading whose number does not fit in 32 bits.
pub open spec fn bad_heading(line: Seq<char>, heading: bool) -> bool {
    heading && first_digit_run(line) is Some && parse_u32_spec(first_digit_run(line)->0) is None
}

/// The first run of digits in `v`.
fn first_digits(v: &Vec<char>) -> (r: Option<Vec<char>>)
    ensures
        match first_digit_run(v@) {
            None => r is None,
            Some(d) => r matches Some(x) && x@ == d,
        },
{
    let mut from: usize = 0;
    assert(v@.skip(0) =~= v@);
    while from < v.len() && !is_digit_exec(v[from])
        invariant
            from <= v.len(),
            first_digit_run(v@) == first_digit_run(v@.skip(from as int)),
        decreases v.len() - from,
    {
        assert(v@.skip(from as int).drop_first() =~= v@.skip(from + 1));
        from = from + 1;
    }
    if from == v.len() {
        return None;
    }
    let mut e = from;
    while e < v.len() && is_digit_exec(v[e])
        invariant
            from <= e <= v.len(),
            forall|k: int| from <= k < e ==> is_digit(#[trigger] v@[k]),
        decreases v.len() - e,
    {
        e = e + 1;
    }
    proof {
        let s = v@.skip(from as int);
        assert forall|k: int| 0 <= k < e - from implies is_digit(#[trigger] s[k]) by {
            assert(s[k] == v@[k + from]);
        }
        lemma_digit_prefix_len_at(s, e - from);
        assert(s.take(e - from) =~= v@.subrange(from as int, e as int));
    }
    Some(slice_chars(v, from, e))
}

/// Splits the lines of a `.txt` book at its chapter headings (`heads[i]`: whether line `i`
/// matches the heading pattern). Gives each section's number and markdown, in order.
pub fn txt_chapters(ls: &Vec<Vec<char>>, heads: &Vec<bool>, upto: usize) -> (r: Vec<(u32, String)>)
    requires
        heads.len() == ls.len(),
        upto <= ls.len(),
        forall|i: int| 0 <= i < upto ==> !bad_heading(#[trigger] ls@[i]@, heads@[i]),
    ensures
        section_views(r@) == flush(txt_run(views(ls@).take(upto as int), heads@.take(upto as int))),
{
    let mut out: Vec<(u32, String)> = Vec::new();
    let mut cur_num: Option<u32> = None;
    let mut cur_title: Vec<char> = Vec::new();
    let mut cur_lines: Vec<Vec<char>> = Vec::new();
    let mut i: usize = 0;
    assert(views(ls@).take(0) =~= Seq::<Seq<char>>::empty());
    while i < upto
        invariant
            i <= upto <= ls.len(),
            heads.len() == ls.len(),
            forall|j: int| 0 <= j < upto ==> !bad_heading(#[trigger] ls@[j]@, heads@[j]),
            ({
                let st = txt_run(views(ls@).take(i as int), heads@.take(i as int));
                &&& section_views(out@) == st.done
                &&& match st.current {
                    None => cur_num is None,
                    Some((n, t, lns)) => cur_num == Some(n) && cur_title@ == t && views(
                        cur_lines@,
                    ) == lns,
                }
            }),
        decreases upto - i,
    {
        let ghost prev = txt_run(views(ls@).take(i as int), heads@.take(i as int));
        assert(views(ls@).take(i + 1).drop_last() =~= views(ls@).take(i as int));
        assert(heads@.take(i + 1).take(i as int) =~= heads@.take(i as int));
        assert(views(ls@).take(i + 1).last() == ls@[i as int]@);
        let line = &ls[i];
        let digits = if heads[i] {
            first_digits(line)
        } else {
            None
        };
        match digits {
            Some(d) => {
                assert(!bad_heading(ls@[i as int]@, heads@[i as int]));
                let n = parse_u32(&d).unwrap();
                match cur_num {
                    Some(m) => {
                        let md = section_md_chars(Some(&cur_title), &cur_lines);
                        out.push((m, string_of(&md)));
                        assert(section_views(out@) =~= flush(prev));
                    },
                    None => {
                        assert(section_views(out@) =~= flush(prev));
                    },
                }
                cur_num = Some(n);
                cur_title = slice_chars(line, 0, line.len());
                assert(cur_title@ =~= line@);
                cur_lines = Vec::new();
                assert(views(cur_lines@) =~= Seq::<Seq<char>>::empty());
            },
            None => {
                if cur_num.is_some() {
                    let copy = slice_chars(line, 0, line.len());
                    assert(copy@ =~= line@);
                    proof {
                        crate::text::lemma_views_push(cur_lines@, copy);
                    }
                    cur_lines.push(copy);
                }
            },
        }
        i = i + 1;
    }
    match cur_num {
        Some(m) => {
            let md = section_md_chars(Some(&cur_title), &cur_lines);
            out.push((m, string_of(&md)));
            assert(section_views(out@) =~= flush(txt_run(views(ls@).take(i as int), heads@.take(i as int))));
        },
        None => {},
    }
    out
}

/// Splits a `.txt` book into sections at the lines that the chapter pattern matches and
/// that hold digits. When a heading's number does not fit in 32 bits, gives the sections
/// completed before that heading and `false`; otherwise all sections and `true`.
pub fn txt_sections(text: &str, pattern: &ChapterPattern) -> (r: (Vec<(u32, String)>, bool))
    ensures
        ({
            let ls = lines(text@);
            let hs = ls.map_values(|l: Seq<char>| regex_is_match(pattern@, l));
            if r.1 {
                &&& forall|i: int| 0 <= i < ls.len() ==> !bad_heading(#[trigger] ls[i], hs[i])
                &&& section_views(r.0@) == flush(txt_run(ls, hs))
            } else {
                exists|k: int|
                    0 <= k < ls.len() && bad_heading(ls[k], hs[k]) && (forall|i: int|
                        0 <= i < k ==> !bad_heading(#[trigger] ls[i], hs[i])) && section_views(
                        r.0@,
                    ) == flush(txt_run(ls.take(k), hs.take(k)))
            }
        }),
{
    let v = chars_of(text);
    let ls = lines_of(&v);
    let ghost lv = views(ls@);
    let ghost hs = lv.map_values(|l: Seq<char>| regex_is_match(pattern@, l));
    let mut heads: Vec<bool> = Vec::new();
    let mut k: usize = 0;
    let mut bad = false;
    while k < ls.len() && !bad
        invariant
            k <= ls.len(),
            lv == views(ls@),
            hs == lv.map_values(|l: Seq<char>| regex_is_match(pattern@, l)),
            heads@ == hs.take(k as int),
            forall|i: int| 0 <= i < k ==> !bad_heading(#[trigger] lv[i], hs[i]),
            bad ==> k < ls.len() && bad_heading(lv[k as int], hs[k as int]),
        decreases ls.len() - k, if bad { 0int } else { 1int },
    {
        let h = pattern.is_match(string_of(&ls[k]).as_str());
        assert(h == hs[k as int]);
        let mut overflow = false;
        if h {
            match first_digits(&ls[k]) {
                Some(d) => {
                    overflow = parse_u32(&d).is_none();
                },
                None => {},
            }
        }
        if overflow {
            bad = true;
        } else {
            heads.push(h);
            assert(heads@ =~= hs.take(k + 1));
            k = k + 1;
        }
    }
    let complete = !bad;
    let mut all_heads = heads;
    while all_heads.len() < ls.len()
        invariant
            all_heads.len() <= ls.len(),
            all_heads@.take(k as int) == hs.take(k as int),
            k <= all_heads.len(),
        decreases ls.len() - all_heads.len(),
    {
        all_heads.push(false);
        assert(all_heads@.take(k as int) =~= hs.take(k as int));
    }
    assert(all_heads@.take(k as int) =~= hs.take(k as int));
    assert(views(ls@).take(k as int) =~= lv.take(k as int));
    assert forall|i: int| 0 <= i < k implies !bad_heading(#[trigger] ls@[i]@, all_heads@[i]) by {
        assert(all_heads@.take(k as int)[i] == all_heads@[i]);
        assert(hs.take(k as int)[i] == hs[i]);
        assert(ls@[i]@ == lv[i]);
    }
    let out = txt_chapters(&ls, &all_heads, k);
    proof {
        if complete {
            assert(lv.take(k as int) =~= lv);
            assert(hs.take(k as int) =~= hs);
        } else {
            assert(bad_heading(lv[k as int], hs[k as int]));
        }
    }
    (out, complete)
}


fn name_is(name: &String, lit: &str) -> (b: bool)
    ensures
        b == (name@ == lit@),
{
    let v = chars_of(name.as_str());
    is_lit(&v, lit)
}

// ---------------------------------------------------------------------------
// `.xhtml` chapters of an EPUB: paragraphs and title
// ---------------------------------------------------------------------------

/// Paragraphs found so far, whether a `<p>` is open, and its text so far.
pub struct ParaState {
    pub paras: Seq<Seq<char>>,
    pub in_p: bool,
    pub current: Seq<char>,
    pub stopped: bool,
}

pub open spec fn para_step(st: ParaState, e: EventView) -> ParaState {
    if st.stopped {
        st
    } else {
        match e {
            EventView::Start(n) => if n == "p"@ {
                ParaState { in_p: true, current: seq![], ..st }
            } else {
                st
            },
            EventView::End(n) => if n == "p"@ {
                let t = trim(st.current);
                ParaState {
                    in_p: false,
                    paras: if t.len() > 0 {
                        st.paras.push(t)
                    } else {
                        st.paras
                    },
                    ..st
                }
            } else {
                st
            },
            EventView::Text(t) => if st.in_p {
                ParaState { current: st.current + t, ..st }
            } else {
                st
            },
            EventView::Ref(n) => if st.in_p {
                ParaState { current: st.current + ref_text(n), ..st }
            } else {
                st
            },
            EventView::Eof => ParaState { stopped: true, ..st },
            EventView::Error(_) => ParaState { stopped: true, ..st },
            EventView::Other => st,
        }
    }
}

pub open spec fn para_run(es: Seq<EventView>) -> ParaState
    decreases es.len(),
{
    if es.len() == 0 {
        ParaState { paras: seq![], in_p: false, current: seq![], stopped: false }
    } else {
        para_step(para_run(es.drop_last()), es.last())
    }
}

/// The paragraphs of an XHTML chapter: the text of each `<p>`, trimmed, blank ones left out,
/// up to the end of the document or its first error.
pub fn paragraphs_from_events(events: &Vec<XmlEvent>) -> (r: Vec<Vec<char>>)
    ensures
        views(r@) == para_run(event_views(events@)).paras,
{
    let mut paras: Vec<Vec<char>> = Vec::new();
    let mut in_p = false;
    let mut current: Vec<char> = Vec::new();
    let mut stopped = false;
    let mut i: usize = 0;
    assert(event_views(events@).take(0) =~= Seq::<EventView>::empty());
    while i < events.len()
        invariant
            i <= events.len(),
            ({
                let st = para_run(event_views(events@).take(i as int));
                &&& views(paras@) == st.paras
                &&& in_p == st.in_p
                &&& current@ == st.current
                &&& stopped == st.stopped
            }),
        decreases events.len() - i,
    {
        assert(event_views(events@).take(i + 1).drop_last() =~= event_views(events@).take(i as int));
        assert(event_views(events@).take(i + 1).last() == event_view(events@[i as int]));
        if !stopped {
            match &events[i] {
                XmlEvent::Start(n) => {
                    if name_is(n, "p") {
                        in_p = true;
                        current = Vec::new();
                    }
                },
                XmlEvent::End(n) => {
                    if name_is(n, "p") {
                        in_p = false;
                        let t = trim_chars(&current);
                        if t.len() > 0 {
                            proof {
                                crate::text::lemma_views_push(paras@, t);
                            }
                            paras.push(t);
                        }
                    }
                },
                XmlEvent::Text(t) => {
                    if in_p {
                        append_chars(&mut current, &chars_of(t.as_str()));
                    }
                },
                XmlEvent::Ref(n) => {
                    if in_p {
                        append_chars(&mut current, &ref_chars(n));
                    }
                },
                XmlEvent::Eof => {
                    stopped = true;
                },
                XmlEvent::Error(_) => {
                    stopped = true;
                },
                XmlEvent::Other => {},
            }
        }
        i = i + 1;
    }
    assert(event_views(events@).take(events.len() as int) =~= event_views(events@));
    paras
}

/// Whether a tag is a heading that can carry a chapter title.
pub open spec fn is_title_heading(n: Seq<char>) -> bool {
    n == "h1"@ || n == "h2"@ || n == "h3"@
}

/// Whether an `h1`-`h3` is open, its text so far, and the title once found.
pub struct TitleState {
    pub in_h: bool,
    pub text: Seq<char>,
    pub found: Option<Seq<char>>,
    pub stopped: bool,
}

pub open spec fn title_step(st: TitleState, e: EventView) -> TitleState {
    if st.stopped || st.found is Some {
        st
    } else {
        match e {
            EventView::Start(n) => if is_title_heading(n) {
                TitleState { in_h: true, text: seq![], ..st }
            } else {
                st
            },
            EventView::End(n) => if is_title_heading(n) && st.in_h {
                let t = trim(st.text);
                if t.len() > 0 {
                    TitleState { found: Some(t), ..st }
                } else {
                    TitleState { in_h: false, ..st }
                }
            } else {
                st
            },
            EventView::Text(t) => if st.in_h {
                TitleState { text: st.text + t, ..st }
            } else {
                st
            },
            EventView::Ref(n) => if st.in_h {
                TitleState { text: st.text + ref_text(n), ..st }
            } else {
                st
            },
            EventView::Eof => TitleState { stopped: true, ..st },
            EventView::Error(_) => TitleState { stopped: true, ..st },
            EventView::Other => st,
        }
    }
}

pub open spec fn title_run(es: Seq<EventView>) -> TitleState
    decreases es.len(),
{
    if es.len() == 0 {
        TitleState { in_h: false, text: seq![], found: None, stopped: false }
    } else {
        title_step(title_run(es.drop_last()), es.last())
    }
}

fn title_heading_exec(n: &String) -> (b: bool)
    ensures
        b == is_title_heading(n@),
{
    name_is(n, "h1") || name_is(n, "h2") || name_is(n, "h3")
}

/// The title of an XHTML chapter: the text of the first `h1`, `h2` or `h3` that is not
/// blank, trimmed.
pub fn title_from_events(events: &Vec<XmlEvent>) -> (r: Option<String>)
    ensures
        match title_run(event_views(events@)).found {
            None => r is None,
            Some(t) => r matches Some(s) && s@ == t,
        },
{
    let mut in_h = false;
    let mut text: Vec<char> = Vec::new();
    let mut stopped = false;
    let mut i: usize = 0;
    assert(event_views(events@).take(0) =~= Seq::<EventView>::empty());
    while i < events.len()
        invariant
            i <= events.len(),
            ({
                let st = title_run(event_views(events@).take(i as int));
                &&& st.found is None
                &&& in_h == st.in_h
                &&& text@ == st.text
                &&& stopped == st.stopped
            }),
        decreases events.len() - i,
    {
        assert(event_views(events@).take(i + 1).drop_last() =~= event_views(events@).take(i as int));
        assert(event_views(events@).take(i + 1).last() == event_view(events@[i as int]));
        if !stopped {
            match &events[i] {
                XmlEvent::Start(n) => {
                    if title_heading_exec(n) {
                        in_h = true;
                        text = Vec::new();
                    }
                },
                XmlEvent::End(n) => {
                    if title_heading_exec(n) && in_h {
                        let t = trim_chars(&text);
                        if t.len() > 0 {
                            proof {
                                lemma_title_found_stays(event_views(events@), i + 1);
                            }
                            return Some(string_of(&t));
                        }
                        in_h = false;
                    }
                },
                XmlEvent::Text(t) => {
                    if in_h {
                        append_chars(&mut text, &chars_of(t.as_str()));
                    }
                },
                XmlEvent::Ref(n) => {
                    if in_h {
                        append_chars(&mut text, &ref_chars(n));
                    }
                },
                XmlEvent::Eof => {
                    stopped = true;
                },
                XmlEvent::Error(_) => {
                    stopped = true;
                },
                XmlEvent::Other => {},
            }
        }
        i = i + 1;
    }
    assert(event_views(events@).take(events.len() as int) =~= event_views(events@));
    None
}

/// Once found, the title stays.
proof fn lemma_title_found_stays(es: Seq<EventView>, k: int)
    requires
        0 <= k <= es.len(),
        title_run(es.take(k)).found is Some,
    ensures
        title_run(es).found == title_run(es.take(k)).found,
    decreases es.len() - k,
{
    if k < es.len() {
        assert(es.take(k + 1).drop_last() =~= es.take(k));
        lemma_title_found_stays(es, k + 1);
    } else {
        assert(es.take(k) =~= es);
    }
}

// ---------------------------------------------------------------------------
// FB2 books: a section per top-level `<section>` of the body
// ---------------------------------------------------------------------------

/// Why the reading of an FB2 book ended.
pub enum Fb2Stop {
    /// The end of the document.
    End,
    /// The document is malformed: the XML reader's message.
    Malformed(String),
    /// A section title's number does not fit in 32 bits.
    NumberTooLarge,
}

/// Why the reading of an FB2 book ended, with the message taken as a character sequence.
pub enum StopView {
    End,
    Malformed(Seq<char>),
    NumberTooLarge,
}

pub open spec fn stop_view(s: Option<Fb2Stop>) -> Option<StopView> {
    match s {
        None => None,
        Some(Fb2Stop::End) => Some(StopView::End),
        Some(Fb2Stop::Malformed(m)) => Some(StopView::Malformed(m@)),
        Some(Fb2Stop::NumberTooLarge) => Some(StopView::NumberTooLarge),
    }
}

/// The reader's state between events: inside `<body>`, how deep in `<section>`s, inside a
/// top-level section, inside its `<title>`, the title's text, the section's number once the
/// title gave one, its paragraphs, the paragraph being read, the sections done, and why the
/// reading ended, once it did.
pub struct Fb2State {
    pub in_body: bool,
    pub depth: nat,
    pub in_section: bool,
    pub in_title: bool,
    pub title: Seq<char>,
    pub num: Option<u32>,
    pub paras: Seq<Seq<char>>,
    pub para: Seq<char>,
    pub out: Seq<(u32, Seq<char>)>,
    pub stop: Option<StopView>,
}

/// A title, when it is not empty.
pub open spec fn title_opt(t: Seq<char>) -> Option<Seq<char>> {
    if t.len() == 0 {
        None
    } else {
        Some(t)
    }
}

/// Character data inside a top-level section goes to the title while in it, else to the
/// paragraph being read once the section has a number.
pub open spec fn fb2_text(st: Fb2State, t: Seq<char>) -> Fb2State {
    if st.in_section {
        if st.in_title {
            Fb2State { title: st.title + t, ..st }
        } else if st.num is Some {
            Fb2State { para: st.para + t, ..st }
        } else {
            st
        }
    } else {
        st
    }
}

/// `</section>`: a top-level section with a number is done, as markdown; the depth drops
/// by one, and stays at zero.
pub open spec fn fb2_end_section(st: Fb2State) -> Fb2State {
    let st2 = if st.depth == 1 {
        Fb2State {
            out: match st.num {
                Some(k) => st.out.push((k, section_md(title_opt(st.title), st.paras))),
                None => st.out,
            },
            in_section: false,
            ..st
        }
    } else {
        st
    };
    Fb2State { depth: if st2.depth > 0 { (st2.depth - 1) as nat } else { 0 }, ..st2 }
}

/// `</title>`: the first title of a section with digits numbers it by its first run of
/// digits.
pub open spec fn fb2_end_title(st: Fb2State) -> Fb2State {
    let st2 = Fb2State { in_title: false, ..st };
    if st.num is None && first_digit_run(st.title) is Some {
        match parse_u32_spec(first_digit_run(st.title)->0) {
            Some(k) => Fb2State { num: Some(k), ..st2 },
            None => Fb2State { stop: Some(StopView::NumberTooLarge), ..st2 },
        }
    } else {
        st2
    }
}

pub open spec fn fb2_step(st: Fb2State, e: EventView) -> Fb2State {
    if st.stop is Some {
        st
    } else {
        match e {
            EventView::Start(n) => if n == "body"@ {
                Fb2State { in_body: true, ..st }
            } else if st.in_body && n == "section"@ {
                if st.depth + 1 == 1 {
                    Fb2State {
                        depth: st.depth + 1,
                        in_section: true,
                        title: seq![],
                        paras: seq![],
                        num: None,
                        ..st
                    }
                } else {
                    Fb2State { depth: st.depth + 1, ..st }
                }
            } else if st.in_section && n == "title"@ {
                Fb2State { in_title: true, title: seq![], ..st }
            } else {
                st
            },
            EventView::End(n) => if n == "body"@ {
                Fb2State { in_body: false, ..st }
            } else if n == "section"@ {
                fb2_end_section(st)
            } else if n == "title"@ {
                fb2_end_title(st)
            } else if st.in_section && n == "p"@ && !st.in_title {
                if st.para.len() > 0 {
                    Fb2State { paras: st.paras.push(st.para), para: seq![], ..st }
                } else {
                    st
                }
            } else {
                st
            },
            EventView::Text(t) => fb2_text(st, t),
            EventView::Ref(n) => fb2_text(st, ref_text(n)),
            EventView::Eof => Fb2State { stop: Some(StopView::End), ..st },
            EventView::Error(m) => Fb2State { stop: Some(StopView::Malformed(m)), ..st },
            EventView::Other => st,
        }
    }
}

pub open spec fn fb2_start() -> Fb2State {
    Fb2State {
        in_body: false,
        depth: 0,
        in_section: false,
        in_title: false,
        title: seq![],
        num: None,
        paras: seq![],
        para: seq![],
        out: seq![],
        stop: None,
    }
}

pub open spec fn fb2_run(es: Seq<EventView>) -> Fb2State
    decreases es.len(),
{
    if es.len() == 0 {
        fb2_start()
    } else {
        fb2_step(fb2_run(es.drop_last()), es.last())
    }
}

/// Text events as events.
pub open spec fn text_events(ts: Seq<Seq<char>>) -> Seq<EventView> {
    ts.map_values(|t: Seq<char>| EventView::Text(t))
}

/// Text inside a numbered top-level section, outside its title, adds to the paragraph being
/// read: after any run of text events the paragraph is what it was, followed by all of
/// their text in order; nothing is replaced or lost, and the reader stays where it was.
pub proof fn lemma_fb2_text_appends(es: Seq<EventView>, ts: Seq<Seq<char>>)
    requires
        fb2_run(es).stop is None,
        fb2_run(es).in_section,
        !fb2_run(es).in_title,
        fb2_run(es).num is Some,
    ensures
        fb2_run(es + text_events(ts)).para == fb2_run(es).para + ts.flatten(),
        fb2_run(es + text_events(ts)) == (Fb2State {
            para: fb2_run(es).para + ts.flatten(),
            ..fb2_run(es)
        }),
    decreases ts.len(),
{
    if ts.len() == 0 {
        assert(es + text_events(ts) =~= es);
        assert(fb2_run(es).para + ts.flatten() =~= fb2_run(es).para);
    } else {
        let init = ts.drop_last();
        let t = ts.last();
        lemma_fb2_text_appends(es, init);
        let all = es + text_events(ts);
        assert(all.drop_last() =~= es + text_events(init));
        assert(all.last() == EventView::Text(t));
        assert(ts =~= init.push(t));
        init.lemma_flatten_push(t);
        assert(fb2_run(es).para + init.flatten() + t =~= fb2_run(es).para + ts.flatten());
    }
}

/// The sections of an FB2 book from its XML events: each top-level `<section>` of a `<body>`
/// whose title has digits, numbered by them, as markdown with its title and paragraphs; and
/// why the reading ended (`None` when the events ran out first).
pub fn fb2_sections(events: &Vec<XmlEvent>) -> (r: (Vec<(u32, String)>, Option<Fb2Stop>))
    ensures
        section_views(r.0@) == fb2_run(event_views(events@)).out,
        stop_view(r.1) == fb2_run(event_views(events@)).stop,
{
    let mut in_body = false;
    let mut depth: usize = 0;
    let mut in_section = false;
    let mut in_title = false;
    let mut title: Vec<char> = Vec::new();
    let mut num: Option<u32> = None;
    let mut paras: Vec<Vec<char>> = Vec::new();
    let mut para: Vec<char> = Vec::new();
    let mut out: Vec<(u32, String)> = Vec::new();
    let mut stop: Option<Fb2Stop> = None;
    let mut i: usize = 0;
    assert(event_views(events@).take(0) =~= Seq::<EventView>::empty());
    assert(views(paras@) =~= Seq::<Seq<char>>::empty());
    assert(section_views(out@) =~= Seq::<(u32, Seq<char>)>::empty());
    while i < events.len()
        invariant
            i <= events.len(),
            depth <= i,
            ({
                let st = fb2_run(event_views(events@).take(i as int));
                &&& in_body == st.in_body
                &&& depth == st.depth
                &&& in_section == st.in_section
                &&& in_title == st.in_title
                &&& title@ == st.title
                &&& num == st.num
                &&& views(paras@) == st.paras
                &&& para@ == st.para
                &&& section_views(out@) == st.out
                &&& stop_view(stop) == st.stop
            }),
        decreases events.len() - i,
    {
        let ghost prev = fb2_run(event_views(events@).take(i as int));
        assert(event_views(events@).take(i + 1).drop_last() =~= event_views(events@).take(i as int));
        assert(event_views(events@).take(i + 1).last() == event_view(events@[i as int]));
        if stop.is_none() {
            match &events[i] {
                XmlEvent::Start(n) => {
                    if name_is(n, "body") {
                        in_body = true;
                    } else if in_body && name_is(n, "section") {
                        depth = depth + 1;
                        if depth == 1 {
                            in_section = true;
                            title = Vec::new();
                            paras = Vec::new();
                            assert(views(paras@) =~= Seq::<Seq<char>>::empty());
                            num = None;
                        }
                    } else if in_section && name_is(n, "title") {
                        in_title = true;
                        title = Vec::new();
                    }
                },
                XmlEvent::End(n) => {
                    if name_is(n, "body") {
                        in_body = false;
                    } else if name_is(n, "section") {
                        if depth == 1 {
                            match num {
                                Some(k) => {
                                    let t = if title.len() == 0 {
                                        None
                                    } else {
                                        Some(&title)
                                    };
                                    let md = section_md_chars(t, &paras);
                                    out.push((k, string_of(&md)));
                                    assert(section_views(out@) =~= prev.out.push(
                                        (k, section_md(title_opt(prev.title), prev.paras)),
                                    ));
                                },
                                None => {},
                            }
                            in_section = false;
                        }
                        if depth > 0 {
                            depth = depth - 1;
                        }
                    } else if name_is(n, "title") {
                        in_title = false;
                        if num.is_none() {
                            match first_digits(&title) {
                                Some(d) => {
                                    match parse_u32(&d) {
                                        Some(k) => {
                                            num = Some(k);
                                        },
                                        None => {
                                            stop = Some(Fb2Stop::NumberTooLarge);
                                        },
                                    }
                                },
                                None => {},
                            }
                        }
                    } else if in_section && name_is(n, "p") && !in_title {
                        if para.len() > 0 {
                            proof {
                                crate::text::lemma_views_push(paras@, para);
                            }
                            paras.push(para);
                            para = Vec::new();
                        }
                    }
                },
                XmlEvent::Text(t) => {
                    if in_section {
                        if in_title {
                            append_chars(&mut title, &chars_of(t.as_str()));
                        } else if num.is_some() {
                            append_chars(&mut para, &chars_of(t.as_str()));
                        }
                    }
                },
                XmlEvent::Ref(n) => {
                    if in_section {
                        if in_title {
                            append_chars(&mut title, &ref_chars(n));
                        } else if num.is_some() {
                            append_chars(&mut para, &ref_chars(n));
                        }
                    }
                },
                XmlEvent::Eof => {
                    stop = Some(Fb2Stop::End);
                },
                XmlEvent::Error(m) => {
                    stop = Some(Fb2Stop::Malformed(m.clone()));
                },
                XmlEvent::Other => {},
            }
        }
        i = i + 1;
    }
    assert(event_views(events@).take(events.len() as int) =~= event_views(events@));
    (out, stop)
}

/// Reads an FB2 book: its sections and why the reading ended, from the events quick-xml
/// reads in it (named by `document_events`), and how far the reader got.
pub fn parse_fb2(text: &str) -> (r: (Vec<(u32, String)>, Option<Fb2Stop>, u64))
    ensures
        section_views(r.0@) == fb2_run(gathered(document_events(text@))).out,
        stop_view(r.1) == fb2_run(gathered(document_events(text@))).stop,
{
    let (events, pos) = xml_events(text);
    let (sections, stop) = fb2_sections(&events);
    (sections, stop, pos)
}

/// The paragraphs of an XHTML chapter: the text of each `<p>`, trimmed, blank ones left
/// out, from the events quick-xml reads in it.
pub fn extract_paragraphs_from_xhtml(xhtml: &str) -> (r: Vec<String>)
    ensures
        r@.map_values(|s: String| s@) == para_run(gathered(document_events(xhtml@))).paras,
{
    let (events, _pos) = xml_events(xhtml);
    let ps = paragraphs_from_events(&events);
    let mut out: Vec<String> = Vec::new();
    let mut i: usize = 0;
    while i < ps.len()
        invariant
            i <= ps.len(),
            out@.map_values(|s: String| s@) == views(ps@).take(i as int),
        decreases ps.len() - i,
    {
        let x = string_of(&ps[i]);
        let ghost before = out@;
        out.push(x);
        assert(out@ == before.push(x));
        assert(views(ps@).take(i + 1) =~= views(ps@).take(i as int).push(x@));
        assert(out@.map_values(|s: String| s@) =~= before.map_values(|s: String| s@).push(x@));
        i = i + 1;
    }
    assert(views(ps@).take(ps.len() as int) =~= views(ps@));
    out
}

/// The title of an XHTML chapter: the first `h1`-`h3` that is not blank, trimmed, from the
/// events quick-xml reads in it.
pub fn extract_title_from_xhtml(xhtml: &str) -> (r: Option<String>)
    ensures
        match title_run(gathered(document_events(xhtml@))).found {
            None => r is None,
            Some(t) => r matches Some(s) && s@ == t,
        },
{
    let (events, _pos) = xml_events(xhtml);
    title_from_events(&events)
}

// ---------------------------------------------------------------------------
// EPUB chapters
// ---------------------------------------------------------------------------

/// The section that a chapter with these XML events gives: none without paragraphs, else
/// its markdown with the chapter's title.
pub open spec fn chapter_md_of(es: Seq<EventView>) -> Option<Seq<char>> {
    let ps = para_run(es).paras;
    if ps.len() == 0 {
        None
    } else {
        Some(section_md(title_run(es).found, ps))
    }
}

pub open spec fn opt_view(r: Option<String>) -> Option<Seq<char>> {
    match r {
        None => None,
        Some(s) => Some(s@),
    }
}

/// The markdown section of an EPUB chapter (XHTML), or `None` when it has no paragraphs.
pub fn epub_chapter(content: &str) -> (r: Option<String>)
    ensures
        opt_view(r) == chapter_md_of(gathered(document_events(content@))),
{
    let (events, _pos) = xml_events(content);
    let paras = paragraphs_from_events(&events);
    if paras.len() == 0 {
        return None;
    }
    let title = title_from_events(&events);
    let md = match &title {
        None => section_md_chars(None, &paras),
        Some(t) => {
            let tv = chars_of(t.as_str());
            section_md_chars(Some(&tv), &paras)
        },
    };
    let r = Some(string_of(&md));
    r
}

/// The section of each spine entry's chapter (`None` where the archive has no such entry).
pub open spec fn chapter_mds(cs: Seq<Option<String>>) -> Seq<Option<Seq<char>>> {
    Seq::new(
        cs.len(),
        |i: int|
            match cs[i] {
                Some(c) => chapter_md_of(gathered(document_events(c@))),
                None => None,
            },
    )
}

/// The sections of an EPUB book from the text of its spine's chapters, in reading order
/// (`None` for an entry the archive lacks): the chapters with paragraphs, numbered from 1.
pub fn epub_sections(chapters: &Vec<Option<String>>) -> (r: Vec<(u32, String)>)
    requires
        chapters.len() < u32::MAX,
    ensures
        section_views(r@) == crate::epub::numbered_somes(chapter_mds(chapters@)),
{
    let mut out: Vec<(u32, String)> = Vec::new();
    let mut i: usize = 0;
    while i < chapters.len()
        invariant
            i <= chapters.len() < u32::MAX,
            section_views(out@) == crate::epub::numbered_somes(chapter_mds(chapters@.take(i as int))),
            out.len() <= i,
        decreases chapters.len() - i,
    {
        let ghost prev = chapter_mds(chapters@.take(i as int));
        let ghost before = out@;
        proof {
            assert(section_views(before).len() == before.len());
            assert(crate::epub::numbered_somes(prev).len() == crate::epub::somes(prev).len());
        }
        match &chapters[i] {
            None => {},
            Some(c) => {
                let md = epub_chapter(c.as_str());
                match md {
                    None => {},
                    Some(m) => {
                        let n: u32 = (out.len() + 1) as u32;
                        out.push((n, m));
                    },
                }
            },
        }
        proof {
            let now = chapter_mds(chapters@.take(i + 1));
            assert(now.drop_last() =~= prev);
            assert(now.last() == chapter_mds(chapters@)[i as int]);
            let tail = match now.last() {
                Some(x) => seq![x],
                None => Seq::<Seq<char>>::empty(),
            };
            assert(crate::epub::somes(now) == crate::epub::somes(prev) + tail);
            assert(section_views(out@).len() == crate::epub::numbered_somes(now).len());
            assert forall|j: int| 0 <= j < section_views(out@).len() implies section_views(out@)[j]
                == crate::epub::numbered_somes(now)[j] by {
                if j < before.len() {
                    assert(section_views(before)[j] == crate::epub::numbered_somes(prev)[j]);
                    assert(out@[j] == before[j]);
                }
            }
            assert(section_views(out@) =~= crate::epub::numbered_somes(now));
        }
        i = i + 1;
    }
    assert(chapters@.take(i as int) =~= chapters@);
    out
}

} // verus!
